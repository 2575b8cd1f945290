use water_rooms::simulation::{on_generate_layout, on_simulation_update, on_water_onoff, SimulationState, MAX_GRID_X, MAX_GRID_Y};
use water_rooms::WaterRooms;

#[test]
fn default_state_is_fresh() {
    let s = SimulationState::default();
    assert_eq!(s.room_count(), 0);
    assert!(s.can_generate());
    assert!(!s.is_water_on());
    assert_eq!(s.grid_str(), "");
    assert_eq!(s.grid().len(), MAX_GRID_Y);
    assert!(s.grid().iter().all(|r| r.len() == MAX_GRID_X && r.iter().all(|c| c == "#")));
}

#[test]
fn frame_renders_the_grid() {
    let mut s = SimulationState::default();
    on_simulation_update(&mut s);
    let row = format!("{}\n", "#".repeat(MAX_GRID_X));
    assert_eq!(s.grid_str(), &row.repeat(MAX_GRID_Y));
}

#[test]
fn water_button_does_nothing_without_rooms() {
    let mut s = SimulationState::default();
    on_water_onoff(&mut s);
    assert!(!s.is_water_on());
    assert!(s.can_generate());
}

#[test]
fn first_layout_always_adds_a_room() {
    let mut s = SimulationState::default();
    let before = s.grid().clone();
    on_generate_layout(&mut s);
    assert_eq!(s.room_count(), 1);
    assert!(s.can_generate());
    assert_ne!(s.grid(), &before);
    assert!(s.grid()[0].iter().any(|c| c == "^"));
    assert!(s.grid_str().contains('^'));
}

#[test]
fn generation_is_disabled_by_the_seventh_press() {
    let mut s = SimulationState::default();
    for _ in 0..7 {
        on_generate_layout(&mut s);
    }
    assert_eq!(s.room_count(), 7);
    assert!(!s.can_generate());
    let grid = s.grid().clone();
    on_generate_layout(&mut s);
    assert_eq!(s.grid(), &grid);
    assert!(!s.can_generate());
}

#[test]
fn pouring_water_disables_generation_and_toggles() {
    let mut s = SimulationState::default();
    on_generate_layout(&mut s);
    on_water_onoff(&mut s);
    assert!(s.is_water_on());
    assert!(!s.can_generate());
    let rendered = s.grid().clone();
    // walls not next to a floor are blanked
    assert_eq!(s.grid()[MAX_GRID_Y - 1].iter().filter(|c| *c == " ").count(), MAX_GRID_X);
    on_water_onoff(&mut s);
    assert!(!s.is_water_on());
    assert_eq!(s.grid(), &rendered);
    assert!(!s.can_generate());
}

#[test]
fn water_drips_below_the_source_each_tick() {
    let mut s = SimulationState::default();
    on_generate_layout(&mut s);
    on_water_onoff(&mut s);
    let sx = s.grid()[0].iter().position(|c| c == "^").unwrap();
    for _ in 0..6 {
        on_simulation_update(&mut s);
    }
    assert_eq!(s.grid()[1][sx], "0");
    assert!(s.grid_str().contains('0'));
}

#[test]
fn water_moves_only_every_sixth_frame() {
    let mut s = SimulationState::default();
    on_generate_layout(&mut s);
    on_water_onoff(&mut s);
    let sx = s.grid()[0].iter().position(|c| c == "^").unwrap();
    let mut before = s.grid().clone();
    for k in 1..=18 {
        on_simulation_update(&mut s);
        if k % 6 == 0 {
            if k == 6 {
                assert_ne!(s.grid(), &before);
            }
            assert_eq!(s.grid()[1][sx], "0");
        } else {
            assert_eq!(s.grid(), &before, "frame {}", k);
        }
        before = s.grid().clone();
    }
}

#[test]
fn nothing_moves_with_the_water_off() {
    let mut s = SimulationState::default();
    on_generate_layout(&mut s);
    let grid = s.grid().clone();
    for _ in 0..20 {
        on_simulation_update(&mut s);
    }
    assert_eq!(s.grid(), &grid);
}

#[test]
fn app_buttons_and_titles() {
    let mut app = WaterRooms::new();
    assert_eq!(app.generate_button_title(), "generate layout");
    app.frame();
    assert!(app.grid_text().starts_with('#'));
    app.press_generate();
    app.press_water();
    assert_eq!(app.generate_button_title(), "can't generate");
    app.press_generate();
    app.press_reset();
    assert_eq!(app.generate_button_title(), "generate layout");
    assert_eq!(app.grid_text(), "");
}
