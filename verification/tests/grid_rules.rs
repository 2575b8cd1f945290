use water_rooms::simulation::cell::{is_wall, is_water};
use water_rooms::simulation::room::{can_connect, room};
use water_rooms::simulation::water::{check_side, coin_flow, move_water};
use water_rooms::simulation::{find_source, render_grid, render_wall, MAX_GRID_X, MAX_GRID_Y};

fn grid_of(rows: &[&str]) -> Vec<Vec<String>> {
    rows.iter()
        .map(|r| r.chars().map(|c| c.to_string()).collect())
        .collect()
}

fn rows_of(grid: &Vec<Vec<String>>) -> Vec<String> {
    grid.iter().map(|r| r.concat()).collect()
}

fn full_walls() -> Vec<Vec<String>> {
    vec![vec!["#".to_string(); MAX_GRID_X]; MAX_GRID_Y]
}

#[test]
fn water_cells_are_drops_and_flows() {
    for s in ["0", "(", ")"] {
        assert!(is_water(&s.to_string()));
    }
    for s in ["W", "#", "_", "^", " ", "B", "E", "", "00"] {
        assert!(!is_water(&s.to_string()));
    }
}

#[test]
fn wall_cells_include_settled_water() {
    for s in ["#", "B", "E", "W"] {
        assert!(is_wall(&s.to_string()));
    }
    for s in ["0", "(", ")", "_", "^", " ", "", "##"] {
        assert!(!is_wall(&s.to_string()));
    }
}

#[test]
fn render_grid_of_walls() {
    let text = render_grid(&full_walls());
    let row = format!("{}\n", "#".repeat(MAX_GRID_X));
    assert_eq!(text, row.repeat(MAX_GRID_Y));
    assert_eq!(text.len(), (MAX_GRID_X + 1) * MAX_GRID_Y);
}

#[test]
fn render_grid_marks_empty_cells() {
    let mut grid = full_walls();
    grid[0][0] = String::new();
    grid[1][2] = "_".to_string();
    let text = render_grid(&grid);
    let lines: Vec<&str> = text.lines().collect();
    assert_eq!(lines[0], format!("U{}", "#".repeat(MAX_GRID_X - 1)));
    assert_eq!(lines[1], format!("##_{}", "#".repeat(MAX_GRID_X - 3)));
}

#[test]
fn find_source_gives_x_then_y() {
    let mut grid = full_walls();
    assert_eq!(find_source(&grid), Vec::<usize>::new());
    grid[0][10] = "^".to_string();
    assert_eq!(find_source(&grid), vec![10, 0]);
    grid[3][2] = "^".to_string();
    assert_eq!(find_source(&grid), vec![2, 3]);
}

#[test]
fn render_wall_keeps_walls_next_to_floor_only() {
    let grid = grid_of(&[
        "#######", //
        "#######", //
        "###^###", //
        "###_###", //
        "##___##", //
        "#######", //
        "#######",
    ]);
    let r = render_wall(grid, 7, 7);
    assert_eq!(
        rows_of(&r),
        vec![
            "       ", //
            "       ", //
            "  #^#  ", //
            " ##_## ", //
            " #___# ", //
            " ##### ", //
            "       ",
        ]
    );
}

#[test]
fn render_wall_twice_changes_nothing() {
    let grid = grid_of(&["######", "#__###", "#__###", "######", "###__#", "######"]);
    let once = render_wall(grid, 6, 6);
    let twice = render_wall(once.clone(), 6, 6);
    assert_eq!(once, twice);
}

#[test]
fn render_wall_leaves_cells_outside_the_window() {
    let grid = grid_of(&["######", "#_####", "######", "######"]);
    let r = render_wall(grid, 4, 4);
    assert_eq!(rows_of(&r), vec!["### ##", "#_# ##", "### ##", "    ##"]);
}

#[test]
fn render_wall_sees_floor_in_the_first_row_and_column() {
    let grid = grid_of(&["#_#", "###", "###"]);
    let r = render_wall(grid, 3, 3);
    assert_eq!(rows_of(&r), vec!["#_#", "###", "   "]);
    let grid = grid_of(&["###", "_##", "###"]);
    let r = render_wall(grid, 3, 3);
    assert_eq!(rows_of(&r), vec!["## ", "_# ", "## "]);
}

#[test]
fn droplet_falls_onto_floor() {
    let grid = grid_of(&["#####", "#_0_#", "#___#", "#####"]);
    let r = move_water(grid, 5, 4);
    assert_eq!(rows_of(&r), vec!["#####", "#___#", "#_0_#", "#####"]);
}

#[test]
fn droplet_on_flat_floor_spreads_one_way() {
    let grid = grid_of(&["#####", "#___#", "#_0_#", "#####"]);
    let r = move_water(grid, 5, 4);
    let rows = rows_of(&r);
    assert_eq!(rows[0], "#####");
    assert_eq!(rows[1], "#___#");
    assert!(rows[2] == "#(__#" || rows[2] == "#__)#", "got {:?}", rows[2]);
    assert_eq!(rows[3], "#####");
}

#[test]
fn flowing_water_comes_to_rest_against_a_wall() {
    let grid = grid_of(&["#####", "#___#", "#__)#", "#####"]);
    let r = move_water(grid, 5, 4);
    assert_eq!(rows_of(&r), vec!["#####", "#___#", "#__W#", "#####"]);
    let grid = grid_of(&["#####", "#___#", "#(__#", "#####"]);
    let r = move_water(grid, 5, 4);
    assert_eq!(rows_of(&r), vec!["#####", "#___#", "#W__#", "#####"]);
}

#[test]
fn water_flows_toward_the_deeper_side() {
    // the floor drops away on the right: the droplet flows right
    let grid = grid_of(&["######", "#____#", "#_0__#", "###__#", "######"]);
    let r = move_water(grid, 6, 5);
    assert_eq!(rows_of(&r)[2], "#__)_#");
    assert_eq!(check_side(&grid_of(&["######", "#____#", "#_0__#", "###__#", "######"]), 6, 2, 2), 1);
}

#[test]
fn droplet_in_a_one_cell_pit_settles() {
    let grid = grid_of(&["#####", "##_##", "##0##", "#####"]);
    let r = move_water(grid, 5, 4);
    assert_eq!(rows_of(&r), vec!["#####", "##_##", "##W##", "#####"]);
}

#[test]
fn dry_grid_does_not_change() {
    let grid = grid_of(&["######", "#__^_#", "#____#", "#_WW_#", "######"]);
    let r = move_water(grid.clone(), 6, 5);
    assert_eq!(r, grid);
}

#[test]
fn check_side_finds_no_deeper_floor_on_a_flat_surface() {
    let grid = grid_of(&["#####", "#___#", "#_0_#", "#####"]);
    assert_eq!(check_side(&grid, 5, 2, 2), 0);
    let grid = grid_of(&["######", "#____#", "#__0_#", "#_####", "######"]);
    assert_eq!(check_side(&grid, 6, 3, 2), -1);
}

#[test]
fn check_side_looks_right_whatever_the_left_wall() {
    // the left wall is four cells away, deeper floor lies right next to the water
    let grid = grid_of(&["#___0__", "#####_#"]);
    assert_eq!(check_side(&grid, 7, 4, 0), 1);
}

#[test]
fn check_side_looks_no_further_right_than_the_window() {
    let grid = grid_of(&["#__0___", "######_"]);
    assert_eq!(check_side(&grid, 6, 3, 0), 0);
    assert_eq!(check_side(&grid, 7, 3, 0), 1);
}

#[test]
fn coin_flow_maps_draws_to_directions() {
    let grid = grid_of(&["#####", "#_0_#", "#####"]);
    assert_eq!(coin_flow(&grid, 2, 1, 0), -1);
    assert_eq!(coin_flow(&grid, 2, 1, 1), 1);
    let grid = grid_of(&["#####", "#000#", "#####"]);
    assert_eq!(coin_flow(&grid, 2, 1, 0), 0);
    assert_eq!(coin_flow(&grid, 2, 1, 1), 0);
}

#[test]
fn can_connect_looks_up_then_left_then_right() {
    // a crossing marker above, and floor further up
    let grid = grid_of(&["#####", "##_##", "##E##", "##_##", "#####"]);
    assert_eq!(can_connect(&grid, 2, 3), vec![0, -1]);
    // crossing markers on both sides: left wins
    let grid = grid_of(&["#######", "#_E_E_#", "#######"]);
    assert_eq!(can_connect(&grid, 3, 1), vec![-1, 0]);
    // only to the right
    let grid = grid_of(&["#######", "##_E_##", "#######"]);
    assert_eq!(can_connect(&grid, 2, 1), vec![1, 0]);
    // a cell that is not floor never connects
    assert_eq!(can_connect(&grid, 3, 1), vec![0, 0]);
    // marker but no floor behind it
    let grid = grid_of(&["#######", "##_EB##", "#######"]);
    assert_eq!(can_connect(&grid, 2, 1), vec![0, 0]);
}

#[test]
fn no_room_past_the_sixth() {
    let grid = full_walls();
    for rc in [6usize, 7, 100] {
        assert_eq!(room(grid.clone(), MAX_GRID_X, MAX_GRID_Y, rc), grid);
    }
}

#[test]
fn first_room_has_a_source_at_the_top() {
    let grid = room(full_walls(), MAX_GRID_X, MAX_GRID_Y, 0);
    assert_eq!(grid.len(), MAX_GRID_Y);
    assert!(grid.iter().all(|r| r.len() == MAX_GRID_X));
    let src = find_source(&grid);
    assert_eq!(src.len(), 2);
    assert_eq!(src[1], 0);
    let (sx, _) = (src[0], src[1]);
    assert_eq!(grid[1][sx], "_");
    let sources = grid.iter().flatten().filter(|c| *c == "^").count();
    assert_eq!(sources, 1);
    let floor = grid.iter().flatten().filter(|c| *c == "_").count();
    assert!(floor >= 25);
    // the room's rows and columns are marked
    assert!(grid.iter().flatten().any(|c| c == "B"));
}

#[test]
fn second_room_is_joined_or_grid_unchanged() {
    let first = room(full_walls(), MAX_GRID_X, MAX_GRID_Y, 0);
    let second = room(first.clone(), MAX_GRID_X, MAX_GRID_Y, 1);
    if second != first {
        let before = first.iter().flatten().filter(|c| *c == "_").count();
        let after = second.iter().flatten().filter(|c| *c == "_").count();
        assert!(after >= before + 25);
        assert_eq!(second.iter().flatten().filter(|c| *c == "^").count(), 1);
        assert!(floor_reached_from(&first, &second));
    }
}

/// Floor in rows 1 to 5, and below it markers `B` everywhere: every room
/// after the first that can be drawn fits, faces a room and can tunnel up.
fn floor_over_markers() -> Vec<Vec<String>> {
    let mut grid = full_walls();
    for y in 1..6 {
        for x in 1..MAX_GRID_X - 1 {
            grid[y][x] = "_".to_string();
        }
    }
    for y in 6..MAX_GRID_Y {
        for x in 0..MAX_GRID_X {
            grid[y][x] = "B".to_string();
        }
    }
    grid
}

fn floor_cells(grid: &Vec<Vec<String>>) -> Vec<(usize, usize)> {
    let mut cells = Vec::new();
    for y in 0..grid.len() {
        for x in 0..grid[y].len() {
            if grid[y][x] == "_" {
                cells.push((y, x));
            }
        }
    }
    cells
}

/// Every floor cell of `after` is reached from a floor cell of `before`
/// through floor cells of `after`, side by side.
fn floor_reached_from(before: &Vec<Vec<String>>, after: &Vec<Vec<String>>) -> bool {
    let mut seen = vec![vec![false; MAX_GRID_X]; MAX_GRID_Y];
    let mut todo: Vec<(usize, usize)> = floor_cells(before)
        .into_iter()
        .filter(|&(y, x)| after[y][x] == "_")
        .collect();
    for &(y, x) in &todo {
        seen[y][x] = true;
    }
    while let Some((y, x)) = todo.pop() {
        let next = [(y.wrapping_sub(1), x), (y + 1, x), (y, x.wrapping_sub(1)), (y, x + 1)];
        for (ny, nx) in next {
            if ny < MAX_GRID_Y && nx < MAX_GRID_X && !seen[ny][nx] && after[ny][nx] == "_" {
                seen[ny][nx] = true;
                todo.push((ny, nx));
            }
        }
    }
    floor_cells(after).iter().all(|&(y, x)| seen[y][x])
}

#[test]
fn a_room_is_built_where_every_draw_is_taken() {
    let grid = floor_over_markers();
    for rc in 1usize..=5 {
        let r = room(grid.clone(), MAX_GRID_X, MAX_GRID_Y, rc);
        assert_ne!(r, grid);
    }
}

#[test]
fn a_room_that_cannot_be_joined_is_not_built() {
    // markers everywhere and one floor cell in the corner: every room fits and
    // faces a room, but none can tunnel to floor
    let mut grid = vec![vec!["B".to_string(); MAX_GRID_X]; MAX_GRID_Y];
    grid[0][0] = "_".to_string();
    assert_eq!(room(grid.clone(), MAX_GRID_X, MAX_GRID_Y, 1), grid);
}

#[test]
fn a_new_room_is_joined_to_the_floor_before_it() {
    let grid = floor_over_markers();
    for rc in 1usize..=5 {
        for _ in 0..10 {
            let r = room(grid.clone(), MAX_GRID_X, MAX_GRID_Y, rc);
            assert_ne!(r, grid);
            assert!(floor_cells(&r).len() >= floor_cells(&grid).len() + 25);
            assert!(floor_reached_from(&grid, &r));
        }
    }
}

#[test]
fn first_rooms_are_drawn_at_random() {
    let mut columns = std::collections::BTreeSet::new();
    let mut shapes = std::collections::BTreeSet::new();
    for _ in 0..40 {
        let grid = room(full_walls(), MAX_GRID_X, MAX_GRID_Y, 0);
        columns.insert(find_source(&grid)[0]);
        shapes.insert(grid.iter().flatten().filter(|c| *c == "_").count());
    }
    assert!(columns.len() > 1);
    assert!(shapes.len() > 1);
}

#[test]
fn a_tick_keeps_the_grid_shape() {
    let grid = grid_of(&["#######", "#_0__##", "#__(__#", "#_)___#", "#######"]);
    let r = move_water(grid.clone(), 7, 5);
    assert_eq!(r.len(), grid.len());
    for (a, b) in r.iter().zip(grid.iter()) {
        assert_eq!(a.len(), b.len());
    }
}

#[test]
fn a_tick_changes_only_cells_next_to_water() {
    let grid = grid_of(&[
        "##########",
        "#___0____#",
        "#__0__(__#",
        "#_)___0__#",
        "#______W_#",
        "##########",
    ]);
    for _ in 0..20 {
        let r = move_water(grid.clone(), 10, 6);
        for a in 0..grid.len() {
            for b in 0..grid[a].len() {
                if r[a][b] != grid[a][b] {
                    let mut near = false;
                    for dy in -1i32..=0 {
                        for dx in -1i32..=1 {
                            let (na, nb) = (a as i32 + dy, b as i32 + dx);
                            if na >= 0 && nb >= 0 && (na as usize) < grid.len() && (nb as usize) < grid[0].len() {
                                near |= is_water(&grid[na as usize][nb as usize]);
                            }
                        }
                    }
                    assert!(near, "cell ({}, {}) changed away from water in its row and the row above", a, b);
                }
            }
        }
    }
}
