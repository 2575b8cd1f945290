//! Interconnected rooms carved into a character grid, and water that pours
//! into them and settles, one tick at a time.
pub mod simulation;

use vstd::prelude::*;
use crate::simulation::{
    SimulationState, SimModel, on_simulation_update, on_generate_layout, on_water_onoff,
    simulation_stepped, layout_generated, water_toggled, is_fresh,
};

verus! {

/// The app: the simulation, stepped once a frame and driven by three buttons.
pub struct WaterRooms {
    simulation_state: SimulationState,
}

impl View for WaterRooms {
    type V = SimModel;

    closed spec fn view(&self) -> SimModel {
        self.simulation_state@
    }
}

impl WaterRooms {
    /// A fresh layout: walls everywhere, no rooms, water off.
    pub fn new() -> (w: WaterRooms)
        ensures
            is_fresh(w@),
    {
        WaterRooms { simulation_state: SimulationState::default() }
    }

    /// One frame of the app: the simulation steps.
    pub fn frame(&mut self)
        ensures
            simulation_stepped(old(self)@, final(self)@),
    {
        on_simulation_update(&mut self.simulation_state);
    }

    /// The text of the grid to show.
    pub fn grid_text(&self) -> (s: &String)
        ensures
            s@ == self@.grid_str,
    {
        self.simulation_state.grid_str()
    }

    /// How many times a layout was generated.
    pub fn room_count(&self) -> (n: usize)
        ensures
            n == self@.room_count,
    {
        self.simulation_state.room_count()
    }

    /// The title of the "generate layout" button.
    pub fn generate_button_title(&self) -> (t: &'static str)
        ensures
            self@.can_generate ==> t@ == "generate layout"@,
            !self@.can_generate ==> t@ == "can't generate"@,
    {
        match self.simulation_state.can_generate() {
            true => "generate layout",
            false => "can't generate",
        }
    }

    /// The "generate layout" button was clicked: a room is generated where
    /// generation still works, else nothing happens.
    pub fn press_generate(&mut self)
        ensures
            old(self)@.can_generate ==> layout_generated(old(self)@, final(self)@),
            !old(self)@.can_generate ==> final(self)@ == old(self)@,
    {
        if self.simulation_state.can_generate() {
            on_generate_layout(&mut self.simulation_state);
        }
    }

    /// The "water ON/OFF" button was clicked.
    pub fn press_water(&mut self)
        ensures
            water_toggled(old(self)@, final(self)@),
    {
        on_water_onoff(&mut self.simulation_state);
    }

    /// The "reset layout" button was clicked: everything starts over.
    pub fn press_reset(&mut self)
        ensures
            is_fresh(final(self)@),
    {
        self.simulation_state = SimulationState::default();
    }
}

} // verus!
