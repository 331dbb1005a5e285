//! The application's top-level states.

use vstd::prelude::*;

verus! {

/// Where the application is: loading, menus, editing a scenario,
/// validating it, simulating, or showing the outcome.
#[derive(Debug, Clone, Copy, Default, Eq, PartialEq, Structural, Hash)]
pub enum AppState {
    #[default]
    Loading,
    MainMenu,
    LevelSelect,
    Edit,
    Validate,
    Simulate,
    SimulateFinish,
}

/// Whether the player works through levels or builds freely.
#[derive(Debug, Clone, Copy, Default, Eq, PartialEq, Structural, Hash)]
pub enum GameMode {
    #[default]
    Levels,
    Sandbox,
}

} // verus!
