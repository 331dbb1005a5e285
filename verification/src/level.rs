//! The state of the currently played level.

use vstd::prelude::*;

verus! {

/// Which level is being played, and whether its verification passed.
#[derive(Debug)]
pub struct LevelState {
    pub current_level: Option<usize>,
    pub level_passed: bool,
}

impl Default for LevelState {
    fn default() -> (r: LevelState)
        ensures
            r.current_level is None,
            r.level_passed == false,
    {
        LevelState { current_level: None, level_passed: false }
    }
}

} // verus!
