//! Runtime configuration of the engine: the source index locations a
//! crawler works through and the per-level minimum-dances table.

use vstd::prelude::*;
use crate::models::{Date, Level};
use crate::validation::{spec_config_min_dances, get_min_dances_for_level, LevelConfig};

verus! {

/// The source index locations to work through.
#[derive(Clone, Debug)]
pub struct Sources {
    pub urls: Vec<String>,
}

/// Engine configuration: sources and the optional per-level
/// minimum-dances table, keyed by the level's identifier.
#[derive(Clone, Debug)]
pub struct Config {
    pub sources: Sources,
    pub levels: Option<Vec<(String, LevelConfig)>>,
}

impl Config {
    /// The minimum dance count the configured table yields for
    /// `level` on `date`; 0 when the table has no entry for the
    /// level.
    pub fn get_min_dances(&self, level: &Level, date: &Date) -> (n: u32)
        ensures
            n == spec_config_min_dances(
                match self.levels {
                    Some(v) => Some(v@),
                    None => None,
                },
                *level,
                date.year as int,
            ),
    {
        get_min_dances_for_level(&self.levels, level, date)
    }
}

} // verus!
