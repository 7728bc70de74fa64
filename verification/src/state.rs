//! What the launcher keeps in memory while it runs.

use vstd::prelude::*;
use crate::models::{ConfigPaths, PresetData};
use crate::package::Package;

verus! {

/// The state of the running launcher.
#[derive(Debug)]
pub struct AppState {
    pub config_paths: ConfigPaths,
    pub packages: Vec<Package>,
    pub presets: Vec<PresetData>,
    pub default_preset: Option<String>,
    pub favorites: Vec<String>,
}

impl AppState {
    /// The state at the start: the layout under the saved config root, or
    /// under `.` where none is saved, and nothing loaded yet.
    pub fn new(saved_root: &Option<String>) -> (state: AppState)
        ensures
            state.config_paths.derived_from(ConfigPaths::root_or_here(*saved_root)),
            state.packages@.len() == 0,
            state.presets@.len() == 0,
            state.default_preset is None,
            state.favorites@.len() == 0,
    {
        AppState {
            config_paths: ConfigPaths::from_root(saved_root),
            packages: Vec::new(),
            presets: Vec::new(),
            default_preset: None,
            favorites: Vec::new(),
        }
    }
}

} // verus!
