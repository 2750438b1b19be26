//! Startup configuration: the one value the sync server is given at
//! process start, the data directory all relative paths resolve against.
//! Reading and writing the on-disk form is an outside concern; the library
//! only carries the value.

use vstd::prelude::*;

verus! {

/// The application's configuration: where the synced data lives, if it has
/// been chosen yet.
#[derive(Debug, Clone)]
pub struct AppConfig {
    pub data_dir: Option<Vec<u8>>,
}

impl AppConfig {
    /// A configuration carrying `data_dir`.
    pub fn new(data_dir: Option<Vec<u8>>) -> (r: AppConfig)
        ensures
            r.data_dir == data_dir,
    {
        AppConfig { data_dir }
    }

    /// True iff a data directory has been chosen.
    pub fn is_configured(&self) -> (r: bool)
        ensures
            r == (self.data_dir is Some),
    {
        self.data_dir.is_some()
    }
}

impl Default for AppConfig {
    /// The configuration before any directory was chosen.
    fn default() -> (r: AppConfig)
        ensures
            r.data_dir is None,
    {
        AppConfig { data_dir: None }
    }
}

} // verus!
