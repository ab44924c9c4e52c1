//! The program's configuration: where the configuration and list files are.
use vstd::prelude::*;

verus! {

/// Paths of the configuration file and directory and of the two list files.
#[derive(Debug, PartialEq, Eq, Clone)]
pub struct Config {
    pub config_file: Option<String>,
    pub config_dir: Option<String>,
    pub app_file: Option<String>,
    pub dep_file: Option<String>,
}

impl Default for Config {
    /// A configuration that names no path.
    fn default() -> (res: Config)
        ensures
            res.config_file is None,
            res.config_dir is None,
            res.app_file is None,
            res.dep_file is None,
    {
        Config { config_file: None, config_dir: None, app_file: None, dep_file: None }
    }
}

} // verus!
