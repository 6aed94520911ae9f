//! The configuration of a run.
use vstd::prelude::*;

verus! {

/// Settings of the injection. There are none yet.
#[derive(Debug, Clone, Copy, PartialEq, Eq, Structural)]
pub struct InjectConfig {}

impl Default for InjectConfig {
    fn default() -> (r: Self)
        ensures
            r == (InjectConfig {  }),
    {
        InjectConfig {  }
    }
}

/// The name of the configuration file.
pub const DEFAULT_CONFIG_NAME: &'static str = "snipdoc-config.yml";

/// Which files of a folder are looked at.
#[derive(Debug)]
pub struct WalkConfig {
    /// Regular expressions; where there are any, a file is looked at only if
    /// its path matches one of them.
    pub includes: Vec<String>,
    /// Regular expressions; a file whose path matches one of them is not
    /// looked at.
    pub excludes: Vec<String>,
}

impl Default for WalkConfig {
    fn default() -> (r: Self)
        ensures
            r.includes@.len() == 0,
            r.excludes@.len() == 0,
    {
        WalkConfig { includes: Vec::new(), excludes: Vec::new() }
    }
}

/// The configuration of a run.
#[derive(Debug)]
pub struct Config {
    pub walk: WalkConfig,
    pub inject: InjectConfig,
}

impl Default for Config {
    fn default() -> (r: Self)
        ensures
            r.walk.includes@.len() == 0,
            r.walk.excludes@.len() == 0,
    {
        Config { walk: WalkConfig::default(), inject: InjectConfig::default() }
    }
}

} // verus!
