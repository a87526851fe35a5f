//! Where the sandbox keeps its configuration file.
use vstd::prelude::*;

verus! {

/// The plugin that loads the sandbox's configuration: command-line
/// arguments, overridden by a TOML file in the user's configuration
/// directory.
pub struct ConfigPlugin;

impl ConfigPlugin {
    /// The name of the sandbox's directory under the user's configuration
    /// directory.
    pub fn config_prefix(&self) -> (p: &'static str)
        ensures
            p@ == "bgawk"@,
    {
        "bgawk"
    }

    /// The name of the configuration file in that directory.
    pub fn config_file_name(&self) -> (p: &'static str)
        ensures
            p@ == "config.toml"@,
    {
        "config.toml"
    }
}

} // verus!
