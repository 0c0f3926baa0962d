use vstd::prelude::*;
use vstd::string::*;

verus! {

/// Runtime configuration for the command-line front end.
pub struct Config {
    pub editor: String,
    pub browser: Option<String>,
    pub default_list_limit: u32,
}

impl Config {
    /// The configuration used when no configuration file exists.
    pub fn default() -> (c: Config)
        ensures
            c.editor@ == "vim"@,
            c.browser is None,
            c.default_list_limit == 7,
    {
        Config { editor: String::from_str("vim"), browser: None, default_list_limit: 7 }
    }
}

} // verus!
