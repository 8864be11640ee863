use vstd::prelude::*;

verus! {

/// User configuration, loaded from an optional configuration file by the
/// surrounding application; absence of the file yields the default.
pub struct Config {
    pub huggingface_token: Option<String>,
}

impl Default for Config {
    fn default() -> (r: Config)
        ensures
            r.huggingface_token is None,
    {
        Config { huggingface_token: None }
    }
}

impl Config {
    /// The configuration that a load attempt settles on: the parsed file when
    /// one parsed, the default otherwise.
    pub fn from_parsed(parsed: Option<Config>) -> (r: Config)
        ensures
            parsed matches Some(c) ==> r == c,
            parsed is None ==> r.huggingface_token is None,
    {
        match parsed {
            Some(c) => c,
            None => Config::default(),
        }
    }
}

} // verus!
