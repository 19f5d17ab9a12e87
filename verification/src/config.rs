//! The builder's configuration.

use vstd::prelude::*;

verus! {

/// What the user asks of the builder.
#[derive(Debug, PartialEq, Eq)]
pub struct Config {
    /// The names of further modules to put into the image.
    pub modules: Vec<String>,
}

impl Config {
    /// The configuration with the modules that the configuration file lists; a machine
    /// without such a file asks for none.
    pub fn new(modules: Option<Vec<String>>) -> (r: Config)
        ensures
            r.modules@ == match modules {
                Some(m) => m@,
                None => Seq::empty(),
            },
    {
        match modules {
            Some(modules) => Config { modules },
            None => Config { modules: Vec::new() },
        }
    }
}

} // verus!
