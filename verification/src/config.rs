//! The parsed command line: the process to run and its arguments.
use vstd::prelude::*;

verus! {

/// A command line: `process` names what to do, `arguments` are passed on.
pub struct Config {
    pub process: String,
    pub arguments: Vec<String>,
}

} // verus!
