//! The two ways a run can obtain its graph, and the check that the command line asks
//! for at most one of them.

use vstd::prelude::*;

verus! {

/// Why the command-line options cannot be used.
#[derive(Debug, Clone, Copy, PartialEq, Eq, Structural)]
pub enum ConfigError {
    /// Both a graph file to load and a file to save to were given.
    FileConflict,
}

/// The command-line options: a graph file to load, and a file to save a newly built
/// graph to.
pub struct Opt {
    pub graph_file: Option<String>,
    pub save_file: Option<String>,
}

impl Opt {
    /// Accepts the options unless both files are given.
    pub fn verify(&self) -> (r: Result<(), ConfigError>)
        ensures
            r is Err <==> (self.graph_file is Some && self.save_file is Some),
            r is Err ==> r == Err::<(), ConfigError>(ConfigError::FileConflict),
    {
        if self.graph_file.is_some() && self.save_file.is_some() {
            return Err(ConfigError::FileConflict);
        }
        Ok(())
    }
}

} // verus!
