//! The command line of the store's program.

use vstd::prelude::*;

verus! {

/// Parsed command-line arguments.
#[derive(Debug)]
pub struct Args {
    pub command: Command,
}

/// What the program is asked to do.
#[derive(Debug)]
pub enum Command {
    /// Run the store on `table` in `keyspace`.
    Start { keyspace: String, table: String },
}

} // verus!
