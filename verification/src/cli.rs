//! The command line of the `rer` program: one subcommand, `env`, with the
//! package requests to resolve.
use vstd::prelude::*;

verus! {

/// The parsed command line.
#[derive(Debug)]
pub struct App {
    /// The subcommand to run.
    pub command: Command,
}

/// The subcommands.
#[derive(Debug)]
pub enum Command {
    /// Resolve an environment from package requests.
    Env {
        /// The package requests, in order.
        pkg_request: Vec<String>,
    },
}

} // verus!
