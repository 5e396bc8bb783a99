//! Command-line options, as plain data.
//!
//! The surrounding binary parses its command line and hands the result over
//! as these bare types; the library itself never reads the environment.

use vstd::prelude::*;

verus! {

/// The subcommand the binary was asked to run.
#[derive(Clone, Copy, Debug, PartialEq, Eq, Structural)]
pub enum MouseActionsCommands {
    /// Default command: resolve events against the configured bindings.
    Start,
    /// Open the configuration file.
    OpenConfig,
    /// Print every event as it arrives.
    Trace,
    /// Record mode, to add mouse bindings.
    Record,
    /// List the configured bindings.
    ListBindings,
}

/// Parsed command-line options.
#[derive(Clone, Copy, Debug)]
pub struct Args {
    /// Skip the listening thread (for Wayland); edge bindings may not work.
    pub no_listen: bool,
    pub command: Option<MouseActionsCommands>,
}

} // verus!
