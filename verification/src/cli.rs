//! The command-line surface: which subcommand was asked for, and its
//! arguments, as plain data. The host shell parses the real command line
//! into these.

use vstd::prelude::*;

verus! {

/// A parsed invocation.
pub struct Config {
    pub command: Commands,
}

/// The subcommands the program offers.
pub enum Commands {
    New(NewArgs),
    Open(InteractiveArgs),
    Example(ExampleArgs),
    Gui,
}

/// Arguments of the subcommand writing a fresh graph file.
pub struct NewArgs {
    pub path: String,
}

/// Arguments of the subcommand picking a built-in example.
pub struct ExampleArgs {
    pub example: Example,
}

/// The built-in example graphs.
pub enum Example {
    Pathfinding,
    JobScheduling,
}

/// Arguments of the subcommand opening a graph file in the console.
pub struct InteractiveArgs {
    pub path: String,
}

} // verus!
