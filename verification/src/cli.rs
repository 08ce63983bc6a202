//! The commands of the command-line tool.

use vstd::prelude::*;

verus! {

/// The parsed command line.
pub struct Cli {
    pub command: Commands,
}

/// The subcommands and their file arguments.
#[derive(Clone)]
pub enum Commands {
    /// Generate PDF tests for students.
    Generate { quiz: String, students: String, output: String, answers: String },
    /// Mark scanned tests.
    Mark { pdf: String, students: String, quiz: String, answers: String },
    /// Utility scripts to generate configuration files.
    Setup { mode: SetupMode },
}

/// What the setup command creates.
#[derive(Clone)]
pub enum SetupMode {
    Empty,
    Interactive,
}

} // verus!
