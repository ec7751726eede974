//! The options that the command line hands to the tool.

use vstd::prelude::*;

verus! {

/// The options of one run.
pub struct MockeryOpts {
    /// Path to the compile commands database, if it was given.
    pub compile_commands: Option<String>,
    /// How many levels up or down from the source file the compile commands
    /// database is looked for.
    pub search_radius: usize,
    /// The level of verbosity.
    pub verbose: u32,
    pub subcmd: SubCommand,
}

/// What the tool is to do.
pub enum SubCommand {
    Create(CreateOpts),
    Update(UpdateOpts),
    Dump(DumpOpts),
}

/// Create a mock class definition from scratch based on an interface class.
pub struct CreateOpts {
    /// Path to a translation unit which includes the interface that is to be mocked.
    pub interface_source: String,
    /// Name of the interface class that is to be mocked.
    pub interface: Option<String>,
    /// Name which is given to the resulting mock class.
    pub mock: Option<String>,
    /// Path to the file which the mock class definition should be written to.
    pub output: Option<String>,
    /// Force the mock class definition to be written to stdout.
    pub stdout: bool,
}

/// Modify an existing mock class definition to mirror changes to the
/// underlying interface class.
pub struct UpdateOpts {
    /// Path to a translation unit which includes the mock class.
    pub mock_source: String,
    /// Name of the mock class which needs to be updated.
    pub mock: Option<String>,
    /// Do not modify any source files.
    pub dry_run: bool,
    /// Print a diff of the changes to the mock class definition.
    pub diff: bool,
    /// Path of the file that a patch of the changes is written to.
    pub patch: Option<String>,
}

/// Dump the AST for the specified source file or class.
pub struct DumpOpts {
    /// Path to a translation unit.
    pub source: String,
    /// Name of the class whose AST should be dumped.
    pub class: Option<String>,
}

} // verus!
