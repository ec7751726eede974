//! What can go wrong, and the exit code that tells of it.

use vstd::prelude::*;
use vstd::string::StringExecFns;

verus! {

/// The ways in which a run of the tool can fail. None is retried.
#[derive(Debug)]
pub enum CLIError {
    /// The source file could not be opened; the reason.
    SourceFileNotFound(String),
    /// The compile commands database that was named is not there; the reason.
    SpecifiedCompilationDatabaseNotFound(String),
    /// No compile commands database lies within the search radius.
    CompilationDatabaseSearchFailed,
    /// The directory at which the search should start could not be resolved;
    /// the directory and the reason.
    CompilationDatabaseSearchStartingPointNotFound(String, String),
    /// The database holds no compile command for the source file; its path.
    CompileCommandNotFound(String),
    /// The source file could not be parsed; the reason.
    SourceError(String),
    /// The translation unit holds no class of this name.
    InterfaceClassNotFound(String),
    NotYetImplemented,
}

/// What a step of a run ends with.
pub type CLIResult<T> = Result<T, CLIError>;

impl CLIError {
    /// What the error says to the user.
    pub open spec fn message_spec(self) -> Seq<char> {
        match self {
            CLIError::SourceFileNotFound(reason) => "Failed to open source file: "@ + reason@,
            CLIError::SpecifiedCompilationDatabaseNotFound(reason) =>
                "Could not find the specified compile commands database: "@ + reason@,
            CLIError::CompilationDatabaseSearchFailed =>
                "Could not find compile commands database within the specified search radius"@,
            CLIError::CompilationDatabaseSearchStartingPointNotFound(starting_point, reason) =>
                "Could not find the starting point '"@ + starting_point@
                    + "' for the compile commands database search: "@ + reason@,
            CLIError::CompileCommandNotFound(source_file) => "Failed to find compile command for '"@
                + source_file@ + "' in database"@,
            CLIError::SourceError(reason) => "The source file could not be parsed: "@ + reason@,
            CLIError::InterfaceClassNotFound(interface_name) => "No interface class named `"@
                + interface_name@ + "` was found in the specified translation unit"@,
            CLIError::NotYetImplemented => "Not yet implemented"@,
        }
    }

    /// What the error says to the user.
    pub fn message(&self) -> (text: String)
        ensures
            text@ == self.message_spec(),
    {
        match self {
            CLIError::SourceFileNotFound(reason) => {
                String::from_str("Failed to open source file: ").concat(reason.as_str())
            },
            CLIError::SpecifiedCompilationDatabaseNotFound(reason) => {
                String::from_str("Could not find the specified compile commands database: ").concat(
                    reason.as_str(),
                )
            },
            CLIError::CompilationDatabaseSearchFailed => {
                String::from_str(
                    "Could not find compile commands database within the specified search radius",
                )
            },
            CLIError::CompilationDatabaseSearchStartingPointNotFound(starting_point, reason) => {
                String::from_str("Could not find the starting point '").concat(
                    starting_point.as_str(),
                ).concat("' for the compile commands database search: ").concat(reason.as_str())
            },
            CLIError::CompileCommandNotFound(source_file) => {
                String::from_str("Failed to find compile command for '").concat(
                    source_file.as_str(),
                ).concat("' in database")
            },
            CLIError::SourceError(reason) => {
                String::from_str("The source file could not be parsed: ").concat(reason.as_str())
            },
            CLIError::InterfaceClassNotFound(interface_name) => {
                String::from_str("No interface class named `").concat(interface_name.as_str()).concat(
                    "` was found in the specified translation unit",
                )
            },
            CLIError::NotYetImplemented => String::from_str("Not yet implemented"),
        }
    }
}

/// Whether `part` stands in `whole`, letter for letter.
pub open spec fn contains_text(whole: Seq<char>, part: Seq<char>) -> bool {
    exists|at: int|
        0 <= at && at + part.len() <= whole.len() && #[trigger] whole.subrange(
            at,
            at + part.len(),
        ) == part
}

/// The message for a class that was not found holds the name that was
/// looked for.
pub proof fn lemma_missing_class_message_holds_name(interface_name: String)
    ensures
        contains_text(
            CLIError::InterfaceClassNotFound(interface_name).message_spec(),
            interface_name@,
        ),
{
    let lead = "No interface class named `"@;
    let whole = CLIError::InterfaceClassNotFound(interface_name).message_spec();
    let at = lead.len() as int;
    assert(whole.subrange(at, at + interface_name@.len()) =~= interface_name@);
}

/// What ends a run can tell the exit code of the process.
pub trait Termination {
    fn report(self) -> i32;
}

/// The exit code for `result`: 0 for success, 1 for any error.
pub open spec fn exit_code(result: CLIResult<()>) -> i32 {
    match result {
        Ok(_) => 0i32,
        Err(_) => 1i32,
    }
}

impl Termination for CLIResult<()> {
    fn report(self) -> (code: i32)
        ensures
            code == exit_code(self),
    {
        match self {
            Ok(_) => 0,
            Err(_) => 1,
        }
    }
}

} // verus!
