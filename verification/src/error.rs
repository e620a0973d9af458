//! The ways a run can fail.

use vstd::prelude::*;
use vstd::string::StringExecFns;

verus! {

/// Why a run stopped before it was done.
#[derive(Debug, Clone, Copy, PartialEq, Eq, Structural)]
pub enum RunError {
    /// No file lies at the manifest path.
    MissingManifest,
    /// The manifest file is there but could not be read as text.
    UnreadableManifest,
    /// The argument at `index` does not hold exactly one `=`.
    MalformedArgument { index: usize },
    /// The scratch directory could not be made.
    WorkspaceCreation,
    /// The transaction file could not be written.
    TransactionWrite,
    /// The simulator could not be started.
    SimulatorLaunch,
    /// The scratch directory could not be removed.
    WorkspaceRemoval,
}

impl RunError {
    /// The words in which this failure is reported.
    pub open spec fn text(self) -> Seq<char> {
        match self {
            RunError::MissingManifest => "Cannot find manifest file!"@,
            RunError::UnreadableManifest => "Failed to read manifest!"@,
            RunError::MalformedArgument { .. } => "Failed to parse argument!"@,
            RunError::WorkspaceCreation => "Failed to create the temporary directory!"@,
            RunError::TransactionWrite => "Failed to write the transaction file!"@,
            RunError::SimulatorLaunch => "Failed to execute command"@,
            RunError::WorkspaceRemoval => "Failed to remove the temporary directory!"@,
        }
    }

    /// The words in which this failure is reported.
    pub fn message(&self) -> (message: String)
        ensures
            message@ == self.text(),
    {
        match self {
            RunError::MissingManifest => String::from_str("Cannot find manifest file!"),
            RunError::UnreadableManifest => String::from_str("Failed to read manifest!"),
            RunError::MalformedArgument { .. } => String::from_str("Failed to parse argument!"),
            RunError::WorkspaceCreation => String::from_str(
                "Failed to create the temporary directory!",
            ),
            RunError::TransactionWrite => String::from_str("Failed to write the transaction file!"),
            RunError::SimulatorLaunch => String::from_str("Failed to execute command"),
            RunError::WorkspaceRemoval => String::from_str(
                "Failed to remove the temporary directory!",
            ),
        }
    }
}

} // verus!
