use manifest_runner::error::RunError;

#[test]
fn messages() {
    assert_eq!(RunError::MissingManifest.message(), "Cannot find manifest file!");
    assert_eq!(RunError::UnreadableManifest.message(), "Failed to read manifest!");
    assert_eq!(RunError::MalformedArgument { index: 3 }.message(), "Failed to parse argument!");
    assert_eq!(
        RunError::WorkspaceCreation.message(),
        "Failed to create the temporary directory!"
    );
    assert_eq!(RunError::TransactionWrite.message(), "Failed to write the transaction file!");
    assert_eq!(RunError::SimulatorLaunch.message(), "Failed to execute command");
    assert_eq!(
        RunError::WorkspaceRemoval.message(),
        "Failed to remove the temporary directory!"
    );
}

#[test]
fn malformed_argument_and_missing_manifest_are_told_apart() {
    assert_ne!(RunError::MissingManifest, RunError::MalformedArgument { index: 0 });
    assert_ne!(RunError::MalformedArgument { index: 0 }, RunError::MalformedArgument { index: 1 });
}
