//! Locking a file.
//!
//! The file is opened, locked and deleted elsewhere: here is what is done if it
//! cannot be opened.

use vstd::prelude::*;

verus! {

/// Others may read the file.
pub const FILE_SHARE_READ: u32 = 1;

/// Others may write the file.
pub const FILE_SHARE_WRITE: u32 = 2;

/// The error for a file that others do not share.
pub const ERROR_SHARING_VIOLATION: u32 = 32;

/// What became of an attempt to open the file.
#[derive(Debug, PartialEq, Eq, Structural, Clone, Copy)]
pub enum OpenOutcome {
    /// The file was opened.
    Opened,
    /// The file was not opened.
    Failed {
        /// Whether the permission was denied.
        permission_denied: bool,
        /// The error number of the system, if there is one.
        os_error: Option<u32>,
    },
}

/// What is done next.
#[derive(Debug, PartialEq, Eq, Structural, Clone, Copy)]
pub enum OpenAction {
    /// The file is used.
    Use,
    /// It is ensured that a file can be created in the directory, then the file
    /// is opened again after a while.
    Retry,
    /// The error is returned.
    Fail,
}

/// Decides what is done after an attempt to open the file, given whether there
/// is time for another attempt.
pub fn after_open(outcome: OpenOutcome, may_retry: bool) -> (action: OpenAction)
    ensures
        action == (match outcome {
            OpenOutcome::Opened => OpenAction::Use,
            OpenOutcome::Failed { permission_denied, os_error } => if (permission_denied
                || os_error == Some(ERROR_SHARING_VIOLATION)) && may_retry {
                OpenAction::Retry
            } else {
                OpenAction::Fail
            },
        }),
{
    match outcome {
        OpenOutcome::Opened => OpenAction::Use,
        OpenOutcome::Failed { permission_denied, os_error } => {
            // The file may be open for deletion.
            let transient: bool = permission_denied || match os_error {
                Some(error) => error == ERROR_SHARING_VIOLATION,
                None => false,
            };
            if transient && may_retry {
                OpenAction::Retry
            } else {
                OpenAction::Fail
            }
        },
    }
}

/// Returns how the file is shared. Don't share delete access. This ensures that
/// deleting the file will fail if any other process has the file open, so
/// deletion only succeeds when we're the last handle holder.
pub fn share_mode() -> (mode: u32)
    ensures
        mode == FILE_SHARE_READ + FILE_SHARE_WRITE,
{
    FILE_SHARE_READ + FILE_SHARE_WRITE
}

/// What could not be done with the file.
#[derive(Debug, PartialEq, Eq, Structural, Clone, Copy)]
pub enum FileLockError {
    /// It could not be opened.
    Open,
    /// It could not be locked.
    Lock,
}

impl FileLockError {
    /// Returns the error in words.
    pub fn message(&self) -> (message: &'static str)
        ensures
            message@ == (match self {
                FileLockError::Open => "Failed to open lock file"@,
                FileLockError::Lock => "Failed to lock lock file"@,
            }),
    {
        match self {
            FileLockError::Open => "Failed to open lock file",
            FileLockError::Lock => "Failed to lock lock file",
        }
    }
}

} // verus!
