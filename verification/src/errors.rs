//! The error kinds a chat worker can encounter.

use vstd::prelude::*;

verus! {

/// What can go wrong while serving one client.
///
/// Errors are confined to the worker of the connection they arose on; they
/// never terminate other workers or the registry.
#[derive(Clone, Copy, Debug, PartialEq, Eq, Structural)]
pub enum ChatError {
    /// An I/O failure on one peer's stream, on read or write.
    ConnectionError,
    /// A registration collided with an already-taken nickname.
    DuplicateNickname,
    /// The stream closed or failed before a valid nickname was accepted.
    NoNicknameProvided,
    /// The shared registry lock could not be acquired; fatal for the worker.
    LockAcquisitionFailure,
}

} // verus!
