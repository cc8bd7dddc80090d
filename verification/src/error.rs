//! Error codes shared by every driver.
use vstd::prelude::*;

verus! {

/// The reason a request was refused or an operation was aborted.
#[derive(Clone, Copy, Debug, PartialEq, Eq, Structural)]
pub enum ErrorCode {
    /// Generic failure.
    FAIL,
    /// The underlying driver is busy; retry later.
    BUSY,
    /// The request is already in effect.
    ALREADY,
    /// The component is not configured or powered.
    OFF,
    /// A reservation is required before use.
    RESERVE,
    /// An argument is invalid.
    INVAL,
    /// A length is out of range.
    SIZE,
    /// The operation was cancelled.
    CANCEL,
    /// Not enough memory.
    NOMEM,
    /// The operation is not supported.
    NOSUPPORT,
    /// The device does not exist.
    NODEVICE,
}

} // verus!
