//! Which failures to accept an IPC connection the daemon survives.
use crate::platform::Platform;
use vstd::prelude::*;

verus! {

/// The kind of an I/O error, as far as accepting connections cares.
#[derive(Debug, Clone, Copy, PartialEq, Eq, Structural)]
pub enum AcceptErrorKind {
    Interrupted,
    ConnectionAborted,
    ConnectionReset,
    BrokenPipe,
    /// Any other kind.
    Other,
}

/// `ERROR_BROKEN_PIPE`, the Win32 error when the other end of a pipe closed.
pub const ERROR_BROKEN_PIPE: u32 = 109;

/// `ERROR_NO_DATA`, the Win32 error when a pipe is being closed.
pub const ERROR_NO_DATA: u32 = 232;

/// `ERROR_PIPE_NOT_CONNECTED`, the Win32 error when no process is on the other end.
pub const ERROR_PIPE_NOT_CONNECTED: u32 = 233;

/// `ERROR_OPERATION_ABORTED`, the Win32 error when an I/O operation was cancelled.
pub const ERROR_OPERATION_ABORTED: u32 = 995;

/// Whether an OS error code is one of the named-pipe failures that Windows reports
/// when a client abandons a connection.
pub open spec fn abandoned_pipe_code(raw_os_error: Option<i32>) -> bool {
    match raw_os_error {
        Some(code) => code >= 0 && (code == ERROR_BROKEN_PIPE || code == ERROR_NO_DATA || code
            == ERROR_OPERATION_ABORTED || code == ERROR_PIPE_NOT_CONNECTED),
        None => false,
    }
}

/// Whether a failure to accept a connection only ends that connection.
pub open spec fn recoverable(kind: AcceptErrorKind, raw_os_error: Option<i32>, platform: Platform) -> bool {
    kind != AcceptErrorKind::Other || (platform == Platform::Windows && abandoned_pipe_code(
        raw_os_error,
    ))
}

/// The platform-specific part: on Windows, abandoned named-pipe connections;
/// elsewhere nothing.
pub fn recoverable_platform_accept_error(raw_os_error: Option<i32>, platform: Platform) -> (r:
    bool)
    ensures
        r == (platform == Platform::Windows && abandoned_pipe_code(raw_os_error)),
{
    match platform {
        Platform::Unix => false,
        Platform::Windows => {
            let code = match raw_os_error {
                Some(code) => code,
                None => return false,
            };
            if code < 0 {
                return false;
            }
            let unsigned_code = code as u32;
            unsigned_code == ERROR_BROKEN_PIPE || unsigned_code == ERROR_NO_DATA || unsigned_code
                == ERROR_OPERATION_ABORTED || unsigned_code == ERROR_PIPE_NOT_CONNECTED
        },
    }
}

/// Whether the daemon keeps accepting after this error: interruptions and connections
/// that broke off are recoverable, as are abandoned pipes on Windows; anything else
/// stops the daemon.
pub fn recoverable_accept_error(kind: AcceptErrorKind, raw_os_error: Option<i32>, platform: Platform) -> (r: bool)
    ensures
        r == recoverable(kind, raw_os_error, platform),
{
    match kind {
        AcceptErrorKind::Interrupted | AcceptErrorKind::ConnectionAborted
        | AcceptErrorKind::ConnectionReset | AcceptErrorKind::BrokenPipe => true,
        AcceptErrorKind::Other => recoverable_platform_accept_error(raw_os_error, platform),
    }
}

} // verus!
