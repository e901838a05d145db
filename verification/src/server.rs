//! What the TCP servers decide about their connections.
use vstd::prelude::*;

verus! {

/// The kinds of I/O error the servers tell apart.
#[derive(Debug, Clone, Copy)]
pub enum IoErrorKind {
    /// The operation would block (no data, no pending connection).
    WouldBlock,
    /// The operation was interrupted and may be retried.
    Interrupted,
    /// Any other error.
    Other,
}

/// How emptying a client's socket into its packet decoder ended: `Ok(open)` when it stopped
/// on its own (`open` is false once the peer has closed the connection), or the error that
/// stopped it.
pub type SocketRead = Result<bool, IoErrorKind>;

/// Whether a connection stays after its socket was emptied: as the read said when it
/// stopped on its own, and after an error only when the error just means "no data now"
/// (would block, interrupted).
pub fn keep_connection(read: SocketRead) -> (keep: bool)
    ensures
        keep == match read {
            Ok(open) => open,
            Err(IoErrorKind::WouldBlock) => true,
            Err(IoErrorKind::Interrupted) => true,
            Err(IoErrorKind::Other) => false,
        },
{
    match read {
        Ok(open) => open,
        Err(kind) => match kind {
            IoErrorKind::WouldBlock => true,
            IoErrorKind::Interrupted => true,
            IoErrorKind::Other => false,
        },
    }
}

/// Whether a failed `accept` is worth reporting: every error but "would block", which only
/// means that no client is waiting.
pub fn report_accept_error(kind: IoErrorKind) -> (report: bool)
    ensures
        report == !(kind is WouldBlock),
{
    match kind {
        IoErrorKind::WouldBlock => false,
        _ => true,
    }
}

} // verus!
