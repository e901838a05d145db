use slp::server::{keep_connection, report_accept_error, IoErrorKind};

#[test]
fn server_connection_policy() {
    assert!(!keep_connection(Ok(false)));
    assert!(keep_connection(Ok(true)));
    assert!(keep_connection(Err(IoErrorKind::WouldBlock)));
    assert!(keep_connection(Err(IoErrorKind::Interrupted)));
    assert!(!keep_connection(Err(IoErrorKind::Other)));
    assert!(!report_accept_error(IoErrorKind::WouldBlock));
    assert!(report_accept_error(IoErrorKind::Other));
}
