use slp::codec::DecodeError;
use slp::session::{status_response, Session, Step, StepError};

fn handshake_packet(next_state: u8) -> Vec<u8> {
    let mut body = vec![0x00, 0x2f, 0x09];
    body.extend_from_slice(b"localhost");
    body.extend_from_slice(&[0x63, 0xdd, next_state]);
    let mut v = vec![body.len() as u8];
    v.extend(body);
    v
}

#[test]
fn session_handshake_then_status() {
    let mut s = Session::new();
    let input = handshake_packet(1);
    match s.step(&input, false, "{}").unwrap() {
        (Step::Handshake { len, id, protocol_version, host, port, next_state }, n) => {
            assert_eq!(len, 15);
            assert_eq!(id, 0);
            assert_eq!(protocol_version, 47);
            assert_eq!(host.as_str(), "localhost");
            assert_eq!(port, 25565);
            assert_eq!(next_state, 1);
            assert_eq!(n, input.len());
        }
        other => panic!("unexpected {:?}", other),
    }
    assert_eq!(s.state, 1);

    match s.step(&[0x01, 0x00], false, "{}").unwrap() {
        (Step::Status { len, id, response }, n) => {
            assert_eq!((len, id, n), (1, 0, 2));
            assert_eq!(response, vec![4, 0, 2, b'{', b'}']);
        }
        other => panic!("unexpected {:?}", other),
    }
    assert_eq!(s.state, 1);
}

#[test]
fn session_waits_for_more() {
    let mut s = Session::new();
    let input = handshake_packet(1);
    for cut in 0..input.len() {
        let r = s.step(&input[..cut], false, "{}").unwrap();
        assert!(matches!(r, (Step::NeedMore, 0)), "cut {}", cut);
        assert_eq!(s.state, 0);
    }
}

#[test]
fn session_stream_ends() {
    let mut s = Session::new();
    assert!(matches!(
        s.step(&[], true, "{}"),
        Err(StepError::Decode(DecodeError::Incomplete))
    ));
    let input = handshake_packet(1);
    assert!(matches!(
        s.step(&input[..input.len() - 2], true, "{}"),
        Err(StepError::UnexpectedEof)
    ));
}

#[test]
fn session_other_packet() {
    let mut s = Session::new();
    s.state = 1;
    assert!(matches!(
        s.step(&[0x02, 0x05, 0x09], false, "{}").unwrap(),
        (Step::Other { len: 2, id: 5 }, 2)
    ));
}

#[test]
fn session_negative_host_length_is_flagged() {
    let s = Session::new();
    let input = [0x08u8, 0x00, 0x2f, 0xff, 0xff, 0xff, 0xff, 0x0f];
    assert!(s.decision_panics(&input));
    assert!(!s.decision_panics(&handshake_packet(1)));
}

#[test]
fn session_response_bytes() {
    assert_eq!(status_response(""), vec![2, 0]);
    assert_eq!(status_response("ab"), vec![4, 0, 2, b'a', b'b']);
}

#[test]
fn session_decision_does_not_depend_on_later_bytes() {
    let input = handshake_packet(2);
    let mut longer = input.clone();
    longer.extend_from_slice(&[0x01, 0x00, 0xff]);
    let mut a = Session::new();
    let mut b = Session::new();
    let ra = a.step(&input, false, "{}").unwrap();
    let rb = b.step(&longer, true, "{}").unwrap();
    match (ra, rb) {
        (
            (Step::Handshake { next_state: na, port: pa, .. }, ca),
            (Step::Handshake { next_state: nb, port: pb, .. }, cb),
        ) => {
            assert_eq!((na, pa, ca), (nb, pb, cb));
        }
        other => panic!("unexpected {:?}", other),
    }
    assert_eq!(a.state, 2);
    assert_eq!(b.state, 2);
}

#[test]
fn session_id_limited_by_packet_length() {
    // the packet says one byte, but the id needs two: the id reader hits the packet's end
    let mut s = Session::new();
    assert!(matches!(
        s.step(&[0x01, 0x80, 0x01], false, "{}"),
        Err(StepError::Decode(DecodeError::Incomplete))
    ));
}
