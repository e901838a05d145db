use slp::protocol::errors::DecodeError;
use slp::protocol::packets::slp_handshake::{HandshakeNextState, SlpHandshakeC2S};
use slp::types::vars::Var;
use slp::types::McStr;

fn handshake_bytes() -> Vec<u8> {
    let mut v = vec![0x2f, 0x09];
    v.extend_from_slice(b"localhost");
    v.extend_from_slice(&[0x63, 0xdd, 0x01]);
    v
}

#[test]
fn handshake_decode() {
    let bytes = handshake_bytes();
    let mut r = bytes.as_slice();
    let h = SlpHandshakeC2S::decode(&mut r).unwrap();
    assert_eq!(h.protocol_version.0, 47);
    assert_eq!(h.server_address.as_str(), "localhost");
    assert_eq!(h.server_port, 25565);
    assert!(matches!(h.next_state, HandshakeNextState::Status));
    assert!(r.is_empty());
}

#[test]
fn handshake_encode() {
    let h = SlpHandshakeC2S {
        protocol_version: Var(47),
        server_address: McStr::from_str("localhost"),
        server_port: 25565,
        next_state: HandshakeNextState::Status,
    };
    let mut w = Vec::new();
    h.encode(&mut w).unwrap();
    assert_eq!(w, handshake_bytes());
}

#[test]
fn handshake_address_too_long() {
    let h = SlpHandshakeC2S {
        protocol_version: Var(47),
        server_address: McStr::from_str(&"a".repeat(256)),
        server_port: 1,
        next_state: HandshakeNextState::Login,
    };
    let mut w = Vec::new();
    assert!(h.encode(&mut w).is_err());
    assert!(w.is_empty());
}

#[test]
fn handshake_invalid_next_state() {
    let mut bytes = handshake_bytes();
    *bytes.last_mut().unwrap() = 3;
    let mut r = bytes.as_slice();
    assert!(matches!(SlpHandshakeC2S::decode(&mut r), Err(DecodeError::InvalidValue)));
}

#[test]
fn handshake_missing_port() {
    let mut r = [0x2fu8, 0x01, b'a', 0x63].as_slice();
    assert!(matches!(SlpHandshakeC2S::decode(&mut r), Err(DecodeError::Incomplete)));
}

#[test]
fn next_state_tags() {
    let mut w = Vec::new();
    HandshakeNextState::Login.encode(&mut w).unwrap();
    assert_eq!(w, vec![2]);
    let mut r = [1u8].as_slice();
    assert!(matches!(HandshakeNextState::decode(&mut r), Ok(HandshakeNextState::Status)));
}

#[test]
fn handshake_round_trip() {
    let h = SlpHandshakeC2S {
        protocol_version: Var(763),
        server_address: McStr::from_str("mc.example.org"),
        server_port: 25565,
        next_state: HandshakeNextState::Login,
    };
    let mut w = Vec::new();
    h.encode(&mut w).unwrap();
    w.push(0x55);
    let mut r = w.as_slice();
    let back = SlpHandshakeC2S::decode(&mut r).unwrap();
    assert_eq!(back.protocol_version.0, 763);
    assert_eq!(back.server_address.as_str(), "mc.example.org");
    assert_eq!(back.server_port, 25565);
    assert!(matches!(back.next_state, HandshakeNextState::Login));
    assert_eq!(r, &[0x55]);
}

#[test]
fn handshake_decode_error_takes_field_bytes() {
    let bytes = [0x05u8, 0x01, b'a', 0x63, 0xdd, 0x07, 0x99];
    let mut r: &[u8] = &bytes;
    assert!(matches!(SlpHandshakeC2S::decode(&mut r), Err(DecodeError::InvalidValue)));
    assert_eq!(r, &[0x99]);

    let bytes = [0x05u8, 0x03, b'a'];
    let mut r: &[u8] = &bytes;
    assert!(matches!(SlpHandshakeC2S::decode(&mut r), Err(DecodeError::Incomplete)));
    assert!(r.is_empty());
}

#[test]
fn handshake_negative_address_length_is_invalid() {
    let bytes = [0x05u8, 0xff, 0xff, 0xff, 0xff, 0x0f, b'a'];
    let mut r: &[u8] = &bytes;
    assert!(matches!(SlpHandshakeC2S::decode(&mut r), Err(DecodeError::InvalidValue)));
    assert_eq!(r, &[b'a']);
}
