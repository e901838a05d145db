use slp::types::vars::Var;
use slp::types::McStr;
use slp::{Codec, DecodeError, Decoder, Encoder, Sizeable};

#[test]
fn str_encode_and_size() {
    let s = McStr::from_str("hello");
    assert_eq!(s.size(), 6);
    let mut w = Vec::new();
    s.encode_to(&mut w).unwrap();
    assert_eq!(w, b"\x05hello".to_vec());
}

#[test]
fn str_empty_is_written_as_nothing() {
    let s = McStr::from_str("");
    assert_eq!(s.size(), 1);
    let mut w = Vec::new();
    s.encode_to(&mut w).unwrap();
    assert!(w.is_empty());
}

#[test]
fn str_round_trip() {
    let mut w = Vec::new();
    w.encode(McStr::from_str("héllo")).unwrap();
    w.push(9);
    let mut r = w.as_slice();
    let s: McStr = r.decode().unwrap();
    assert_eq!(s.as_str(), "héllo");
    assert_eq!(r, &[9]);
}

#[test]
fn str_decode_short_input_takes_what_is_there() {
    let mut r = b"\x05hel".as_slice();
    let s = McStr::decode_from(&mut r).unwrap();
    assert_eq!(s.as_str(), "hel");
    assert!(r.is_empty());
}

#[test]
fn str_decode_rejects_invalid_utf8() {
    let mut r = [0x02u8, 0xff, 0xfe].as_slice();
    assert!(matches!(McStr::decode_from(&mut r), Err(DecodeError::Incomplete)));
}

#[test]
fn str_decode_prefix_errors() {
    let mut r = [0x80u8].as_slice();
    assert!(matches!(McStr::decode_from(&mut r), Err(DecodeError::Incomplete)));
    let mut r = [0xffu8; 6].as_slice();
    assert!(matches!(McStr::decode_from(&mut r), Err(DecodeError::TooLong)));
}

#[test]
fn str_from_string() {
    let s: McStr = String::from("abc").into();
    assert_eq!(s.len(), 3);
    assert_eq!(s.as_str(), "abc");
}


#[test]
fn str_size_is_prefix_plus_length() {
    let text = "é".repeat(100);
    let s = McStr::from_str(&text);
    assert_eq!(s.len(), 200);
    assert_eq!(s.size(), Var(200usize).size() + 200);
    assert_eq!(s.size(), 202);
}

#[test]
fn str_decoder_reads_as_decode_from() {
    let bytes = [0x03u8, b'a', b'b', b'c', 0x09];
    let mut r1: &[u8] = &bytes;
    let mut r2: &[u8] = &bytes;
    let a: McStr = r1.decode().unwrap();
    let b = McStr::decode_from(&mut r2).unwrap();
    assert_eq!(a.as_str(), b.as_str());
    assert_eq!(r1, r2);
    assert_eq!(r1, &[0x09]);
}
