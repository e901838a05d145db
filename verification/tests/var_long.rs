use slp::protocol::packets::types::var_long::VarLong;
use slp::protocol::errors::DecodeError;
use slp::protocol::packets::types::var_numbers::{VarDecodeError, SEGSZ};

#[test]
fn var_long_varlong_to_i32() {
    let v = VarLong::decode(
        &mut [0xff, 0xff, 0xff, 0xff, 0xff, 0xff, 0xff, 0xff, 0xff, 0x01].as_slice(),
    )
    .unwrap();

    assert_eq!(v.0, -1);
}

#[test]
fn var_long_varlong_size_approx() {
    for i in 0..64 {
        let v = VarLong(1i64 << i);
        let len = (i + 1) / SEGSZ + ((i + 1) % SEGSZ != 0) as usize; // real length formula
        assert_eq!(v.written_size(), len, "approximation is invalid");
    }
}

#[test]
#[should_panic(expected = "TooLong")]
fn var_long_invalid_varlong() {
    // 11 bytes
    VarLong::decode(
        &mut [
            0xff, 0xff, 0xff, 0xff, 0xff, 0xff, 0xff, 0xff, 0xff, 0xff, 0xff,
        ]
        .as_slice(),
    )
    .unwrap();
}

#[test]
fn var_long_eleven_bytes_are_too_long() {
    let mut r = [0xffu8; 11].as_slice();
    let res = VarLong::decode(&mut r);
    assert!(matches!(res, Err(DecodeError::TooLong)));
    assert_eq!(r.len(), 1);
}

#[test]
fn var_long_runs_out() {
    let mut r = [0x80u8, 0x80].as_slice();
    assert!(matches!(VarLong::decode(&mut r), Err(DecodeError::Incomplete)));
    assert_eq!(r.len(), 0);
}

#[test]
fn var_long_written_size_of_zero_and_negative() {
    assert_eq!(VarLong(0).written_size(), 1);
    assert_eq!(VarLong(127).written_size(), 1);
    assert_eq!(VarLong(128).written_size(), 2);
    assert_eq!(VarLong(-1).written_size(), 10);
}

#[test]
fn var_long_encode_bytes() {
    let mut w = Vec::new();
    VarLong(0).encode(&mut w).unwrap();
    assert_eq!(w, vec![0x00]);

    // the low byte of what is left of the value, for each 7-bit group
    let mut w = Vec::new();
    VarLong(300).encode(&mut w).unwrap();
    assert_eq!(w, vec![0x2c, 0x02]);

    let mut w = Vec::new();
    VarLong(256).encode(&mut w).unwrap();
    assert_eq!(w, vec![0x00, 0x02]);

    let mut w = Vec::new();
    VarLong(-1).encode(&mut w).unwrap();
    assert_eq!(
        w,
        vec![0xff, 0xff, 0xff, 0xff, 0xff, 0xff, 0xff, 0xff, 0xff, 0x01]
    );

    let mut w = vec![0x42];
    VarLong(1i64 << 35).encode(&mut w).unwrap();
    assert_eq!(w, vec![0x42, 0x00, 0x00, 0x00, 0x00, 0x80, 0x01]);
}

#[test]
fn var_long_encode_writes_written_size_bytes() {
    for v in [0i64, 1, 127, 128, 256, 300, 1 << 31, 1 << 32, i64::MAX, i64::MIN, -1, -300] {
        let mut w = Vec::new();
        VarLong(v).encode(&mut w).unwrap();
        assert_eq!(w.len(), VarLong(v).written_size());
    }
}

#[test]
fn var_long_round_trip_when_self_delimiting() {
    for v in [0i64, 1, 127, 0x3fff, -1] {
        let mut w = Vec::new();
        VarLong(v).encode(&mut w).unwrap();
        let n = w.len();
        w.extend_from_slice(&[0x01, 0x02]);
        let mut r = w.as_slice();
        assert_eq!(VarLong::decode(&mut r).unwrap().0, v);
        assert_eq!(r.len(), w.len() - n);
    }
}

#[test]
fn var_long_round_trip_fails_otherwise() {
    let mut w = Vec::new();
    VarLong(300).encode(&mut w).unwrap();
    let mut r = w.as_slice();
    assert_eq!(VarLong::decode(&mut r).unwrap().0, 44);

    let mut w = Vec::new();
    VarLong(256).encode(&mut w).unwrap();
    let mut r = w.as_slice();
    assert_eq!(VarLong::decode(&mut r).unwrap().0, 0);
    assert_eq!(r, &[0x02]);
}

#[test]
fn var_long_decode_partial() {
    let mut r: &[u8] = &[0xff, 0xff, 0xff, 0xff, 0x0f];
    assert_eq!(VarLong::decode_partial(&mut r).unwrap(), -1);
    assert!(r.is_empty());

    let mut r: &[u8] = &[0x05, 0xff];
    assert_eq!(VarLong::decode_partial(&mut r).unwrap(), 5);
    assert_eq!(r, &[0xff]);

    let mut r: &[u8] = &[0xac, 0x02, 0x07];
    assert_eq!(VarLong::decode_partial(&mut r).unwrap(), 300);
    assert_eq!(r, &[0x07]);

    let mut r: &[u8] = &[0x80, 0x80, 0x80, 0x80, 0x80];
    assert!(matches!(
        VarLong::decode_partial(&mut r),
        Err(VarDecodeError::Incomplete)
    ));
    assert!(r.is_empty());
}
