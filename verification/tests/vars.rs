use slp::types::vars::{Var, VarInt, VarLong};
use slp::{Codec, DecodeError, Sizeable};

const SEGSZ: usize = 7;

#[test]
fn varint_to_i32() {
    let v = VarInt::decode_from(&mut [0xff, 0xff, 0xff, 0xff, 0x0f].as_slice()).unwrap();
    assert_eq!(v.0, -1);
}

#[test]
#[should_panic(expected = "TooLong")]
fn invalid_varint() {
    // 6 bytes
    VarInt::decode_from(&mut [0xff, 0xff, 0xff, 0xff, 0xff, 0xff].as_slice()).unwrap();
}

#[test]
fn vars_varlong_to_i32() {
    let v = VarLong::decode_from(
        &mut [0xff, 0xff, 0xff, 0xff, 0xff, 0xff, 0xff, 0xff, 0xff, 0x01].as_slice(),
    )
    .unwrap();

    assert_eq!(v.0, -1);
}

#[test]
fn vars_varlong_size_approx() {
    for i in 0..64 {
        let v = Var(1u64 << i);
        let len = (i + 1) / SEGSZ + ((i + 1) % SEGSZ != 0) as usize; // real length formula
        assert_eq!(v.size(), len, "approximation is invalid");
    }
}

#[test]
#[should_panic(expected = "TooLong")]
fn vars_invalid_varlong() {
    // 11 bytes
    VarInt::decode_from(
        &mut [
            0xff, 0xff, 0xff, 0xff, 0xff, 0xff, 0xff, 0xff, 0xff, 0xff, 0xff,
        ]
        .as_slice(),
    )
    .unwrap();
}

#[test]
fn var_sizes() {
    assert_eq!(Var(0i32).size(), 1);
    assert_eq!(Var(-1i32).size(), 5);
    assert_eq!(Var(-1i64).size(), 10);
    assert_eq!(Var(300usize).size(), 2);
    assert_eq!(7i32.size(), 4);
    assert_eq!(7u64.size(), 8);
}

#[test]
fn var_encode_writes_low_bytes() {
    let mut w = Vec::new();
    Var(300i32).encode_to(&mut w).unwrap();
    assert_eq!(w, vec![0x2c, 0x02]);

    let mut w = Vec::new();
    Var(0i32).encode_to(&mut w).unwrap();
    assert!(w.is_empty());

    // a negative i32 is widened with its sign to 64 bits first
    let mut w = Vec::new();
    Var(-1i32).encode_to(&mut w).unwrap();
    assert_eq!(w.len(), 10);
}

#[test]
fn var_decode_consumes() {
    let mut r = [0x05u8, 0x07].as_slice();
    assert_eq!(VarInt::decode_from(&mut r).unwrap().0, 5);
    assert_eq!(r, &[0x07]);

    let mut r = [0x80u8].as_slice();
    assert!(matches!(VarInt::decode_from(&mut r), Err(DecodeError::Incomplete)));
    assert!(r.is_empty());

    let mut r = [0xffu8; 7].as_slice();
    assert!(matches!(VarInt::decode_from(&mut r), Err(DecodeError::TooLong)));
    assert_eq!(r.len(), 2);
}

#[test]
fn var_round_trip_small_values() {
    for v in [1i32, 5, 127, 0x3fff] {
        let mut w = Vec::new();
        Var(v).encode_to(&mut w).unwrap();
        w.push(0x42);
        let mut r = w.as_slice();
        assert_eq!(VarInt::decode_from(&mut r).unwrap().0, v);
        assert_eq!(r, &[0x42]);
    }
}

#[test]
fn var_i32_wraps_to_32_bits() {
    // five groups of 0x7f and 0x0f: the top bits fall off
    let v = VarInt::decode_from(&mut [0xff, 0xff, 0xff, 0xff, 0x7f].as_slice()).unwrap();
    assert_eq!(v.0, -1);
}

#[test]
fn var_size_matches_encoding_when_positive() {
    for v in [1i64, 127, 128, 300, 1 << 40, i64::MAX] {
        let mut w = Vec::new();
        Var(v).encode_to(&mut w).unwrap();
        assert_eq!(w.len(), Var(v).size());
    }
    // not for zero, nor for negative 32-bit values
    let mut w = Vec::new();
    Var(0i32).encode_to(&mut w).unwrap();
    assert_ne!(w.len(), Var(0i32).size());
    let mut w = Vec::new();
    Var(-5i32).encode_to(&mut w).unwrap();
    assert_ne!(w.len(), Var(-5i32).size());
}

#[test]
fn var_narrow_sizes() {
    assert_eq!(Var(0u8).size(), 1);
    assert_eq!(Var(127u8).size(), 1);
    assert_eq!(Var(255u8).size(), 2);
    assert_eq!(Var(-1i8).size(), 2);
    assert_eq!(Var(300u16).size(), 2);
    assert_eq!(Var(u16::MAX).size(), 3);
    assert_eq!(Var(-1i16).size(), 3);
    assert_eq!(Var(u32::MAX).size(), 5);
    assert_eq!(Var(1u32 << 21).size(), 4);
    assert_eq!(Var(0isize).size(), 1);
    assert_eq!(Var(-1isize).size(), (isize::BITS as usize + 6) / 7);
}

#[test]
fn integer_sizes_are_type_sizes() {
    assert_eq!(0u8.size(), 1);
    assert_eq!(0i8.size(), 1);
    assert_eq!(0u16.size(), 2);
    assert_eq!((-5i16).size(), 2);
    assert_eq!(7u32.size(), 4);
    assert_eq!((-1i32).size(), 4);
    assert_eq!(u64::MAX.size(), 8);
    assert_eq!(0isize.size(), std::mem::size_of::<isize>());
}

#[test]
fn var_narrow_decode() {
    let mut r: &[u8] = &[0xff, 0x01, 0x33];
    assert_eq!(Var::<u8>::decode_from(&mut r).unwrap().0, 255);
    assert_eq!(r, &[0x33]);

    let mut r: &[u8] = &[0xff, 0xff, 0x01];
    assert!(matches!(Var::<u8>::decode_from(&mut r), Err(DecodeError::TooLong)));
    assert_eq!(r, &[0x01]);

    let mut r: &[u8] = &[0xff, 0xff, 0x03];
    assert_eq!(Var::<i16>::decode_from(&mut r).unwrap().0, -1);

    let mut r: &[u8] = &[0xff, 0xff, 0xff, 0xff, 0x0f];
    assert_eq!(Var::<u32>::decode_from(&mut r).unwrap().0, u32::MAX);

    let mut r: &[u8] = &[0x05];
    assert_eq!(Var::<isize>::decode_from(&mut r).unwrap().0, 5);
}

#[test]
fn var_narrow_encode() {
    let mut w = Vec::new();
    Var(-1i8).encode_to(&mut w).unwrap();
    assert_eq!(w, vec![0xff, 0xff, 0xff, 0xff, 0xff, 0xff, 0xff, 0xff, 0xff, 0x01]);

    let mut w = Vec::new();
    Var(100u16).encode_to(&mut w).unwrap();
    assert_eq!(w, vec![100]);
}

#[test]
fn var_wide_sizes() {
    assert_eq!(0u128.size(), 16);
    assert_eq!((-1i128).size(), 16);
    assert_eq!(Var(0u128).size(), 1);
    assert_eq!(Var(300u128).size(), 2);
    assert_eq!(Var(u64::MAX as u128).size(), 10);
    // 71 significant bits: the size formula gives 10
    assert_eq!(Var(1u128 << 70).size(), 10);
    assert_eq!(Var(u128::MAX).size(), 19);
    assert_eq!(Var(-1i128).size(), 19);
}

#[test]
fn var_wide_codec() {
    let mut w = Vec::new();
    Var((1u128 << 64) + 5).encode_to(&mut w).unwrap();
    assert_eq!(w, vec![0x05]);

    let mut w = Vec::new();
    Var(-1i128).encode_to(&mut w).unwrap();
    assert_eq!(w, vec![0xff, 0xff, 0xff, 0xff, 0xff, 0xff, 0xff, 0xff, 0xff, 0x01]);

    let mut bytes = vec![0xffu8; 18];
    bytes.push(0x03);
    bytes.push(0x44);
    let mut r = bytes.as_slice();
    assert_eq!(Var::<u128>::decode_from(&mut r).unwrap().0, u128::MAX);
    assert_eq!(r, &[0x44]);

    let mut r = bytes.as_slice();
    assert_eq!(Var::<i128>::decode_from(&mut r).unwrap().0, -1);

    let bytes = [0xffu8; 20];
    let mut r = bytes.as_slice();
    assert!(matches!(Var::<u128>::decode_from(&mut r), Err(DecodeError::TooLong)));
    assert_eq!(r.len(), 1);

    let mut r: &[u8] = &[0x80, 0x80];
    assert!(matches!(Var::<i128>::decode_from(&mut r), Err(DecodeError::Incomplete)));
    assert!(r.is_empty());
}
