use duckdb_kart::msgpack::{decode, widen_f32, DecodeError, Decoder, Value};

#[test]
fn test_primitives() {
    assert_eq!(decode(&[0x05]).unwrap(), Value::Integer(5));
    assert_eq!(decode(&[0xff]).unwrap(), Value::Integer(-1));
    assert_eq!(decode(&[0xc0]).unwrap(), Value::Nil);
    assert_eq!(decode(&[0xc2]).unwrap(), Value::Bool(false));
    assert_eq!(decode(&[0xc3]).unwrap(), Value::Bool(true));
    assert_eq!(decode(&[0xa5, b'h', b'e', b'l', b'l', b'o']).unwrap(), Value::String("hello"));
}

#[test]
fn test_array() {
    // [1, "a"]
    assert_eq!(
        decode(&[0x92, 0x01, 0xa1, b'a']).unwrap(),
        Value::Array(vec![Value::Integer(1), Value::String("a")])
    );
}

#[test]
fn decode_errors_name_their_cause() {
    assert_eq!(decode(&[]), Err(DecodeError::UnexpectedEofU8));
    assert_eq!(decode(&[0xc1]), Err(DecodeError::UnsupportedTag(0xc1)));
    assert_eq!(decode(&[0xc4, 0x05, 1, 2]), Err(DecodeError::UnexpectedEofSlice(5)));
    assert_eq!(decode(&[0xcd, 0x01]), Err(DecodeError::UnexpectedEofSlice(2)));
    assert_eq!(decode(&[0xa2, 0xff, 0xfe]), Err(DecodeError::InvalidUtf8));
    assert_eq!(decode(&[0x92, 0x01]), Err(DecodeError::UnexpectedEofU8));
    assert_eq!(decode(&[0xd4, 0x01]), Err(DecodeError::UnexpectedEofSlice(1)));
    assert_eq!(decode(&[0xc7]), Err(DecodeError::UnexpectedEofU8));
}

#[test]
fn decode_integers_of_every_width() {
    assert_eq!(decode(&[0xcc, 0xff]).unwrap(), Value::Integer(255));
    assert_eq!(decode(&[0xcd, 0x01, 0x02]).unwrap(), Value::Integer(258));
    assert_eq!(decode(&[0xce, 0x00, 0x01, 0x00, 0x00]).unwrap(), Value::Integer(65536));
    assert_eq!(decode(&[0xcf, 0xff, 0xff, 0xff, 0xff, 0xff, 0xff, 0xff, 0xff]).unwrap(), Value::Integer(-1));
    assert_eq!(decode(&[0xd0, 0x80]).unwrap(), Value::Integer(-128));
    assert_eq!(decode(&[0xd1, 0xff, 0xfe]).unwrap(), Value::Integer(-2));
    assert_eq!(decode(&[0xd2, 0x80, 0x00, 0x00, 0x00]).unwrap(), Value::Integer(-2147483648));
    assert_eq!(decode(&[0xd3, 0x80, 0, 0, 0, 0, 0, 0, 0]).unwrap(), Value::Integer(i64::MIN));
    assert_eq!(decode(&[0xd3, 0, 0, 0, 0, 0, 0, 0x01, 0x00]).unwrap(), Value::Integer(256));
    assert_eq!(decode(&[0xe0]).unwrap(), Value::Integer(-32));
    assert_eq!(decode(&[0x7f]).unwrap(), Value::Integer(127));
}

#[test]
fn decode_floats_keep_their_bits() {
    assert_eq!(decode(&[0xca, 0x3f, 0x80, 0, 0]).unwrap(), Value::Float(1.0f64.to_bits()));
    assert_eq!(decode(&[0xca, 0xc0, 0x49, 0x0f, 0xdb]).unwrap(), Value::Float((f32::from_bits(0xc049_0fdb) as f64).to_bits()));
    assert_eq!(decode(&[0xcb, 0x3f, 0xf0, 0, 0, 0, 0, 0, 0]).unwrap(), Value::Float(0x3ff0_0000_0000_0000));
    assert_eq!(f32::from_bits(0x3f80_0000) as f64, 1.0);
}

#[test]
fn decode_strings_binary_and_extensions() {
    assert_eq!(decode(&[0xd9, 3, b'a', b'b', b'c']).unwrap(), Value::String("abc"));
    assert_eq!(decode(&[0xda, 0, 1, b'z']).unwrap(), Value::String("z"));
    assert_eq!(decode(&[0xdb, 0, 0, 0, 0]).unwrap(), Value::String(""));
    assert_eq!(decode(&[0xc4, 2, 9, 8]).unwrap(), Value::Binary(&[9, 8]));
    assert_eq!(decode(&[0xc5, 0, 1, 7]).unwrap(), Value::Binary(&[7]));
    assert_eq!(decode(&[0xc6, 0, 0, 0, 0]).unwrap(), Value::Binary(&[]));
    assert_eq!(decode(&[0xd4, 0x47, 0xaa]).unwrap(), Value::Extension(71, &[0xaa]));
    assert_eq!(decode(&[0xd5, 0xff, 1, 2]).unwrap(), Value::Extension(-1, &[1, 2]));
    assert_eq!(decode(&[0xc7, 2, 0x05, 1, 2]).unwrap(), Value::Extension(5, &[1, 2]));
    assert_eq!(decode(&[0xc8, 0, 1, 0x05, 3]).unwrap(), Value::Extension(5, &[3]));
}

#[test]
fn decode_maps_and_long_arrays() {
    assert_eq!(
        decode(&[0x81, 0xa1, b'k', 0x07]).unwrap(),
        Value::MapPairs(vec![(Value::String("k"), Value::Integer(7))])
    );
    assert_eq!(
        decode(&[0xde, 0, 1, 0xc3, 0xc0]).unwrap(),
        Value::MapPairs(vec![(Value::Bool(true), Value::Nil)])
    );
    assert_eq!(
        decode(&[0xdc, 0, 2, 1, 2]).unwrap(),
        Value::Array(vec![Value::Integer(1), Value::Integer(2)])
    );
    assert_eq!(decode(&[0xdd, 0, 0, 0, 0]).unwrap(), Value::Array(vec![]));
    assert_eq!(
        decode(&[0x91, 0x91, 0x90]).unwrap(),
        Value::Array(vec![Value::Array(vec![Value::Array(vec![])])])
    );
}

#[test]
fn decode_ignores_trailing_bytes() {
    assert_eq!(decode(&[0x05]).unwrap(), decode(&[0x05, 0xc1, 0xff]).unwrap());
    assert_eq!(decode(&[0x92, 0x01, 0x02, 0x03]).unwrap(), decode(&[0x92, 0x01, 0x02]).unwrap());
}

#[test]
fn decoder_moves_past_each_value() {
    let buf = [0x01, 0xa1, b'x', 0xc0];
    let mut d = Decoder::new(&buf);
    assert_eq!(d.remaining(), 4);
    assert_eq!(d.decode_value().unwrap(), Value::Integer(1));
    assert_eq!(d.remaining(), 3);
    assert_eq!(d.decode_value().unwrap(), Value::String("x"));
    assert_eq!(d.decode_value().unwrap(), Value::Nil);
    assert_eq!(d.remaining(), 0);
    assert_eq!(d.decode_value(), Err(DecodeError::UnexpectedEofU8));
}

#[test]
fn decoder_stops_where_a_read_fails() {
    let cases: [(&[u8], usize); 7] = [
        (&[], 0),
        (&[0x92, 0x01, 0xc1, 0x07], 1),
        (&[0xa3, b'a'], 1),
        (&[0xc7, 0x02], 0),
        (&[0xd9, 0x02, 0xff, 0xfe, 0x00], 1),
        (&[0x81, 0x01], 0),
        (&[0xdc, 0x00], 1),
    ];
    for (buf, left) in cases {
        let mut d = Decoder::new(buf);
        assert!(d.decode_value().is_err());
        assert_eq!(d.remaining(), left);
    }
}

#[test]
fn value_accessors() {
    let s = Value::String("ab");
    assert_eq!(s.as_str(), Some("ab"));
    assert_eq!(s.as_bytes(), Some(&b"ab"[..]));
    assert_eq!(s.as_i64(), None);
    assert_eq!(Value::Integer(3).as_i64(), Some(3));
    assert_eq!(Value::Bool(true).as_bool(), Some(true));
    assert_eq!(Value::Nil.as_bool(), None);
    assert_eq!(Value::Binary(&[1]).as_bytes(), Some(&[1u8][..]));
    let arr = Value::Array(vec![Value::Nil]);
    assert_eq!(arr.as_array().map(|a| a.len()), Some(1));
    assert!(Value::Nil.as_array().is_none());
    assert_eq!(Value::Extension(71, &[5]).as_geom_bytes(), Some(&[5u8][..]));
    assert_eq!(Value::Extension(70, &[5]).as_geom_bytes(), None);
    assert_eq!(Value::Binary(&[6]).as_geom_bytes(), Some(&[6u8][..]));
    assert_eq!(Value::String("x").as_geom_bytes(), None);
}

#[test]
fn f32_widens_as_the_hardware_does() {
    let mut samples: Vec<u32> = vec![
        0, 0x8000_0000, 1, 0x8000_0001, 0x0040_0000, 0x007f_ffff, 0x0080_0000, 0x3f80_0000, 0xbf80_0000,
        0x7f7f_ffff, 0xff7f_ffff, 0x7f80_0000, 0xff80_0000, 0x3dcc_cccd, 0x0000_0100, 0x0012_3456,
    ];
    let mut x: u32 = 0x1234_5678;
    for _ in 0..2000 {
        x = x.wrapping_mul(1_664_525).wrapping_add(1_013_904_223);
        samples.push(x);
        samples.push(x & 0x807f_ffff);
    }
    for b in samples {
        let f = f32::from_bits(b);
        if f.is_nan() {
            continue;
        }
        assert_eq!(widen_f32(b), (f as f64).to_bits(), "bits {:#x}", b);
    }
    assert_eq!(widen_f32(0x7fc0_1234), 0x7ff8_0246_8000_0000);
    assert!(f64::from_bits(widen_f32(0x7fc0_1234)).is_nan());
    assert!(f64::from_bits(widen_f32(0x7f80_0001)).is_nan());
    assert_eq!(widen_f32(0x7f80_0001), 0x7ff8_0000_2000_0000);
}

#[test]
fn reads_consume_exactly_what_they_read() {
    let buf = [1u8, 2, 3, 4];
    let mut d = Decoder::new(&buf);
    assert_eq!(d.read_u8(), Ok(1));
    assert_eq!(d.remaining(), 3);
    assert_eq!(d.read_slice(2).unwrap(), &[2, 3]);
    assert_eq!(d.remaining(), 1);
    assert_eq!(d.read_slice(2), Err(DecodeError::UnexpectedEofSlice(2)));
    assert_eq!(d.remaining(), 1);
    assert_eq!(d.read_u8(), Ok(4));
    assert_eq!(d.read_u8(), Err(DecodeError::UnexpectedEofU8));
    assert_eq!(d.remaining(), 0);
}

#[test]
fn strict_prefixes_of_an_encoding_fail() {
    let encodings: [&[u8]; 6] = [
        &[0x93, 0x01, 0xa1, b'a', 0xc3],
        &[0x82, 0xa1, b'k', 0x05, 0x01, 0xc0],
        &[0xcb, 0x3f, 0xf0, 0, 0, 0, 0, 0, 0],
        &[0xd9, 0x03, b'a', b'b', b'c'],
        &[0xc7, 0x02, 0x47, 0x01, 0x02],
        &[0xdc, 0x00, 0x02, 0xcd, 0x01, 0x00, 0xd0, 0xff],
    ];
    for e in encodings {
        assert!(decode(e).is_ok());
        let mut d = Decoder::new(e);
        assert!(d.decode_value().is_ok());
        assert_eq!(d.remaining(), 0);
        for k in 0..e.len() {
            assert!(decode(&e[..k]).is_err(), "prefix of length {} of {:?}", k, e);
        }
    }
    assert_eq!(decode(&[0x93, 0x01]), Err(DecodeError::UnexpectedEofU8));
    assert_eq!(decode(&[0xa1, 0xff]), Err(DecodeError::InvalidUtf8));
}

#[test]
fn trailing_bytes_are_never_read() {
    let value = [0x92, 0x01, 0xa1, b'x'];
    let mut longer = value.to_vec();
    longer.extend_from_slice(&[0xc1, 0xff, 0x00]);
    let mut a = Decoder::new(&value);
    let mut b = Decoder::new(&longer);
    assert_eq!(a.decode_value(), b.decode_value());
    assert_eq!(b.remaining(), a.remaining() + 3);
}
