use rencode::de::{present, Payload, FixedMap, FixedSeq, MapState, RencodeDeserializer, TerminatedMap, TerminatedSeq, Token};
use rencode::ser::{Frame, RencodeSerializer};
use rencode::types::{classify, TagKind};
use rencode::{from_bytes, to_bytes, to_writer, Error, ErrorKind, Value};

fn enc(v: &Value) -> Vec<u8> {
    to_bytes(v).unwrap()
}

fn err(kind: ErrorKind) -> Result<Value, Error> {
    Err(Error::new(kind))
}

fn round_trips(v: Value) {
    let bytes = enc(&v);
    assert_eq!(from_bytes(&bytes), Ok(v));
}

#[test]
fn int_42_is_one_byte() {
    assert_eq!(enc(&Value::Int8(42)), vec![0x2A]);
    assert_eq!(from_bytes(&[0x2A]), Ok(Value::Int8(42)));
}

#[test]
fn int_minus_5_is_one_byte() {
    assert_eq!(enc(&Value::Int8(-5)), vec![0x4A]);
    assert_eq!(from_bytes(&[74]), Ok(Value::Int8(-5)));
}

#[test]
fn empty_string_is_one_byte() {
    assert_eq!(enc(&Value::Bytes(vec![])), vec![128]);
    assert_eq!(from_bytes(&[128]), Ok(Value::Bytes(vec![])));
}

#[test]
fn list_of_65_is_open() {
    let items: Vec<Value> = (0..65).map(|i| Value::Int8(i % 40)).collect();
    let bytes = enc(&Value::List(items));
    assert_eq!(bytes.len(), 67);
    assert_eq!(bytes[0], 59);
    assert_eq!(bytes[66], 127);
    for i in 0..65usize {
        assert_eq!(bytes[1 + i], (i % 40) as u8);
    }
    round_trips(Value::List((0..65).map(|i| Value::Int8(i % 40)).collect()));
}

#[test]
fn dict_of_25_is_open() {
    let entries: Vec<(Value, Value)> =
        (0..25).map(|i| (Value::Int8(i), Value::Bool(i % 2 == 0))).collect();
    let bytes = enc(&Value::Dict(entries));
    assert_eq!(bytes.len(), 52);
    assert_eq!(bytes[0], 60);
    assert_eq!(bytes[51], 127);
    for i in 0..25usize {
        assert_eq!(bytes[1 + 2 * i], i as u8);
        assert_eq!(bytes[2 + 2 * i], if i % 2 == 0 { 67 } else { 68 });
    }
    round_trips(Value::Dict((0..25).map(|i| (Value::Int8(i), Value::Bool(i % 2 == 0))).collect()));
}

#[test]
fn big_int_tag_is_refused() {
    assert_eq!(from_bytes(&[61]), err(ErrorKind::UnsupportedBigInt));
    assert_eq!(from_bytes(&[61, 1, 2, 3]), err(ErrorKind::UnsupportedBigInt));
}

#[test]
fn compact_int_boundaries() {
    assert_eq!(enc(&Value::Int8(43)), vec![43]);
    assert_eq!(enc(&Value::Int8(44)), vec![62, 44]);
    assert_eq!(enc(&Value::Int8(-32)), vec![101]);
    assert_eq!(enc(&Value::Int8(-33)), vec![62, 0xDF]);
    assert_eq!(enc(&Value::Int8(0)), vec![0]);
    assert_eq!(enc(&Value::Int8(-1)), vec![70]);
    assert_eq!(enc(&Value::Int8(127)), vec![62, 127]);
    assert_eq!(enc(&Value::Int8(-128)), vec![62, 128]);
    for n in i8::MIN..=i8::MAX {
        round_trips(Value::Int8(n));
    }
}

#[test]
fn wide_ints_keep_their_declared_width() {
    assert_eq!(enc(&Value::Int16(5)), vec![63, 0, 5]);
    assert_eq!(enc(&Value::Int16(-2)), vec![63, 0xFF, 0xFE]);
    assert_eq!(enc(&Value::Int16(0x1234)), vec![63, 0x12, 0x34]);
    assert_eq!(enc(&Value::Int32(1)), vec![64, 0, 0, 0, 1]);
    assert_eq!(enc(&Value::Int32(-1)), vec![64, 255, 255, 255, 255]);
    assert_eq!(enc(&Value::Int32(0x01020304)), vec![64, 1, 2, 3, 4]);
    assert_eq!(enc(&Value::Int64(0x0102030405060708)), vec![65, 1, 2, 3, 4, 5, 6, 7, 8]);
    assert_eq!(enc(&Value::Int64(i64::MIN)), vec![65, 0x80, 0, 0, 0, 0, 0, 0, 0]);
    assert_eq!(from_bytes(&[63, 0xFF, 0xFE]), Ok(Value::Int16(-2)));
    assert_eq!(from_bytes(&[63, 0x12, 0x34]), Ok(Value::Int16(0x1234)));
    assert_eq!(from_bytes(&[64, 1, 2, 3, 4]), Ok(Value::Int32(0x01020304)));
    assert_eq!(from_bytes(&[64, 255, 255, 255, 254]), Ok(Value::Int32(-2)));
    assert_eq!(
        from_bytes(&[65, 1, 2, 3, 4, 5, 6, 7, 8]),
        Ok(Value::Int64(0x0102030405060708))
    );
    assert_eq!(from_bytes(&[65, 0x80, 0, 0, 0, 0, 0, 0, 0]), Ok(Value::Int64(i64::MIN)));
    assert_eq!(from_bytes(&[62, 5]), Ok(Value::Int8(5)));
    for v in [i16::MIN, -1, 0, 1, 300, i16::MAX] {
        round_trips(Value::Int16(v));
    }
    for v in [i32::MIN, -1, 0, 1, 70000, i32::MAX] {
        round_trips(Value::Int32(v));
    }
    for v in [i64::MIN, -1, 0, 1, 1 << 40, i64::MAX] {
        round_trips(Value::Int64(v));
    }
}

#[test]
fn floats_are_their_bits_big_endian() {
    assert_eq!(enc(&Value::Float32(1.0f32.to_bits())), vec![66, 0x3F, 0x80, 0, 0]);
    assert_eq!(
        enc(&Value::Float64(1.0f64.to_bits())),
        vec![44, 0x3F, 0xF0, 0, 0, 0, 0, 0, 0]
    );
    assert_eq!(from_bytes(&[66, 0x3F, 0x80, 0, 0]), Ok(Value::Float32(1.0f32.to_bits())));
    assert_eq!(
        from_bytes(&[44, 0x40, 0x09, 0x21, 0xFB, 0x54, 0x44, 0x2D, 0x18]),
        Ok(Value::Float64(std::f64::consts::PI.to_bits()))
    );
    round_trips(Value::Float32((-2.5f32).to_bits()));
    round_trips(Value::Float64(f64::MAX.to_bits()));
    round_trips(Value::Float32(u32::MAX));
    round_trips(Value::Float64(u64::MAX));
}

#[test]
fn unit_and_bools() {
    assert_eq!(enc(&Value::Unit), vec![69]);
    assert_eq!(enc(&Value::Bool(true)), vec![67]);
    assert_eq!(enc(&Value::Bool(false)), vec![68]);
    assert_eq!(from_bytes(&[69]), Ok(Value::Unit));
    assert_eq!(from_bytes(&[67]), Ok(Value::Bool(true)));
    assert_eq!(from_bytes(&[68]), Ok(Value::Bool(false)));
}

#[test]
fn string_framing_boundary() {
    let s63 = vec![b'a'; 63];
    let mut want = vec![191u8];
    want.extend_from_slice(&s63);
    assert_eq!(enc(&Value::Bytes(s63.clone())), want);
    round_trips(Value::Bytes(s63));

    let s64 = vec![b'b'; 64];
    let mut want = vec![b'6', b'4', b':'];
    want.extend_from_slice(&s64);
    assert_eq!(enc(&Value::Bytes(s64.clone())), want);
    round_trips(Value::Bytes(s64));

    let s1000 = vec![0xFFu8; 1000];
    let mut want = vec![b'1', b'0', b'0', b'0', b':'];
    want.extend_from_slice(&s1000);
    assert_eq!(enc(&Value::Bytes(s1000.clone())), want);
    round_trips(Value::Bytes(s1000));

    assert_eq!(enc(&Value::Bytes(b"hi".to_vec())), vec![130, b'h', b'i']);
}

#[test]
fn leading_zero_in_length_is_refused() {
    assert!(from_bytes(b"0:").is_err());
    assert_eq!(from_bytes(b"0:"), err(ErrorKind::UnknownTag));
    assert_eq!(from_bytes(b"03:abc"), err(ErrorKind::UnknownTag));
}

#[test]
fn zero_after_first_digit_is_a_digit() {
    assert_eq!(from_bytes(b"10:0123456789"), Ok(Value::Bytes(b"0123456789".to_vec())));
    assert_eq!(from_bytes(b"3:abc"), Ok(Value::Bytes(b"abc".to_vec())));
}

#[test]
fn bad_length_digits() {
    assert_eq!(from_bytes(b"1x:a"), err(ErrorKind::InvalidLengthDigits));
    assert_eq!(from_bytes(&[b'2', 127]), err(ErrorKind::InvalidLengthDigits));
    assert_eq!(from_bytes(b"12"), err(ErrorKind::UnexpectedEndOfInput));
    assert_eq!(from_bytes(b"5:abc"), err(ErrorKind::UnexpectedEndOfInput));
    assert_eq!(
        from_bytes(b"99999999999999999999999999999999999999999999:abc"),
        err(ErrorKind::UnexpectedEndOfInput)
    );
    assert_eq!(
        from_bytes(b"99999999999999999999999999999999999999999999x"),
        err(ErrorKind::InvalidLengthDigits)
    );
}

#[test]
fn list_framing_boundary() {
    let items = |n: usize| -> Vec<Value> { (0..n).map(|_| Value::Unit).collect() };
    let b63 = enc(&Value::List(items(63)));
    assert_eq!(b63[0], 255);
    assert_eq!(b63.len(), 64);
    let b64 = enc(&Value::List(items(64)));
    assert_eq!(b64[0], 59);
    assert_eq!(b64.len(), 66);
    assert_eq!(b64[65], 127);
    assert_eq!(enc(&Value::List(vec![])), vec![192]);
    round_trips(Value::List(items(63)));
    round_trips(Value::List(items(64)));
    round_trips(Value::List(vec![]));
}

#[test]
fn dict_framing_boundary() {
    let entries =
        |n: usize| -> Vec<(Value, Value)> { (0..n).map(|_| (Value::Unit, Value::Unit)).collect() };
    let b24 = enc(&Value::Dict(entries(24)));
    assert_eq!(b24[0], 126);
    assert_eq!(b24.len(), 49);
    let b25 = enc(&Value::Dict(entries(25)));
    assert_eq!(b25[0], 60);
    assert_eq!(b25.len(), 52);
    assert_eq!(b25[51], 127);
    assert_eq!(enc(&Value::Dict(vec![])), vec![102]);
    round_trips(Value::Dict(entries(24)));
    round_trips(Value::Dict(entries(25)));
    round_trips(Value::Dict(vec![]));
}

#[test]
fn fixed_dict_count_is_read_from_its_tag() {
    assert_eq!(
        from_bytes(&[104, 1, 2, 3, 4]),
        Ok(Value::Dict(vec![(Value::Int8(1), Value::Int8(2)), (Value::Int8(3), Value::Int8(4))]))
    );
}

fn sample() -> Value {
    Value::Dict(vec![
        (Value::Bytes(b"name".to_vec()), Value::Bytes(b"rencode".to_vec())),
        (
            Value::Bytes(b"list".to_vec()),
            Value::List(vec![
                Value::Int8(1),
                Value::Int16(-300),
                Value::Int32(70000),
                Value::Int64(-1),
                Value::Float32(0x40490FDB),
                Value::Float64(0x400921FB54442D18),
                Value::Unit,
                Value::Bool(true),
                Value::List(vec![Value::List(vec![]), Value::Dict(vec![])]),
                Value::Bytes(vec![127; 70]),
            ]),
        ),
        (Value::Int8(7), Value::List((0..100).map(|i| Value::Int16(i)).collect())),
    ])
}

#[test]
fn nested_value_round_trips() {
    round_trips(sample());
}

#[test]
fn every_truncation_is_an_unexpected_end() {
    let bytes = enc(&sample());
    for n in 0..bytes.len() {
        assert_eq!(from_bytes(&bytes[..n]), err(ErrorKind::UnexpectedEndOfInput), "prefix {}", n);
    }
    assert_eq!(from_bytes(&[]), err(ErrorKind::UnexpectedEndOfInput));
    assert_eq!(from_bytes(&[63, 1]), err(ErrorKind::UnexpectedEndOfInput));
    assert_eq!(from_bytes(&[62]), err(ErrorKind::UnexpectedEndOfInput));
    assert_eq!(from_bytes(&[66, 1, 2, 3]), err(ErrorKind::UnexpectedEndOfInput));
    assert_eq!(from_bytes(&[44, 1, 2, 3, 4, 5, 6, 7]), err(ErrorKind::UnexpectedEndOfInput));
    assert_eq!(from_bytes(&[193]), err(ErrorKind::UnexpectedEndOfInput));
    assert_eq!(from_bytes(&[59, 1, 2]), err(ErrorKind::UnexpectedEndOfInput));
    assert_eq!(from_bytes(&[60, 1]), err(ErrorKind::UnexpectedEndOfInput));
    assert_eq!(from_bytes(&[103, 1]), err(ErrorKind::UnexpectedEndOfInput));
}

#[test]
fn trailing_bytes_are_refused() {
    assert_eq!(from_bytes(&[42, 0]), err(ErrorKind::TrailingBytes));
    assert_eq!(from_bytes(&[69, 69]), err(ErrorKind::TrailingBytes));
    let mut bytes = enc(&sample());
    bytes.push(127);
    assert_eq!(from_bytes(&bytes), err(ErrorKind::TrailingBytes));
}

#[test]
fn tags_without_a_value() {
    for b in 45u8..=48 {
        assert_eq!(from_bytes(&[b]), err(ErrorKind::UnknownTag));
    }
    assert_eq!(from_bytes(&[127]), err(ErrorKind::UnexpectedTerminator));
    assert_eq!(from_bytes(&[58]), err(ErrorKind::UnexpectedTerminator));
    assert_eq!(from_bytes(&[193, 127]), err(ErrorKind::UnexpectedTerminator));
    assert_eq!(from_bytes(&[60, 1, 127]), err(ErrorKind::UnexpectedTerminator));
}

#[test]
fn open_collections_are_read_whatever_their_length() {
    assert_eq!(from_bytes(&[59, 127]), Ok(Value::List(vec![])));
    assert_eq!(from_bytes(&[59, 1, 59, 127, 127]), Ok(Value::List(vec![Value::Int8(1), Value::List(vec![])])));
    assert_eq!(from_bytes(&[60, 127]), Ok(Value::Dict(vec![])));
    assert_eq!(
        from_bytes(&[60, 1, 67, 127]),
        Ok(Value::Dict(vec![(Value::Int8(1), Value::Bool(true))]))
    );
}

#[test]
fn classification_table() {
    assert_eq!(classify(0), TagKind::PosInt(0));
    assert_eq!(classify(43), TagKind::PosInt(43));
    assert_eq!(classify(44), TagKind::Float64);
    for b in 45u8..=48 {
        assert_eq!(classify(b), TagKind::Reserved);
    }
    assert_eq!(classify(49), TagKind::Digit(1));
    assert_eq!(classify(57), TagKind::Digit(9));
    assert_eq!(classify(58), TagKind::LenTerminator);
    assert_eq!(classify(59), TagKind::OpenList);
    assert_eq!(classify(60), TagKind::OpenDict);
    assert_eq!(classify(61), TagKind::BigInt);
    assert_eq!(classify(62), TagKind::FixedInt(1));
    assert_eq!(classify(63), TagKind::FixedInt(2));
    assert_eq!(classify(64), TagKind::FixedInt(4));
    assert_eq!(classify(65), TagKind::FixedInt(8));
    assert_eq!(classify(66), TagKind::Float32);
    assert_eq!(classify(67), TagKind::True);
    assert_eq!(classify(68), TagKind::False);
    assert_eq!(classify(69), TagKind::Null);
    assert_eq!(classify(70), TagKind::NegInt(-1));
    assert_eq!(classify(101), TagKind::NegInt(-32));
    assert_eq!(classify(102), TagKind::FixedDict(0));
    assert_eq!(classify(126), TagKind::FixedDict(24));
    assert_eq!(classify(127), TagKind::Terminator);
    assert_eq!(classify(128), TagKind::FixedStr(0));
    assert_eq!(classify(191), TagKind::FixedStr(63));
    assert_eq!(classify(192), TagKind::FixedList(0));
    assert_eq!(classify(255), TagKind::FixedList(63));
}

#[test]
fn one_byte_of_lookahead_suffices() {
    let data = [67u8, 69, 5];
    let mut d = RencodeDeserializer::new(&data);
    assert_eq!(d.next_unit(), Ok(None));
    assert_eq!(d.next_i8(), Ok(None));
    assert_eq!(d.next_bool(), Ok(Some(true)));
    assert_eq!(d.next_bool(), Ok(None));
    assert_eq!(d.next_unit(), Ok(Some(())));
    assert_eq!(d.next_bytes(), Ok(None));
    assert_eq!(d.next_fixed_seq(), Ok(None));
    assert_eq!(d.next_fixed_map(), Ok(None));
    assert_eq!(d.next_terminated_seq(), Ok(None));
    assert_eq!(d.next_terminated_map(), Ok(None));
    assert_eq!(d.next_i16(), Ok(None));
    assert_eq!(d.next_i32(), Ok(None));
    assert_eq!(d.next_i64(), Ok(None));
    assert_eq!(d.next_f32(), Ok(None));
    assert_eq!(d.next_f64(), Ok(None));
    assert!(!d.at_end());
    assert_eq!(d.next_i8(), Ok(Some(5)));
    assert!(d.at_end());
    assert_eq!(d.next_unit(), Err(Error::new(ErrorKind::UnexpectedEndOfInput)));
}

#[test]
fn a_byte_handed_back_is_read_again() {
    let data = [1u8, 2, 3];
    let mut d = RencodeDeserializer::new(&data);
    assert_eq!(d.next_byte(), Ok(1));
    d.go_back(9);
    assert_eq!(d.read_exact(3), Ok(vec![9, 2, 3]));
    assert!(d.at_end());
    assert_eq!(d.next_byte(), Err(Error::new(ErrorKind::UnexpectedEndOfInput)));
    let mut d = RencodeDeserializer::new(&data);
    assert_eq!(d.read_exact(4), Err(Error::new(ErrorKind::UnexpectedEndOfInput)));
    assert_eq!(d.read_exact(0), Ok(vec![]));
    assert_eq!(d.read_exact(2), Ok(vec![1, 2]));
    assert_eq!(d.next_byte(), Ok(3));
}

#[test]
fn tokens_of_each_kind() {
    let data = [194u8, 104, 59, 60, 130, b'o', b'k', 63, 0, 7];
    let mut d = RencodeDeserializer::new(&data);
    assert_eq!(d.deserialize_any(), Ok(Token::FixedSeq(2)));
    assert_eq!(d.deserialize_any(), Ok(Token::FixedMap(2)));
    assert_eq!(d.deserialize_any(), Ok(Token::OpenSeq));
    assert_eq!(d.deserialize_any(), Ok(Token::OpenMap));
    assert_eq!(d.deserialize_any(), Ok(Token::Scalar(Value::Bytes(b"ok".to_vec()))));
    assert_eq!(d.deserialize_any(), Ok(Token::Scalar(Value::Int16(7))));
    assert_eq!(d.deserialize_any(), Err(Error::new(ErrorKind::UnexpectedEndOfInput)));
}

#[test]
fn fixed_access_counts_down() {
    let mut seq = FixedSeq::new(2);
    assert!(seq.next_element());
    assert!(seq.next_element());
    assert!(!seq.next_element());
    assert!(!seq.next_element());

    let mut map = FixedMap::new(1);
    assert_eq!(map.state, MapState::ExpectKey);
    assert!(map.next_key());
    assert_eq!(map.state, MapState::ExpectValue);
    map.next_value();
    assert_eq!(map.state, MapState::ExpectKey);
    assert_eq!(map.remaining, 0);
    assert!(!map.next_key());
}

#[test]
fn open_access_peeks_for_the_terminator() {
    let data = [5u8, 127, 6, 7, 127];
    let mut d = RencodeDeserializer::new(&data);
    let mut seq = TerminatedSeq::new();
    assert_eq!(seq.next_element(&mut d), Ok(true));
    assert_eq!(d.deserialize_value(), Ok(Value::Int8(5)));
    assert_eq!(seq.next_element(&mut d), Ok(false));
    let mut map = TerminatedMap::new();
    assert_eq!(map.next_key(&mut d), Ok(true));
    assert_eq!(map.state, MapState::ExpectValue);
    assert_eq!(d.deserialize_value(), Ok(Value::Int8(6)));
    map.next_value();
    assert_eq!(d.deserialize_value(), Ok(Value::Int8(7)));
    assert_eq!(map.next_key(&mut d), Ok(false));
    assert_eq!(map.state, MapState::ExpectKey);
    assert_eq!(map.next_key(&mut d), Err(Error::new(ErrorKind::UnexpectedEndOfInput)));
}

#[test]
fn serializer_frames() {
    let mut s = RencodeSerializer::new(Vec::new());
    s.serialize_tuple(2);
    assert_eq!(s.frames, vec![Frame::FixedCount(2)]);
    s.serialize_struct(30);
    assert_eq!(s.frames, vec![Frame::FixedCount(2), Frame::Open]);
    s.serialize_str("k");
    s.serialize_none();
    s.end();
    s.serialize_bool(false);
    s.end();
    assert!(s.frames.is_empty());
    assert_eq!(s.into_bytes(), vec![194, 60, 129, b'k', 69, 127, 68]);
}

#[test]
fn serializer_refuses_what_the_format_cannot_hold() {
    let mut s = RencodeSerializer::new(Vec::new());
    assert_eq!(s.serialize_u64(u64::MAX), Err(Error::new(ErrorKind::UnsupportedValue)));
    assert_eq!(s.serialize_u64(1 << 63), Err(Error::new(ErrorKind::UnsupportedValue)));
    assert_eq!(s.serialize_seq(None), Err(Error::new(ErrorKind::UnsupportedValue)));
    assert_eq!(s.serialize_map(None), Err(Error::new(ErrorKind::UnsupportedValue)));
    assert!(s.out.is_empty());
    assert_eq!(s.serialize_u64(i64::MAX as u64), Ok(()));
    assert_eq!(s.serialize_seq(Some(0)), Ok(()));
    assert_eq!(s.serialize_map(Some(1)), Ok(()));
    assert_eq!(
        s.into_bytes(),
        vec![65, 0x7F, 0xFF, 0xFF, 0xFF, 0xFF, 0xFF, 0xFF, 0xFF, 192, 103]
    );
}

#[test]
fn raw_writes() {
    let mut s = RencodeSerializer::new(vec![9]);
    s.write_u8(200);
    s.write_i8(-1);
    s.write_i8(5);
    s.write_i16(-2);
    s.write_i32(0x0A0B0C0D);
    s.write_i64(-3);
    s.write_f32(0x01020304);
    s.write_f64(0x0102030405060708);
    s.write_all(&[7, 8]);
    assert_eq!(
        s.into_bytes(),
        vec![
            9, 200, 255, 5, 0xFF, 0xFE, 0x0A, 0x0B, 0x0C, 0x0D, 255, 255, 255, 255, 255, 255, 255,
            253, 1, 2, 3, 4, 1, 2, 3, 4, 5, 6, 7, 8, 7, 8
        ]
    );
}

#[test]
fn to_writer_appends() {
    let mut out = vec![1u8, 2];
    assert_eq!(to_writer(&mut out, &Value::List(vec![Value::Unit])), Ok(()));
    assert_eq!(out, vec![1, 2, 193, 69]);
}

#[test]
fn error_messages() {
    assert_eq!(Error::new(ErrorKind::TrailingBytes).message(), "too many bytes");
    assert_eq!(Error::new(ErrorKind::UnexpectedEndOfInput).message(), "unexpected end of input");
    assert_eq!(Error::new(ErrorKind::UnknownTag).kind(), ErrorKind::UnknownTag);
    assert_ne!(
        Error::new(ErrorKind::UnsupportedBigInt).message(),
        Error::new(ErrorKind::UnsupportedValue).message()
    );
    assert_ne!(
        Error::new(ErrorKind::InvalidLengthDigits).message(),
        Error::new(ErrorKind::UnexpectedTerminator).message()
    );
}

#[test]
fn optional_values() {
    let data = [69u8, 5, 59, 127];
    let mut d = RencodeDeserializer::new(&data);
    assert_eq!(d.deserialize_option(), Ok(None));
    assert_eq!(d.deserialize_option(), Ok(Some(Value::Int8(5))));
    assert_eq!(d.deserialize_option(), Ok(Some(Value::List(vec![]))));
    assert_eq!(d.deserialize_option(), Err(Error::new(ErrorKind::UnexpectedEndOfInput)));

    let mut s = RencodeSerializer::new(Vec::new());
    s.serialize_none();
    s.serialize_some(&Value::Int16(1));
    s.serialize_some(&Value::Unit);
    assert_eq!(s.into_bytes(), vec![69, 63, 0, 1, 69]);
}

#[test]
fn a_record_is_a_dictionary_of_its_fields() {
    let mut s = RencodeSerializer::new(Vec::new());
    s.serialize_struct(2);
    s.serialize_field("id", &Value::Int32(7));
    s.serialize_field("ok", &Value::Bool(true));
    s.end();
    let bytes = s.into_bytes();
    assert_eq!(bytes, vec![104, 130, b'i', b'd', 64, 0, 0, 0, 7, 130, b'o', b'k', 67]);
    assert_eq!(
        from_bytes(&bytes),
        Ok(Value::Dict(vec![
            (Value::Bytes(b"id".to_vec()), Value::Int32(7)),
            (Value::Bytes(b"ok".to_vec()), Value::Bool(true)),
        ]))
    );
}

#[test]
fn bytes_are_shown_as_text_where_they_are_utf8() {
    assert_eq!(present(b"hi".to_vec()), Payload::Text("hi".to_string()));
    assert_eq!(present(vec![]), Payload::Text(String::new()));
    assert_eq!(present("h\u{e9}".as_bytes().to_vec()), Payload::Text("h\u{e9}".to_string()));
    assert_eq!(present(vec![0xFF, 0x00]), Payload::Raw(vec![0xFF, 0x00]));
    assert_eq!(present(vec![0xC3]), Payload::Raw(vec![0xC3]));
}

#[test]
fn the_register_holds_a_byte_only_after_a_mismatch() {
    let data = [67u8, 101, 130, b'o', b'k', 63, 0, 7, 127];
    let mut d = RencodeDeserializer::new(&data);
    assert_eq!(d.pending_byte(), None);
    assert_eq!(d.next_unit(), Ok(None));
    assert_eq!(d.pending_byte(), Some(67));
    assert_eq!(d.next_fixed_seq(), Ok(None));
    assert_eq!(d.pending_byte(), Some(67));
    assert_eq!(d.next_fixed_map(), Ok(None));
    assert_eq!(d.pending_byte(), Some(67));
    assert_eq!(d.next_terminated_seq(), Ok(None));
    assert_eq!(d.pending_byte(), Some(67));
    assert_eq!(d.next_bool(), Ok(Some(true)));
    assert_eq!(d.pending_byte(), None);
    assert_eq!(d.next_bool(), Ok(None));
    assert_eq!(d.pending_byte(), Some(101));
    assert_eq!(d.next_i8(), Ok(Some(-32)));
    assert_eq!(d.pending_byte(), None);
    assert_eq!(d.next_i16(), Ok(None));
    assert_eq!(d.pending_byte(), Some(130));
    assert_eq!(d.next_bytes(), Ok(Some(b"ok".to_vec())));
    assert_eq!(d.pending_byte(), None);
    assert_eq!(d.deserialize_any(), Ok(Token::Scalar(Value::Int16(7))));
    assert_eq!(d.pending_byte(), None);
    let mut seq = TerminatedSeq::new();
    assert_eq!(seq.next_element(&mut d), Ok(false));
    assert_eq!(d.pending_byte(), None);
    assert_eq!(seq.next_element(&mut d), Err(Error::new(ErrorKind::UnexpectedEndOfInput)));
    assert_eq!(d.pending_byte(), None);
}

#[test]
fn reading_bytes_empties_the_register() {
    let data = [1u8, 2, 3];
    let mut d = RencodeDeserializer::new(&data);
    d.go_back(9);
    assert_eq!(d.read_exact(0), Ok(vec![]));
    assert_eq!(d.pending_byte(), Some(9));
    assert_eq!(d.read_exact(5), Err(Error::new(ErrorKind::UnexpectedEndOfInput)));
    assert_eq!(d.pending_byte(), Some(9));
    assert_eq!(d.read_exact(2), Ok(vec![9, 1]));
    assert_eq!(d.pending_byte(), None);

    let list = [5u8, 6];
    let mut d = RencodeDeserializer::new(&list);
    d.go_back(4);
    assert_eq!(d.read_items(0), Ok(vec![]));
    assert_eq!(d.pending_byte(), Some(4));
    assert_eq!(d.read_items(2), Ok(vec![Value::Int8(4), Value::Int8(5)]));
    assert_eq!(d.pending_byte(), None);
    assert_eq!(d.read_entries(0), Ok(vec![]));
    assert_eq!(d.pending_byte(), None);
}
