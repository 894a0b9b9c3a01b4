use bencode::bencoding::decode;
use bencode::bencoding::decode_text;
use bencode::bencoding::Bencode;
use bencode::bencoding::Decoder;
use bencode::bencoding::ParseError;

#[test]
fn test_decode_str() {
    let mut decoder = Decoder::new(b"4:spam");
    let result = decoder.decode().unwrap();
    assert_eq!(result, Bencode::Str("spam".into()));
}

#[test]
fn test_decode_invalid_str() {
    let invalid_utf8: Vec<u8> = vec![0xF0, 0x28, 0x8C, 0xBC];
    let mut decoder = Decoder::new(&invalid_utf8);
    let result = decoder.decode();
    assert_eq!(result, Err(ParseError::InvalidByte(0)));
}

#[test]
fn test_decode_int() {
    let mut decoder = Decoder::new(b"i42e");
    let result = decoder.decode().unwrap();
    assert_eq!(result, Bencode::Int(42));
}

#[test]
fn test_decode_negative_int() {
    let mut decoder = Decoder::new(b"i-42e");
    let result = decoder.decode().unwrap();
    assert_eq!(result, Bencode::Int(-42));
}

#[test]
fn test_decode_invalid_int() {
    let mut decoder = Decoder::new(b"iae");
    let result = decoder.decode();
    assert_eq!(result, Err(ParseError::InvalidByte(1)));
}

#[test]
fn test_decode_list() {
    let mut decoder = Decoder::new(b"l4:spam4:eggse");
    let result = decoder.decode().unwrap();
    assert_eq!(
        result,
        Bencode::List(vec![
            Bencode::Str("spam".into()),
            Bencode::Str("eggs".into())
        ])
    );
}

#[test]
fn test_decode_dict() {
    let mut decoder = Decoder::new(b"d3:cow3:moo4:spam4:eggse");
    let result = decoder.decode().unwrap();
    let expected_dict = vec![
        ("cow".to_string(), Bencode::Str("moo".into())),
        ("spam".to_string(), Bencode::Str("eggs".into())),
    ];
    assert_eq!(result, Bencode::Dict(expected_dict));
}

#[test]
fn test_decode_duplicate_keys_last_wins() {
    let result = decode(b"d1:a1:x1:a1:ye").unwrap();
    let expected = vec![("a".to_string(), Bencode::Str("y".into()))];
    assert_eq!(result, Bencode::Dict(expected));
}

#[test]
fn test_decode_twice_yields_equal_trees() {
    let buffer: &[u8] = b"d3:cow3:moo4:spaml4:eggsi7eee";
    let first = decode(buffer);
    let second = decode(buffer);
    assert_eq!(first, second);
}

#[test]
fn test_decode_string_exact_bytes() {
    let result = decode(b"10:0123456789").unwrap();
    assert_eq!(result, Bencode::Str("0123456789".into()));
}

#[test]
fn test_decode_string_leading_zero_length() {
    let result = decode(b"04:spam").unwrap();
    assert_eq!(result, Bencode::Str("spam".into()));
}

#[test]
fn test_decode_empty_string() {
    let result = decode(b"0:").unwrap();
    assert_eq!(result, Bencode::Str(Vec::new()));
}

#[test]
fn test_decode_string_too_long_fails() {
    assert_eq!(decode(b"4:spa"), Err(ParseError::UnexpectedEndOfStream));
    assert_eq!(decode(b"10:abc"), Err(ParseError::UnexpectedEndOfStream));
}

#[test]
fn test_decode_empty_buffer() {
    assert_eq!(decode(b""), Err(ParseError::UnexpectedEndOfStream));
}

#[test]
fn test_decode_truncated_integer() {
    assert_eq!(decode(b"i42"), Err(ParseError::UnexpectedEndOfStream));
    assert_eq!(decode(b"i"), Err(ParseError::UnexpectedEndOfStream));
}

#[test]
fn test_decode_truncated_list() {
    assert_eq!(decode(b"l"), Err(ParseError::UnexpectedEndOfStream));
    assert_eq!(decode(b"l4:spam"), Err(ParseError::UnexpectedEndOfStream));
}

#[test]
fn test_decode_truncated_dict() {
    assert_eq!(decode(b"d"), Err(ParseError::UnexpectedEndOfStream));
    assert_eq!(decode(b"d3:cow"), Err(ParseError::UnexpectedEndOfStream));
}

#[test]
fn test_decode_empty_integer_body_is_zero() {
    assert_eq!(decode(b"ie"), Ok(Bencode::Int(0)));
    assert_eq!(decode(b"i-e"), Ok(Bencode::Int(0)));
    assert_eq!(decode(b"i-0e"), Ok(Bencode::Int(0)));
}

#[test]
fn test_decode_integer_wraps_on_overflow() {
    assert_eq!(
        decode(b"i9223372036854775808e"),
        Ok(Bencode::Int(i64::MIN))
    );
    assert_eq!(
        decode(b"i-9223372036854775808e"),
        Ok(Bencode::Int(i64::MIN))
    );
}

#[test]
fn test_decode_nested_structures() {
    let result = decode(b"ll4:spami3eed1:kli1eeee").unwrap();
    assert_eq!(
        result,
        Bencode::List(vec![
            Bencode::List(vec![Bencode::Str("spam".into()), Bencode::Int(3)]),
            Bencode::Dict(vec![(
                "k".to_string(),
                Bencode::List(vec![Bencode::Int(1)])
            )]),
        ])
    );
}

#[test]
fn test_decode_trailing_bytes_ignored() {
    assert_eq!(decode(b"i7etrailing"), Ok(Bencode::Int(7)));
}

#[test]
fn test_decoder_cursor_stops_where_error_detected() {
    let mut decoder = Decoder::new(b"4:sp");
    assert_eq!(decoder.decode(), Err(ParseError::UnexpectedEndOfStream));
    assert_eq!(decoder.decode(), Err(ParseError::InvalidByte(2)));
}

#[test]
fn test_decoder_cursor_stops_at_invalid_byte() {
    let mut decoder = Decoder::new(b"iae");
    assert_eq!(decoder.decode(), Err(ParseError::InvalidByte(1)));
    assert_eq!(decoder.decode(), Err(ParseError::InvalidByte(1)));
}

#[test]
fn test_decoder_cursor_advances_per_value() {
    let mut decoder = Decoder::new(b"i1e4:spam");
    assert_eq!(decoder.decode(), Ok(Bencode::Int(1)));
    assert_eq!(decoder.decode(), Ok(Bencode::Str("spam".into())));
    assert_eq!(decoder.decode(), Err(ParseError::UnexpectedEndOfStream));
}

#[test]
fn test_decode_dict_key_not_utf8() {
    let stream: Vec<u8> = vec![b'd', b'2', b':', 0xFF, 0xFE, b'1', b':', b'a', b'e'];
    assert_eq!(decode(&stream), Err(ParseError::InvalidUtf8));
}

#[test]
fn test_decode_dict_key_utf8_checked_before_value() {
    let stream: Vec<u8> = vec![b'd', b'2', b':', 0xFF, 0xFE, b'i', b'x', b'e', b'e'];
    assert_eq!(decode(&stream), Err(ParseError::InvalidUtf8));
}

#[test]
fn test_decode_text_rejects_non_utf8_string_value() {
    let stream: Vec<u8> = vec![b'4', b':', 0xF0, 0x28, 0x8C, 0xBC];
    assert_eq!(decode_text(&stream), Err(ParseError::InvalidUtf8));
    assert_eq!(
        decode(&stream),
        Ok(Bencode::Str(vec![0xF0, 0x28, 0x8C, 0xBC]))
    );
}

#[test]
fn test_decode_text_bare_invalid_utf8_is_invalid_byte() {
    let stream: Vec<u8> = vec![0xF0, 0x28, 0x8C, 0xBC];
    assert_eq!(decode_text(&stream), Err(ParseError::InvalidByte(0)));
    assert_eq!(decode(&stream), Err(ParseError::InvalidByte(0)));
}

#[test]
fn test_decode_text_accepts_utf8_strings() {
    let result = decode_text("l4:spam8:\u{00e9}clairse".as_bytes()).unwrap();
    assert_eq!(
        result,
        Bencode::List(vec![
            Bencode::Str("spam".into()),
            Bencode::Str("\u{00e9}clairs".into()),
        ])
    );
}

#[test]
fn test_decode_dict_empty_key() {
    let result = decode(b"d0:i1ee").unwrap();
    assert_eq!(
        result,
        Bencode::Dict(vec![(String::new(), Bencode::Int(1))])
    );
}

#[test]
fn test_as_int() {
    assert_eq!(Bencode::Int(5).as_int(), Some(5));
    assert_eq!(Bencode::Str("a".into()).as_int(), None);
}

#[test]
fn test_as_bytes() {
    let bytes: Vec<u8> = b"abc".to_vec();
    let value = Bencode::Str(b"abc".to_vec());
    assert_eq!(value.as_bytes(), Some(&bytes));
    assert_eq!(Bencode::Int(1).as_bytes(), None);
}

#[test]
fn test_as_list() {
    let items = vec![Bencode::Int(1), Bencode::Int(2)];
    let value = Bencode::List(vec![Bencode::Int(1), Bencode::Int(2)]);
    assert_eq!(value.as_list(), Some(&items));
    assert_eq!(Bencode::Int(1).as_list(), None);
}

#[test]
fn test_as_dict() {
    let entries = vec![("k".to_string(), Bencode::Int(1))];
    let value = Bencode::Dict(vec![("k".to_string(), Bencode::Int(1))]);
    assert_eq!(value.as_dict(), Some(&entries));
    assert_eq!(Bencode::Int(1).as_dict(), None);
}
