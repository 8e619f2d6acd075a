use bittorrent::bencode::{parse_bencode, write_bytes, write_uint, BValue, BencodeError};
use bittorrent::decode::{decode_bencoded_value, DecodeError, Json};

fn parse(s: &[u8]) -> Result<(BValue, usize), BencodeError> {
    parse_bencode(s)
}

#[test]
fn integers() {
    assert_eq!(parse(b"i42e"), Ok((BValue::Int(42), 4)));
    assert_eq!(parse(b"i-3e"), Ok((BValue::Int(-3), 4)));
    assert_eq!(parse(b"i+5e"), Ok((BValue::Int(5), 4)));
    assert_eq!(parse(b"i007e"), Ok((BValue::Int(7), 5)));
    assert_eq!(parse(b"i-0e"), Ok((BValue::Int(0), 4)));
    assert_eq!(parse(b"i9223372036854775807e"), Ok((BValue::Int(i64::MAX), 21)));
    assert_eq!(parse(b"i-9223372036854775808e"), Ok((BValue::Int(i64::MIN), 22)));
    assert_eq!(parse(b"i9223372036854775808e"), Err(BencodeError::Invalid));
    assert_eq!(parse(b"i-9223372036854775809e"), Err(BencodeError::Invalid));
    assert_eq!(parse(b"ie"), Err(BencodeError::Invalid));
    assert_eq!(parse(b"i-e"), Err(BencodeError::Invalid));
    assert_eq!(parse(b"i1x2e"), Err(BencodeError::Invalid));
    assert_eq!(parse(b"i12"), Err(BencodeError::Invalid));
}

#[test]
fn byte_strings() {
    assert_eq!(parse(b"4:spam"), Ok((BValue::Bytes(b"spam".to_vec()), 6)));
    assert_eq!(parse(b"0:"), Ok((BValue::Bytes(Vec::new()), 2)));
    assert_eq!(parse(b"03:abcd"), Ok((BValue::Bytes(b"abc".to_vec()), 6)));
    assert_eq!(parse(b"4:abc"), Err(BencodeError::Invalid));
    assert_eq!(parse(b"4abc"), Err(BencodeError::Invalid));
    assert_eq!(parse(b"1a:b"), Err(BencodeError::Invalid));
    assert_eq!(parse(b"99999999999999999999999:x"), Err(BencodeError::Invalid));
}

#[test]
fn lists_and_dictionaries() {
    assert_eq!(
        parse(b"l4:spami42ee"),
        Ok((BValue::List(vec![BValue::Bytes(b"spam".to_vec()), BValue::Int(42)]), 12))
    );
    assert_eq!(parse(b"le"), Ok((BValue::List(Vec::new()), 2)));
    assert_eq!(
        parse(b"d3:cow3:moo4:spam4:eggse"),
        Ok((
            BValue::Dict(vec![
                (b"cow".to_vec(), BValue::Bytes(b"moo".to_vec())),
                (b"spam".to_vec(), BValue::Bytes(b"eggs".to_vec())),
            ]),
            24
        ))
    );
    assert_eq!(parse(b"l"), Err(BencodeError::Invalid));
    assert_eq!(parse(b"d3:cowe"), Err(BencodeError::Invalid));
    assert_eq!(parse(b"di1ei2ee"), Err(BencodeError::Invalid));
    assert_eq!(parse(b"e"), Err(BencodeError::Invalid));
    assert_eq!(parse(b""), Err(BencodeError::Invalid));
    assert_eq!(parse(b"x"), Err(BencodeError::Invalid));
}

#[test]
fn repeated_keys_keep_the_last_value() {
    assert_eq!(
        parse(b"d1:ai1e1:bi2e1:ai3ee"),
        Ok((
            BValue::Dict(vec![(b"a".to_vec(), BValue::Int(3)), (b"b".to_vec(), BValue::Int(2))]),
            20
        ))
    );
}

#[test]
fn keys_may_be_lists_of_bytes() {
    assert_eq!(
        parse(b"dli97ei98eei1ee"),
        Ok((BValue::Dict(vec![(b"ab".to_vec(), BValue::Int(1))]), 15))
    );
    assert_eq!(parse(b"dli256eei1ee"), Err(BencodeError::Invalid));
    assert_eq!(parse(b"dl1:aei1ee"), Err(BencodeError::Invalid));
}

#[test]
fn trailing_bytes_are_ignored() {
    assert_eq!(parse(b"i1ei2e"), Ok((BValue::Int(1), 3)));
    assert_eq!(parse(b"1:ab"), Ok((BValue::Bytes(b"a".to_vec()), 3)));
}

#[test]
fn decode_to_json() {
    assert_eq!(decode_bencoded_value(b"5:hello"), Ok(Json::String("hello".to_string())));
    assert_eq!(decode_bencoded_value(b"i-52e"), Ok(Json::Number(-52)));
    assert_eq!(
        decode_bencoded_value(b"l5:helloi52ee"),
        Ok(Json::Array(vec![Json::String("hello".to_string()), Json::Number(52)]))
    );
    assert_eq!(
        decode_bencoded_value(b"d3:foo3:bar5:helloi52ee"),
        Ok(Json::Object(vec![
            ("foo".to_string(), Json::String("bar".to_string())),
            ("hello".to_string(), Json::Number(52)),
        ]))
    );
    assert_eq!(
        decode_bencoded_value("5:\u{e9}t\u{e9}".as_bytes()),
        Ok(Json::String("\u{e9}t\u{e9}".to_string()))
    );
}

#[test]
fn decode_errors() {
    assert_eq!(decode_bencoded_value(b"2:\xff\xfe"), Err(DecodeError::Json));
    assert_eq!(decode_bencoded_value(b"l1:a1:\xffe"), Err(DecodeError::Json));
    assert_eq!(decode_bencoded_value(b"d1:\xffi1ee"), Err(DecodeError::Utf8));
    assert_eq!(decode_bencoded_value(b"d1:a1:\xffe"), Err(DecodeError::Json));
    assert_eq!(decode_bencoded_value(b"i5"), Err(DecodeError::Bencode(BencodeError::Invalid)));
}

#[test]
fn truncated_text_is_not_utf8() {
    assert_eq!(decode_bencoded_value("4:\u{e9}t\u{e9}".as_bytes()), Err(DecodeError::Json));
}

#[test]
fn written_values_read_back() {
    let mut out = b"l".to_vec();
    write_uint(0, &mut out);
    write_uint(u64::MAX / 2, &mut out);
    write_bytes(b"", &mut out);
    write_bytes(b"e:i", &mut out);
    out.push(b'e');
    assert_eq!(out, b"li0ei9223372036854775807e0:3:e:ie".to_vec());
    assert_eq!(
        parse(&out),
        Ok((
            BValue::List(vec![
                BValue::Int(0),
                BValue::Int(i64::MAX),
                BValue::Bytes(Vec::new()),
                BValue::Bytes(b"e:i".to_vec()),
            ]),
            out.len()
        ))
    );
}
