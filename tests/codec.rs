use bittorrent::bytes::{compare_bytes, BEStr};
use bittorrent::decode::{decode_bencoded_value, decode_with_max_depth, DecodeError};
use bittorrent::encode::{encode, encode_int, encode_str};
use bittorrent::value::{BEDict, BEncodedData};

fn decode_ok(input: &[u8]) -> (usize, BEncodedData) {
    match decode_bencoded_value(input) {
        Ok(r) => r,
        Err(e) => panic!("decode failed: {:?}", e),
    }
}

fn decode_err(input: &[u8]) -> DecodeError {
    match decode_bencoded_value(input) {
        Ok((n, v)) => panic!("decoded {:?} ({} bytes)", v, n),
        Err(e) => e,
    }
}

fn as_num(v: &BEncodedData) -> i64 {
    match v {
        BEncodedData::Num(n) => *n,
        other => panic!("not an integer: {:?}", other),
    }
}

fn as_bytes(v: &BEncodedData) -> Vec<u8> {
    match v {
        BEncodedData::ByteStr(s) => s.as_bytes().to_vec(),
        other => panic!("not a byte string: {:?}", other),
    }
}

#[test]
fn decode_exact_offset() {
    let input = b"i52e3:abc";
    let (n, v) = decode_ok(input);
    assert_eq!(n, 4);
    assert_eq!(as_num(&v), 52);
    let (m, rest) = decode_ok(&input[n..]);
    assert_eq!(m, 5);
    assert_eq!(as_bytes(&rest), b"abc".to_vec());
}

#[test]
fn decode_string() {
    let (n, v) = decode_ok(b"4:spam");
    assert_eq!(n, 6);
    assert_eq!(as_bytes(&v), b"spam".to_vec());
    let (n, v) = decode_ok(b"0:");
    assert_eq!(n, 2);
    assert_eq!(as_bytes(&v), Vec::<u8>::new());
}

#[test]
fn decode_string_with_raw_bytes() {
    let input = [b'3', b':', 0xff, 0x00, 0x80];
    let (n, v) = decode_ok(&input);
    assert_eq!(n, 5);
    assert_eq!(as_bytes(&v), vec![0xff, 0x00, 0x80]);
}

#[test]
fn decode_negative_integer() {
    let (n, v) = decode_ok(b"i-42e");
    assert_eq!(n, 5);
    assert_eq!(as_num(&v), -42);
}

#[test]
fn decode_integer_limits() {
    assert_eq!(as_num(&decode_ok(b"i0e").1), 0);
    assert_eq!(as_num(&decode_ok(b"i9223372036854775807e").1), i64::MAX);
    assert_eq!(as_num(&decode_ok(b"i-9223372036854775808e").1), i64::MIN);
    assert_eq!(decode_err(b"i9223372036854775808e"), DecodeError::MalformedInteger(0));
    assert_eq!(decode_err(b"i-9223372036854775809e"), DecodeError::MalformedInteger(0));
    assert_eq!(decode_err(b"i99999999999999999999999e"), DecodeError::MalformedInteger(0));
}

#[test]
fn decode_list() {
    let (n, v) = decode_ok(b"l4:spam4:eggse");
    assert_eq!(n, 14);
    match v {
        BEncodedData::List(items) => {
            assert_eq!(items.len(), 2);
            assert_eq!(as_bytes(&items[0]), b"spam".to_vec());
            assert_eq!(as_bytes(&items[1]), b"eggs".to_vec());
        }
        other => panic!("not a list: {:?}", other),
    }
}

#[test]
fn decode_empty_list_and_dict() {
    let (n, v) = decode_ok(b"le");
    assert_eq!(n, 2);
    assert!(matches!(v, BEncodedData::List(ref l) if l.is_empty()));
    let (n, v) = decode_ok(b"de");
    assert_eq!(n, 2);
    assert!(matches!(v, BEncodedData::Dict(ref d) if d.len() == 0));
}

fn dict_pairs(v: &BEncodedData) -> Vec<(Vec<u8>, Vec<u8>)> {
    match v {
        BEncodedData::Dict(d) => {
            let mut out = Vec::new();
            for i in 0..d.len() {
                let (k, val) = d.entry(i);
                out.push((k.as_bytes().to_vec(), as_bytes(val)));
            }
            out
        }
        other => panic!("not a dictionary: {:?}", other),
    }
}

#[test]
fn decode_dict_canonical_order() {
    let expected = vec![
        (b"cow".to_vec(), b"moo".to_vec()),
        (b"spam".to_vec(), b"eggs".to_vec()),
    ];
    let (n, v) = decode_ok(b"d3:cow3:moo4:spam4:eggse");
    assert_eq!(n, 24);
    assert_eq!(dict_pairs(&v), expected);
    let (n, v) = decode_ok(b"d4:spam4:eggs3:cow3:mooe");
    assert_eq!(n, 24);
    assert_eq!(dict_pairs(&v), expected);
}

#[test]
fn decode_dict_lookup() {
    let (_, v) = decode_ok(b"d3:cow3:moo4:spam4:eggse");
    match v {
        BEncodedData::Dict(d) => {
            assert_eq!(as_bytes(d.get(b"spam").unwrap()), b"eggs".to_vec());
            assert!(d.get(b"pig").is_none());
        }
        other => panic!("not a dictionary: {:?}", other),
    }
}

#[test]
fn decode_malformed_integer() {
    assert_eq!(decode_err(b"i e"), DecodeError::MalformedInteger(0));
    assert_eq!(decode_err(b"ie"), DecodeError::MalformedInteger(0));
    assert_eq!(decode_err(b"i12"), DecodeError::MalformedInteger(0));
    assert_eq!(decode_err(b"i-e"), DecodeError::MalformedInteger(0));
}

#[test]
fn decode_non_canonical_integer() {
    assert_eq!(decode_err(b"i03e"), DecodeError::MalformedInteger(0));
    assert_eq!(decode_err(b"i-0e"), DecodeError::MalformedInteger(0));
    assert_eq!(decode_err(b"i-03e"), DecodeError::MalformedInteger(0));
}

#[test]
fn decode_truncated_string() {
    assert_eq!(decode_err(b"5:ab"), DecodeError::Truncated(0));
    assert_eq!(decode_err(b"5ab"), DecodeError::Truncated(0));
    assert_eq!(decode_err(b"99999999999999999999999:ab"), DecodeError::Truncated(0));
}

#[test]
fn decode_truncated_containers() {
    assert_eq!(decode_err(b""), DecodeError::Truncated(0));
    assert_eq!(decode_err(b"l4:spam"), DecodeError::Truncated(7));
    assert_eq!(decode_err(b"d3:cow"), DecodeError::Truncated(6));
}

#[test]
fn decode_non_string_key() {
    assert_eq!(decode_err(b"di5ei10ee"), DecodeError::NonStringKey(1));
}

#[test]
fn decode_invalid_leading_byte() {
    assert_eq!(decode_err(b"x"), DecodeError::InvalidLeadingByte(0));
    assert_eq!(decode_err(b"l4:spamxe"), DecodeError::InvalidLeadingByte(7));
}

#[test]
fn decode_duplicate_key() {
    assert_eq!(decode_err(b"d1:a1:b1:a1:ce"), DecodeError::DuplicateKey(7));
}

#[test]
fn decode_max_depth() {
    assert_eq!(decode_with_max_depth(b"llee", 1).unwrap_err(), DecodeError::MaxDepthExceeded(1));
    let (n, _) = decode_with_max_depth(b"llee", 2).unwrap();
    assert_eq!(n, 4);
    assert_eq!(decode_with_max_depth(b"i1e", 0).unwrap().0, 3);
    let deep: Vec<u8> = [vec![b'l'; 65], vec![b'e'; 65]].concat();
    assert_eq!(decode_err(&deep), DecodeError::MaxDepthExceeded(64));
}

#[test]
fn encode_integers() {
    assert_eq!(encode_int(&52i64), b"i52e".to_vec());
    assert_eq!(encode_int(&0u8), b"i0e".to_vec());
    assert_eq!(encode_int(&-42i32), b"i-42e".to_vec());
    assert_eq!(encode_int(&u128::MAX), format!("i{}e", u128::MAX).into_bytes());
    assert_eq!(encode_int(&i128::MIN), format!("i{}e", i128::MIN).into_bytes());
    assert_eq!(encode_int(&usize::MAX), format!("i{}e", usize::MAX).into_bytes());
}

#[test]
fn encode_strings() {
    assert_eq!(encode_str("spam"), b"4:spam".to_vec());
    assert_eq!(encode_str(""), b"0:".to_vec());
}

#[test]
fn encode_values() {
    assert_eq!(encode(&BEncodedData::Num(-7)), b"i-7e".to_vec());
    assert_eq!(encode(&BEncodedData::ByteStr(BEStr::new(b"abc".to_vec()))), b"3:abc".to_vec());
    assert_eq!(encode(&BEncodedData::List(Vec::new())), b"le".to_vec());
    assert_eq!(encode(&BEncodedData::Empty), Vec::<u8>::new());
}

#[test]
fn encode_dict_sorts_keys() {
    let mut d = BEDict::new();
    assert!(d.insert(BEStr::new(b"spam".to_vec()), BEncodedData::ByteStr(BEStr::new(b"eggs".to_vec()))));
    assert!(d.insert(BEStr::new(b"cow".to_vec()), BEncodedData::ByteStr(BEStr::new(b"moo".to_vec()))));
    assert!(!d.insert(BEStr::new(b"cow".to_vec()), BEncodedData::Num(1)));
    assert_eq!(d.len(), 2);
    assert_eq!(encode(&BEncodedData::Dict(d)), b"d3:cow3:moo4:spam4:eggse".to_vec());
}

#[test]
fn round_trip_nested() {
    let mut inner = BEDict::new();
    inner.insert(BEStr::new(b"b".to_vec()), BEncodedData::Num(i64::MIN));
    inner.insert(BEStr::new(b"a".to_vec()), BEncodedData::List(vec![
        BEncodedData::Num(0),
        BEncodedData::ByteStr(BEStr::new(vec![0, 255, b'e'])),
        BEncodedData::List(Vec::new()),
    ]));
    let v = BEncodedData::List(vec![BEncodedData::Dict(inner), BEncodedData::Num(12345)]);
    let bytes = encode(&v);
    let mut with_tail = bytes.clone();
    with_tail.extend_from_slice(b"i1e");
    let (n, back) = decode_ok(&with_tail);
    assert_eq!(n, bytes.len());
    assert_eq!(encode(&back), bytes);
}

#[test]
fn round_trip_canonical_input() {
    let input = b"d4:infod6:lengthi-1e4:listli1ei2eee3:zzz0:e";
    let (n, v) = decode_ok(input);
    assert_eq!(n, input.len());
    assert_eq!(encode(&v), input.to_vec());
}

#[test]
fn byte_order_is_lexicographic() {
    assert_eq!(compare_bytes(b"abc", b"abd"), -1);
    assert_eq!(compare_bytes(b"ab", b"abc"), -1);
    assert_eq!(compare_bytes(b"b", b"abc"), 1);
    assert_eq!(compare_bytes(b"abc", b"abc"), 0);
    assert_eq!(compare_bytes(&[0xff], &[0x7f]), 1);
    assert_eq!(BEStr::from_slice(b"xyz").len(), 3);
}

#[test]
fn key_order_does_not_change_dict() {
    let orders: [&[u8]; 3] = [
        b"d1:ai1e1:bli2ee1:c1:xe",
        b"d1:c1:x1:ai1e1:bli2eee",
        b"d1:bli2ee1:c1:x1:ai1ee",
    ];
    let canonical = b"d1:ai1e1:bli2ee1:c1:xe".to_vec();
    for input in orders {
        let (n, v) = decode_ok(input);
        assert_eq!(n, input.len());
        assert_eq!(encode(&v), canonical);
    }
}
