use resp_kv::resp::types::RESPDatatypes;
use resp_kv::resp::deserialize::{decode, DecodeResult, Deseralize};
use resp_kv::errors::RespError;

fn bulk(s: &str) -> RESPDatatypes {
    RESPDatatypes::BufBulk(s.as_bytes().to_vec())
}

#[test]
fn encode_simple_values() {
    assert_eq!(RESPDatatypes::Null.encode(), b"_\r\n".to_vec());
    assert_eq!(RESPDatatypes::NullString.encode(), b"$-1\r\n".to_vec());
    assert_eq!(RESPDatatypes::NullArray.encode(), b"*-1\r\n".to_vec());
    assert_eq!(RESPDatatypes::Integer(42).encode(), b":42\r\n".to_vec());
    assert_eq!(RESPDatatypes::Integer(-12).encode(), b":-12\r\n".to_vec());
    assert_eq!(
        RESPDatatypes::SimpleString(b"OK".to_vec()).encode(),
        b"+OK\r\n".to_vec()
    );
    assert_eq!(
        RESPDatatypes::SimpleError(b"ERR boom".to_vec()).encode(),
        b"-ERR boom\r\n".to_vec()
    );
    assert_eq!(
        RESPDatatypes::BulkString(b"hello".to_vec()).encode(),
        b"$5\r\nhello\r\n".to_vec()
    );
    assert_eq!(
        RESPDatatypes::BufBulk(b"hello".to_vec()).encode(),
        b"$5\r\nhello\r\n".to_vec()
    );
    assert_eq!(RESPDatatypes::Boolean(true).encode(), b"#true\r\n".to_vec());
    assert_eq!(RESPDatatypes::Boolean(false).encode(), b"#false\r\n".to_vec());
    assert_eq!(
        RESPDatatypes::Double(b"3.14".to_vec()).encode(),
        b",3.14\r\n".to_vec()
    );
}

#[test]
fn encode_rdb_file_has_no_trailing_crlf() {
    assert_eq!(
        RESPDatatypes::RDBFile(b"ab".to_vec()).encode(),
        b"$2\r\nab".to_vec()
    );
}

#[test]
fn encode_array_nested() {
    let v = RESPDatatypes::Array(vec![
        bulk("foo"),
        RESPDatatypes::Integer(7),
        RESPDatatypes::Array(vec![RESPDatatypes::Null]),
    ]);
    assert_eq!(v.encode(), b"*3\r\n$3\r\nfoo\r\n:7\r\n*1\r\n_\r\n".to_vec());
}

#[test]
fn decode_round_trips_supported_values() {
    let values = vec![
        RESPDatatypes::Null,
        RESPDatatypes::NullString,
        RESPDatatypes::NullArray,
        RESPDatatypes::Integer(0),
        RESPDatatypes::Integer(-2147483648),
        RESPDatatypes::Integer(2147483647),
        RESPDatatypes::SimpleString(b"PONG".to_vec()),
        RESPDatatypes::SimpleError(b"ERR x".to_vec()),
        RESPDatatypes::Boolean(true),
        RESPDatatypes::Boolean(false),
        RESPDatatypes::Double(b"-12.5".to_vec()),
        RESPDatatypes::BufBulk(b"bin\r\nsafe".to_vec()),
        RESPDatatypes::Array(vec![bulk("SET"), bulk("k"), bulk("v")]),
        RESPDatatypes::Array(vec![RESPDatatypes::Array(vec![RESPDatatypes::Integer(1)])]),
    ];
    for v in values {
        let enc = v.encode();
        match decode(&enc) {
            DecodeResult::Value { value, consumed } => {
                assert_eq!(value, v);
                assert_eq!(consumed, enc.len());
            }
            _ => panic!("expected a decoded value"),
        }
    }
}

#[test]
fn decode_strict_prefixes_ask_for_more() {
    let values = vec![
        RESPDatatypes::Integer(1234),
        RESPDatatypes::SimpleString(b"PONG".to_vec()),
        RESPDatatypes::BufBulk(b"abc".to_vec()),
        RESPDatatypes::Array(vec![bulk("GET"), bulk("k")]),
    ];
    for v in values {
        let enc = v.encode();
        for k in 0..enc.len() {
            let prefix = enc[..k].to_vec();
            match decode(&prefix) {
                DecodeResult::NeedMore => {}
                _ => panic!("expected NeedMore on a strict prefix"),
            }
        }
    }
}

#[test]
fn decode_rejects_malformed_frames() {
    for bad in [
        b"x1\r\n".to_vec(),
        b":12a\r\n".to_vec(),
        b"$-2\r\n".to_vec(),
        b"*-3\r\n".to_vec(),
        b"#yes\r\n".to_vec(),
        b"_x\r\n".to_vec(),
        b",a.b\r\n".to_vec(),
    ] {
        match decode(&bad) {
            DecodeResult::Malformed => {}
            _ => panic!("expected Malformed"),
        }
    }
}

#[test]
fn deseralize_drains_exactly_one_value() {
    let mut buf = b":5\r\n+OK\r\n".to_vec();
    let d = Deseralize;
    let v = d.deseralize(&mut buf).unwrap();
    assert_eq!(v, RESPDatatypes::Integer(5));
    assert_eq!(buf, b"+OK\r\n".to_vec());
    let v2 = d.deseralize(&mut buf).unwrap();
    assert_eq!(v2, RESPDatatypes::SimpleString(b"OK".to_vec()));
    assert!(buf.is_empty());
    assert_eq!(d.deseralize(&mut buf), Err(RespError::UnexpectedEof));
    let mut partial = b"$3\r\nab".to_vec();
    assert_eq!(d.deseralize(&mut partial), Err(RespError::NeedMore));
    assert_eq!(partial, b"$3\r\nab".to_vec());
    let mut bad = b"!nope\r\n".to_vec();
    assert_eq!(d.deseralize(&mut bad), Err(RespError::InvalidInput));
}

#[test]
fn helper_clrf_scans_find_the_first_pair() {
    let mut v = b"ab\r\ncd".to_vec();
    assert_eq!(resp_kv::resp::deserialize::index_till_first_clrf(&mut v), 2);
    resp_kv::resp::deserialize::drain_till_index_till_first_clrf(&mut v);
    assert_eq!(v, b"cd".to_vec());
    let mut none = b"abc".to_vec();
    assert_eq!(resp_kv::resp::deserialize::index_till_first_clrf(&mut none), 2);
    resp_kv::resp::deserialize::drain_till_index_till_first_clrf(&mut none);
    assert!(none.is_empty());
}

#[test]
fn bytes_to_type_parses_decimal() {
    assert_eq!(resp_kv::resp::deserialize::bytes_to_type(b"123"), Ok(123));
    assert_eq!(resp_kv::resp::deserialize::bytes_to_type(b"-45"), Ok(-45));
    assert!(resp_kv::resp::deserialize::bytes_to_type(b"12x").is_err());
    assert!(resp_kv::resp::deserialize::bytes_to_type(b"2147483648").is_err());
}
