use torrent_core::error::{BencodeDecodableError, Kind};
use torrent_core::value::{bytes_eq, get_struct_value, key_lt, parse, Value};

#[test]
fn parses_integers() {
    assert!(matches!(parse(b"i42e"), Ok(Value::Integer(42))));
    assert!(matches!(parse(b"i-17e"), Ok(Value::Integer(-17))));
    assert!(matches!(parse(b"i0e"), Ok(Value::Integer(0))));
    assert!(matches!(parse(b"i9223372036854775807e"), Ok(Value::Integer(i64::MAX))));
    assert!(matches!(parse(b"i-9223372036854775808e"), Ok(Value::Integer(i64::MIN))));
}

#[test]
fn rejects_malformed_integers() {
    assert!(parse(b"i-0e").is_err());
    assert!(parse(b"i03e").is_err());
    assert!(parse(b"ie").is_err());
    assert!(parse(b"i12").is_err());
    assert!(parse(b"i9223372036854775808e").is_err());
    assert!(parse(b"i99999999999999999999999e").is_err());
}

#[test]
fn parses_byte_strings_without_copying() {
    let buf = b"4:spam";
    match parse(buf) {
        Ok(Value::Bytes(b)) => {
            assert_eq!(b, b"spam");
            assert_eq!(b.as_ptr(), buf[2..].as_ptr());
        }
        _ => panic!("expected a byte string"),
    }
    assert!(matches!(parse(b"0:"), Ok(Value::Bytes(b)) if b.is_empty()));
}

#[test]
fn rejects_malformed_byte_strings() {
    assert!(parse(b"5:spam").is_err());
    assert!(parse(b"04:spam").is_err());
    assert!(parse(b"4spam").is_err());
    assert!(parse(b"99999999999999999999:x").is_err());
}

#[test]
fn parses_lists_and_dicts() {
    match parse(b"li1e3:abclee").unwrap() {
        Value::List(items) => {
            assert_eq!(items.len(), 3);
            assert!(matches!(items[0], Value::Integer(1)));
            assert!(matches!(items[1], Value::Bytes(b) if b == b"abc"));
            assert!(matches!(&items[2], Value::List(l) if l.is_empty()));
        }
        _ => panic!("expected a list"),
    }
    let buf = b"d1:ai1e1:bli2eee";
    match parse(buf).unwrap() {
        Value::Dict(entries) => {
            assert_eq!(entries.len(), 2);
            assert_eq!(entries[0].key, b"a");
            assert_eq!(entries[0].raw, b"i1e");
            assert_eq!(entries[1].key, b"b");
            assert_eq!(entries[1].raw, b"li2ee");
        }
        _ => panic!("expected a dictionary"),
    }
}

#[test]
fn rejects_unsorted_or_repeated_keys() {
    assert!(parse(b"d1:bi1e1:ai2ee").is_err());
    assert!(parse(b"d1:ai1e1:ai2ee").is_err());
    assert!(parse(b"di1ei2ee").is_err());
}

#[test]
fn rejects_empty_trailing_and_unterminated_input() {
    assert!(parse(b"").is_err());
    assert!(parse(b"i1ei2e").is_err());
    assert!(parse(b"l").is_err());
    assert!(parse(b"d1:a").is_err());
    assert!(parse(b"e").is_err());
    assert!(parse(b"x").is_err());
}

#[test]
fn limits_nesting_depth() {
    let ok = format!("{}{}", "l".repeat(64), "e".repeat(64));
    assert!(parse(ok.as_bytes()).is_ok());
    let deep = format!("{}{}", "l".repeat(65), "e".repeat(65));
    assert!(parse(deep.as_bytes()).is_err());
    let hostile = "l".repeat(100_000);
    assert!(parse(hostile.as_bytes()).is_err());
}

#[test]
fn typed_extraction_reports_expected_kind() {
    let v = parse(b"i-1e").unwrap();
    assert!(matches!(v.get_u64(), Err(BencodeDecodableError::WrongType(Kind::Integer))));
    assert!(matches!(v.get_str(), Err(BencodeDecodableError::WrongType(Kind::ByteString))));
    assert!(matches!(v.get_list(), Err(BencodeDecodableError::WrongType(Kind::List))));
    assert!(matches!(v.get_struct(), Err(BencodeDecodableError::WrongType(Kind::Dictionary))));
    let s = parse(b"3:abc").unwrap();
    assert!(matches!(s.get_u64(), Err(BencodeDecodableError::WrongType(Kind::Integer))));
    assert_eq!(s.get_str().unwrap(), b"abc");
    assert_eq!(s.get_string().unwrap(), "abc");
}

#[test]
fn get_string_replaces_invalid_utf8() {
    let v = parse(b"3:a\xffb").unwrap();
    assert_eq!(v.get_string().unwrap(), "a\u{fffd}b");
}

#[test]
fn dict_lookup_finds_entry_or_names_missing_key() {
    let v = parse(b"d4:infoi7e4:namei3ee").unwrap();
    let d = v.get_struct().unwrap();
    let e = get_struct_value("name", d).unwrap();
    assert!(matches!(e.value, Value::Integer(3)));
    assert_eq!(e.raw, b"i3e");
    match get_struct_value("announce", d) {
        Err(BencodeDecodableError::KeyNotFound(k)) => assert_eq!(k, "announce"),
        _ => panic!("expected a missing key"),
    }
}

#[test]
fn key_order_is_bytewise() {
    assert!(key_lt(b"a", b"b"));
    assert!(key_lt(b"piece length", b"pieces"));
    assert!(key_lt(b"ab", b"abc"));
    assert!(!key_lt(b"abc", b"ab"));
    assert!(!key_lt(b"x", b"x"));
    assert!(key_lt(b"", b"a"));
    assert!(bytes_eq(b"abc", b"abc"));
    assert!(!bytes_eq(b"abc", b"abd"));
    assert!(!bytes_eq(b"abc", b"ab"));
}
