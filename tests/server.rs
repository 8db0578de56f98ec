use redis_starter_rust::decimal::{parse_i64, parse_u64, push_decimal};
use redis_starter_rust::dispatch::parse_command;
use redis_starter_rust::encode::{
    encode_bulk_string, encode_error, encode_null_bulk, encode_simple_string,
};
use redis_starter_rust::resp_parser::{DataType, ParseError, RespParser};
use redis_starter_rust::store::Store;
use redis_starter_rust::ValueWithExpiry;

fn run(store: &mut Store, request: &[u8], now: u64) -> Vec<u8> {
    parse_command(request, store, now).expect("request is text")
}

#[test]
fn encodes_replies() {
    assert_eq!(encode_simple_string("OK"), b"+OK\r\n".to_vec());
    assert_eq!(encode_error("ERR x"), b"-ERR x\r\n".to_vec());
    assert_eq!(encode_bulk_string(5, "hello"), b"$5\r\nhello\r\n".to_vec());
    assert_eq!(encode_null_bulk(), b"$-1\r\n".to_vec());
}

#[test]
fn round_trip_simple_and_bulk() {
    let simple = encode_simple_string("h\u{e9}llo world");
    assert_eq!(
        RespParser::new(&simple).and_then(|mut p| p.parse()),
        Ok(vec![DataType::SimpleString("h\u{e9}llo world".to_owned())])
    );
    let bulk = encode_bulk_string(12, "h\u{e9}llo world");
    assert_eq!(
        RespParser::new(&bulk).and_then(|mut p| p.parse()),
        Ok(vec![DataType::BulkString(12, "h\u{e9}llo world".to_owned())])
    );
    let odd = encode_bulk_string(i64::MIN, "a\rb\n");
    assert_eq!(
        RespParser::new(&odd).and_then(|mut p| p.parse()),
        Ok(vec![DataType::BulkString(i64::MIN, "a\rb\n".to_owned())])
    );
}

#[test]
fn decimal_text_and_values() {
    let mut out = Vec::new();
    push_decimal(i64::MIN, &mut out);
    assert_eq!(out, b"-9223372036854775808".to_vec());
    let mut out = Vec::new();
    push_decimal(1007, &mut out);
    assert_eq!(out, b"1007".to_vec());
    assert_eq!(parse_i64(b"-17"), Some(-17));
    assert_eq!(parse_i64(b"+0"), Some(0));
    assert_eq!(parse_i64(b""), None);
    assert_eq!(parse_u64(b"18446744073709551615"), Some(u64::MAX));
    assert_eq!(parse_u64(b"18446744073709551616"), None);
    assert_eq!(parse_u64(b"-0"), None);
    assert_eq!(parse_u64(b"+10"), Some(10));
}

#[test]
fn ping_and_echo() {
    let mut store = Store::new();
    assert_eq!(run(&mut store, b"*1\r\n$4\r\nping\r\n", 0), b"+PONG\r\n".to_vec());
    assert_eq!(run(&mut store, b"*1\r\n$4\r\nPiNg\r\n", 0), b"+PONG\r\n".to_vec());
    assert_eq!(
        run(&mut store, b"*2\r\n$4\r\necho\r\n$5\r\nworld\r\n", 0),
        b"$5\r\nworld\r\n".to_vec()
    );
    assert_eq!(run(&mut store, b"", 0), b"+PONG\r\n".to_vec());
}

#[test]
fn set_then_get() {
    let mut store = Store::new();
    assert_eq!(
        run(&mut store, b"*3\r\n$3\r\nset\r\n$1\r\na\r\n$1\r\nb\r\n", 10),
        b"+OK\r\n".to_vec()
    );
    assert_eq!(
        run(&mut store, b"*2\r\n$3\r\nGET\r\n$1\r\na\r\n", 1_000_000),
        b"$1\r\nb\r\n".to_vec()
    );
    assert_eq!(
        run(&mut store, b"*2\r\n$3\r\nget\r\n$1\r\nz\r\n", 10),
        b"$-1\r\n".to_vec()
    );
}

#[test]
fn set_with_ttl_window() {
    let mut store = Store::new();
    assert_eq!(
        run(
            &mut store,
            b"*5\r\n$3\r\nset\r\n$1\r\na\r\n$1\r\nb\r\n$2\r\npx\r\n$3\r\n100\r\n",
            1000
        ),
        b"+OK\r\n".to_vec()
    );
    assert_eq!(
        run(&mut store, b"*2\r\n$3\r\nget\r\n$1\r\na\r\n", 1099),
        b"$1\r\nb\r\n".to_vec()
    );
    assert_eq!(
        run(&mut store, b"*2\r\n$3\r\nget\r\n$1\r\na\r\n", 1100),
        b"$-1\r\n".to_vec()
    );
}

#[test]
fn zero_ttl_reads_as_absent() {
    let mut store = Store::new();
    run(
        &mut store,
        b"*5\r\n$3\r\nset\r\n$1\r\na\r\n$1\r\nb\r\n$2\r\npx\r\n$1\r\n0\r\n",
        500,
    );
    assert_eq!(
        run(&mut store, b"*2\r\n$3\r\nget\r\n$1\r\na\r\n", 501),
        b"$-1\r\n".to_vec()
    );
}

#[test]
fn unknown_commands_get_errors() {
    let mut store = Store::new();
    assert_eq!(
        run(&mut store, b"*1\r\n$5\r\nhello\r\n", 0),
        b"-ERR no command found\r\n".to_vec()
    );
    assert_eq!(
        run(&mut store, b":1\r\n", 0),
        b"-ERR no command found\r\n".to_vec()
    );
    assert_eq!(
        run(&mut store, b"*1\r\n:1\r\n", 0),
        b"-ERR no command found\r\n".to_vec()
    );
}

#[test]
fn malformed_requests_get_errors() {
    let mut store = Store::new();
    assert_eq!(
        run(&mut store, b"*2\r\n$3\r\nset\r\n$1\r\na\r\n", 0),
        b"-ERR wrong number of arguments\r\n".to_vec()
    );
    assert_eq!(
        run(&mut store, b"*1\r\n$3\r\nget\r\n", 0),
        b"-ERR wrong number of arguments\r\n".to_vec()
    );
    assert_eq!(
        run(&mut store, b"*1\r\n$4\r\necho\r\n", 0),
        b"-ERR wrong number of arguments\r\n".to_vec()
    );
    assert_eq!(
        run(
            &mut store,
            b"*5\r\n$3\r\nset\r\n$1\r\na\r\n$1\r\nb\r\n$2\r\npx\r\n$2\r\nxx\r\n",
            0
        ),
        b"-ERR value is not an integer or out of range\r\n".to_vec()
    );
    assert_eq!(
        run(&mut store, b"*2\r\n$3\r\nget\r\n$1\r\na\r\n", 0),
        b"$-1\r\n".to_vec()
    );
    assert_eq!(
        run(&mut store, b"?\r\n", 0),
        b"-ERR protocol error\r\n".to_vec()
    );
    assert_eq!(
        parse_command(b"+\xff\xfe\r\n", &mut store, 0),
        Err(ParseError::InvalidText)
    );
}

#[test]
fn sets_on_distinct_keys_both_persist() {
    let mut store = Store::new();
    run(&mut store, b"*3\r\n$3\r\nset\r\n$1\r\na\r\n$1\r\n1\r\n", 0);
    run(&mut store, b"*3\r\n$3\r\nset\r\n$1\r\nb\r\n$1\r\n2\r\n", 0);
    run(&mut store, b"*3\r\n$3\r\nset\r\n$1\r\na\r\n$2\r\n11\r\n", 0);
    assert_eq!(store.get(&"a".to_owned(), 0), Some("11".to_owned()));
    assert_eq!(store.get(&"b".to_owned(), 0), Some("2".to_owned()));
}

#[test]
fn value_with_expiry() {
    let e = ValueWithExpiry::new("v".to_owned(), Some("250".to_owned()), 1000).unwrap();
    assert_eq!(e.expires_at, Some(1250));
    assert!(!e.is_expired(1249));
    assert!(e.is_expired(1250));
    let forever = ValueWithExpiry::new("v".to_owned(), None, 1000).unwrap();
    assert!(!forever.is_expired(u64::MAX));
    let far = ValueWithExpiry::new("v".to_owned(), Some("10".to_owned()), u64::MAX - 3).unwrap();
    assert_eq!(far.expires_at, None);
    assert!(!far.is_expired(u64::MAX));
    assert!(ValueWithExpiry::new("v".to_owned(), Some("ten".to_owned()), 0).is_none());
}
