use redis_starter_rust::resp_parser::{DataType, ParseError, RespParser};

#[test]
fn parser_simple_string_test() {
    let mut parser = RespParser::new(b"+simple\r\n+string\r\n").unwrap();
    let res = parser.parse();

    assert_eq!(
        res,
        Ok(vec![
            DataType::SimpleString("simple".to_owned()),
            DataType::SimpleString("string".to_owned()),
        ])
    );
}

#[test]
fn parser_bulk_string_test() {
    let mut parser = RespParser::new(b"$5\r\nhello\r\n$11\r\nhello world\r\n").unwrap();
    let res = parser.parse();

    assert_eq!(
        res,
        Ok(vec![
            DataType::BulkString(5, "hello".to_owned()),
            DataType::BulkString(11, "hello world".to_owned()),
        ])
    );
}

#[test]
fn parser_error_test() {
    let mut parser = RespParser::new(b"-ERR unknown command \"helloworld\"\r\n").unwrap();
    let res = parser.parse();

    assert_eq!(
        res,
        Ok(vec![DataType::Error(
            "ERR unknown command \"helloworld\"".to_owned()
        ),])
    );
}

#[test]
fn parser_integer_test() {
    let mut parser = RespParser::new(b":0\r\n:1\r\n:2\r\n:3\r\n:4\r\n:5\r\n:100\r\n").unwrap();
    let res = parser.parse();

    assert_eq!(
        res,
        Ok(vec![
            DataType::Integer(0),
            DataType::Integer(1),
            DataType::Integer(2),
            DataType::Integer(3),
            DataType::Integer(4),
            DataType::Integer(5),
            DataType::Integer(100),
        ])
    );
}

#[test]
fn parser_array_test() {
    let mut parser = RespParser::new(b"*5\r\n$1\r\ntest\r\n:2\r\n:3\r\n:4\r\n$5\r\nhello\r\n").unwrap();
    let res = parser.parse();

    assert_eq!(
        res,
        Ok(vec![DataType::Array(
            5,
            vec![
                DataType::BulkString(1, "test".to_owned()),
                DataType::Integer(2),
                DataType::Integer(3),
                DataType::Integer(4),
                DataType::BulkString(5, "hello".to_owned()),
            ]
        )])
    );
}

#[test]
fn parser_nested_array_test() {
    let mut parser = RespParser::new(b"*2\r\n*2\r\n:1\r\n:2\r\n*2\r\n$5\r\nhello\r\n:3\r\n").unwrap();
    let res = parser.parse();

    assert_eq!(
        res,
        Ok(vec![DataType::Array(
            2,
            vec![
                DataType::Array(2, vec![DataType::Integer(1), DataType::Integer(2)]),
                DataType::Array(
                    2,
                    vec![
                        DataType::BulkString(5, "hello".to_owned()),
                        DataType::Integer(3)
                    ]
                )
            ]
        )])
    )
}

fn decode(bytes: &[u8]) -> Result<Vec<DataType>, ParseError> {
    RespParser::new(bytes).and_then(|mut parser| parser.parse())
}

#[test]
fn decodes_single_frames() {
    assert_eq!(decode(b"+OK\r\n"), Ok(vec![DataType::SimpleString("OK".to_owned())]));
    assert_eq!(
        decode(b"$5\r\nhello\r\n"),
        Ok(vec![DataType::BulkString(5, "hello".to_owned())])
    );
    assert_eq!(decode(b":123\r\n"), Ok(vec![DataType::Integer(123)]));
}

#[test]
fn decodes_arrays_and_nested_arrays() {
    assert_eq!(
        decode(b"*2\r\n:1\r\n:2\r\n"),
        Ok(vec![DataType::Array(
            2,
            vec![DataType::Integer(1), DataType::Integer(2)]
        )])
    );
    assert_eq!(
        decode(b"*2\r\n*2\r\n:1\r\n:2\r\n*1\r\n:3\r\n"),
        Ok(vec![DataType::Array(
            2,
            vec![
                DataType::Array(2, vec![DataType::Integer(1), DataType::Integer(2)]),
                DataType::Array(1, vec![DataType::Integer(3)]),
            ]
        )])
    );
}

#[test]
fn empty_array_takes_no_children() {
    assert_eq!(
        decode(b"*0\r\n:7\r\n"),
        Ok(vec![DataType::Array(0, vec![]), DataType::Integer(7)])
    );
}

#[test]
fn empty_buffer_has_no_frames() {
    assert_eq!(decode(b""), Ok(vec![]));
    assert_eq!(decode(b"\r\n"), Err(ParseError::UnsupportedType));
}

#[test]
fn trailing_partial_line_is_ignored() {
    assert_eq!(decode(b":1\r\n:2"), Ok(vec![DataType::Integer(1)]));
}

#[test]
fn negative_bulk_length_is_carried() {
    assert_eq!(
        decode(b"$-1\r\n\r\n"),
        Ok(vec![DataType::BulkString(-1, "".to_owned())])
    );
}

#[test]
fn integer_limits() {
    assert_eq!(
        decode(b":-9223372036854775808\r\n:9223372036854775807\r\n:+4\r\n"),
        Ok(vec![
            DataType::Integer(i64::MIN),
            DataType::Integer(i64::MAX),
            DataType::Integer(4),
        ])
    );
    assert_eq!(decode(b":9223372036854775808\r\n"), Err(ParseError::InvalidInteger));
    assert_eq!(decode(b":-9223372036854775809\r\n"), Err(ParseError::InvalidInteger));
}

#[test]
fn parse_errors() {
    assert_eq!(decode(b"?what\r\n"), Err(ParseError::UnsupportedType));
    assert_eq!(decode(b":12a\r\n"), Err(ParseError::InvalidInteger));
    assert_eq!(decode(b":\r\n"), Err(ParseError::InvalidInteger));
    assert_eq!(decode(b":-\r\n"), Err(ParseError::InvalidInteger));
    assert_eq!(decode(b"*-1\r\n"), Err(ParseError::NegativeCount));
    assert_eq!(decode(b"*3\r\n:1\r\n"), Err(ParseError::Incomplete));
    assert_eq!(decode(b"+\xff\r\n"), Err(ParseError::InvalidText));
}

#[test]
fn null_bulk_string_alone() {
    let mut parser = RespParser::new(b"$-1\r\n").unwrap();
    assert_eq!(
        parser.parse(),
        Ok(vec![DataType::BulkString(-1, "".to_owned())])
    );
    assert_eq!(parser.index, 2);
    assert_eq!(
        decode(b"$5\r\n"),
        Ok(vec![DataType::BulkString(5, "".to_owned())])
    );
    assert_eq!(
        decode(b"*2\r\n:1\r\n$-1\r\n"),
        Ok(vec![DataType::Array(
            2,
            vec![DataType::Integer(1), DataType::BulkString(-1, "".to_owned())]
        )])
    );
}

#[test]
fn non_text_is_refused() {
    assert!(matches!(
        RespParser::new(b"\xff\r\n"),
        Err(ParseError::InvalidText)
    ));
    assert_eq!(decode(b"+a\r\n\xff"), Err(ParseError::InvalidText));
}

#[test]
fn text_is_decoded_as_utf8() {
    assert_eq!(
        decode("+h\u{e9}llo\r\n".as_bytes()),
        Ok(vec![DataType::SimpleString("h\u{e9}llo".to_owned())])
    );
}

#[test]
fn cursor_moves_past_decoded_frames() {
    let mut parser = RespParser::new(b":1\r\n:2\r\n").unwrap();
    assert_eq!(
        parser.parse(),
        Ok(vec![DataType::Integer(1), DataType::Integer(2)])
    );
    assert_eq!(parser.index, 2);
    assert_eq!(parser.parse(), Ok(vec![]));
}
