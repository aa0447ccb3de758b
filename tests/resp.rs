use kvstore::message::Message;
use kvstore::decode::DecodeError;
use kvstore::resp::Resp;

#[test]
fn test_write_bulk_message() {
    let msg = Message::Bulk("hello".into());
    let mut resp = Resp::new(Vec::new());

    let bytes_written = resp.write(msg);
    assert!(bytes_written > 0);

    let result = resp.written();
    assert_eq!(*result, b"$5\r\nhello\r\n".to_vec());
}

#[test]
fn test_read_bulk_message() {
    let input = b"$5\r\nhello\r\n";
    let mut resp = Resp::new(input.to_vec());

    let message = resp.read().unwrap();
    assert_eq!(message, Message::Bulk("hello".into()));
}

#[test]
fn test_read_array_message() {
    let input = b"*2\r\n$3\r\nfoo\r\n$3\r\nbar\r\n";
    let mut resp = Resp::new(input.to_vec());

    let message = resp.read().unwrap();
    assert_eq!(
        message,
        Message::Array(vec![
            Message::Bulk("foo".into()),
            Message::Bulk("bar".into())
        ])
    );
}

#[test]
fn test_read_unknown_type() {
    let input = b"!\r\n";
    let mut resp = Resp::new(input.to_vec());

    let message = resp.read().unwrap();
    assert_eq!(message, Message::Null);
}

#[test]
fn test_read_byte_empty() {
    let mut resp = Resp::new(Vec::new());
    let result = resp.read_byte();
    assert!(result.is_err());
}

fn read_all(input: &[u8]) -> Result<Message, DecodeError> {
    Resp::new(input.to_vec()).read()
}

#[test]
fn read_multi_digit_lengths() {
    assert_eq!(
        read_all(b"$12\r\nhello world!\r\n").unwrap(),
        Message::bulk(b"hello world!".to_vec())
    );
    let mut input = b"*11\r\n".to_vec();
    for _ in 0..11 {
        input.extend_from_slice(b"$1\r\nx\r\n");
    }
    match read_all(&input).unwrap() {
        Message::Array(items) => assert_eq!(items.len(), 11),
        other => panic!("not an array: {:?}", other),
    }
}

#[test]
fn read_simple_error_and_null() {
    assert_eq!(read_all(b"+OK\r\n").unwrap(), Message::simple("OK"));
    assert_eq!(read_all(b"-ERR bad\r\n").unwrap(), Message::error("ERR bad"));
    assert_eq!(read_all(b"$-1\r\n").unwrap(), Message::Null);
    assert_eq!(read_all(b"$0\r\n\r\n").unwrap(), Message::bulk(Vec::new()));
}

#[test]
fn read_leaves_position_after_value() {
    let mut resp = Resp::new(b"+a\r\n$1\r\nb\r\n".to_vec());
    assert_eq!(resp.read().unwrap(), Message::simple("a"));
    assert_eq!(resp.offset(), 4);
    assert_eq!(resp.read().unwrap(), Message::bulk(b"b".to_vec()));
    assert_eq!(resp.read(), Err(DecodeError::Closed));
}

#[test]
fn read_errors() {
    assert_eq!(read_all(b""), Err(DecodeError::Closed));
    assert_eq!(read_all(b"$5\r\nhel"), Err(DecodeError::Truncated));
    assert_eq!(read_all(b"$5"), Err(DecodeError::Truncated));
    assert_eq!(read_all(b"*2\r\n$3\r\nfoo\r\n"), Err(DecodeError::Truncated));
    assert_eq!(read_all(b"$x\r\n"), Err(DecodeError::Malformed));
    assert_eq!(read_all(b"$\r\n"), Err(DecodeError::Malformed));
    assert_eq!(read_all(b"*-1\r\n"), Err(DecodeError::Malformed));
    assert_eq!(read_all(b"$3\r\nfooXY"), Err(DecodeError::Malformed));
    assert_eq!(read_all(b"+\xff\r\n"), Err(DecodeError::Malformed));
    assert_eq!(read_all(b"$99999999999999999999999\r\n"), Err(DecodeError::Malformed));
}

#[test]
fn failed_read_keeps_position() {
    let mut resp = Resp::new(b"$5\r\nhel".to_vec());
    assert_eq!(resp.read(), Err(DecodeError::Truncated));
    assert_eq!(resp.offset(), 0);
}

#[test]
fn round_trip_of_encodings() {
    let values = vec![
        Message::simple("PONG"),
        Message::error("ERR x"),
        Message::bulk(b"with\r\ninside".to_vec()),
        Message::Null,
        Message::array(vec![
            Message::bulk(b"k".to_vec()),
            Message::array(vec![Message::simple("")]),
        ]),
    ];
    for v in values {
        let bytes = v.marshal();
        let mut resp = Resp::new(bytes.clone());
        assert_eq!(resp.read().unwrap(), v);
        assert_eq!(resp.offset(), bytes.len());
    }
}

#[test]
fn raw_since_gives_the_frame() {
    let mut resp = Resp::new(b"+a\r\n+bc\r\n".to_vec());
    resp.read().unwrap();
    let start = resp.offset();
    resp.read().unwrap();
    assert_eq!(resp.raw_since(start), b"+bc\r\n".to_vec());
}
