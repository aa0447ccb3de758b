use kvstore::message::Message;
use kvstore::writer::Writer;

#[test]
fn test_marshal_string() {
    let msg = Message::simple("OK");
    assert_eq!(msg.marshal(), b"+OK\r\n");
}

#[test]
fn test_marshal_error() {
    let msg = Message::error("ERR something went wrong");
    assert_eq!(msg.marshal(), b"-ERR something went wrong\r\n");
}

#[test]
fn test_marshal_bulk() {
    let msg = Message::bulk(b"foobar".to_vec());
    assert_eq!(msg.marshal(), b"$6\r\nfoobar\r\n");
}

#[test]
fn test_marshal_null() {
    let msg = Message::Null;
    assert_eq!(msg.marshal(), b"$-1\r\n");
}

#[test]
fn test_marshal_array() {
    let msg = Message::array(vec![
        Message::bulk("foo".into()),
        Message::bulk("bar".into()),
    ]);
    assert_eq!(msg.marshal(), b"*2\r\n$3\r\nfoo\r\n$3\r\nbar\r\n");
}

#[test]
fn marshal_bulk_with_multi_digit_length() {
    let msg = Message::bulk(b"hello world!".to_vec());
    assert_eq!(msg.marshal(), b"$12\r\nhello world!\r\n");
}

#[test]
fn marshal_empty_bulk_and_empty_array() {
    assert_eq!(Message::bulk(Vec::new()).marshal(), b"$0\r\n\r\n");
    assert_eq!(Message::array(Vec::new()).marshal(), b"*0\r\n");
}

#[test]
fn marshal_nested_array() {
    let msg = Message::array(vec![
        Message::simple("a"),
        Message::array(vec![Message::Null, Message::error("e")]),
    ]);
    assert_eq!(msg.marshal(), b"*2\r\n+a\r\n*2\r\n$-1\r\n-e\r\n");
}

#[test]
fn marshal_array_of_twelve_items() {
    let items: Vec<Message> = (0..12).map(|_| Message::Null).collect();
    let bytes = Message::array(items).marshal();
    assert!(bytes.starts_with(b"*12\r\n$-1\r\n"));
    assert_eq!(bytes.len(), 5 + 12 * 5);
}

#[test]
fn writer_appends_encodings() {
    let mut writer = Writer::new(b"x".to_vec());
    let n = writer.write(Message::simple("OK"));
    assert_eq!(n, 5);
    let m = writer.write(Message::bulk(b"ab".to_vec()));
    assert_eq!(m, 8);
    assert_eq!(writer.into_inner(), b"x+OK\r\n$2\r\nab\r\n");
}
