use kvstore::aof::replay_log;
use kvstore::commands::handle_request;
use kvstore::message::Message;
use kvstore::decode::DecodeError;
use kvstore::session::handle_client;
use kvstore::store::Store;

fn serve_bytes(store: &mut Store, input: &[u8]) -> Vec<u8> {
    handle_client(store, input.to_vec()).replies
}

#[test]
fn test_handle_client_ping() {
    let input = b"*1\r\n$4\r\nPING\r\n".to_vec();
    let mut store = Store::new();
    let served = handle_client(&mut store, input);
    let expected_output = b"+PONG\r\n";
    assert_eq!(served.replies, expected_output.to_vec());
}

#[test]
fn test_handle_client_invalid_command() {
    let input = b"*1\r\n$7\r\nUNKNOWN\r\n".to_vec();
    let mut store = Store::new();
    let served = handle_client(&mut store, input);
    let expected_output = b"+\r\n";
    assert_eq!(served.replies, expected_output.to_vec());
}

#[test]
fn test_handle_client_non_array_message() {
    let input = b"$5\r\nhello\r\n".to_vec();
    let mut store = Store::new();
    let served = handle_client(&mut store, input);
    let expected_output = b"-Protocol error: expected '*'\r\n";
    assert_eq!(served.replies, expected_output.to_vec());
}

#[test]
fn test_handle_invalid_utf_8_command() {
    let input = b"*1\r\n$1\r\n\xFF\r\n".to_vec();
    let mut store = Store::new();
    let served = handle_client(&mut store, input);
    let expected_output = b"-Commands must be valid UTF-8\r\n";
    assert_eq!(served.replies, expected_output.to_vec());
}

#[test]
fn set_then_get_scenario() {
    let mut store = Store::new();
    assert_eq!(serve_bytes(&mut store, b"*3\r\n$3\r\nSET\r\n$3\r\nfoo\r\n$3\r\nbar\r\n"), b"+OK\r\n");
    assert_eq!(serve_bytes(&mut store, b"*2\r\n$3\r\nGET\r\n$3\r\nfoo\r\n"), b"$3\r\nbar\r\n");
}

#[test]
fn get_missing_scenario() {
    let mut store = Store::new();
    assert_eq!(serve_bytes(&mut store, b"*2\r\n$3\r\nGET\r\n$7\r\nmissing\r\n"), b"$-1\r\n");
}

#[test]
fn ping_scenario() {
    let mut store = Store::new();
    assert_eq!(serve_bytes(&mut store, b"*1\r\n$4\r\nPING\r\n"), b"+PONG\r\n");
    assert_eq!(serve_bytes(&mut store, b"*2\r\n$4\r\nPING\r\n$3\r\nfoo\r\n"), b"+foo\r\n");
}

#[test]
fn set_arity_scenario() {
    let mut store = Store::new();
    assert_eq!(
        serve_bytes(&mut store, b"*4\r\n$3\r\nSET\r\n$1\r\na\r\n$1\r\nb\r\n$1\r\nc\r\n"),
        b"-ERR wrong number of arguments for 'set' command\r\n"
    );
}

#[test]
fn hash_scenario() {
    let mut store = Store::new();
    assert_eq!(
        serve_bytes(&mut store, b"*4\r\n$4\r\nHSET\r\n$1\r\nh\r\n$1\r\nf\r\n$1\r\nv\r\n"),
        b"+OK\r\n"
    );
    assert_eq!(serve_bytes(&mut store, b"*3\r\n$4\r\nHGET\r\n$1\r\nh\r\n$1\r\nf\r\n"), b"$1\r\nv\r\n");
    assert_eq!(
        serve_bytes(&mut store, b"*2\r\n$7\r\nHGETALL\r\n$1\r\nh\r\n"),
        b"*2\r\n$1\r\nf\r\n$1\r\nv\r\n"
    );
}

#[test]
fn bulk_request_scenario() {
    let mut store = Store::new();
    assert_eq!(serve_bytes(&mut store, b"$5\r\nhello\r\n"), b"-Protocol error: expected '*'\r\n");
}

#[test]
fn command_names_are_case_insensitive() {
    let mut store = Store::new();
    assert_eq!(serve_bytes(&mut store, b"*1\r\n$4\r\nping\r\n"), b"+PONG\r\n");
    assert_eq!(
        serve_bytes(&mut store, b"*3\r\n$3\r\nsEt\r\n$1\r\nk\r\n$1\r\nv\r\n"),
        b"+OK\r\n"
    );
    assert_eq!(serve_bytes(&mut store, b"*2\r\n$3\r\nget\r\n$1\r\nk\r\n"), b"$1\r\nv\r\n");
}

#[test]
fn odd_requests() {
    let mut store = Store::new();
    assert_eq!(serve_bytes(&mut store, b"*0\r\n"), b"");
    assert_eq!(serve_bytes(&mut store, b"*1\r\n+PING\r\n"), b"-Commands must be valid UTF-8\r\n");
    assert_eq!(serve_bytes(&mut store, b"!"), b"-Protocol error: expected '*'\r\n");
}

#[test]
fn several_requests_in_one_buffer() {
    let mut store = Store::new();
    let input = b"*1\r\n$4\r\nPING\r\n*3\r\n$3\r\nSET\r\n$1\r\nk\r\n$1\r\nv\r\n*2\r\n$3\r\nGET\r\n$1\r\nk\r\n";
    let served = handle_client(&mut store, input.to_vec());
    assert_eq!(served.replies, b"+PONG\r\n+OK\r\n$1\r\nv\r\n".to_vec());
    assert_eq!(served.consumed, input.len());
    assert_eq!(served.log, b"*3\r\n$3\r\nSET\r\n$1\r\nk\r\n$1\r\nv\r\n".to_vec());
}

#[test]
fn incomplete_request_waits() {
    let mut store = Store::new();
    let served = handle_client(&mut store, b"*1\r\n$4\r\nPING\r\n*1\r\n$4\r\nPI".to_vec());
    assert_eq!(served.replies, b"+PONG\r\n".to_vec());
    assert_eq!(served.consumed, 14);
}

#[test]
fn malformed_frame_drops_the_rest() {
    let mut store = Store::new();
    let served = handle_client(&mut store, b"*x\r\n*1\r\n$4\r\nPING\r\n".to_vec());
    assert_eq!(served.replies, b"-Protocol error: malformed frame\r\n".to_vec());
    assert_eq!(served.consumed, 18);
}

#[test]
fn log_keeps_raw_bytes_of_writes_only() {
    let mut store = Store::new();
    let input = b"*3\r\n$3\r\nSET\r\n$01\r\nk\r\n$1\r\nv\r\n*2\r\n$3\r\nGET\r\n$1\r\nk\r\n*2\r\n$3\r\nSET\r\n$1\r\nk\r\n*4\r\n$4\r\nHSET\r\n$1\r\nh\r\n$1\r\nf\r\n$1\r\nv\r\n";
    let served = handle_client(&mut store, input.to_vec());
    assert_eq!(
        served.log,
        b"*3\r\n$3\r\nSET\r\n$01\r\nk\r\n$1\r\nv\r\n*4\r\n$4\r\nHSET\r\n$1\r\nh\r\n$1\r\nf\r\n$1\r\nv\r\n".to_vec()
    );
}

#[test]
fn replay_rebuilds_the_store() {
    let mut first = Store::new();
    let input = b"*3\r\n$3\r\nSET\r\n$1\r\na\r\n$1\r\n1\r\n*3\r\n$3\r\nSET\r\n$1\r\na\r\n$1\r\n2\r\n*4\r\n$4\r\nHSET\r\n$1\r\nh\r\n$1\r\nf\r\n$1\r\nv\r\n*2\r\n$3\r\nGET\r\n$1\r\na\r\n";
    let served = handle_client(&mut first, input.to_vec());
    let mut second = Store::new();
    assert_eq!(replay_log(&mut second, served.log), Ok(()));
    assert_eq!(second.strings.get(&b"a".to_vec()), Some(b"2".to_vec()));
    assert_eq!(first.strings.get(&b"a".to_vec()), Some(b"2".to_vec()));
    assert_eq!(second.hashes.get_field(&b"h".to_vec(), &b"f".to_vec()), Some(b"v".to_vec()));
    assert_eq!(second.strings.len(), first.strings.len());
}

#[test]
fn replay_of_encoded_requests() {
    let requests = vec![
        Message::array(vec![
            Message::bulk(b"SET".to_vec()),
            Message::bulk(b"x".to_vec()),
            Message::bulk(b"1".to_vec()),
        ]),
        Message::array(vec![
            Message::bulk(b"HSET".to_vec()),
            Message::bulk(b"h".to_vec()),
            Message::bulk(b"f".to_vec()),
            Message::bulk(b"g".to_vec()),
        ]),
    ];
    let mut first = Store::new();
    let mut log = Vec::new();
    for request in requests {
        let bytes = request.marshal();
        let (_, mutated) = handle_request(request, &mut first);
        if mutated {
            log.extend_from_slice(&bytes);
        }
    }
    let mut second = Store::new();
    assert_eq!(replay_log(&mut second, log), Ok(()));
    assert_eq!(second.strings.get(&b"x".to_vec()), first.strings.get(&b"x".to_vec()));
    assert_eq!(
        second.hashes.get_field(&b"h".to_vec(), &b"f".to_vec()),
        Some(b"g".to_vec())
    );
}

#[test]
fn replay_stops_at_null_and_fails_on_torn_record() {
    let mut store = Store::new();
    let log = b"*3\r\n$3\r\nSET\r\n$1\r\na\r\n$1\r\n1\r\n$-1\r\n*3\r\n$3\r\nSET\r\n$1\r\na\r\n$1\r\n2\r\n";
    assert_eq!(replay_log(&mut store, log.to_vec()), Ok(()));
    assert_eq!(store.strings.get(&b"a".to_vec()), Some(b"1".to_vec()));
    let mut torn = Store::new();
    assert_eq!(
        replay_log(&mut torn, b"*3\r\n$3\r\nSET\r\n$1\r\na\r\n$1".to_vec()),
        Err(DecodeError::Truncated)
    );
    let mut bad = Store::new();
    assert_eq!(replay_log(&mut bad, b"*z\r\n".to_vec()), Err(DecodeError::Malformed));
    let mut empty = Store::new();
    assert_eq!(replay_log(&mut empty, Vec::new()), Ok(()));
}

#[test]
fn handle_request_reports_writes() {
    let mut store = Store::new();
    let (reply, mutated) = handle_request(
        Message::array(vec![Message::bulk(b"SET".to_vec()), Message::bulk(b"k".to_vec())]),
        &mut store,
    );
    assert_eq!(reply, Some(Message::error("ERR wrong number of arguments for 'set' command")));
    assert!(!mutated);
    let (reply, mutated) = handle_request(Message::array(Vec::new()), &mut store);
    assert_eq!(reply, None);
    assert!(!mutated);
}
