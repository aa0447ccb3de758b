use kvstore::commands::{dispatch, dispatch_folded, init_handler_funcs, Command, Handler};
use kvstore::handlers::{get, hget, hgetall, hset, ping};
use kvstore::message::Message;
use kvstore::store::{HashTable, Store, Table};

#[test]
fn test_init_handler_funcs_contains_ping() {
    assert!(init_handler_funcs().contains_key("PING"));
}

#[test]
fn test_init_handler_funcs_contains_set() {
    assert!(init_handler_funcs().contains_key("SET"));
}

#[test]
fn test_init_handler_funcs_contains_get() {
    assert!(init_handler_funcs().contains_key("GET"));
}

#[test]
fn test_init_handler_funcs_contains_hset() {
    assert!(init_handler_funcs().contains_key("HSET"));
}

#[test]
fn test_init_handler_funcs_contains_hget() {
    assert!(init_handler_funcs().contains_key("HGET"));
}

#[test]
fn test_ping() {
    let result = ping(vec![], &Table::new());
    assert_eq!(result, Message::simple("PONG"));
}

#[test]
fn test_ping_with_args() {
    let pong = b"foo".to_vec();
    let result = ping(vec![Message::bulk(pong.clone())], &Table::new());
    assert_eq!(
        result,
        Message::simple(std::str::from_utf8(&pong).expect("Invalid UTF-8"))
    );
}

#[test]
fn test_ping_protocol_error() {
    let result = ping(vec![Message::simple("foo")], &Table::new());
    assert_eq!(
        result,
        Message::error("Protocol error: expected Bulk string")
    );
}

#[test]
fn test_set() {
    let key = b"foo".to_vec();
    let value = b"bar".into();
    let mut sets = Table::new();
    let result = kvstore::handlers::set(vec![Message::bulk(key.clone()), Message::bulk(value)], &mut sets);
    let in_set = sets.get(&key);
    assert_eq!(result, Message::simple("OK"));
    assert_eq!(in_set, Some(b"bar".to_vec()));
}

#[test]
fn test_set_too_many_args() {
    let result = kvstore::handlers::set(
        vec![
            Message::bulk(b"foo".into()),
            Message::bulk(b"bar".into()),
            Message::bulk(b"baz".into()),
        ],
        &mut Table::new(),
    );
    assert_eq!(
        result,
        Message::error("ERR wrong number of arguments for 'set' command")
    );
}

#[test]
fn test_get() {
    let key = b"foo".to_vec();
    let value = b"bar".to_vec();
    let mut sets = Table::new();
    sets.insert(key.clone(), value.clone());
    let result = get(vec![Message::bulk(key.clone())], &sets);
    let in_set = sets.get(&key);
    assert_eq!(result, Message::bulk(in_set.unwrap().clone()));
}

#[test]
fn test_get_too_many_args() {
    let result = get(
        vec![Message::bulk(b"foo".into()), Message::bulk(b"bar".into())],
        &Table::new(),
    );
    assert_eq!(
        result,
        Message::error("ERR wrong number of arguments for 'get' command")
    );
}

#[test]
fn test_hset() {
    let hash_key = b"baz".to_vec();
    let key = b"foo".to_vec();
    let value = b"bar".into();
    let mut hsets = HashTable::new();
    let result = hset(
        vec![
            Message::bulk(hash_key.clone()),
            Message::bulk(key.clone()),
            Message::bulk(value),
        ],
        &mut hsets,
    );
    let in_set = hsets.get(&hash_key).unwrap().get(&key);
    assert_eq!(result, Message::simple("OK"));
    assert_eq!(in_set, Some(b"bar".to_vec()));
}

#[test]
fn test_hset_reset() {
    let hash_key = b"baz".to_vec();
    let key = b"foo".to_vec();
    let value = b"bar".to_vec();
    let mut hsets = HashTable::new();
    hsets.set_field(hash_key.clone(), key.clone(), b"quax".to_vec());
    let result = hset(
        vec![
            Message::bulk(hash_key.clone()),
            Message::bulk(key.clone()),
            Message::bulk(value),
        ],
        &mut hsets,
    );
    let in_set = hsets.get(&hash_key).unwrap().get(&key);
    assert_eq!(result, Message::simple("OK"));
    assert_eq!(in_set, Some(b"bar".to_vec()));
}

#[test]
fn test_hset_too_many_args() {
    let result = hset(
        vec![
            Message::bulk(b"foo".into()),
            Message::bulk(b"bar".into()),
            Message::bulk(b"quax".into()),
            Message::bulk(b"baz".into()),
        ],
        &mut HashTable::new(),
    );
    assert_eq!(
        result,
        Message::error("ERR wrong number of arguments for 'hset' command")
    );
}

#[test]
fn test_hget() {
    let hash_key = b"baz".to_vec();
    let key = b"foo".to_vec();
    let value = b"bar".to_vec();
    let mut hsets = HashTable::new();
    hsets.set_field(hash_key.clone(), key.clone(), value.clone());
    let result = hget(
        vec![Message::bulk(hash_key.clone()), Message::bulk(key.clone())],
        &hsets,
    );
    let in_set = hsets.get(&hash_key).unwrap().get(&key);
    assert_eq!(result, Message::bulk(in_set.unwrap().clone()));
}

#[test]
fn test_hget_too_many_args() {
    let result = hget(
        vec![
            Message::bulk(b"foo".into()),
            Message::bulk(b"baz".into()),
            Message::bulk(b"bar".into()),
        ],
        &HashTable::new(),
    );
    assert_eq!(
        result,
        Message::error("ERR wrong number of arguments for 'hget' command")
    );
}

#[test]
fn test_hgetall() {
    let hash_key = b"baz".to_vec();
    let entries = vec![
        (b"foo".to_vec(), b"bar".to_vec()),
        (b"quax".to_vec(), b"quoo".to_vec()),
    ];
    let mut hsets = HashTable::new();
    for (k, v) in entries.into_iter() {
        hsets.set_field(hash_key.clone(), k.clone(), v.clone());
    }
    let result = hgetall(vec![Message::bulk(hash_key.clone())], &hsets);
    let expected = {
        let table = hsets.get(&hash_key).unwrap();
        let mut items = Vec::new();
        for i in 0..table.len() {
            let (key, value) = table.entry_at(i);
            items.push(Message::Bulk(key));
            items.push(Message::Bulk(value));
        }
        Message::Array(items)
    };
    assert_eq!(result, expected);
}

#[test]
fn test_hgetall_too_many_args() {
    let result = hgetall(
        vec![Message::bulk(b"foo".into()), Message::bulk(b"bar".into())],
        &HashTable::new(),
    );
    assert_eq!(
        result,
        Message::error("ERR wrong number of arguments for 'hgetall' command")
    );
}

#[test]
fn hgetall_lists_fields_in_order_of_first_write() {
    let mut hsets = HashTable::new();
    hsets.set_field(b"h".to_vec(), b"a".to_vec(), b"1".to_vec());
    hsets.set_field(b"h".to_vec(), b"b".to_vec(), b"2".to_vec());
    hsets.set_field(b"h".to_vec(), b"a".to_vec(), b"3".to_vec());
    let result = hgetall(vec![Message::bulk(b"h".to_vec())], &hsets);
    assert_eq!(
        result,
        Message::array(vec![
            Message::bulk(b"a".to_vec()),
            Message::bulk(b"3".to_vec()),
            Message::bulk(b"b".to_vec()),
            Message::bulk(b"2".to_vec()),
        ])
    );
}

#[test]
fn reads_of_absent_keys_are_null() {
    let mut hsets = HashTable::new();
    assert_eq!(get(vec![Message::bulk(b"missing".to_vec())], &Table::new()), Message::Null);
    assert_eq!(hgetall(vec![Message::bulk(b"h".to_vec())], &hsets), Message::Null);
    assert_eq!(
        hget(vec![Message::bulk(b"h".to_vec()), Message::bulk(b"f".to_vec())], &hsets),
        Message::Null
    );
    hsets.set_field(b"h".to_vec(), b"g".to_vec(), b"1".to_vec());
    assert_eq!(
        hget(vec![Message::bulk(b"h".to_vec()), Message::bulk(b"f".to_vec())], &hsets),
        Message::Null
    );
}

#[test]
fn arity_errors_for_every_other_count() {
    for n in 0..6 {
        let args = |n: usize| -> Vec<Message> { (0..n).map(|_| Message::bulk(b"x".to_vec())).collect() };
        if n != 2 {
            assert_eq!(
                kvstore::handlers::set(args(n), &mut Table::new()),
                Message::error("ERR wrong number of arguments for 'set' command")
            );
            assert_eq!(
                hget(args(n), &HashTable::new()),
                Message::error("ERR wrong number of arguments for 'hget' command")
            );
        }
        if n != 1 {
            assert_eq!(
                get(args(n), &Table::new()),
                Message::error("ERR wrong number of arguments for 'get' command")
            );
            assert_eq!(
                hgetall(args(n), &HashTable::new()),
                Message::error("ERR wrong number of arguments for 'hgetall' command")
            );
        }
        if n != 3 {
            assert_eq!(
                hset(args(n), &mut HashTable::new()),
                Message::error("ERR wrong number of arguments for 'hset' command")
            );
        }
    }
}

#[test]
fn non_bulk_arguments_are_refused_and_change_nothing() {
    let mut sets = Table::new();
    let result = kvstore::handlers::set(vec![Message::bulk(b"k".to_vec()), Message::simple("v")], &mut sets);
    assert_eq!(result, Message::error("ERR wrong number of arguments for 'set' command"));
    assert_eq!(sets.len(), 0);
}

#[test]
fn ping_echoes_first_argument_and_refuses_invalid_utf8() {
    let result = ping(vec![Message::bulk(b"a".to_vec()), Message::bulk(b"b".to_vec())], &Table::new());
    assert_eq!(result, Message::simple("a"));
    let result = ping(vec![Message::bulk(vec![0xff])], &Table::new());
    assert_eq!(result, Message::error("Invalid UTF-8"));
}

#[test]
fn command_names_are_matched_exactly() {
    assert_eq!(Command::from_name("HGETALL"), Some(Command::HGetAll));
    assert_eq!(Command::from_name("GET"), Some(Command::GetKey));
    assert_eq!(Command::from_name("get"), None);
    assert_eq!(Command::from_name("GETS"), None);
    let registry = init_handler_funcs();
    assert_eq!(registry.get("SET"), Some(Command::SetKey));
    assert!(registry.contains_key("HGETALL"));
    assert!(!registry.contains_key("DEL"));
}

#[test]
fn handlers_run_through_their_command() {
    let mut store = Store::new();
    let reply = Command::SetKey.call(
        vec![Message::bulk(b"k".to_vec()), Message::bulk(b"v".to_vec())],
        &mut store,
    );
    assert_eq!(reply, Message::simple("OK"));
    let reply = Command::GetKey.call(vec![Message::bulk(b"k".to_vec())], &mut store);
    assert_eq!(reply, Message::bulk(b"v".to_vec()));
}

#[test]
fn distinct_keys_each_keep_their_value() {
    let mut sets = Table::new();
    for i in 0..50u32 {
        let key = format!("key{}", i).into_bytes();
        let value = format!("value{}", i).into_bytes();
        kvstore::handlers::set(vec![Message::bulk(key), Message::bulk(value)], &mut sets);
    }
    for i in 0..50u32 {
        let key = format!("key{}", i).into_bytes();
        let value = format!("value{}", i).into_bytes();
        assert_eq!(get(vec![Message::bulk(key)], &sets), Message::bulk(value));
    }
    let mut same = Table::new();
    kvstore::handlers::set(vec![Message::bulk(b"k".to_vec()), Message::bulk(b"first".to_vec())], &mut same);
    kvstore::handlers::set(vec![Message::bulk(b"k".to_vec()), Message::bulk(b"second".to_vec())], &mut same);
    assert_eq!(same.get(&b"k".to_vec()), Some(b"second".to_vec()));
    assert_eq!(same.len(), 1);
}

#[test]
fn dispatch_folds_case_and_reports_writes() {
    let mut store = Store::new();
    let (reply, wrote) = dispatch(
        "hSeT",
        vec![Message::bulk(b"h".to_vec()), Message::bulk(b"f".to_vec()), Message::bulk(b"v".to_vec())],
        &mut store,
    );
    assert_eq!(reply, Message::simple("OK"));
    assert!(wrote);
    let (reply, wrote) = dispatch("hget", vec![Message::bulk(b"h".to_vec()), Message::bulk(b"f".to_vec())], &mut store);
    assert_eq!(reply, Message::bulk(b"v".to_vec()));
    assert!(!wrote);
    let (reply, wrote) = dispatch("nope", Vec::new(), &mut store);
    assert_eq!(reply, Message::simple(""));
    assert!(!wrote);
}

#[test]
fn dispatch_folded_matches_exact_names_only() {
    let mut store = Store::new();
    let (reply, _) = dispatch_folded("PING", Vec::new(), &mut store);
    assert_eq!(reply, Message::simple("PONG"));
    let (reply, _) = dispatch_folded("ping", Vec::new(), &mut store);
    assert_eq!(reply, Message::simple(""));
}
