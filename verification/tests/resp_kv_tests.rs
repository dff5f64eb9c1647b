use resp_kv::commands::{Command, CommandError};
use resp_kv::db::{Database, DbValue, StoreInner};
use resp_kv::parser::{ParserError, RespValue};

#[test]
fn test_integer_parsing() {
    let buffer = b":123\r\n";
    println!("--- Testing Integer ---");
    let (value, consumed) = RespValue::parse(buffer).unwrap();
    println!("Parsed value: {:?}", value);

    assert_eq!(value, RespValue::Integer(123));
    assert_eq!(consumed, buffer.len());
}

#[test]
fn test_simple_string_parsing() {
    let buffer = b"+OK\r\n";
    println!("--- Testing Simple String ---");
    let (value, consumed) = RespValue::parse(buffer).unwrap();
    println!("Parsed value: {:?}", value);

    assert_eq!(value, RespValue::SimpleString("OK".to_string()));
    assert_eq!(consumed, buffer.len());
}

#[test]
fn test_bulk_string_ping() {
    let buffer = b"$4\r\nPING\r\n";
    let (value, consumed) = RespValue::parse(buffer).unwrap();
    println!("--- Testing Bulk String 'PING' ---");
    println!("Parsed value: {:?}", value);

    assert_eq!(value, RespValue::BulkString(b"PING".to_vec()));
    assert_eq!(consumed, buffer.len());
}

#[test]
fn test_array_one_element_ping() {
    let buffer = b"*1\r\n$4\r\nPING\r\n";
    let (value, consumed) = RespValue::parse(buffer).unwrap();
    println!("--- Testing Array with one 'PING' element ---");
    println!("Parsed value: {:?}", value);

    let expected_array = RespValue::Array(vec![RespValue::BulkString(b"PING".to_vec())]);
    assert_eq!(value, expected_array);
    assert_eq!(consumed, buffer.len());
}

#[test]
fn test_set_get() {
    let value = b"hello world value";
    let db = Database::new();
    let resp_value = RespValue::Array(vec![
        RespValue::BulkString(b"SET".to_vec()),
        RespValue::BulkString(b"key".to_vec()),
        RespValue::BulkString(value.to_vec()),
    ]);

    let command = Command::from_resp(resp_value).unwrap();
    let response = command.execute(&db);
    assert_eq!(response, b"+OK\r\n");

    let resp_value = RespValue::Array(vec![
        RespValue::BulkString(b"GET".to_vec()),
        RespValue::BulkString(b"key".to_vec()),
    ]);
    let command = Command::from_resp(resp_value).unwrap();
    let response = command.execute(&db);
    let expected_response = format!("${}\r\n{}\r\n", value.len(), String::from_utf8_lossy(value));
    assert_eq!(response, expected_response.into_bytes());
}

#[test]
fn test_ping_command() {
    let db = Database::new();
    let resp_value = RespValue::Array(vec![RespValue::BulkString(b"PING".to_vec())]);
    let command = Command::from_resp(resp_value).unwrap();
    let response = command.execute(&db);
    assert_eq!(response, b"+PONG\r\n");
}

#[test]
fn test_ping_with_message() {
    let db = Database::new();
    let msg = b"hello";
    let resp_value = RespValue::Array(vec![
        RespValue::BulkString(b"PING".to_vec()),
        RespValue::BulkString(msg.to_vec()),
    ]);
    let command = Command::from_resp(resp_value).unwrap();
    let response = command.execute(&db);
    let expected = format!("${}\r\n{}\r\n", msg.len(), "hello");
    assert_eq!(response, expected.as_bytes());
}

#[test]
fn test_extra_arguments_error() {
    let resp = RespValue::Array(vec![
        RespValue::BulkString(b"GET".to_vec()),
        RespValue::BulkString(b"key".to_vec()),
        RespValue::BulkString(b"extra".to_vec()),
    ]);
    assert!(matches!(
        Command::from_resp(resp),
        Err(CommandError::WrongArgCount)
    ));
}

fn bulk(b: &[u8]) -> RespValue {
    RespValue::BulkString(b.to_vec())
}

#[test]
fn test_null_bulk_and_null_array_decode() {
    let (v, c) = RespValue::parse(b"$-1\r\n").unwrap();
    assert_eq!(v, RespValue::Null);
    assert_eq!(c, 5);
    let (v, c) = RespValue::parse(b"*-1\r\n").unwrap();
    assert_eq!(v, RespValue::Null);
    assert_eq!(c, 5);
}

#[test]
fn test_bulk_missing_terminator_is_malformed() {
    let r = RespValue::parse(b"$4\r\nPINGxy");
    assert!(matches!(r, Err(ParserError::InvalidFormat(_))));
}

#[test]
fn test_negative_bulk_length_is_malformed() {
    let r = RespValue::parse(b"$-2\r\n");
    assert!(matches!(r, Err(ParserError::InvalidFormat(_))));
}

#[test]
fn test_unknown_prefix_is_malformed() {
    let r = RespValue::parse(b"?1\r\n");
    assert!(matches!(r, Err(ParserError::InvalidFormat(_))));
}

#[test]
fn test_bad_integer_is_malformed() {
    let r = RespValue::parse(b":12a\r\n");
    assert!(matches!(r, Err(ParserError::InvalidFormat(_))));
    let r = RespValue::parse(b":\r\n");
    assert!(matches!(r, Err(ParserError::InvalidFormat(_))));
    let r = RespValue::parse(b":9223372036854775808\r\n");
    assert!(matches!(r, Err(ParserError::InvalidFormat(_))));
}

#[test]
fn test_integer_extremes_decode() {
    let (v, c) = RespValue::parse(b":-9223372036854775808\r\n").unwrap();
    assert_eq!(v, RespValue::Integer(i64::MIN));
    assert_eq!(c, 23);
    let (v, _) = RespValue::parse(b":+42\r\n").unwrap();
    assert_eq!(v, RespValue::Integer(42));
}

#[test]
fn test_empty_bulk_string_decode() {
    let (v, c) = RespValue::parse(b"$0\r\n\r\n").unwrap();
    assert_eq!(v, RespValue::BulkString(Vec::new()));
    assert_eq!(c, 6);
}

#[test]
fn test_invalid_utf8_simple_string_is_malformed() {
    let r = RespValue::parse(&[b'+', 0xFF, b'\r', b'\n']);
    assert!(matches!(r, Err(ParserError::InvalidFormat(_))));
}

#[test]
fn test_every_prefix_is_incomplete() {
    let full = b"*2\r\n$4\r\nPING\r\n$2\r\nhi\r\n";
    for k in 0..full.len() {
        let r = RespValue::parse(&full[..k]);
        assert!(matches!(r, Err(ParserError::Incomplete)), "prefix of {} bytes", k);
    }
    let (v, c) = RespValue::parse(full).unwrap();
    assert_eq!(c, full.len());
    assert_eq!(
        v,
        RespValue::Array(vec![bulk(b"PING"), bulk(b"hi")])
    );
}

#[test]
fn test_decode_ignores_trailing_bytes() {
    let buffer = b"+OK\r\n:1\r\n";
    let (v, c) = RespValue::parse(buffer).unwrap();
    assert_eq!(v, RespValue::SimpleString("OK".to_string()));
    assert_eq!(c, 5);
    let (v, c) = RespValue::parse(&buffer[c..]).unwrap();
    assert_eq!(v, RespValue::Integer(1));
    assert_eq!(c, 4);
}

#[test]
fn test_echo_command() {
    let db = Database::new();
    let resp = RespValue::Array(vec![bulk(b"ECHO"), bulk(b"hi")]);
    let command = Command::from_resp(resp).unwrap();
    assert_eq!(command.execute(&db), b"$2\r\nhi\r\n");
}

#[test]
fn test_get_keys_are_case_insensitive() {
    let db = Database::new();
    let set = Command::from_resp(RespValue::Array(vec![bulk(b"SET"), bulk(b"key"), bulk(b"v")]))
        .unwrap();
    assert_eq!(set.execute(&db), b"+OK\r\n");
    let get = Command::from_resp(RespValue::Array(vec![bulk(b"GET"), bulk(b"KEY")])).unwrap();
    assert_eq!(get.execute(&db), b"$1\r\nv\r\n");
}

#[test]
fn test_get_miss_returns_null_bulk() {
    let db = Database::new();
    let get = Command::from_resp(RespValue::Array(vec![bulk(b"GET"), bulk(b"nope")])).unwrap();
    assert_eq!(get.execute(&db), b"$-1\r\n");
}

#[test]
fn test_get_no_arguments_error() {
    let resp = RespValue::Array(vec![bulk(b"GET")]);
    assert!(matches!(
        Command::from_resp(resp),
        Err(CommandError::WrongArgCount)
    ));
}

#[test]
fn test_set_unrecognized_option_error() {
    let resp = RespValue::Array(vec![bulk(b"SET"), bulk(b"k"), bulk(b"v"), bulk(b"EX")]);
    assert!(matches!(
        Command::from_resp(resp),
        Err(CommandError::InvalidArgument { .. })
    ));
}

#[test]
fn test_set_px_not_a_number_error() {
    let resp = RespValue::Array(vec![
        bulk(b"SET"),
        bulk(b"k"),
        bulk(b"v"),
        bulk(b"PX"),
        bulk(b"notanumber"),
    ]);
    assert!(matches!(
        Command::from_resp(resp),
        Err(CommandError::InvalidArgument { .. })
    ));
}

#[test]
fn test_set_px_twice_error() {
    let resp = RespValue::Array(vec![
        bulk(b"SET"),
        bulk(b"k"),
        bulk(b"v"),
        bulk(b"PX"),
        bulk(b"10"),
        bulk(b"PX"),
        bulk(b"10"),
    ]);
    assert!(matches!(
        Command::from_resp(resp),
        Err(CommandError::InvalidArgument { .. })
    ));
}

#[test]
fn test_empty_command_error() {
    let resp = RespValue::Array(vec![]);
    assert!(matches!(
        Command::from_resp(resp),
        Err(CommandError::EmptyCommand)
    ));
}

#[test]
fn test_not_an_array_error() {
    let resp = RespValue::Integer(7);
    assert!(matches!(
        Command::from_resp(resp),
        Err(CommandError::NotAnArray)
    ));
}

#[test]
fn test_command_not_bulk_string_error() {
    let resp = RespValue::Array(vec![RespValue::Integer(1)]);
    assert!(matches!(
        Command::from_resp(resp),
        Err(CommandError::CommandNotBulkString)
    ));
}

#[test]
fn test_unknown_command_error() {
    let resp = RespValue::Array(vec![bulk(b"FLUSH")]);
    match Command::from_resp(resp) {
        Err(CommandError::UnknownCommand(name)) => assert_eq!(name, b"FLUSH".to_vec()),
        other => panic!("expected UnknownCommand, got {:?}", other),
    }
}

#[test]
fn test_lowercase_verbs_accepted() {
    let db = Database::new();
    let resp = RespValue::Array(vec![bulk(b"ping")]);
    let command = Command::from_resp(resp).unwrap();
    assert_eq!(command.execute(&db), b"+PONG\r\n");
}

#[test]
fn test_set_px_expiry_explicit_time() {
    let mut store = StoreInner::new();
    let now = 1_000u64;
    let set = Command::from_resp(RespValue::Array(vec![
        bulk(b"SET"),
        bulk(b"key"),
        bulk(b"value"),
        bulk(b"px"),
        bulk(b"50"),
    ]))
    .unwrap();
    assert_eq!(set.execute_at(&mut store, now), b"+OK\r\n");

    let get = Command::from_resp(RespValue::Array(vec![bulk(b"GET"), bulk(b"key")])).unwrap();
    assert_eq!(get.execute_at(&mut store, now + 49), b"$5\r\nvalue\r\n");
    assert!(store.contains_key(b"KEY"));

    let get = Command::from_resp(RespValue::Array(vec![bulk(b"GET"), bulk(b"key")])).unwrap();
    assert_eq!(get.execute_at(&mut store, now + 50), b"$-1\r\n");
    assert!(!store.contains_key(b"KEY"));
}

#[test]
fn test_set_px_via_shared_store_before_deadline() {
    let db = Database::new();
    let set = Command::from_resp(RespValue::Array(vec![
        bulk(b"SET"),
        bulk(b"k"),
        bulk(b"v"),
        bulk(b"PX"),
        bulk(b"100000"),
    ]))
    .unwrap();
    assert_eq!(set.execute(&db), b"+OK\r\n");
    let get = Command::from_resp(RespValue::Array(vec![bulk(b"GET"), bulk(b"k")])).unwrap();
    assert_eq!(get.execute(&db), b"$1\r\nv\r\n");
}

#[test]
fn test_store_is_shared_between_handles() {
    let db = Database::new();
    let db2 = db.clone();
    let set = Command::from_resp(RespValue::Array(vec![bulk(b"SET"), bulk(b"a"), bulk(b"1")]))
        .unwrap();
    assert_eq!(set.execute(&db), b"+OK\r\n");
    let get = Command::from_resp(RespValue::Array(vec![bulk(b"GET"), bulk(b"a")])).unwrap();
    assert_eq!(get.execute(&db2), b"$1\r\n1\r\n");
    let set = Command::from_resp(RespValue::Array(vec![bulk(b"SET"), bulk(b"a"), bulk(b"2")]))
        .unwrap();
    assert_eq!(set.execute(&db2), b"+OK\r\n");
    let get = Command::from_resp(RespValue::Array(vec![bulk(b"GET"), bulk(b"a")])).unwrap();
    assert_eq!(get.execute(&db), b"$1\r\n2\r\n");
}

#[test]
fn test_direct_store_put_and_get_live() {
    let db = Database::new();
    db.put(
        b"K".to_vec(),
        DbValue { value: b"val".to_vec(), expires_at: Some(10) },
    );
    assert_eq!(db.get_live(b"K", 9), Some(b"val".to_vec()));
    assert_eq!(db.get_live(b"K", 10), None);
    assert!(!db.contains_key(b"K"));
}

#[test]
fn test_error_messages() {
    assert_eq!(
        CommandError::WrongArgCount.message(),
        "wrong number of arguments"
    );
    assert_eq!(
        CommandError::InvalidArgument { reason: "syntax error".to_string() }.message(),
        "invalid argument: syntax error"
    );
}
