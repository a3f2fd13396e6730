use url_shortener::handler::{process_command, process_command_at};
use url_shortener::response::Response;
use url_shortener::storage::Storage;

#[test]
fn test_expire_sets_ttl_for_existing_key() {
    let mut storage = Storage::new();

    process_command(&mut storage, "SET test_key test_value").unwrap();

    let result = process_command(&mut storage, "SETTTL test_key 5").unwrap();
    assert_eq!(result, Response::Integer(1));

    let get_result = process_command(&mut storage, "GET test_key").unwrap();
    assert_eq!(get_result, Response::BulkString(Some("test_value".to_string())));
}

#[test]
fn test_expire_returns_zero_for_nonexistent_key() {
    let mut storage = Storage::new();

    let result = process_command(&mut storage, "SETTTL nonexistent_key 5").unwrap();
    assert_eq!(result, Response::Integer(0));
}

// The store's clock is given explicitly (in nanoseconds) in place of sleeping.
#[test]
fn test_expire_returns_zero_for_expired_key() {
    let mut storage = Storage::new();

    process_command_at(&mut storage, "SET test_key test_value EX 1", 0).unwrap();

    let result = process_command_at(&mut storage, "SETTTL test_key 5", 2_000_000_000).unwrap();
    assert_eq!(result, Response::Integer(0));
}

#[test]
fn test_expire_overwrites_existing_ttl() {
    let mut storage = Storage::new();

    process_command_at(&mut storage, "SET test_key test_value EX 10", 0).unwrap();

    let result = process_command_at(&mut storage, "SETTTL test_key 2", 0).unwrap();
    assert_eq!(result, Response::Integer(1));

    let get_result = process_command_at(&mut storage, "GET test_key", 0).unwrap();
    assert_eq!(get_result, Response::BulkString(Some("test_value".to_string())));

    let expired_result = process_command_at(&mut storage, "GET test_key", 3_000_000_000).unwrap();
    assert_eq!(expired_result, Response::BulkString(None));
}

#[test]
fn test_expire_key_becomes_inaccessible_after_ttl() {
    let mut storage = Storage::new();

    process_command_at(&mut storage, "SET short_ttl_key test_value", 0).unwrap();
    process_command_at(&mut storage, "SETTTL short_ttl_key 1", 0).unwrap();

    let before_expire = process_command_at(&mut storage, "GET short_ttl_key", 0).unwrap();
    assert_eq!(before_expire, Response::BulkString(Some("test_value".to_string())));

    let after_expire = process_command_at(&mut storage, "GET short_ttl_key", 2_000_000_000).unwrap();
    assert_eq!(after_expire, Response::BulkString(None));
}

#[test]
fn test_expire_command_parsing() {
    let mut storage = Storage::new();

    process_command(&mut storage, "SET key1 value1").unwrap();

    let result1 = process_command(&mut storage, "SETTTL key1 30").unwrap();
    assert_eq!(result1, Response::Integer(1));

    let result2 = process_command(&mut storage, "SETTTL key1 0").unwrap();
    assert_eq!(result2, Response::Integer(1));

    let get_result_after_zero = process_command(&mut storage, "GET key1").unwrap();
    assert_eq!(get_result_after_zero, Response::BulkString(None));

    process_command(&mut storage, "SET key2 value2").unwrap();
    let result3 = process_command(&mut storage, "SETTTL key2 999999").unwrap();
    assert_eq!(result3, Response::Integer(1));
}

#[test]
fn test_expire_command_parsing_errors() {
    let mut storage = Storage::new();

    let result1 = process_command(&mut storage, "SETTTL");
    assert!(result1.is_err());

    let result2 = process_command(&mut storage, "SETTTL key1");
    assert!(result2.is_err());

    let result3 = process_command(&mut storage, "SETTTL key1 not_a_number");
    assert!(result3.is_err());

    let result4 = process_command(&mut storage, "SETTTL key1 30 extra_arg");
    assert!(result4.is_err());
}

// The same three scenarios on the store's own clock, waiting as the caller would.
fn wait_seconds(secs: u64) {
    let start = std::time::Instant::now();
    while start.elapsed() < std::time::Duration::from_secs(secs) {
        std::hint::spin_loop();
    }
}

#[test]
fn test_expire_returns_zero_for_expired_key_real_clock() {
    let mut storage = Storage::new();

    process_command(&mut storage, "SET test_key test_value EX 1").unwrap();
    wait_seconds(2);

    let result = process_command(&mut storage, "SETTTL test_key 5").unwrap();
    assert_eq!(result, Response::Integer(0));
}

#[test]
fn test_expire_overwrites_existing_ttl_real_clock() {
    let mut storage = Storage::new();

    process_command(&mut storage, "SET test_key test_value EX 10").unwrap();

    let result = process_command(&mut storage, "SETTTL test_key 2").unwrap();
    assert_eq!(result, Response::Integer(1));

    let get_result = process_command(&mut storage, "GET test_key").unwrap();
    assert_eq!(get_result, Response::BulkString(Some("test_value".to_string())));

    wait_seconds(3);
    let expired_result = process_command(&mut storage, "GET test_key").unwrap();
    assert_eq!(expired_result, Response::BulkString(None));
}

#[test]
fn test_expire_key_becomes_inaccessible_after_ttl_real_clock() {
    let mut storage = Storage::new();

    process_command(&mut storage, "SET short_ttl_key test_value").unwrap();
    process_command(&mut storage, "SETTTL short_ttl_key 1").unwrap();

    let before_expire = process_command(&mut storage, "GET short_ttl_key").unwrap();
    assert_eq!(before_expire, Response::BulkString(Some("test_value".to_string())));

    wait_seconds(2);
    let after_expire = process_command(&mut storage, "GET short_ttl_key").unwrap();
    assert_eq!(after_expire, Response::BulkString(None));
}

#[test]
fn store_clock_never_goes_back() {
    let mut storage = Storage::new();
    let first = storage.now();
    process_command_at(&mut storage, "SET k v", first + 5_000_000_000).unwrap();
    // A write at a later instant raises the store's clock to it.
    assert!(storage.now() >= first + 5_000_000_000);
    assert_eq!(
        process_command(&mut storage, "GET k").unwrap(),
        Response::BulkString(Some("v".to_string()))
    );
}
