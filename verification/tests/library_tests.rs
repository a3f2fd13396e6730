use url_shortener::command::Command;
use url_shortener::controller::{resolve, short_url_for, shorten, ShortenRequest, URL_TTL_SECONDS};
use url_shortener::error::{CommandError, ParseError, StorageError};
use url_shortener::handler::{execute, process_command_at};
use url_shortener::response::Response;
use url_shortener::storage::converter::generate_short_url;
use url_shortener::storage::Storage;
use url_shortener::text::{
    contains_substring, parse_u64, push_decimal_text, split_whitespace, strip_stars, IntParseError,
};

fn bulk(s: &str) -> Response {
    Response::BulkString(Some(s.to_string()))
}

fn key_list(r: &Response) -> Vec<String> {
    match r {
        Response::Array(items) => items
            .iter()
            .map(|i| match i {
                Response::BulkString(Some(s)) => s.clone(),
                other => panic!("unexpected item {:?}", other),
            })
            .collect(),
        other => panic!("expected an array, got {:?}", other),
    }
}

#[test]
fn parse_reads_each_command() {
    assert_eq!(
        Command::parse("SET a b").unwrap(),
        Command::SetValue { key: "a".to_string(), value: "b".to_string() }
    );
    assert_eq!(
        Command::parse("SET a b EX 7").unwrap(),
        Command::SetEx { key: "a".to_string(), value: "b".to_string(), ttl_secs: 7 }
    );
    assert_eq!(Command::parse("GET a").unwrap(), Command::Get { key: "a".to_string() });
    assert_eq!(Command::parse("DEL a").unwrap(), Command::Delete { key: "a".to_string() });
    assert_eq!(Command::parse("DELETE a").unwrap(), Command::Delete { key: "a".to_string() });
    assert_eq!(Command::parse("EXISTS a").unwrap(), Command::Exists { key: "a".to_string() });
    assert_eq!(Command::parse("CLEAR").unwrap(), Command::Clear);
    assert_eq!(Command::parse("INFO extra words").unwrap(), Command::Info);
    assert_eq!(Command::parse("KEYS").unwrap(), Command::Keys { pattern: None });
    assert_eq!(
        Command::parse("KEYS a* b").unwrap(),
        Command::Keys { pattern: Some("a*".to_string()) }
    );
    assert_eq!(Command::parse("SETURL u").unwrap(), Command::SetUrl { url: "u".to_string() });
    assert_eq!(
        Command::parse("SETTTL k 9").unwrap(),
        Command::SetTtl { key: "k".to_string(), ttl_secs: 9 }
    );
}

#[test]
fn parse_ignores_case_and_white_space() {
    assert_eq!(Command::parse("  get \t key\n").unwrap(), Command::Get { key: "key".to_string() });
    assert_eq!(
        Command::parse("GET\u{3000}key\u{2028}").unwrap(),
        Command::Get { key: "key".to_string() }
    );
    assert_eq!(
        Command::parse("set k v ex 5").unwrap(),
        Command::SetEx { key: "k".to_string(), value: "v".to_string(), ttl_secs: 5 }
    );
    // The Unicode upper case of the long s is S.
    assert_eq!(
        Command::parse("\u{17F}et k v").unwrap(),
        Command::SetValue { key: "k".to_string(), value: "v".to_string() }
    );
}

#[test]
fn parse_set_keeps_only_what_it_reads() {
    assert_eq!(
        Command::parse("SET k v junk").unwrap(),
        Command::SetValue { key: "k".to_string(), value: "v".to_string() }
    );
    assert_eq!(
        Command::parse("SET k v NX 5").unwrap(),
        Command::SetValue { key: "k".to_string(), value: "v".to_string() }
    );
    assert_eq!(
        Command::parse("SET k v EX 5 more").unwrap(),
        Command::SetEx { key: "k".to_string(), value: "v".to_string(), ttl_secs: 5 }
    );
}

#[test]
fn parse_errors() {
    assert_eq!(Command::parse(""), Err(ParseError::Empty));
    assert_eq!(Command::parse(" \t\r\n"), Err(ParseError::Empty));
    assert_eq!(
        Command::parse("invalid_command x"),
        Err(ParseError::UnknownCommand("INVALID_COMMAND".to_string()))
    );
    assert_eq!(Command::parse("SET a"), Err(ParseError::InvalidArguments));
    assert_eq!(Command::parse("GET a b"), Err(ParseError::InvalidArguments));
    assert_eq!(Command::parse("EXISTS"), Err(ParseError::InvalidArguments));
    assert_eq!(Command::parse("DEL"), Err(ParseError::InvalidArguments));
    assert_eq!(Command::parse("SETTTL k"), Err(ParseError::InvalidArguments));
    assert_eq!(
        Command::parse("SET a b EX ten"),
        Err(ParseError::InvalidTTL(IntParseError::InvalidDigit))
    );
    assert_eq!(
        Command::parse("SETTTL k 18446744073709551616"),
        Err(ParseError::InvalidTTL(IntParseError::PosOverflow))
    );
}

#[test]
fn from_words_decides_on_the_given_upper_case() {
    let parts = vec!["whatever".to_string(), "k".to_string()];
    assert_eq!(
        Command::from_words(&parts, &"GET".to_string(), &String::new()),
        Ok(Command::Get { key: "k".to_string() })
    );
    assert_eq!(
        Command::from_words(&parts, &"NOPE".to_string(), &String::new()),
        Err(ParseError::UnknownCommand("NOPE".to_string()))
    );
    let five = vec![
        "set".to_string(),
        "k".to_string(),
        "v".to_string(),
        "ex".to_string(),
        "3".to_string(),
    ];
    assert_eq!(
        Command::from_words(&five, &"SET".to_string(), &"EX".to_string()),
        Ok(Command::SetEx { key: "k".to_string(), value: "v".to_string(), ttl_secs: 3 })
    );
    assert_eq!(
        Command::from_words(&five, &"SET".to_string(), &"ex".to_string()),
        Ok(Command::SetValue { key: "k".to_string(), value: "v".to_string() })
    );
    assert_eq!(Command::from_words(&vec![], &String::new(), &String::new()), Err(ParseError::Empty));
}

#[test]
fn parse_u64_follows_std() {
    let cases = [
        "", "+", "-", "0", "7", "+7", "-7", "007", "12a", "a12", "18446744073709551615",
        "18446744073709551616", "99999999999999999999x", "1 2", "\u{661}",
    ];
    for c in cases.iter() {
        let ours = parse_u64(c);
        let theirs = c.parse::<u64>();
        match (ours, theirs) {
            (Ok(a), Ok(b)) => assert_eq!(a, b, "{:?}", c),
            (Err(IntParseError::Empty), Err(e)) => {
                assert_eq!(*e.kind(), std::num::IntErrorKind::Empty, "{:?}", c)
            }
            (Err(IntParseError::InvalidDigit), Err(e)) => {
                assert_eq!(*e.kind(), std::num::IntErrorKind::InvalidDigit, "{:?}", c)
            }
            (Err(IntParseError::PosOverflow), Err(e)) => {
                assert_eq!(*e.kind(), std::num::IntErrorKind::PosOverflow, "{:?}", c)
            }
            (a, b) => panic!("{:?}: {:?} against {:?}", c, a, b),
        }
    }
}

#[test]
fn decimal_text_reads_back() {
    for n in [0u64, 9, 10, 300, 1234567890, u64::MAX].iter() {
        let mut s = String::new();
        push_decimal_text(&mut s, *n);
        assert_eq!(s, n.to_string());
        assert_eq!(parse_u64(&s), Ok(*n));
    }
}

#[test]
fn words_and_patterns() {
    assert_eq!(split_whitespace("  a bb\u{a0}ccc \n"), vec!["a", "bb", "ccc"]);
    assert!(split_whitespace(" \u{2003} ").is_empty());
    let chars = |s: &str| s.chars().collect::<Vec<char>>();
    assert_eq!(strip_stars(&chars("*u*s*")), chars("us"));
    assert!(contains_substring(&chars("user:1"), &chars("er:")));
    assert!(contains_substring(&chars("user:1"), &chars("")));
    assert!(!contains_substring(&chars("user"), &chars("users")));
    assert!(!contains_substring(&chars("config"), &chars("user")));
}

#[test]
fn to_bytes_encodes_each_reply() {
    assert_eq!(Response::ok().to_bytes(), b"+OK\r\n".to_vec());
    assert_eq!(Response::error("bad").to_bytes(), b"-ERR bad\r\n".to_vec());
    assert_eq!(Response::Integer(0).to_bytes(), b":0\r\n".to_vec());
    assert_eq!(Response::Integer(-42).to_bytes(), b":-42\r\n".to_vec());
    assert_eq!(
        Response::Integer(i64::MIN).to_bytes(),
        b":-9223372036854775808\r\n".to_vec()
    );
    assert_eq!(bulk("h\u{e9}llo").to_bytes(), "$6\r\nh\u{e9}llo\r\n".as_bytes().to_vec());
    assert_eq!(Response::BulkString(None).to_bytes(), b"$-1\r\n".to_vec());
    assert_eq!(Response::Null.to_bytes(), Vec::<u8>::new());
    let nested = Response::Array(vec![
        bulk("a"),
        Response::Array(vec![Response::Integer(1), Response::Null]),
        Response::BulkString(None),
    ]);
    assert_eq!(nested.to_bytes(), b"*3\r\n$1\r\na\r\n*2\r\n:1\r\n$-1\r\n".to_vec());
    assert_eq!(Response::Array(vec![]).to_bytes(), b"*0\r\n".to_vec());
}

#[test]
fn clone_keeps_the_reply() {
    let r = Response::Array(vec![bulk("x"), Response::Integer(3)]);
    assert_eq!(r.clone(), r);
    assert_eq!(r.clone().to_bytes(), r.to_bytes());
    assert_eq!(Response::error("e").clone(), Response::Error("e".to_string()));
}

#[test]
fn read_after_write_and_overwrite() {
    let mut s = Storage::new();
    s.set_ex_at("k".to_string(), "v1".to_string(), 1, 0);
    assert_eq!(s.get_at("k", 999_999_999), bulk("v1"));
    assert_eq!(s.get_at("k", 1_000_000_000), Response::BulkString(None));
    // A plain SET replaces the value and its expiry.
    s.set("k".to_string(), "v2".to_string()).unwrap();
    assert_eq!(s.get_at("k", u128::MAX), bulk("v2"));
    assert_eq!(s.key_exists_at("k", u128::MAX), Response::Integer(1));
    assert_eq!(s.get_at("other", 0), Response::BulkString(None));
}

#[test]
fn expiry_is_held_at_the_end_of_the_clock() {
    let mut s = Storage::new();
    s.set_ex_at("k".to_string(), "v".to_string(), 1, u128::MAX - 5);
    assert_eq!(s.get_at("k", u128::MAX - 1), bulk("v"));
    s.set_ex_at("m".to_string(), "v".to_string(), u64::MAX, 5);
    assert_eq!(s.get_at("m", 5 + u64::MAX as u128 * 1_000_000_000 - 1), bulk("v"));
    assert_eq!(s.get_at("m", 5 + u64::MAX as u128 * 1_000_000_000), Response::BulkString(None));
    s.set_ex_at("z".to_string(), "v".to_string(), 0, 5);
    assert_eq!(s.get_at("z", 5), Response::BulkString(None));
    assert_eq!(s.key_exists_at("z", 4), Response::Integer(1));
}

#[test]
fn delete_counts_expired_keys_as_stored() {
    let mut s = Storage::new();
    s.set_ex_at("k".to_string(), "v".to_string(), 1, 0);
    assert_eq!(s.key_exists_at("k", 5_000_000_000), Response::Integer(0));
    assert_eq!(s.delete("k").unwrap(), Response::Integer(1));
    assert_eq!(s.delete("k").unwrap(), Response::Integer(0));
}

#[test]
fn set_ttl_on_live_missing_and_expired_keys() {
    let mut s = Storage::new();
    s.set("live".to_string(), "a".to_string()).unwrap();
    s.set_ex_at("old".to_string(), "b".to_string(), 1, 0);
    assert_eq!(s.set_ttl_at("live", 10, 100), Response::Integer(1));
    assert_eq!(s.get_at("live", 10_000_000_099), bulk("a"));
    assert_eq!(s.get_at("live", 10_000_000_100), Response::BulkString(None));
    assert_eq!(s.set_ttl_at("old", 10, 2_000_000_000), Response::Integer(0));
    assert_eq!(s.get_at("old", 2_000_000_000), Response::BulkString(None));
    assert_eq!(s.set_ttl_at("none", 10, 0), Response::Integer(0));
}

#[test]
fn keys_lists_in_store_order_and_by_pattern() {
    let mut s = Storage::new();
    for k in ["user:1", "config:1", "user:2", "u*r"].iter() {
        s.set(k.to_string(), "v".to_string()).unwrap();
    }
    s.set("config:1".to_string(), "w".to_string()).unwrap();
    assert_eq!(key_list(&s.keys(None).unwrap()), vec!["user:1", "config:1", "user:2", "u*r"]);
    assert_eq!(key_list(&s.keys(Some("user*")).unwrap()), vec!["user:1", "user:2"]);
    assert_eq!(key_list(&s.keys(Some("*:1")).unwrap()), vec!["user:1", "config:1"]);
    assert_eq!(key_list(&s.keys(Some("*")).unwrap()).len(), 4);
    assert_eq!(key_list(&s.keys(Some("user:2")).unwrap()), vec!["user:2"]);
    assert_eq!(key_list(&s.keys(Some("user")).unwrap()), Vec::<String>::new());
    // Expired keys are still listed until they are removed.
    s.set_ex_at("gone".to_string(), "v".to_string(), 0, 0);
    assert_eq!(key_list(&s.keys(Some("gone")).unwrap()), vec!["gone"]);
}

#[test]
fn info_counts_stored_keys() {
    let mut s = Storage::new();
    assert_eq!(s.info().unwrap(), bulk("Stats:\r\ntotal_keys: 0\r\n"));
    s.set("a".to_string(), "1".to_string()).unwrap();
    s.set("b".to_string(), "1".to_string()).unwrap();
    s.set("a".to_string(), "2".to_string()).unwrap();
    assert_eq!(s.info().unwrap(), bulk("Stats:\r\ntotal_keys: 2\r\n"));
    s.clear().unwrap();
    assert_eq!(s.info().unwrap(), bulk("Stats:\r\ntotal_keys: 0\r\n"));
    assert!(key_list(&s.keys(None).unwrap()).is_empty());
}

#[test]
fn remove_expired_keeps_what_is_read() {
    let mut s = Storage::new();
    s.set_ex_at("short".to_string(), "1".to_string(), 1, 0);
    s.set("forever".to_string(), "2".to_string()).unwrap();
    s.set_ex_at("long".to_string(), "3".to_string(), 100, 0);
    s.remove_expired(1_000_000_000);
    assert_eq!(key_list(&s.keys(None).unwrap()), vec!["forever", "long"]);
    assert_eq!(s.info().unwrap(), bulk("Stats:\r\ntotal_keys: 2\r\n"));
    assert_eq!(s.get_at("long", 5_000_000_000), bulk("3"));
    assert_eq!(s.get_at("forever", 5_000_000_000), bulk("2"));
    assert_eq!(s.delete("short").unwrap(), Response::Integer(0));
}

#[test]
fn short_keys_are_eight_url_safe_characters() {
    let a = generate_short_url("https://example.com");
    let b = generate_short_url("https://example.com");
    let c = generate_short_url("https://google.com");
    assert_eq!(a, b);
    assert_ne!(a, c);
    assert_ne!(a, "https://example.com");
    for k in [&a, &c].iter() {
        assert_eq!(k.chars().count(), 8);
        assert!(k.chars().all(|ch| ch.is_ascii_alphanumeric() || ch == '-' || ch == '_'));
    }
}

#[test]
fn seturl_stores_the_url_under_its_key() {
    let mut s = Storage::new();
    let key = generate_short_url("https://example.com");
    let r = execute(&mut s, Command::SetUrl { url: "https://example.com".to_string() }, 0).unwrap();
    assert_eq!(r, Response::BulkString(Some(key.clone())));
    assert_eq!(s.get_at(&key, 123), bulk("https://example.com"));
}

#[test]
fn failed_parse_leaves_the_store() {
    let mut s = Storage::new();
    process_command_at(&mut s, "SET a 1", 0).unwrap();
    let e = process_command_at(&mut s, "SET b", 0).unwrap_err();
    assert_eq!(e, CommandError::Parse(ParseError::InvalidArguments));
    assert_eq!(key_list(&s.keys(None).unwrap()), vec!["a"]);
}

#[test]
fn shorten_and_resolve() {
    let mut s = Storage::new();
    let req = ShortenRequest { url: " https://example.com ".to_string() };
    let resp = shorten(&mut s, &req, "3000", 1000).unwrap();
    let key = generate_short_url("https://example.com");
    assert_eq!(resp.short_url, format!("http://localhost:3000/{}", key));
    assert_eq!(short_url_for("3000", &key), resp.short_url);
    let ttl_ns = URL_TTL_SECONDS as u128 * 1_000_000_000;
    assert_eq!(resolve(&mut s, &key, 1000 + ttl_ns - 1), Some("https://example.com".to_string()));
    // Following the key gave it five more minutes.
    assert_eq!(s.get_at(&key, 1000 + ttl_ns + 10), bulk("https://example.com"));
    assert_eq!(resolve(&mut s, &key, 1000 + 3 * ttl_ns), None);
    assert_eq!(resolve(&mut s, "missing", 0), None);
    assert!(shorten(&mut s, &ShortenRequest { url: "a b".to_string() }, "1", 0).is_none());
    assert!(shorten(&mut s, &ShortenRequest { url: "".to_string() }, "1", 0).is_none());
}

#[test]
fn error_messages() {
    assert_eq!(ParseError::Empty.message(), "Empty command");
    assert_eq!(ParseError::UnknownCommand("X".to_string()).message(), "Unknown command: X");
    assert_eq!(ParseError::InvalidArguments.message(), "Invalid number of arguments");
    assert_eq!(
        ParseError::InvalidTTL(IntParseError::InvalidDigit).message(),
        "Invalid TTL value: invalid digit found in string"
    );
    assert_eq!(
        ParseError::InvalidTTL(IntParseError::PosOverflow).message(),
        "Invalid TTL value: number too large to fit in target type"
    );
    assert_eq!(
        ParseError::InvalidTTL(IntParseError::Empty).message(),
        "Invalid TTL value: cannot parse integer from empty string"
    );
    assert_eq!(StorageError::LockPoisoned.message(), "Lock poisoned");
    assert_eq!(CommandError::Parse(ParseError::Empty).message(), "Empty command");
}

#[test]
fn writes_leave_other_keys_alone() {
    let mut s = Storage::new();
    s.set("a".to_string(), "1".to_string()).unwrap();
    s.set_ex_at("b".to_string(), "2".to_string(), 10, 0);
    s.set_ex_at("a".to_string(), "3".to_string(), 1, 0);
    s.set_ttl_at("a", 5, 0);
    s.delete("a").unwrap();
    execute(&mut s, Command::SetUrl { url: "u".to_string() }, 0).unwrap();
    assert_eq!(s.get_at("b", 9_999_999_999), bulk("2"));
}

#[test]
fn reads_change_nothing() {
    let mut s = Storage::new();
    process_command_at(&mut s, "SET a 1 EX 1", 0).unwrap();
    for line in ["GET a", "EXISTS a", "KEYS", "INFO", "GET b"].iter() {
        process_command_at(&mut s, line, 5_000_000_000).unwrap();
    }
    assert_eq!(key_list(&s.keys(None).unwrap()), vec!["a"]);
    assert_eq!(s.get_at("a", 999_999_999), bulk("1"));
}

#[test]
fn shortened_url_expires_after_five_minutes() {
    let mut s = Storage::new();
    let req = ShortenRequest { url: "https://rust-lang.org".to_string() };
    shorten(&mut s, &req, "8080", 7).unwrap();
    let key = generate_short_url("https://rust-lang.org");
    assert_eq!(s.get_at(&key, 7 + 300_000_000_000 - 1), bulk("https://rust-lang.org"));
    assert_eq!(s.get_at(&key, 7 + 300_000_000_000), Response::BulkString(None));
}

#[test]
fn clock_based_forms() {
    let mut s = Storage::new();
    assert_eq!(s.set_ex("k".to_string(), "v".to_string(), 60).unwrap(), Response::ok());
    assert_eq!(s.get("k").unwrap(), bulk("v"));
    assert_eq!(s.key_exists("k").unwrap(), Response::Integer(1));
    assert_eq!(s.set_ttl("k", 0).unwrap(), Response::Integer(1));
    assert_eq!(s.key_exists("k").unwrap(), Response::Integer(0));
    assert_eq!(s.get("k").unwrap(), Response::BulkString(None));
    assert_eq!(s.set_ttl("k", 5).unwrap(), Response::Integer(0));
}
