use teamcodex::affinity::hash;
use teamcodex::affinity::Kind;
use teamcodex::affinity::Plan;
use teamcodex::affinity::Record;
use teamcodex::affinity::Routing;
use teamcodex::affinity::COMPACT_BYTES;
use teamcodex::affinity::JOURNAL_LIMIT;
use teamcodex::affinity::LIMIT;
use teamcodex::affinity::TTL;
use teamcodex::journal::complete_len;
use teamcodex::journal::is_too_large;
use teamcodex::journal::needs_compaction;
use teamcodex::journal::JournalError;
use teamcodex::now;

fn record(kind: Kind, key: &str, account: &str, at: u64) -> Record {
    Record { kind, key: hash(key.as_bytes()), account: hash(account.as_bytes()), at }
}

#[test]
fn replay_preserves_eviction_with_tied_timestamps() {
    let mut expected = Routing::new(false);
    let mut bytes = Vec::new();
    let at = now();
    for idx in 0..LIMIT + 17 {
        let record = record(Kind::Session, &idx.to_string(), "account", at);
        bytes.extend(record.line());
        expected.insert(record, at);
    }
    let restored = Routing::replay(&bytes, at).ok().unwrap();
    assert_eq!(expected.count(Kind::Session), LIMIT);
    assert_eq!(restored.count(Kind::Session), LIMIT);
    for idx in 0..LIMIT + 17 {
        let key = hash(idx.to_string().as_bytes());
        assert_eq!(
            expected.get_at(Kind::Session, &key, at),
            restored.get_at(Kind::Session, &key, at)
        );
    }
}

#[test]
fn a_record_is_an_object_or_a_list() {
    let read = |line: &str| {
        Record::read(line.as_bytes()).map(|found| (found.kind, found.key, found.account, found.at))
    };
    let expected = |kind| Some((kind, "k,}".to_string(), "a".to_string(), 7));
    for (line, kind) in [
        (r#"{"kind":"session","key":"k,}","account":"a","at":7}"#, Kind::Session),
        (r#" { "at" : 7 , "account" : "a" , "key" : "k,}" , "kind" : "response" } "#, Kind::Response),
        (r#"["session","k,}","a",7]"#, Kind::Session),
        (r#"{"kind":{"response":null},"key":"k,}","account":"a","at":7}"#, Kind::Response),
        (r#"[{"session":null},"k,}","a",7]"#, Kind::Session),
        (r#"{"kind":"session","key":"k,}","account":"a","at":7}"#, Kind::Session),
    ] {
        assert_eq!(read(line), expected(kind), "{line}");
    }
    for line in [
        "",
        "null",
        "[]",
        "{}",
        r#"["session","k","a"]"#,
        r#"["session","k","a",7,8]"#,
        r#"["other","k","a",7]"#,
        r#"["session","k","a",7.5]"#,
        r#"["session","k","a",-7]"#,
        r#"[{"session":1},"k","a",7]"#,
        r#"[{"session":null,"session":null},"k","a",7]"#,
        r#"[{"session":null,"response":null},"k","a",7]"#,
        r#"[{},"k","a",7]"#,
        r#"{"kind":"session","key":"k","account":"a"}"#,
        r#"{"kind":"session","key":"k","account":"a","at":7,"more":1}"#,
        r#"{"kind":"session","key":"k","key":"k","account":"a","at":7}"#,
        r#"{"kind":"session","key":"j","account":"a","at":7,"key":"k"}"#,
        r#"{"kind":"session","kind":"session","key":"k","account":"a","at":7}"#,
        r#"{"kind":{"session":null,"session":null},"key":"k","account":"a","at":7}"#,
    ] {
        assert_eq!(read(line), None, "{line}");
    }
}

#[test]
fn the_last_record_of_a_key_counts() {
    let at = now();
    let mut bytes = Vec::new();
    for (account, time) in [("first", at - 10), ("second", at - 5), ("expired", at - TTL)] {
        bytes.extend(record(Kind::Session, "s", account, time).line());
    }
    bytes.extend(record(Kind::Session, "s", "early", at + 1).line());
    bytes.extend(record(Kind::Response, "s", "other", at).line());
    bytes.extend(b"[\"session\",");
    let routing = Routing::replay(&bytes, at).ok().unwrap();
    let key = hash(b"s");
    assert_eq!(routing.get_at(Kind::Session, &key, at), Some(hash(b"second").as_str()));
    assert_eq!(routing.get_at(Kind::Response, &key, at), Some(hash(b"other").as_str()));
    assert_eq!(routing.get_at(Kind::Session, &hash(b"t"), at), None);
    assert!(routing.persistent() && routing.healthy());
}

#[test]
fn a_journal_restores_bindings_and_drops_an_incomplete_tail() {
    let at = now();
    let session = record(Kind::Session, "synthetic-session", "synthetic-account", at);
    let response = record(Kind::Response, "response", "synthetic-account", at);
    let mut bytes = session.line();
    bytes.extend(response.line());
    assert!(!String::from_utf8(bytes.clone()).unwrap().contains("synthetic-session"));
    let complete = bytes.len();
    bytes.extend(b"{\"incomplete\":");
    assert_eq!(complete_len(&bytes), complete);
    let routing = Routing::replay(&bytes, at).ok().unwrap();
    let account = hash(b"synthetic-account");
    assert_eq!(
        routing.get_at(Kind::Session, &hash(b"synthetic-session"), at),
        Some(account.as_str())
    );
    assert_eq!(routing.get_at(Kind::Response, &hash(b"response"), at), Some(account.as_str()));
    assert_eq!(routing.get_at(Kind::Response, &hash(b"synthetic-session"), at), None);
    assert!(routing.persistent());
    bytes.truncate(complete);
    bytes.extend(b"invalid complete record\n");
    assert_eq!(Routing::replay(&bytes, at).err(), Some(JournalError::Invalid));
}

#[test]
fn a_journal_holds_digests_only() {
    let at = now();
    let short = Record { kind: Kind::Session, key: "short".to_string(), account: hash(b"a"), at };
    assert_eq!(Routing::replay(&short.line(), at).err(), Some(JournalError::Binding));
    let large = vec![b'\n'; JOURNAL_LIMIT as usize + 1];
    assert_eq!(Routing::replay(&large, at).err(), Some(JournalError::TooLarge));
    assert!(is_too_large(JOURNAL_LIMIT + 1));
    assert!(!is_too_large(JOURNAL_LIMIT));
    assert!(needs_compaction(COMPACT_BYTES));
    assert!(!needs_compaction(COMPACT_BYTES - 1));
    assert_eq!(JournalError::TooLarge.message(), "routing journal exceeds size limit");
    assert_eq!(JournalError::Invalid.message(), "invalid routing journal");
    assert_eq!(JournalError::Binding.message(), "invalid routing binding");
}

#[test]
fn a_record_reads_as_it_was_written() {
    let written = record(Kind::Response, "key", "account", 17);
    let mut line = written.line();
    assert_eq!(line.pop(), Some(b'\n'));
    let read = Record::read(&line).unwrap();
    assert!(read.kind == Kind::Response);
    assert_eq!(read.key, written.key);
    assert_eq!(read.account, written.account);
    assert_eq!(read.at, 17);
    assert!(Record::read(b"{\"kind\":\"session\"}").is_none());
    assert!(Record::read(b"{\"kind\":\"other\",\"key\":\"a\",\"account\":\"b\",\"at\":1}").is_none());
    assert!(
        Record::read(b"{\"kind\":\"session\",\"key\":\"a\",\"account\":\"b\",\"at\":1,\"x\":2}").is_none()
    );
}

#[test]
fn bindings_expire_and_a_compact_journal_holds_live_ones() {
    let at = 10 * TTL;
    let mut routing = Routing::new(true);
    routing.insert(record(Kind::Session, "old", "a", at - TTL), at - TTL);
    routing.insert(record(Kind::Session, "new", "a", at), at);
    routing.insert(record(Kind::Response, "r", "b", at - 1), at);
    assert_eq!(routing.get_at(Kind::Session, &hash(b"old"), at), None);
    assert_eq!(routing.get_at(Kind::Session, &hash(b"old"), at - 1), Some(hash(b"a").as_str()));
    let bytes = routing.compact(at);
    let restored = Routing::replay(&bytes, at).ok().unwrap();
    assert_eq!(restored.count(Kind::Session), 1);
    assert_eq!(restored.count(Kind::Response), 1);
    assert_eq!(restored.get_at(Kind::Session, &hash(b"new"), at), Some(hash(b"a").as_str()));
}

#[test]
fn a_compact_journal_has_one_line_for_each_live_binding() {
    let at = 10 * TTL;
    let mut routing = Routing::new(true);
    routing.insert(record(Kind::Session, "old", "a", at - TTL), at - TTL);
    routing.insert(record(Kind::Session, "ahead", "a", at + 5), at);
    routing.insert(record(Kind::Response, "r", "b", at - 1), at);
    let bytes = routing.compact(at);
    assert_eq!(bytes.last(), Some(&b'\n'));
    let lines: Vec<Record> = bytes[..bytes.len() - 1]
        .split(|byte| *byte == b'\n')
        .map(|line| Record::read(line).unwrap())
        .collect();
    assert_eq!(lines.len(), 2);
    assert!(lines[0].kind == Kind::Session);
    assert_eq!((lines[0].key.clone(), lines[0].at), (hash(b"ahead"), at + 5));
    assert!(lines[1].kind == Kind::Response);
    assert_eq!((lines[1].key.clone(), lines[1].account.clone()), (hash(b"r"), hash(b"b")));
    assert_eq!(Routing::replay(&bytes, at + 5).ok().unwrap().count(Kind::Session), 1);
    assert!(Routing::new(true).compact(at).is_empty());
}

#[test]
fn failed_writes_block_routing() {
    let mut routing = Routing::new(true);
    let (key, account) = (hash(b"s"), hash(b"a"));
    let planned = match routing.plan(Kind::Session, key.clone(), account.clone(), 5) {
        Plan::Write(record) => record,
        _ => panic!("a record is to be stored"),
    };
    assert!(routing.healthy());
    routing.commit(planned, false, 5);
    assert!(!routing.healthy());
    assert!(routing.get_at(Kind::Session, &key, 5).is_none());
    assert!(routing.remember_at(Kind::Session, key.clone(), account, true, 5).is_err());
}

#[test]
fn an_unchanged_binding_is_stored_once_a_minute() {
    let mut routing = Routing::new(false);
    let (key, account) = (hash(b"s"), hash(b"a"));
    assert!(routing.remember_at(Kind::Session, key.clone(), account.clone(), true, 100).is_ok());
    let unchanged = |routing: &Routing, account: &str, at: u64| {
        !matches!(
            routing.plan(Kind::Session, hash(b"s"), account.to_string(), at),
            Plan::Write(_)
        )
    };
    assert!(unchanged(&routing, &account, 159));
    assert!(!unchanged(&routing, &account, 160));
    assert!(!unchanged(&routing, &hash(b"b"), 101));
    assert_eq!(routing.get_at(Kind::Session, &key, 100), Some(account.as_str()));
}

#[test]
fn digests_are_those_of_sha_256() {
    assert_eq!(hash(b""), "47DEQpj8HBSa-_TImW-5JCeuQeRkm5NMpJWZG3hSuFU");
    assert_eq!(hash(b"abc"), "ungWv48Bz-pBQUDeXa4iI7ADYaOWF3qctBD_YfIAFa0");
    assert_eq!(
        teamcodex::codec::decode_bytes("AQID"),
        Some(vec![1, 2, 3])
    );
    assert_eq!(teamcodex::codec::decode_bytes("AQ="), None);
    assert_eq!(teamcodex::codec::decode_bytes("+/=="), None);
}
