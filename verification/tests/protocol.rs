use snapstore::protocol::{constant_time_eq, msg_dispatch, pong_payload, render_dump, split_tokens};
use snapstore::snapshot::BinSet;
use snapstore::store::Storage;

const SECRET: &str = "s3cr3t";

fn snap(timestamp: u64, size: u64, document_count: u32, fill: u8) -> BinSet {
    BinSet {
        timestamp,
        size,
        document_count,
        data_hash: [fill; 32],
    }
}

fn reply(store: &Storage, line: &str) -> String {
    msg_dispatch(SECRET, store.dump(), line)
}

#[test]
fn binrecord_returns_the_current_dump() {
    let mut store = Storage::new(1000);
    store.rescan(vec![snap(5, 10, 2, 0x00), snap(9, 7, 1, 0xab)]);
    let expected = format!(
        "5 10 2 {}\n9 7 1 {}",
        "0".repeat(64),
        "ab".repeat(32)
    );
    assert_eq!(reply(&store, "s3cr3t BINRECORD"), expected);
}

#[test]
fn wrong_password_is_rejected() {
    let store = Storage::new(1000);
    assert_eq!(reply(&store, "wrongpw BINRECORD"), "Invalid Password");
    assert_eq!(reply(&store, "s3cr3u BINRECORD"), "Invalid Password");
}

#[test]
fn empty_message_is_rejected() {
    let store = Storage::new(1000);
    assert_eq!(reply(&store, ""), "INVALID Empty message not allowed");
    assert_eq!(reply(&store, "s3c"), "INVALID Empty message not allowed");
}

#[test]
fn single_token_is_rejected() {
    let store = Storage::new(1000);
    assert_eq!(reply(&store, "s3cr3t"), "Expected at least two arguments");
    assert_eq!(reply(&store, "  s3cr3t  "), "Expected at least two arguments");
}

#[test]
fn unknown_verb_is_rejected() {
    let store = Storage::new(1000);
    assert_eq!(reply(&store, "s3cr3t FOO"), "INVALID request");
    assert_eq!(reply(&store, "s3cr3t JSONLATEST"), "INVALID request");
}

#[test]
fn url_without_week_returns_placeholder() {
    let store = Storage::new(1000);
    assert_eq!(reply(&store, "s3cr3t URL"), "test");
}

#[test]
fn url_week_must_be_an_eight_bit_number() {
    let store = Storage::new(1000);
    assert_eq!(reply(&store, "s3cr3t URL abc"), "INVALID week given");
    assert_eq!(reply(&store, "s3cr3t URL 300"), "INVALID week given");
    assert_eq!(reply(&store, "s3cr3t URL 5"), "INVALID request");
    assert_eq!(reply(&store, "s3cr3t URL 255"), "INVALID request");
}

#[test]
fn empty_dump_serializes_to_nothing() {
    let store = Storage::new(1000);
    assert_eq!(reply(&store, "s3cr3t BINRECORD"), "");
    assert_eq!(render_dump(&Vec::new()), "");
}

#[test]
fn tokens_split_on_runs_of_whitespace() {
    let toks = split_tokens("  one \t two\nthree  ");
    assert_eq!(toks, vec!["one", "two", "three"]);
    assert!(split_tokens("   ").is_empty());
    assert!(split_tokens("").is_empty());
}

#[test]
fn tokens_split_on_unicode_whitespace() {
    assert_eq!(split_tokens("a\u{00A0}b\u{2003}c"), vec!["a", "b", "c"]);
    let store = Storage::new(1000);
    assert_eq!(reply(&store, "s3cr3t\tURL"), "test");
}

#[test]
fn constant_time_comparison_agrees_with_equality() {
    assert!(constant_time_eq("s3cr3t", "s3cr3t"));
    assert!(!constant_time_eq("s3cr3t", "s3cr3u"));
    assert!(!constant_time_eq("s3cr3t", "s3cr3"));
    assert!(!constant_time_eq("", "x"));
    assert!(constant_time_eq("", ""));
}

#[test]
fn pong_payload_is_little_endian_millis() {
    let v = pong_payload(0x0102);
    assert_eq!(v.len(), 16);
    assert_eq!(v[0], 0x02);
    assert_eq!(v[1], 0x01);
    for b in &v[2..] {
        assert_eq!(*b, 0);
    }
    assert_eq!(pong_payload(u128::MAX), vec![0xff; 16]);
}
