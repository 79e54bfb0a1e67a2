use ask::codec::{encode_log, parse_log, parse_u64, LogError};
use ask::entry::LogEntry;

fn entry(ts: &str, role: &str, content: &str, tokens: i64) -> LogEntry {
    LogEntry {
        timestamp: String::from(ts),
        role: String::from(role),
        content: String::from(content),
        tokens,
    }
}

fn same(a: &[LogEntry], b: &[LogEntry]) -> bool {
    a.len() == b.len()
        && a.iter().zip(b.iter()).all(|(x, y)| {
            x.timestamp == y.timestamp
                && x.role == y.role
                && x.content == y.content
                && x.tokens == y.tokens
        })
}

#[test]
fn round_trip_of_a_small_log() {
    let log = vec![
        entry("2024-01-01T00:00:00+00:00", "user", "hello", 3),
        entry("2024-01-01T00:00:05+00:00", "assistant", "hi there", 7),
    ];
    let text = encode_log(&log);
    let back = parse_log(&text).expect("a just-encoded log must load");
    assert!(same(&log, &back));
}

#[test]
fn round_trip_keeps_awkward_content() {
    let log = vec![entry(
        "2024-06-30T23:59:59+00:00",
        "user",
        "line\nbreaks, 12:34 colons, \"quotes\" and \u{00e9}\u{4e16}\u{754c}",
        2000000000,
    )];
    let text = encode_log(&log);
    let back = parse_log(&text).expect("content must not confuse the format");
    assert!(same(&log, &back));
}

#[test]
fn round_trip_keeps_empty_fields_and_zero_tokens() {
    let log = vec![
        entry("", "", "", 0),
        entry("2024-01-02T00:00:00+00:00", "system", "", 0),
    ];
    let text = encode_log(&log);
    let back = parse_log(&text).expect("empty fields must round trip");
    assert!(same(&log, &back));
}

#[test]
fn round_trip_of_the_empty_log() {
    let log: Vec<LogEntry> = Vec::new();
    let text = encode_log(&log);
    let back = parse_log(&text).expect("the empty log must load");
    assert!(back.is_empty());
}

#[test]
fn empty_text_is_the_empty_log() {
    let back = parse_log("").expect("an absent or empty file is an empty log");
    assert!(back.is_empty());
}

#[test]
fn repeated_loads_agree() {
    let log = vec![entry("t", "user", "once", 1)];
    let text = encode_log(&log);
    let first = parse_log(&text).expect("loads");
    let second = parse_log(&text).expect("loads again");
    assert!(same(&first, &second));
}

#[test]
fn malformed_texts_are_rejected() {
    for bad in [
        "x",
        "1",
        "1\n",
        "2\n",
        "0",
        "0\n1:a\n",
        "1\n1:a\n",
        "1\n1:a\n1:b\n1:c\n-3\n",
        "1\n01:a\n1:b\n1:c\n3\n",
        "1\n1:a\n1:b\n1:c\n3",
        "1\n1:a\n1:b\n1:c\n3\nextra",
    ] {
        assert!(
            matches!(parse_log(bad), Err(LogError::Malformed)),
            "accepted: {:?}",
            bad
        );
    }
}

#[test]
fn exact_encoded_form() {
    let log = vec![entry("t0", "user", "hi", 12)];
    let text = encode_log(&log);
    assert_eq!(text, "1\n2:t0\n4:user\n2:hi\n12\n");
}

#[test]
fn parse_u64_reads_unsigned_decimal() {
    assert_eq!(parse_u64("0"), Some(0));
    assert_eq!(parse_u64("120"), Some(120));
    assert_eq!(parse_u64("007"), Some(7));
    assert_eq!(parse_u64("+30"), Some(30));
    assert_eq!(parse_u64("18446744073709551615"), Some(u64::MAX));
    assert_eq!(parse_u64("18446744073709551616"), None);
    assert_eq!(parse_u64(""), None);
    assert_eq!(parse_u64("+"), None);
    assert_eq!(parse_u64("12a"), None);
    assert_eq!(parse_u64("-1"), None);
}
