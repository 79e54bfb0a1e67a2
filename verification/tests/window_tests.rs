use ask::entry::{LogEntry, Message};
use ask::window::{select_window, MAX_TOKENS};

fn entry(role: &str, content: &str, tokens: i64) -> LogEntry {
    LogEntry {
        timestamp: String::from("2024-01-01T00:00:00+00:00"),
        role: String::from(role),
        content: String::from(content),
        tokens,
    }
}

fn pairs(msgs: &[Message]) -> Vec<(String, String)> {
    msgs.iter().map(|m| (m.role.clone(), m.content.clone())).collect()
}

#[test]
fn empty_log_sends_only_the_prompt() {
    let log: Vec<LogEntry> = Vec::new();
    let msgs = select_window(&log, 2000, String::from("hello"));
    assert_eq!(
        pairs(&msgs),
        vec![(String::from("user"), String::from("hello"))]
    );
}

#[test]
fn recent_entries_kept_oversized_skipped_older_still_checked() {
    // The three most recent entries sum to 1800; the fourth most recent is
    // oversized at 2200 and is skipped; the oldest, at 100, still fits.
    let log = vec![
        entry("user", "oldest", 100),
        entry("assistant", "huge", 2200),
        entry("user", "q1", 600),
        entry("assistant", "a1", 600),
        entry("user", "q2", 600),
    ];
    let msgs = select_window(&log, 2000, String::from("next"));
    assert_eq!(
        pairs(&msgs),
        vec![
            (String::from("user"), String::from("oldest")),
            (String::from("user"), String::from("q1")),
            (String::from("assistant"), String::from("a1")),
            (String::from("user"), String::from("q2")),
            (String::from("user"), String::from("next")),
        ]
    );
}

#[test]
fn budget_cuts_off_oldest_entries() {
    let log = vec![
        entry("user", "a", 900),
        entry("assistant", "b", 900),
        entry("user", "c", 900),
    ];
    let msgs = select_window(&log, 2000, String::from("p"));
    assert_eq!(
        pairs(&msgs),
        vec![
            (String::from("assistant"), String::from("b")),
            (String::from("user"), String::from("c")),
            (String::from("user"), String::from("p")),
        ]
    );
}

#[test]
fn zero_token_entries_are_always_included() {
    let log = vec![
        entry("user", "z1", 0),
        entry("assistant", "big", 2000),
        entry("user", "z2", 0),
    ];
    let msgs = select_window(&log, 2000, String::from("p"));
    assert_eq!(
        pairs(&msgs),
        vec![
            (String::from("user"), String::from("z1")),
            (String::from("assistant"), String::from("big")),
            (String::from("user"), String::from("z2")),
            (String::from("user"), String::from("p")),
        ]
    );
}

#[test]
fn default_budget_is_two_thousand() {
    assert_eq!(MAX_TOKENS, 2000);
}

#[test]
fn prompt_is_sent_even_when_over_budget_history_is_dropped() {
    let log = vec![entry("user", "too big", 5000)];
    let msgs = select_window(&log, 2000, String::from("still sent"));
    assert_eq!(
        pairs(&msgs),
        vec![(String::from("user"), String::from("still sent"))]
    );
}
