use ask::entry::{create_log, create_message, LogEntry};
use ask::session::{
    apply_outcome, interpret_response, join_words, require_api_key, resolve_base_url,
    resolve_model, resolve_timeout_secs, ConfigError, Outcome, SessionStep, DEFAULT_TIMEOUT_SECS,
};

#[test]
fn model_precedence_cli_env_default() {
    assert_eq!(
        resolve_model(Some(String::from("gpt-4")), Some(String::from("env-model"))),
        "gpt-4"
    );
    assert_eq!(
        resolve_model(None, Some(String::from("env-model"))),
        "env-model"
    );
    assert_eq!(resolve_model(None, None), "gpt-3.5-turbo");
}

#[test]
fn base_url_default_and_override() {
    assert_eq!(
        resolve_base_url(None),
        "https://api.openai.com/v1/chat/completions/"
    );
    assert_eq!(
        resolve_base_url(Some(String::from("http://localhost:1/"))),
        "http://localhost:1/"
    );
}

#[test]
fn timeout_default_and_parse() {
    assert_eq!(resolve_timeout_secs(None), DEFAULT_TIMEOUT_SECS);
    assert_eq!(resolve_timeout_secs(Some(String::from("30"))), 30);
    assert_eq!(resolve_timeout_secs(Some(String::from("030"))), 30);
    assert_eq!(resolve_timeout_secs(Some(String::from("+45"))), 45);
    assert_eq!(
        resolve_timeout_secs(Some(String::from("not-a-number"))),
        DEFAULT_TIMEOUT_SECS
    );
}

#[test]
fn missing_api_key_is_a_startup_error() {
    assert_eq!(
        require_api_key(None),
        Err(ConfigError::MissingApiKey)
    );
    assert_eq!(ConfigError::MissingApiKey.message(), "OPENAI_API_KEY not set");
    assert_eq!(
        require_api_key(Some(String::from("SECRET-REDACTED"))),
        Ok(String::from("SECRET-REDACTED"))
    );
}

#[test]
fn words_join_with_single_spaces() {
    let words = vec![
        String::from("what"),
        String::from("is"),
        String::from("rust"),
    ];
    assert_eq!(join_words(&words), "what is rust");
    let one = vec![String::from("hello")];
    assert_eq!(join_words(&one), "hello");
    let none: Vec<String> = Vec::new();
    assert_eq!(join_words(&none), "");
}

#[test]
fn provider_error_wins_and_keeps_its_message() {
    let r = interpret_response(
        true,
        Some(String::from("rate limited")),
        Some(String::from("ignored")),
        Some(1),
        Some(2),
    );
    match r {
        Outcome::ProviderError { message } => assert_eq!(message, "rate limited"),
        _ => panic!("expected a provider error"),
    }
}

#[test]
fn error_object_without_message_is_malformed() {
    let r = interpret_response(true, None, None, None, None);
    assert!(matches!(r, Outcome::MalformedReply));
}

#[test]
fn complete_reply_is_a_success() {
    let r = interpret_response(false, None, Some(String::from("42.")), Some(9), Some(4));
    match r {
        Outcome::Success { answer, prompt_tokens, completion_tokens } => {
            assert_eq!(answer, "42.");
            assert_eq!(prompt_tokens, 9);
            assert_eq!(completion_tokens, 4);
        }
        _ => panic!("expected a success"),
    }
}

#[test]
fn missing_fields_are_malformed() {
    assert!(matches!(
        interpret_response(false, None, None, Some(1), Some(2)),
        Outcome::MalformedReply
    ));
    assert!(matches!(
        interpret_response(false, None, Some(String::from("a")), None, Some(2)),
        Outcome::MalformedReply
    ));
    assert!(matches!(
        interpret_response(false, None, Some(String::from("a")), Some(1), None),
        Outcome::MalformedReply
    ));
    assert!(matches!(
        interpret_response(false, None, Some(String::from("a")), Some(-1), Some(2)),
        Outcome::MalformedReply
    ));
}

#[test]
fn success_appends_the_two_turns() {
    let mut log: Vec<LogEntry> = Vec::new();
    let step = apply_outcome(
        &mut log,
        "what is rust",
        Outcome::Success {
            answer: String::from("a language"),
            prompt_tokens: 9,
            completion_tokens: 4,
        },
    );
    match step {
        SessionStep::Persist { output } => assert_eq!(output, "a language"),
        _ => panic!("expected to persist"),
    }
    assert_eq!(log.len(), 2);
    assert_eq!(log[0].role, "user");
    assert_eq!(log[0].content, "what is rust");
    assert_eq!(log[0].tokens, 9);
    assert_eq!(log[1].role, "assistant");
    assert_eq!(log[1].content, "a language");
    assert_eq!(log[1].tokens, 4);
}

#[test]
fn provider_error_prints_exactly_and_leaves_the_log() {
    let mut log = vec![create_log(String::from("user"), String::from("old"), 1)];
    let step = apply_outcome(
        &mut log,
        "new prompt",
        Outcome::ProviderError { message: String::from("rate limited") },
    );
    match step {
        SessionStep::PrintOnly { output } => assert_eq!(output, "rate limited"),
        _ => panic!("expected print-only"),
    }
    assert_eq!(log.len(), 1);
    assert_eq!(log[0].content, "old");
}

#[test]
fn malformed_reply_aborts_and_touches_nothing() {
    let mut log: Vec<LogEntry> = Vec::new();
    let step = apply_outcome(&mut log, "p", Outcome::MalformedReply);
    assert!(matches!(step, SessionStep::Abort));
    assert!(log.is_empty());
}

#[test]
fn constructors_fill_the_fields() {
    let m = create_message(String::from("user"), String::from("hi"));
    assert_eq!(m.role, "user");
    assert_eq!(m.content, "hi");
    let e = create_log(String::from("assistant"), String::from("yo"), 5);
    assert_eq!(e.role, "assistant");
    assert_eq!(e.content, "yo");
    assert_eq!(e.tokens, 5);
}
