//! The decisions of one prompt/response exchange: configuration resolution
//! at startup, the prompt built from the command line's words, the reading
//! of the provider's reply, and the resulting log update.

use vstd::prelude::*;
use crate::entry::{LogEntry, wf_log, create_log};
use crate::codec::{digits_of, digits_val, is_u64_text, parse_u64};

verus! {

/// The request timeout used when the environment does not set one.
pub const DEFAULT_TIMEOUT_SECS: u64 = 120;

/// Picks the model: the command-line choice wins, then the environment's,
/// then the fixed default.
pub fn resolve_model(cli: Option<String>, env_model: Option<String>) -> (m: String)
    ensures
        cli matches Some(c) ==> m@ == c@,
        cli is None ==> (env_model matches Some(e) ==> m@ == e@),
        cli is None && env_model is None ==> m@ == "gpt-3.5-turbo"@,
{
    match cli {
        Some(c) => c,
        None => match env_model {
            Some(e) => e,
            None => String::from_str("gpt-3.5-turbo"),
        },
    }
}

/// Picks the completion endpoint: the environment's, or the fixed default.
pub fn resolve_base_url(env_value: Option<String>) -> (u: String)
    ensures
        env_value matches Some(e) ==> u@ == e@,
        env_value is None ==> u@ == "https://api.openai.com/v1/chat/completions/"@,
{
    match env_value {
        Some(e) => e,
        None => String::from_str("https://api.openai.com/v1/chat/completions/"),
    }
}

/// Picks the request timeout from the environment's text: its value where
/// the text reads as an unsigned decimal number, the default where the
/// variable is absent or unreadable.
pub fn resolve_timeout_secs(env_value: Option<String>) -> (t: u64)
    ensures
        env_value is None ==> t == DEFAULT_TIMEOUT_SECS,
        env_value matches Some(s) ==> (is_u64_text(s@) && digits_val(digits_of(s@)) <= u64::MAX
            ==> t as int == digits_val(digits_of(s@))),
        env_value matches Some(s) ==> (!is_u64_text(s@) || digits_val(digits_of(s@)) > u64::MAX
            ==> t == DEFAULT_TIMEOUT_SECS),
{
    match env_value {
        None => DEFAULT_TIMEOUT_SECS,
        Some(s) => match parse_u64(s.as_str()) {
            Some(v) => v,
            None => DEFAULT_TIMEOUT_SECS,
        },
    }
}

/// The startup failure: the key the provider requires is not set.
#[derive(Debug, Clone, Copy, PartialEq, Eq, Structural)]
pub enum ConfigError {
    MissingApiKey,
}

impl ConfigError {
    /// A short description, suitable for the fatal startup report.
    pub fn message(&self) -> (m: &'static str)
        ensures
            m@ == "OPENAI_API_KEY not set"@,
    {
        "OPENAI_API_KEY not set"
    }
}

/// Demands the API key before anything else runs: an absent key, and only an
/// absent key, is a startup error.
pub fn require_api_key(key: Option<String>) -> (r: Result<String, ConfigError>)
    ensures
        key matches Some(k) ==> (r matches Ok(v) && v@ == k@),
        key is None ==> r == Err::<String, ConfigError>(ConfigError::MissingApiKey),
{
    match key {
        Some(k) => Ok(k),
        None => Err(ConfigError::MissingApiKey),
    }
}

/// The prompt's text: the words joined by single spaces.
pub open spec fn joined(words: Seq<Seq<char>>) -> Seq<char>
    decreases words.len(),
{
    if words.len() == 0 {
        Seq::empty()
    } else if words.len() == 1 {
        words[0]
    } else {
        words[0] + seq![' '] + joined(words.subrange(1, words.len() as int))
    }
}

proof fn lemma_joined_snoc(words: Seq<Seq<char>>, x: Seq<char>)
    ensures
        words.len() == 0 ==> joined(words.push(x)) == x,
        words.len() > 0 ==> joined(words.push(x)) == joined(words) + seq![' '] + x,
    decreases words.len(),
{
    let p = words.push(x);
    if words.len() == 0 {
        assert(p.len() == 1);
        assert(p[0] == x);
    } else {
        assert(p[0] == words[0]);
        let wt = words.subrange(1, words.len() as int);
        assert(p.subrange(1, p.len() as int) =~= wt.push(x));
        lemma_joined_snoc(wt, x);
        if words.len() == 1 {
            assert(wt.len() == 0);
            assert(joined(p) == words[0] + seq![' '] + x);
            assert(joined(words) == words[0]);
        } else {
            assert(joined(p) == words[0] + seq![' '] + (joined(wt) + seq![' '] + x));
            assert(joined(words) + seq![' '] + x =~= words[0] + seq![' '] + (joined(wt) + seq![' ']
                + x));
        }
    }
}

/// Builds the prompt from the command line's positional words.
pub fn join_words(words: &Vec<String>) -> (s: String)
    ensures
        s@ == joined(words.deep_view()),
{
    proof {
        reveal_strlit(" ");
    }
    let ghost wv = words.deep_view();
    let mut out = String::new();
    let mut k: usize = 0;
    proof {
        assert(wv.take(0) =~= Seq::<Seq<char>>::empty());
    }
    while k < words.len()
        invariant
            0 <= k <= words.len(),
            wv == words.deep_view(),
            wv.len() == words.len(),
            out@ == joined(wv.take(k as int)),
        decreases words.len() - k,
    {
        if k > 0 {
            out.append(" ");
            proof {
                reveal_strlit(" ");
                assert(" "@ =~= seq![' ']);
            }
        }
        out.append(words[k].as_str());
        proof {
            assert(words@[k as int].deep_view() == wv[k as int]);
            lemma_joined_snoc(wv.take(k as int), wv[k as int]);
            assert(wv.take(k + 1) =~= wv.take(k as int).push(wv[k as int]));
        }
        k = k + 1;
    }
    proof {
        assert(wv.take(wv.len() as int) =~= wv);
    }
    out
}

/// What one exchange with the provider came to.
pub enum Outcome {
    /// The reply carried the answer and both token counts.
    Success { answer: String, prompt_tokens: i64, completion_tokens: i64 },
    /// The provider itself reported a failure, with its message.
    ProviderError { message: String },
    /// The reply had none of the expected shapes.
    MalformedReply,
}

/// Reads the fields that the transport layer extracted from the provider's
/// reply. A structured error object wins, and must carry its message; a
/// success needs the answer text and both token counts, each non-negative as
/// a token count is. Anything else is a malformed reply, which aborts the
/// session rather than guessing a default.
pub fn interpret_response(
    has_error_object: bool,
    error_message: Option<String>,
    answer: Option<String>,
    prompt_tokens: Option<i64>,
    completion_tokens: Option<i64>,
) -> (r: Outcome)
    ensures
        has_error_object && error_message is Some ==> (r matches Outcome::ProviderError { message }
            && message@ == error_message->Some_0@),
        has_error_object && error_message is None ==> r == Outcome::MalformedReply,
        !has_error_object && answer is Some && prompt_tokens is Some && completion_tokens is Some
            && prompt_tokens->Some_0 >= 0 && completion_tokens->Some_0 >= 0 ==> (r
            matches Outcome::Success { answer: a, prompt_tokens: p, completion_tokens: c } && a@
            == answer->Some_0@ && p == prompt_tokens->Some_0 && c == completion_tokens->Some_0),
        !has_error_object && !(answer is Some && prompt_tokens is Some && completion_tokens is Some
            && prompt_tokens->Some_0 >= 0 && completion_tokens->Some_0 >= 0) ==> r
            == Outcome::MalformedReply,
{
    if has_error_object {
        match error_message {
            Some(m) => Outcome::ProviderError { message: m },
            None => Outcome::MalformedReply,
        }
    } else {
        match (answer, prompt_tokens, completion_tokens) {
            (Some(a), Some(p), Some(c)) => {
                if p >= 0 && c >= 0 {
                    Outcome::Success { answer: a, prompt_tokens: p, completion_tokens: c }
                } else {
                    Outcome::MalformedReply
                }
            },
            _ => Outcome::MalformedReply,
        }
    }
}

/// One exchange's effect: what to print, and whether to persist.
pub enum SessionStep {
    /// Print the answer and persist the extended log.
    Persist { output: String },
    /// Print the provider's message, leave the log as it was, exit well.
    PrintOnly { output: String },
    /// Abort: the reply was malformed.
    Abort,
}

/// Applies the exchange's outcome to the in-memory log. A success appends
/// exactly two entries, the user turn with the prompt and the reported
/// prompt tokens, then the assistant turn with the answer and the reported
/// completion tokens, and hands the answer back for printing. A
/// provider-reported error leaves the log untouched and hands back exactly
/// the provider's message. A malformed reply aborts and touches nothing.
pub fn apply_outcome(log: &mut Vec<LogEntry>, prompt: &str, outcome: Outcome) -> (r: SessionStep)
    requires
        outcome matches Outcome::Success { prompt_tokens, completion_tokens, .. } ==> prompt_tokens
            >= 0 && completion_tokens >= 0,
    ensures
        outcome matches Outcome::Success { answer, prompt_tokens, completion_tokens } ==> {
            &&& final(log)@.len() == old(log)@.len() + 2
            &&& forall|t: int| 0 <= t < old(log)@.len() ==> final(log)@[t] == old(log)@[t]
            &&& final(log)@[old(log)@.len() as int]@.role == "user"@
            &&& final(log)@[old(log)@.len() as int]@.content == prompt@
            &&& final(log)@[old(log)@.len() as int]@.tokens == prompt_tokens as int
            &&& final(log)@[old(log)@.len() as int + 1]@.role == "assistant"@
            &&& final(log)@[old(log)@.len() as int + 1]@.content == answer@
            &&& final(log)@[old(log)@.len() as int + 1]@.tokens == completion_tokens as int
            &&& (r matches SessionStep::Persist { output } && output@ == answer@)
        },
        outcome matches Outcome::ProviderError { message } ==> {
            &&& final(log)@ == old(log)@
            &&& (r matches SessionStep::PrintOnly { output } && output@ == message@)
        },
        outcome == Outcome::MalformedReply ==> final(log)@ == old(log)@ && r == SessionStep::Abort,
        wf_log(old(log).deep_view()) ==> wf_log(final(log).deep_view()),
{
    match outcome {
        Outcome::Success { answer, prompt_tokens, completion_tokens } => {
            let user_entry = create_log(
                String::from_str("user"),
                String::from_str(prompt),
                prompt_tokens,
            );
            log.push(user_entry);
            let assistant_entry = create_log(
                String::from_str("assistant"),
                answer.clone(),
                completion_tokens,
            );
            log.push(assistant_entry);
            proof {
                if wf_log(old(log).deep_view()) {
                    let dv = log.deep_view();
                    let odv = old(log).deep_view();
                    assert forall|t: int| 0 <= t < dv.len() implies #[trigger] dv[t].wf() by {
                        assert(dv[t] == log@[t].deep_view());
                        if t < odv.len() {
                            assert(log@[t] == old(log)@[t]);
                            assert(odv[t] == old(log)@[t].deep_view());
                            assert(odv[t].wf());
                        }
                    }
                }
            }
            SessionStep::Persist { output: answer }
        },
        Outcome::ProviderError { message } => SessionStep::PrintOnly { output: message },
        Outcome::MalformedReply => SessionStep::Abort,
    }
}

} // verus!
