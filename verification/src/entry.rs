//! The data model: one persisted log entry, and the role/content pair that is
//! sent over the wire.

use vstd::prelude::*;

verus! {

/// Mathematical view of a wire-level message: a role and its text.
pub struct MsgV {
    pub role: Seq<char>,
    pub content: Seq<char>,
}

/// Mathematical view of one persisted log entry.
pub struct EntryV {
    pub timestamp: Seq<char>,
    pub role: Seq<char>,
    pub content: Seq<char>,
    pub tokens: int,
}

impl EntryV {
    /// Every entry carries a non-negative token count.
    pub open spec fn wf(self) -> bool {
        self.tokens >= 0
    }
}

/// All entries of a log are well formed.
pub open spec fn wf_log(log: Seq<EntryV>) -> bool {
    forall|i: int| 0 <= i < log.len() ==> #[trigger] log[i].wf()
}

/// A role and content pair without timestamp or token count: the unit that is
/// transmitted to the completion endpoint.
pub struct Message {
    pub role: String,
    pub content: String,
}

/// One historical turn of the conversation log, immutable once appended.
pub struct LogEntry {
    pub timestamp: String,
    pub role: String,
    pub content: String,
    pub tokens: i64,
}

impl View for Message {
    type V = MsgV;

    open spec fn view(&self) -> MsgV {
        MsgV { role: self.role@, content: self.content@ }
    }
}

impl DeepView for Message {
    type V = MsgV;

    open spec fn deep_view(&self) -> MsgV {
        self@
    }
}

impl View for LogEntry {
    type V = EntryV;

    open spec fn view(&self) -> EntryV {
        EntryV {
            timestamp: self.timestamp@,
            role: self.role@,
            content: self.content@,
            tokens: self.tokens as int,
        }
    }
}

impl DeepView for LogEntry {
    type V = EntryV;

    open spec fn deep_view(&self) -> EntryV {
        self@
    }
}

pub fn create_message(role: String, content: String) -> (m: Message)
    ensures
        m@.role == role@,
        m@.content == content@,
{
    Message { role, content }
}

/// Relies on chrono's `Utc::now` and `DateTime::to_rfc3339` for the creation
/// timestamp of a new entry; the result depends on the clock, so nothing is
/// stated of it.
#[verifier::external_body]
fn now_rfc3339() -> String {
    chrono::Utc::now().to_rfc3339()
}

/// Builds a new log entry, stamped with the current time.
pub fn create_log(role: String, content: String, tokens: i64) -> (e: LogEntry)
    requires
        tokens >= 0,
    ensures
        e@.role == role@,
        e@.content == content@,
        e@.tokens == tokens as int,
        e@.wf(),
{
    LogEntry { timestamp: now_rfc3339(), role, content, tokens }
}

} // verus!
