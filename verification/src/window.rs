//! The history selector: given the full conversation log (oldest to newest)
//! and a token budget, pick the entries transmitted with a new prompt.
//!
//! Scanning newest to oldest, an entry is included exactly when its token
//! count added to the tokens of the already included (newer) entries stays
//! within the budget; an oversized entry is skipped without stopping the scan.
//! The included entries are transmitted in chronological order, followed by
//! the new prompt, which is never subject to the budget.

use vstd::prelude::*;
use crate::entry::{EntryV, MsgV, LogEntry, Message, wf_log, create_message};

verus! {

/// The token budget applied to transmitted history.
pub const MAX_TOKENS: i64 = 2000;

/// The message transmitted for an entry: its role and content.
pub open spec fn msg_of(e: EntryV) -> MsgV {
    MsgV { role: e.role, content: e.content }
}

/// Total token count of a sequence of entries.
pub open spec fn total_tokens(log: Seq<EntryV>) -> int
    decreases log.len(),
{
    if log.len() == 0 {
        0
    } else {
        log[0].tokens + total_tokens(log.subrange(1, log.len() as int))
    }
}

/// The entries chosen by the newest-to-oldest scan, in chronological order:
/// an entry is included exactly when its tokens added to the tokens of the
/// included newer entries do not exceed the budget.
pub open spec fn selected(log: Seq<EntryV>, budget: int) -> Seq<EntryV>
    decreases log.len(),
{
    if log.len() == 0 {
        Seq::empty()
    } else {
        let rest = selected(log.subrange(1, log.len() as int), budget);
        if total_tokens(rest) + log[0].tokens <= budget {
            seq![log[0]] + rest
        } else {
            rest
        }
    }
}

/// The messages transmitted for a log under a budget, oldest first.
pub open spec fn window(log: Seq<EntryV>, budget: int) -> Seq<MsgV> {
    selected(log, budget).map_values(|e: EntryV| msg_of(e))
}

/// `a` occurs inside `b` in order, possibly with gaps.
pub open spec fn is_subseq_of(a: Seq<EntryV>, b: Seq<EntryV>) -> bool
    decreases b.len(),
{
    if a.len() == 0 {
        true
    } else if b.len() == 0 {
        false
    } else {
        (a[0] == b[0] && is_subseq_of(
            a.subrange(1, a.len() as int),
            b.subrange(1, b.len() as int),
        )) || is_subseq_of(a, b.subrange(1, b.len() as int))
    }
}

proof fn lemma_total_cons(e: EntryV, s: Seq<EntryV>)
    ensures
        total_tokens(seq![e] + s) == e.tokens + total_tokens(s),
{
    let c = seq![e] + s;
    assert(c[0] == e);
    assert(c.subrange(1, c.len() as int) =~= s);
}

/// Every selected entry comes from the log, so selection keeps entries
/// well formed.
pub proof fn lemma_selected_wf(log: Seq<EntryV>, budget: int)
    requires
        wf_log(log),
    ensures
        wf_log(selected(log, budget)),
    decreases log.len(),
{
    if log.len() > 0 {
        let tail = log.subrange(1, log.len() as int);
        assert(wf_log(tail)) by {
            assert(forall|i: int| 0 <= i < tail.len() ==> tail[i] == log[i + 1]);
        }
        lemma_selected_wf(tail, budget);
        let rest = selected(tail, budget);
        if total_tokens(rest) + log[0].tokens <= budget {
            let s = seq![log[0]] + rest;
            assert(forall|i: int| 0 <= i < s.len() ==> #[trigger] s[i].wf()) by {
                assert(forall|i: int| 1 <= i < s.len() ==> s[i] == rest[i - 1]);
            }
        }
    }
}

/// With non-negative token counts, a total is non-negative.
pub proof fn lemma_total_nonneg(log: Seq<EntryV>)
    requires
        wf_log(log),
    ensures
        total_tokens(log) >= 0,
    decreases log.len(),
{
    if log.len() > 0 {
        let tail = log.subrange(1, log.len() as int);
        assert(wf_log(tail)) by {
            assert(forall|i: int| 0 <= i < tail.len() ==> tail[i] == log[i + 1]);
        }
        lemma_total_nonneg(tail);
        assert(log[0].wf());
    }
}

/// The selected window always fits the budget: its total token count never
/// exceeds `budget`, the new prompt aside, for every log and every
/// non-negative budget.
pub proof fn lemma_window_within_budget(log: Seq<EntryV>, budget: int)
    requires
        budget >= 0,
    ensures
        total_tokens(selected(log, budget)) <= budget,
    decreases log.len(),
{
    if log.len() > 0 {
        let tail = log.subrange(1, log.len() as int);
        lemma_window_within_budget(tail, budget);
        let rest = selected(tail, budget);
        if total_tokens(rest) + log[0].tokens <= budget {
            lemma_total_cons(log[0], rest);
        }
    }
}

/// Windowing preserves chronological order: the selected entries occur in
/// the log in order, possibly with gaps.
pub proof fn lemma_window_preserves_order(log: Seq<EntryV>, budget: int)
    ensures
        is_subseq_of(selected(log, budget), log),
    decreases log.len(),
{
    if log.len() > 0 {
        let tail = log.subrange(1, log.len() as int);
        lemma_window_preserves_order(tail, budget);
        let rest = selected(tail, budget);
        if total_tokens(rest) + log[0].tokens <= budget {
            let s = seq![log[0]] + rest;
            assert(s[0] == log[0]);
            assert(s.subrange(1, s.len() as int) =~= rest);
        }
    }
}

/// An entry larger than the whole budget is skipped without halting the
/// scan: removing it from the log leaves the selection unchanged, so older,
/// smaller entries are still considered.
pub proof fn lemma_oversized_entry_skipped(log: Seq<EntryV>, budget: int, i: int)
    requires
        wf_log(log),
        budget >= 0,
        0 <= i < log.len(),
        log[i].tokens > budget,
    ensures
        selected(log, budget) == selected(log.remove(i), budget),
    decreases log.len(),
{
    let tail = log.subrange(1, log.len() as int);
    assert(wf_log(tail)) by {
        assert(forall|k: int| 0 <= k < tail.len() ==> tail[k] == log[k + 1]);
    }
    if i == 0 {
        let rest = selected(tail, budget);
        lemma_selected_wf(tail, budget);
        lemma_total_nonneg(rest);
        assert(total_tokens(rest) + log[0].tokens > budget);
        assert(log.remove(0) =~= tail);
    } else {
        lemma_oversized_entry_skipped(tail, budget, i - 1);
        let shorter = log.remove(i);
        assert(shorter.len() == log.len() - 1);
        assert(shorter[0] == log[0]);
        assert(shorter.subrange(1, shorter.len() as int) =~= tail.remove(i - 1));
    }
}

/// Builds the transmitted message sequence for one exchange: the budgeted
/// window over the log, oldest first, with the new prompt as the final
/// `user` message, included unconditionally.
pub fn select_window(log: &Vec<LogEntry>, budget: i64, prompt: String) -> (msgs: Vec<Message>)
    requires
        budget >= 0,
        wf_log(log.deep_view()),
    ensures
        msgs.deep_view() == window(log.deep_view(), budget as int).push(
            MsgV { role: "user"@, content: prompt@ },
        ),
{
    let ghost lv = log.deep_view();
    let mut picked: Vec<Message> = Vec::new();
    let mut total: i64 = 0;
    let mut i: usize = log.len();
    proof {
        assert(lv.subrange(i as int, lv.len() as int) =~= Seq::<EntryV>::empty());
    }
    while i > 0
        invariant
            0 <= i <= log.len(),
            lv == log.deep_view(),
            lv.len() == log.len(),
            budget >= 0,
            wf_log(lv),
            total == total_tokens(selected(lv.subrange(i as int, lv.len() as int), budget as int)),
            0 <= total <= budget,
            picked.deep_view() == window(lv.subrange(i as int, lv.len() as int), budget as int),
        decreases i,
    {
        i = i - 1;
        let ghost suffix = lv.subrange(i as int, lv.len() as int);
        let ghost tail = lv.subrange(i + 1, lv.len() as int);
        proof {
            assert(suffix.subrange(1, suffix.len() as int) =~= tail);
            assert(suffix[0] == lv[i as int]);
            assert(wf_log(tail)) by {
                assert(forall|k: int| 0 <= k < tail.len() ==> tail[k] == lv[k + i + 1]);
            }
        }
        let e = &log[i];
        assert(e.deep_view() == lv[i as int]);
        if e.tokens <= budget - total {
            let ghost rest = selected(tail, budget as int);
            proof {
                assert(lv[i as int].wf());
                lemma_total_cons(lv[i as int], rest);
            }
            total = total + e.tokens;
            let m = create_message(e.role.clone(), e.content.clone());
            let ghost pv0 = picked@;
            let ghost old_window = picked.deep_view();
            picked.insert(0, m);
            proof {
                pv0.insert_ensures(0, m);
                let sel = selected(suffix, budget as int);
                assert(sel == seq![lv[i as int]] + rest);
                let pd = picked.deep_view();
                let w = window(suffix, budget as int);
                assert(pd.len() == picked@.len());
                assert(picked@.len() == pv0.len() + 1);
                assert(old_window.len() == pv0.len());
                assert(w.len() == sel.len());
                assert(sel.len() == rest.len() + 1);
                assert(picked@[0] == m);
                assert(pd[0] == m.deep_view());
                assert(w[0] == msg_of(sel[0]));
                assert(pd[0] == w[0]);
                assert(forall|k: int| 1 <= k < pd.len() ==> pd[k] == picked@[k].deep_view());
                assert(forall|k: int| 0 <= k < pv0.len() ==> picked@[k + 1] == pv0[k]);
                assert(forall|k: int| 0 <= k < pv0.len() ==> old_window[k] == pv0[k].deep_view());
                assert(forall|k: int|
                    0 <= k < rest.len() ==> old_window[k] == msg_of(rest[k]));
                assert(forall|k: int| 1 <= k < sel.len() ==> #[trigger] w[k] == msg_of(sel[k]));
                assert(forall|k: int| 1 <= k < sel.len() ==> #[trigger] sel[k] == rest[k - 1]);
                assert(forall|k: int| 1 <= k < pd.len() ==> #[trigger] pd[k] == w[k]) by {
                    assert(forall|k: int|
                        1 <= k < pd.len() ==> #[trigger] pd[k] == old_window[k - 1]);
                    assert(forall|k: int|
                        1 <= k < pd.len() ==> #[trigger] w[k] == msg_of(rest[k - 1]));
                }
                assert(pd =~= w);
            }
        } else {
            proof {
                let rest = selected(tail, budget as int);
                lemma_selected_wf(tail, budget as int);
                lemma_total_nonneg(rest);
                assert(selected(suffix, budget as int) == rest);
            }
        }
    }
    proof {
        assert(lv.subrange(0, lv.len() as int) =~= lv);
    }
    let mut msgs = picked;
    msgs.push(create_message(String::from_str("user"), prompt));
    proof {
        assert(msgs.deep_view() =~= window(lv, budget as int).push(
            MsgV { role: "user"@, content: prompt@ },
        ));
    }
    msgs
}

} // verus!
