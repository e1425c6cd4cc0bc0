//! What every call, check and checkpoint keeps true of a ledger.
use super::{Claim, Config, LedgerView, MockView};
use vstd::prelude::*;

verus! {

/// Failures recorded in `before` are still recorded, unchanged, in `after`;
/// both hold the same expectations and mocks.
pub open spec fn keeps_failures(before: LedgerView, after: LedgerView) -> bool {
    &&& after.metas.len() == before.metas.len()
    &&& after.mocks.len() == before.mocks.len()
    &&& forall|m: int|
        0 <= m < before.metas.len() && (#[trigger] before.metas[m]).failure is Some
            ==> after.metas[m].failure == before.metas[m].failure
    &&& forall|s: int|
        0 <= s < before.mocks.len() && (#[trigger] before.mocks[s]).failure is Some
            ==> after.mocks[s].failure == before.mocks[s].failure
}

/// No expectation has taken more calls than its maximum.
pub open spec fn within_counts(ledger: LedgerView) -> bool {
    forall|m: int|
        0 <= m < ledger.metas.len() ==> ((#[trigger] ledger.metas[m]).count.max matches Some(max)
            ==> ledger.metas[m].calls <= max)
}

/// `after` differs from `before` at most in the calls of expectation `m`,
/// which grew by one, and in sequence progress.
pub open spec fn counted_once(before: LedgerView, after: LedgerView, m: int) -> bool {
    &&& after.metas.len() == before.metas.len()
    &&& after.metas[m].calls == before.metas[m].calls + 1
    &&& forall|k: int| 0 <= k < before.metas.len() && k != m ==> #[trigger] after.metas[k] == before.metas[k]
}

/// A claim records no failure over an earlier one, and takes one call at most.
pub proof fn lemma_claim_keeps_failures_and_counts(ledger: LedgerView, m: int)
    requires
        0 <= m < ledger.metas.len(),
    ensures
        keeps_failures(ledger, ledger.claim(m).0),
        within_counts(ledger) ==> within_counts(ledger.claim(m).0),
        ledger.claim(m).1 == Ok::<Claim, Seq<char>>(Claim::Taken) ==> counted_once(
            ledger,
            ledger.claim(m).0,
            m,
        ),
        ledger.claim(m).1 != Ok::<Claim, Seq<char>>(Claim::Taken) ==> ledger.claim(m).0.metas.len()
            == ledger.metas.len() && forall|k: int|
            0 <= k < ledger.metas.len() ==> (#[trigger] ledger.claim(m).0.metas[k]).calls
                == ledger.metas[k].calls,
        ledger.claim(m).0.mocks == ledger.mocks,
{
}

/// A call to a mock keeps every recorded failure, and no expectation takes
/// more calls than its maximum.
pub proof fn lemma_calls_keep_failures_and_counts(
    ledger: LedgerView,
    s: int,
    rules: Seq<usize>,
    matches: Seq<bool>,
    k: int,
    matched: bool,
)
    requires
        0 <= s < ledger.mocks.len(),
        forall|j: int| 0 <= j < rules.len() ==> #[trigger] rules[j] < ledger.metas.len(),
    ensures
        keeps_failures(ledger, ledger.select_from(s, rules, matches, k, matched).0),
        within_counts(ledger) ==> within_counts(ledger.select_from(s, rules, matches, k, matched).0),
    decreases rules.len() - k,
{
    if 0 <= k < rules.len() {
        if k < matches.len() && matches[k] {
            let (next, claim) = ledger.claim(rules[k] as int);
            lemma_claim_keeps_failures_and_counts(ledger, rules[k] as int);
            if claim == Ok::<Claim, Seq<char>>(Claim::Exhausted) {
                lemma_calls_keep_failures_and_counts(next, s, rules, matches, k + 1, true);
            }
        } else {
            lemma_calls_keep_failures_and_counts(ledger, s, rules, matches, k + 1, matched);
        }
    }
}

/// A failure, once recorded, stays: a call to any mock keeps every recorded
/// failure, so the mock's check reports the first failure however many calls
/// follow; and a call never lets an expectation take more calls than its
/// maximum.
pub proof fn lemma_failures_stay_and_counts_hold(ledger: LedgerView, s: int, matches: Seq<bool>)
    requires
        ledger.wf(),
        0 <= s < ledger.mocks.len(),
    ensures
        keeps_failures(ledger, ledger.select(s, matches).0),
        within_counts(ledger) ==> within_counts(ledger.select(s, matches).0),
        forall|t: int|
            0 <= t < ledger.mocks.len() && (#[trigger] ledger.mocks[t]).failure is Some
                ==> ledger.select(s, matches).0.verdict(t) == Err::<(), Seq<char>>(
                ledger.mocks[t].failure->Some_0,
            ),
{
    let mock = ledger.mocks[s];
    if mock.active {
        assert(forall|j: int| 0 <= j < mock.rules.len() ==> #[trigger] mock.rules[j] < ledger.metas.len());
        lemma_calls_keep_failures_and_counts(ledger, s, mock.rules, matches, 0, false);
    }
    let after = ledger.select(s, matches).0;
    assert forall|t: int|
        0 <= t < ledger.mocks.len() && (#[trigger] ledger.mocks[t]).failure is Some implies after.verdict(
            t,
        ) == Err::<(), Seq<char>>(ledger.mocks[t].failure->Some_0) by {
        assert(after.mocks[t].failure == ledger.mocks[t].failure);
    }
}

/// Every expectation's calls after a call to a mock: one more for the
/// expectation that answered it, the same for every other one.
pub open spec fn counted_by(before: LedgerView, after: LedgerView, answered: Result<usize, Seq<char>>) -> bool {
    &&& after.metas.len() == before.metas.len()
    &&& forall|m: int|
        0 <= m < before.metas.len() ==> (#[trigger] after.metas[m]).calls == before.metas[m].calls + (
        if answered is Ok && answered->Ok_0 == m {
            1int
        } else {
            0int
        })
}

/// Offering a call to the rules from `k` on adds one call to the expectation
/// that answers it and none to any other.
pub proof fn lemma_select_from_counts(
    ledger: LedgerView,
    s: int,
    rules: Seq<usize>,
    matches: Seq<bool>,
    k: int,
    matched: bool,
)
    requires
        0 <= s < ledger.mocks.len(),
        forall|j: int| 0 <= j < rules.len() ==> #[trigger] rules[j] < ledger.metas.len(),
    ensures
        ({
            let (after, answered) = ledger.select_from(s, rules, matches, k, matched);
            &&& counted_by(ledger, after, answered)
            &&& answered matches Ok(m) ==> m < ledger.metas.len()
        }),
    decreases rules.len() - k,
{
    if 0 <= k < rules.len() {
        if k < matches.len() && matches[k] {
            let m = rules[k] as int;
            let (next, claim) = ledger.claim(m);
            lemma_claim_keeps_failures_and_counts(ledger, m);
            if claim == Ok::<Claim, Seq<char>>(Claim::Exhausted) {
                lemma_select_from_counts(next, s, rules, matches, k + 1, true);
                let (after, answered) = next.select_from(s, rules, matches, k + 1, true);
                assert forall|j: int| 0 <= j < ledger.metas.len() implies (#[trigger] after.metas[j]).calls
                    == ledger.metas[j].calls + (if answered is Ok && answered->Ok_0 == j {
                    1int
                } else {
                    0int
                }) by {
                    assert(next.metas[j].calls == ledger.metas[j].calls);
                }
            } else if claim == Ok::<Claim, Seq<char>>(Claim::Taken) {
                assert forall|j: int| 0 <= j < ledger.metas.len() implies (#[trigger] next.metas[j]).calls
                    == ledger.metas[j].calls + (if rules[k] == j {
                    1int
                } else {
                    0int
                }) by {
                    if j != m {
                        assert(next.metas[j] == ledger.metas[j]);
                    }
                }
            } else {
                let after = next.mock_failed(s, claim->Err_0);
                assert forall|j: int| 0 <= j < ledger.metas.len() implies (#[trigger] after.metas[j]).calls
                    == ledger.metas[j].calls by {
                    assert(after.metas[j] == next.metas[j]);
                }
            }
        } else {
            lemma_select_from_counts(ledger, s, rules, matches, k + 1, matched);
        }
    }
}

/// A whole call to a mock adds exactly one call to exactly the expectation
/// that answers it, and changes no other expectation's count; a refused call
/// counts nowhere.
pub proof fn lemma_select_counts_once(ledger: LedgerView, s: int, matches: Seq<bool>)
    requires
        ledger.wf(),
        0 <= s < ledger.mocks.len(),
    ensures
        counted_by(ledger, ledger.select(s, matches).0, ledger.select(s, matches).1),
        ledger.select(s, matches).1 matches Ok(m) ==> m < ledger.metas.len(),
{
    let mock = ledger.mocks[s];
    if mock.active {
        assert(forall|j: int| 0 <= j < mock.rules.len() ==> #[trigger] mock.rules[j] < ledger.metas.len());
        lemma_select_from_counts(ledger, s, mock.rules, matches, 0, false);
    } else {
        let text = super::failure_text(mock.name, "mock is no longer active"@);
        let after = ledger.mock_failed(s, text);
        assert forall|j: int| 0 <= j < ledger.metas.len() implies (#[trigger] after.metas[j]).calls
            == ledger.metas[j].calls by {}
    }
}

/// In a sequence, an expectation takes a call only when its position is due,
/// and the sequence moves on exactly when the expectation has had all its
/// calls.
pub proof fn lemma_sequence_order(ledger: LedgerView, m: int)
    requires
        ledger.wf(),
        0 <= m < ledger.metas.len(),
        ledger.metas[m].ticket is Some,
    ensures
        ({
            let meta = ledger.metas[m];
            let ticket = meta.ticket->Some_0;
            let (after, claim) = ledger.claim(m);
            &&& claim == Ok::<Claim, Seq<char>>(Claim::Taken) ==> ledger.sequences[ticket.sequence as int].cursor
                == ticket.index
            &&& claim == Ok::<Claim, Seq<char>>(Claim::Taken) ==> after.sequences[ticket.sequence as int].cursor
                == ticket.index + (if meta.count.max == Some((meta.calls + 1) as usize) {
                1int
            } else {
                0
            })
            &&& claim != Ok::<Claim, Seq<char>>(Claim::Taken) ==> after.sequences == ledger.sequences
        }),
{
}

/// A stopped mock refuses calls, new expectations and checkpoints, and
/// records the refused call as its failure if it had none.
pub proof fn lemma_stopped_mock_refuses(ledger: LedgerView, s: int, matches: Seq<bool>, config: Config)
    requires
        0 <= s < ledger.mocks.len(),
    ensures
        ({
            let stopped = ledger.deactivate(s);
            let text = super::failure_text(ledger.mocks[s].name, "mock is no longer active"@);
            &&& !stopped.mocks[s].active
            &&& stopped.mocks[s].rules.len() == 0
            &&& stopped.select(s, matches).1 == Err::<usize, Seq<char>>(text)
            &&& stopped.select(s, matches).0.mocks[s].failure == super::first_failure(
                ledger.mocks[s].failure,
                text,
            )
            &&& config.verdict() is Ok ==> stopped.add(s, config) == (
                stopped,
                Err::<usize, Seq<char>>(text),
            )
            &&& stopped.checkpoint(s) == (stopped, Err::<(), Seq<char>>(text))
        }),
{
}

/// A checkpoint clears a mock's rules only when the mock is active and its
/// check passes; otherwise it changes nothing and reports why.
pub proof fn lemma_checkpoint_clears_only_passing_mocks(ledger: LedgerView, s: int)
    requires
        0 <= s < ledger.mocks.len(),
    ensures
        ({
            let (after, result) = ledger.checkpoint(s);
            &&& result is Ok <==> ledger.mocks[s].active && ledger.verdict(s) is Ok
            &&& result is Ok ==> after.mocks[s] == (MockView {
                rules: Seq::empty(),
                ..ledger.mocks[s]
            }) && after.metas == ledger.metas
            &&& result is Err ==> after == ledger
        }),
{
}

/// Keeping what every element of `items` passes keeps all of `items`.
proof fn lemma_filter_keeps_all(items: Seq<usize>, key: usize)
    requires
        !items.contains(key),
    ensures
        items.filter(|k: usize| k != key) == items,
    decreases items.len(),
{
    if items.len() > 0 {
        let shorter = items.drop_last();
        assert(!shorter.contains(key)) by {
            if shorter.contains(key) {
                let i = choose|i: int| 0 <= i < shorter.len() && shorter[i] == key;
                assert(items[i] == key);
            }
        }
        lemma_filter_keeps_all(shorter, key);
        assert(shorter.push(items.last()) == items);
        shorter.lemma_filter_push(items.last(), |k: usize| k != key);
    }
}

/// Leaving a mock call undoes entering it: the mocks running on the thread
/// are those that ran before.
pub proof fn lemma_leave_undoes_enter(active: Seq<usize>, key: usize)
    requires
        !active.contains(key),
    ensures
        active.push(key).filter(|k: usize| k != key) == active,
{
    lemma_filter_keeps_all(active, key);
    active.lemma_filter_push(key, |k: usize| k != key);
}

} // verus!
