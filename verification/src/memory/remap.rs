//! Code writes by page remapping, for systems whose code pages can never be
//! made writable (macOS on Apple silicon).
//!
//! Each page range is read whole and staged twice: as it is, and with the
//! replacement spliced in. The spliced images are then mapped over the ranges
//! in order, each followed by an instruction-cache flush. When a step fails,
//! the ranges from the failed one back to the first get their original images
//! again, newest first; when that fails, the process must stop.
use crate::error::Error;
use crate::memory::PageRange;
use vstd::prelude::*;

verus! {

/// The bytes of a page at `page` with the replacement at `address` written
/// over the part of it that they cover.
pub open spec fn spliced(bytes: Seq<u8>, page: int, address: int, replacement: Seq<u8>) -> Seq<u8> {
    Seq::new(
        bytes.len(),
        |k: int|
            if address <= page + k < address + replacement.len() {
                replacement[page + k - address]
            } else {
                bytes[k]
            },
    )
}

/// The page bytes `bytes` at `page` with `replacement`, which belongs at
/// `address`, written over the part that they share; see [`spliced`].
pub fn splice(bytes: &[u8], page: usize, address: usize, replacement: &[u8]) -> (result: Vec<u8>)
    requires
        page + bytes@.len() <= usize::MAX,
        address + replacement@.len() <= usize::MAX,
    ensures
        result@ == spliced(bytes@, page as int, address as int, replacement@),
{
    let mut result: Vec<u8> = Vec::new();
    let mut k: usize = 0;
    while k < bytes.len()
        invariant
            k <= bytes@.len(),
            page + bytes@.len() <= usize::MAX,
            address + replacement@.len() <= usize::MAX,
            result@.len() == k,
            forall|j: int|
                0 <= j < k ==> #[trigger] result@[j] == spliced(
                    bytes@,
                    page as int,
                    address as int,
                    replacement@,
                )[j],
        decreases bytes@.len() - k,
    {
        let at = page + k;
        if address <= at && at - address < replacement.len() {
            result.push(replacement[at - address]);
        } else {
            result.push(bytes[k]);
        }
        k = k + 1;
    }
    assert(result@ =~= spliced(bytes@, page as int, address as int, replacement@));
    result
}

/// The two images of a page range whose bytes were read as `bytes`: the
/// bytes as they are, and with the replacement at `address` spliced in. A
/// short read stages nothing.
pub fn stage_page(address: usize, replacement: &[u8], page: PageRange, bytes: Vec<u8>) -> (result: Result<
    (Vec<u8>, Vec<u8>),
    Error,
>)
    requires
        page.address + page.length <= usize::MAX,
        address + replacement@.len() <= usize::MAX,
    ensures
        bytes@.len() != page.length ==> result == Err::<(Vec<u8>, Vec<u8>), Error>(
            Error::InvalidRange,
        ),
        bytes@.len() == page.length ==> (result matches Ok((original, updated)) && original@
            == bytes@ && updated@ == spliced(
            bytes@,
            page.address as int,
            address as int,
            replacement@,
        )),
{
    if bytes.len() != page.length {
        return Err(Error::InvalidRange);
    }
    let updated = splice(bytes.as_slice(), page.address, address, replacement);
    Ok((bytes, updated))
}

/// The next thing the platform layer does in a remap.
#[derive(Debug, PartialEq, Eq)]
pub enum Action {
    /// Maps the spliced image (`updated`) or the original image of page
    /// range `range` over it.
    Install { range: usize, updated: bool },
    /// Makes page range `range` visible to instruction fetch.
    Flush { range: usize },
    /// Undoing failed; the process must stop.
    Fatal,
    /// The remap is over, with this result.
    Finish(Result<(), Error>),
}

/// Where a remap stands: what it waits on.
#[derive(Debug, PartialEq, Eq)]
pub enum Stage {
    /// Mapping the spliced image of range `next`.
    Installing { next: usize },
    /// Flushing range `next` after its spliced image.
    Flushing { next: usize },
    /// A step failed with `error`; mapping the original image of range `next`.
    Reinstalling { next: usize, error: Error },
    /// Flushing range `next` after its original image.
    Reflushing { next: usize, error: Error },
    /// The remap is over.
    Over,
}

/// The action that a remap in `stage` waits on.
pub open spec fn pending(stage: Stage) -> Action {
    match stage {
        Stage::Installing { next } => Action::Install { range: next, updated: true },
        Stage::Flushing { next } => Action::Flush { range: next },
        Stage::Reinstalling { next, .. } => Action::Install { range: next, updated: false },
        Stage::Reflushing { next, .. } => Action::Flush { range: next },
        Stage::Over => Action::Fatal,
    }
}

/// The stage and action that follow the `outcome` of the pending action of a
/// remap of `ranges` page ranges in `stage`.
pub open spec fn transition(ranges: nat, stage: Stage, outcome: Result<(), Error>) -> (Stage, Action) {
    match stage {
        Stage::Installing { next } => match outcome {
            Ok(()) => (Stage::Flushing { next }, Action::Flush { range: next }),
            Err(error) => (
                Stage::Reinstalling { next, error },
                Action::Install { range: next, updated: false },
            ),
        },
        Stage::Flushing { next } => match outcome {
            Ok(()) => if next + 1 < ranges {
                (
                    Stage::Installing { next: (next + 1) as usize },
                    Action::Install { range: (next + 1) as usize, updated: true },
                )
            } else {
                (Stage::Over, Action::Finish(Ok(())))
            },
            Err(error) => (
                Stage::Reinstalling { next, error },
                Action::Install { range: next, updated: false },
            ),
        },
        Stage::Reinstalling { next, error } => match outcome {
            Ok(()) => (Stage::Reflushing { next, error }, Action::Flush { range: next }),
            Err(_) => (Stage::Over, Action::Fatal),
        },
        Stage::Reflushing { next, error } => match outcome {
            Ok(()) => if next > 0 {
                (
                    Stage::Reinstalling { next: (next - 1) as usize, error },
                    Action::Install { range: (next - 1) as usize, updated: false },
                )
            } else {
                (Stage::Over, Action::Finish(Err(error)))
            },
            Err(_) => (Stage::Over, Action::Fatal),
        },
        Stage::Over => (Stage::Over, Action::Fatal),
    }
}

/// The stage in which a remap of `ranges` page ranges starts, and its first
/// action.
pub open spec fn first(ranges: nat) -> (Stage, Action) {
    if ranges > 0 {
        (Stage::Installing { next: 0 }, Action::Install { range: 0, updated: true })
    } else {
        (Stage::Over, Action::Finish(Ok(())))
    }
}

/// A remap in progress.
pub struct Remapper {
    ranges: usize,
    stage: Stage,
}

impl Remapper {
    /// The number of page ranges.
    pub closed spec fn range_count(&self) -> nat {
        self.ranges as nat
    }

    /// Where the remap stands.
    pub closed spec fn stage(&self) -> Stage {
        self.stage
    }

    /// Starts a remap over `ranges` staged page ranges, with its first action.
    pub fn start(ranges: usize) -> (result: (Remapper, Action))
        ensures
            result.0.range_count() == ranges,
            (result.0.stage(), result.1) == first(ranges as nat),
    {
        if ranges > 0 {
            (
                Remapper { ranges, stage: Stage::Installing { next: 0 } },
                Action::Install { range: 0, updated: true },
            )
        } else {
            (Remapper { ranges, stage: Stage::Over }, Action::Finish(Ok(())))
        }
    }

    /// Takes the outcome of the pending action and gives the next one.
    pub fn advance(&mut self, outcome: Result<(), Error>) -> (action: Action)
        ensures
            final(self).range_count() == old(self).range_count(),
            (final(self).stage(), action) == transition(
                old(self).range_count(),
                old(self).stage(),
                outcome,
            ),
    {
        let ranges = self.ranges;
        let mut stage = Stage::Over;
        std::mem::swap(&mut stage, &mut self.stage);
        let (next, action) = match stage {
            Stage::Installing { next } => match outcome {
                Ok(()) => (Stage::Flushing { next }, Action::Flush { range: next }),
                Err(error) => (
                    Stage::Reinstalling { next, error },
                    Action::Install { range: next, updated: false },
                ),
            },
            Stage::Flushing { next } => match outcome {
                Ok(()) => if ranges > 0 && next < ranges - 1 {
                    (
                        Stage::Installing { next: next + 1 },
                        Action::Install { range: next + 1, updated: true },
                    )
                } else {
                    (Stage::Over, Action::Finish(Ok(())))
                },
                Err(error) => (
                    Stage::Reinstalling { next, error },
                    Action::Install { range: next, updated: false },
                ),
            },
            Stage::Reinstalling { next, error } => match outcome {
                Ok(()) => (Stage::Reflushing { next, error }, Action::Flush { range: next }),
                Err(_) => (Stage::Over, Action::Fatal),
            },
            Stage::Reflushing { next, error } => match outcome {
                Ok(()) => if next > 0 {
                    (
                        Stage::Reinstalling { next: next - 1, error },
                        Action::Install { range: next - 1, updated: false },
                    )
                } else {
                    (Stage::Over, Action::Finish(Err(error)))
                },
                Err(_) => (Stage::Over, Action::Fatal),
            },
            Stage::Over => (Stage::Over, Action::Fatal),
        };
        self.stage = next;
        action
    }
}

/// Which page ranges hold their spliced image. A failed mapping leaves a
/// range as it was; a flush changes no bytes.
pub open spec fn apply(updated: Seq<bool>, action: Action, outcome: Result<(), Error>) -> Seq<bool> {
    match action {
        Action::Install { range, updated: spliced } => if outcome is Ok && range < updated.len() {
            updated.update(range as int, spliced)
        } else {
            updated
        },
        _ => updated,
    }
}

/// Which ranges hold their spliced image as a remap of `ranges` page ranges
/// in `stage` leaves them.
pub open spec fn expected(ranges: nat, stage: Stage, updated: Seq<bool>) -> bool {
    &&& ranges <= usize::MAX
    &&& updated.len() == ranges
    &&& match stage {
        Stage::Installing { next } => next < ranges && forall|k: int|
            0 <= k < ranges ==> #[trigger] updated[k] == (k < next),
        Stage::Flushing { next } => next < ranges && forall|k: int|
            0 <= k < ranges ==> #[trigger] updated[k] == (k <= next),
        Stage::Reinstalling { next, .. } => next < ranges && forall|k: int|
            0 <= k < ranges && k != next ==> #[trigger] updated[k] == (k < next),
        Stage::Reflushing { next, .. } => next < ranges && forall|k: int|
            0 <= k < ranges ==> #[trigger] updated[k] == (k < next),
        Stage::Over => false,
    }
}

/// The stage undoes earlier steps.
pub open spec fn undoing(stage: Stage) -> bool {
    stage is Reinstalling || stage is Reflushing
}

/// The action ends the remap.
pub open spec fn terminal(action: Action) -> bool {
    action is Finish || action is Fatal
}

/// A remap of `ranges` page ranges after the outcomes of its actions, in
/// order: its stage, the action it asks for next, and which ranges hold their
/// spliced image. Outcomes after the remap ended are ignored.
pub open spec fn run(ranges: nat, outcomes: Seq<Result<(), Error>>) -> (Stage, Action, Seq<bool>)
    decreases outcomes.len(),
{
    if outcomes.len() == 0 {
        (first(ranges).0, first(ranges).1, Seq::new(ranges, |k: int| false))
    } else {
        let (stage, action, updated) = run(ranges, outcomes.drop_last());
        if terminal(action) {
            (stage, action, updated)
        } else {
            let (next, following) = transition(ranges, stage, outcomes.last());
            (next, following, apply(updated, action, outcomes.last()))
        }
    }
}

/// One step of a remap keeps the ranges as its stages describe; a remap that
/// finishes leaves every range with its spliced image if it succeeded and
/// with its original image if it failed; it asks the process to stop only
/// when undoing failed.
pub proof fn lemma_remap_step(ranges: nat, stage: Stage, updated: Seq<bool>, outcome: Result<(), Error>)
    requires
        expected(ranges, stage, updated),
    ensures
        ({
            let (next, action) = transition(ranges, stage, outcome);
            let after = apply(updated, pending(stage), outcome);
            &&& action matches Action::Finish(result) ==> forall|k: int|
                0 <= k < ranges ==> #[trigger] after[k] == (result is Ok)
            &&& action is Fatal ==> outcome is Err && undoing(stage)
            &&& !terminal(action) ==> expected(ranges, next, after) && action == pending(next)
        }),
{
    let after = apply(updated, pending(stage), outcome);
    match stage {
        Stage::Installing { next } => {
            if outcome is Ok {
                assert(after == updated.update(next as int, true));
            }
        },
        Stage::Reinstalling { next, .. } => {
            if outcome is Ok {
                assert(after == updated.update(next as int, false));
            }
        },
        _ => {},
    }
}

/// Whatever the outcomes of its steps, a remap that finishes leaves every
/// page range with its spliced image if it succeeded and with its original
/// image if it failed; it asks the process to stop only when undoing a step
/// failed.
pub proof fn lemma_remap_finishes_cleanly(ranges: nat, outcomes: Seq<Result<(), Error>>)
    requires
        ranges <= usize::MAX,
    ensures
        ({
            let (stage, action, updated) = run(ranges, outcomes);
            &&& action matches Action::Finish(result) ==> forall|k: int|
                0 <= k < ranges ==> #[trigger] updated[k] == (result is Ok)
            &&& !terminal(action) ==> expected(ranges, stage, updated) && action == pending(stage)
        }),
    decreases outcomes.len(),
{
    if outcomes.len() > 0 {
        lemma_remap_finishes_cleanly(ranges, outcomes.drop_last());
        let (stage, action, updated) = run(ranges, outcomes.drop_last());
        if !terminal(action) {
            lemma_remap_step(ranges, stage, updated, outcomes.last());
        }
    }
}

} // verus!
