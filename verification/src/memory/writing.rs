//! The order of the permission changes, copies and flushes of a code write,
//! and its rollback.
//!
//! A write makes each page writable, copies the replacement, flushes the
//! instruction cache and restores each page's protection. When a step fails,
//! what was done is undone; when undoing fails, the code may be left
//! half-written and the process must stop.
use crate::error::Error;
use vstd::prelude::*;

verus! {

/// The next thing the platform layer does in a write.
#[derive(Debug, PartialEq, Eq)]
pub enum Action {
    /// Makes page range `page` writable, or gives it back its saved protection.
    Protect { page: usize, writable: bool },
    /// Copies the replacement bytes into place; this cannot fail.
    CopyReplacement,
    /// Copies the saved original bytes back; this cannot fail.
    CopyOriginal,
    /// Makes the written bytes visible to instruction fetch.
    Flush,
    /// Undoing failed; the process must stop.
    Fatal,
    /// The write is over, with this result.
    Finish(Result<(), Error>),
}

/// Where a write stands: what it waits on.
#[derive(Debug, PartialEq, Eq)]
pub enum Stage {
    /// Making page `next` writable.
    Opening { next: usize },
    /// Making page `opened` writable failed with `error`; giving page `next`
    /// of the pages before it back its protection.
    Reclosing { next: usize, opened: usize, error: Error },
    /// Copying the replacement.
    Copying,
    /// Flushing after the copy.
    Flushing,
    /// Giving page `next` back its protection.
    Closing { next: usize },
    /// Flushing or closing failed with `error`; making page `next` writable
    /// again.
    Reopening { next: usize, error: Error },
    /// Copying the original bytes back.
    Restoring { error: Error },
    /// Flushing after the copy back.
    Reflushing { error: Error },
    /// Giving page `next` back its protection after the copy back.
    Relocking { next: usize, error: Error },
    /// The write is over.
    Over,
}

/// The action that a write in `stage` waits on.
pub open spec fn pending(stage: Stage) -> Action {
    match stage {
        Stage::Opening { next } => Action::Protect { page: next, writable: true },
        Stage::Reclosing { next, .. } => Action::Protect { page: next, writable: false },
        Stage::Copying => Action::CopyReplacement,
        Stage::Flushing => Action::Flush,
        Stage::Closing { next } => Action::Protect { page: next, writable: false },
        Stage::Reopening { next, .. } => Action::Protect { page: next, writable: true },
        Stage::Restoring { .. } => Action::CopyOriginal,
        Stage::Reflushing { .. } => Action::Flush,
        Stage::Relocking { next, .. } => Action::Protect { page: next, writable: false },
        Stage::Over => Action::Fatal,
    }
}

/// The stage and action that follow the `outcome` of the pending action of a
/// write of `pages` page ranges in `stage`.
pub open spec fn transition(pages: nat, stage: Stage, outcome: Result<(), Error>) -> (Stage, Action) {
    match stage {
        Stage::Opening { next } => match outcome {
            Ok(()) => if next + 1 < pages {
                (
                    Stage::Opening { next: (next + 1) as usize },
                    Action::Protect { page: (next + 1) as usize, writable: true },
                )
            } else {
                (Stage::Copying, Action::CopyReplacement)
            },
            Err(error) => if next == 0 {
                (Stage::Over, Action::Finish(Err(error)))
            } else {
                (
                    Stage::Reclosing { next: 0, opened: next, error },
                    Action::Protect { page: 0, writable: false },
                )
            },
        },
        Stage::Reclosing { next, opened, error } => match outcome {
            Ok(()) => if next + 1 < opened {
                (
                    Stage::Reclosing { next: (next + 1) as usize, opened, error },
                    Action::Protect { page: (next + 1) as usize, writable: false },
                )
            } else {
                (Stage::Over, Action::Finish(Err(error)))
            },
            Err(_) => (Stage::Over, Action::Fatal),
        },
        Stage::Copying => (Stage::Flushing, Action::Flush),
        Stage::Flushing => match outcome {
            Ok(()) => if pages > 0 {
                (Stage::Closing { next: 0 }, Action::Protect { page: 0, writable: false })
            } else {
                (Stage::Over, Action::Finish(Ok(())))
            },
            Err(error) => if pages > 0 {
                (Stage::Reopening { next: 0, error }, Action::Protect { page: 0, writable: true })
            } else {
                (Stage::Restoring { error }, Action::CopyOriginal)
            },
        },
        Stage::Closing { next } => match outcome {
            Ok(()) => if next + 1 < pages {
                (
                    Stage::Closing { next: (next + 1) as usize },
                    Action::Protect { page: (next + 1) as usize, writable: false },
                )
            } else {
                (Stage::Over, Action::Finish(Ok(())))
            },
            Err(error) => (
                Stage::Reopening { next: 0, error },
                Action::Protect { page: 0, writable: true },
            ),
        },
        Stage::Reopening { next, error } => match outcome {
            Ok(()) => if next + 1 < pages {
                (
                    Stage::Reopening { next: (next + 1) as usize, error },
                    Action::Protect { page: (next + 1) as usize, writable: true },
                )
            } else {
                (Stage::Restoring { error }, Action::CopyOriginal)
            },
            Err(_) => (Stage::Over, Action::Fatal),
        },
        Stage::Restoring { error } => (Stage::Reflushing { error }, Action::Flush),
        Stage::Reflushing { error } => match outcome {
            Ok(()) => if pages > 0 {
                (Stage::Relocking { next: 0, error }, Action::Protect { page: 0, writable: false })
            } else {
                (Stage::Over, Action::Finish(Err(error)))
            },
            Err(_) => (Stage::Over, Action::Fatal),
        },
        Stage::Relocking { next, error } => match outcome {
            Ok(()) => if next + 1 < pages {
                (
                    Stage::Relocking { next: (next + 1) as usize, error },
                    Action::Protect { page: (next + 1) as usize, writable: false },
                )
            } else {
                (Stage::Over, Action::Finish(Err(error)))
            },
            Err(_) => (Stage::Over, Action::Fatal),
        },
        Stage::Over => (Stage::Over, Action::Fatal),
    }
}

/// The stage in which a write of `pages` page ranges starts.
pub open spec fn first_stage(pages: nat) -> Stage {
    if pages > 0 {
        Stage::Opening { next: 0 }
    } else {
        Stage::Copying
    }
}

/// A write in progress.
pub struct Writer {
    pages: usize,
    stage: Stage,
}

impl Writer {
    /// The number of page ranges.
    pub closed spec fn page_count(&self) -> nat {
        self.pages as nat
    }

    /// Where the write stands.
    pub closed spec fn stage(&self) -> Stage {
        self.stage
    }

    /// Starts a write over `pages` page ranges, with its first action.
    pub fn start(pages: usize) -> (result: (Writer, Action))
        ensures
            result.0.page_count() == pages,
            result.0.stage() == first_stage(pages as nat),
            result.1 == pending(first_stage(pages as nat)),
    {
        if pages > 0 {
            (Writer { pages, stage: Stage::Opening { next: 0 } }, Action::Protect { page: 0, writable: true })
        } else {
            (Writer { pages, stage: Stage::Copying }, Action::CopyReplacement)
        }
    }

    /// Takes the outcome of the pending action and gives the next one.
    pub fn advance(&mut self, outcome: Result<(), Error>) -> (action: Action)
        ensures
            final(self).page_count() == old(self).page_count(),
            (final(self).stage(), action) == transition(
                old(self).page_count(),
                old(self).stage(),
                outcome,
            ),
    {
        let pages = self.pages;
        let mut stage = Stage::Over;
        std::mem::swap(&mut stage, &mut self.stage);
        let (next, action) = match stage {
            Stage::Opening { next } => match outcome {
                Ok(()) => if pages > 0 && next < pages - 1 {
                    (Stage::Opening { next: next + 1 }, Action::Protect { page: next + 1, writable: true })
                } else {
                    (Stage::Copying, Action::CopyReplacement)
                },
                Err(error) => if next == 0 {
                    (Stage::Over, Action::Finish(Err(error)))
                } else {
                    (
                        Stage::Reclosing { next: 0, opened: next, error },
                        Action::Protect { page: 0, writable: false },
                    )
                },
            },
            Stage::Reclosing { next, opened, error } => match outcome {
                Ok(()) => if opened > 0 && next < opened - 1 {
                    (
                        Stage::Reclosing { next: next + 1, opened, error },
                        Action::Protect { page: next + 1, writable: false },
                    )
                } else {
                    (Stage::Over, Action::Finish(Err(error)))
                },
                Err(_) => (Stage::Over, Action::Fatal),
            },
            Stage::Copying => (Stage::Flushing, Action::Flush),
            Stage::Flushing => match outcome {
                Ok(()) => if pages > 0 {
                    (Stage::Closing { next: 0 }, Action::Protect { page: 0, writable: false })
                } else {
                    (Stage::Over, Action::Finish(Ok(())))
                },
                Err(error) => if pages > 0 {
                    (Stage::Reopening { next: 0, error }, Action::Protect { page: 0, writable: true })
                } else {
                    (Stage::Restoring { error }, Action::CopyOriginal)
                },
            },
            Stage::Closing { next } => match outcome {
                Ok(()) => if pages > 0 && next < pages - 1 {
                    (Stage::Closing { next: next + 1 }, Action::Protect { page: next + 1, writable: false })
                } else {
                    (Stage::Over, Action::Finish(Ok(())))
                },
                Err(error) => (Stage::Reopening { next: 0, error }, Action::Protect { page: 0, writable: true }),
            },
            Stage::Reopening { next, error } => match outcome {
                Ok(()) => if pages > 0 && next < pages - 1 {
                    (
                        Stage::Reopening { next: next + 1, error },
                        Action::Protect { page: next + 1, writable: true },
                    )
                } else {
                    (Stage::Restoring { error }, Action::CopyOriginal)
                },
                Err(_) => (Stage::Over, Action::Fatal),
            },
            Stage::Restoring { error } => (Stage::Reflushing { error }, Action::Flush),
            Stage::Reflushing { error } => match outcome {
                Ok(()) => if pages > 0 {
                    (Stage::Relocking { next: 0, error }, Action::Protect { page: 0, writable: false })
                } else {
                    (Stage::Over, Action::Finish(Err(error)))
                },
                Err(_) => (Stage::Over, Action::Fatal),
            },
            Stage::Relocking { next, error } => match outcome {
                Ok(()) => if pages > 0 && next < pages - 1 {
                    (
                        Stage::Relocking { next: next + 1, error },
                        Action::Protect { page: next + 1, writable: false },
                    )
                } else {
                    (Stage::Over, Action::Finish(Err(error)))
                },
                Err(_) => (Stage::Over, Action::Fatal),
            },
            Stage::Over => (Stage::Over, Action::Fatal),
        };
        self.stage = next;
        action
    }
}

/// What a write has done to memory: which page ranges are writable, and
/// whether the replacement is in place.
pub struct Effect {
    /// For each page range: it is writable, not in its saved protection.
    pub opened: Seq<bool>,
    /// The replacement bytes are in place of the original ones.
    pub replaced: bool,
}

/// Memory before a write of `pages` page ranges.
pub open spec fn untouched(pages: nat) -> Effect {
    Effect { opened: Seq::new(pages, |k: int| false), replaced: false }
}

/// Memory after `action` had `outcome`. A failed permission change leaves
/// the permissions as they were; copies cannot fail.
pub open spec fn apply(effect: Effect, action: Action, outcome: Result<(), Error>) -> Effect {
    match action {
        Action::Protect { page, writable } => if outcome is Ok && page < effect.opened.len() {
            Effect { opened: effect.opened.update(page as int, writable), ..effect }
        } else {
            effect
        },
        Action::CopyReplacement => Effect { replaced: true, ..effect },
        Action::CopyOriginal => Effect { replaced: false, ..effect },
        _ => effect,
    }
}

/// Every page range has its saved protection.
pub open spec fn all_closed(effect: Effect) -> bool {
    forall|k: int| 0 <= k < effect.opened.len() ==> !#[trigger] effect.opened[k]
}

/// Exactly the page ranges from `low` up to `high` are writable.
pub open spec fn open_between(effect: Effect, low: int, high: int) -> bool {
    forall|k: int| 0 <= k < effect.opened.len() ==> #[trigger] effect.opened[k] == (low <= k < high)
}

/// Memory as a write of `pages` page ranges in `stage` leaves it.
pub open spec fn expected(pages: nat, stage: Stage, effect: Effect) -> bool {
    &&& pages <= usize::MAX
    &&& effect.opened.len() == pages
    &&& match stage {
        Stage::Opening { next } => next < pages && open_between(effect, 0, next as int)
            && !effect.replaced,
        Stage::Reclosing { next, opened, .. } => next < opened <= pages && open_between(
            effect,
            next as int,
            opened as int,
        ) && !effect.replaced,
        Stage::Copying => open_between(effect, 0, pages as int) && !effect.replaced,
        Stage::Flushing => open_between(effect, 0, pages as int) && effect.replaced,
        Stage::Closing { next } => next < pages && open_between(effect, next as int, pages as int)
            && effect.replaced,
        Stage::Reopening { next, .. } => next < pages && (forall|k: int|
            0 <= k < next ==> #[trigger] effect.opened[k]) && effect.replaced,
        Stage::Restoring { .. } => open_between(effect, 0, pages as int) && effect.replaced,
        Stage::Reflushing { .. } => open_between(effect, 0, pages as int) && !effect.replaced,
        Stage::Relocking { next, .. } => next < pages && open_between(
            effect,
            next as int,
            pages as int,
        ) && !effect.replaced,
        Stage::Over => false,
    }
}

/// The stage undoes earlier steps.
pub open spec fn undoing(stage: Stage) -> bool {
    stage is Reclosing || stage is Reopening || stage is Reflushing || stage is Relocking
}

/// The action ends the write.
pub open spec fn terminal(action: Action) -> bool {
    action is Finish || action is Fatal
}

/// A write of `pages` page ranges after the outcomes of its actions, in
/// order: its stage, the action it asks for next, and what it has done to
/// memory. Outcomes after the write ended are ignored.
pub open spec fn run(pages: nat, outcomes: Seq<Result<(), Error>>) -> (Stage, Action, Effect)
    decreases outcomes.len(),
{
    if outcomes.len() == 0 {
        (first_stage(pages), pending(first_stage(pages)), untouched(pages))
    } else {
        let (stage, action, effect) = run(pages, outcomes.drop_last());
        if terminal(action) {
            (stage, action, effect)
        } else {
            let (next, following) = transition(pages, stage, outcomes.last());
            (next, following, apply(effect, action, outcomes.last()))
        }
    }
}

/// One step of a write keeps memory as its stages describe; a write that
/// finishes leaves every page range with its saved protection and the
/// replacement in place exactly when it succeeds; it asks the process to stop
/// only when undoing failed.
pub proof fn lemma_write_step(pages: nat, stage: Stage, effect: Effect, outcome: Result<(), Error>)
    requires
        expected(pages, stage, effect),
    ensures
        ({
            let (next, action) = transition(pages, stage, outcome);
            let after = apply(effect, pending(stage), outcome);
            &&& action matches Action::Finish(result) ==> all_closed(after) && after.replaced == (
            result is Ok)
            &&& action is Fatal ==> outcome is Err && undoing(stage)
            &&& !terminal(action) ==> expected(pages, next, after) && action == pending(next)
        }),
{
    let after = apply(effect, pending(stage), outcome);
    if let Action::Protect { page, writable } = pending(stage) {
        if outcome is Ok && page < pages {
            assert forall|k: int| 0 <= k < pages implies #[trigger] after.opened[k] == if k == page {
                writable
            } else {
                effect.opened[k]
            } by {}
        }
    }
    match stage {
        Stage::Opening { next } => {
            if outcome is Ok {
                assert(after.opened == effect.opened.update(next as int, true));
                assert forall|k: int| 0 <= k < pages implies #[trigger] after.opened[k] == (0 <= k
                    < next + 1) by {
                    if k != next {
                        assert(effect.opened[k] == (0 <= k < next));
                    }
                }
            }
        },
        Stage::Reclosing { next, opened, .. } => {
            if outcome is Ok {
                assert(after.opened == effect.opened.update(next as int, false));
                assert forall|k: int| 0 <= k < pages implies #[trigger] after.opened[k] == (next + 1
                    <= k < opened) by {
                    if k != next {
                        assert(effect.opened[k] == (next <= k < opened));
                    }
                }
            }
        },
        Stage::Closing { next } => {
            if outcome is Ok {
                assert(after.opened == effect.opened.update(next as int, false));
                assert forall|k: int| 0 <= k < pages implies #[trigger] after.opened[k] == (next + 1
                    <= k < pages) by {
                    if k != next {
                        assert(effect.opened[k] == (next <= k < pages));
                    }
                }
            } else {
                assert(forall|k: int| 0 <= k < 0 ==> #[trigger] after.opened[k]);
            }
        },
        Stage::Relocking { next, .. } => {
            if outcome is Ok {
                assert(after.opened == effect.opened.update(next as int, false));
                assert forall|k: int| 0 <= k < pages implies #[trigger] after.opened[k] == (next + 1
                    <= k < pages) by {
                    if k != next {
                        assert(effect.opened[k] == (next <= k < pages));
                    }
                }
            }
        },
        Stage::Reopening { next, .. } => {
            if outcome is Ok {
                assert(after.opened == effect.opened.update(next as int, true));
                assert forall|k: int| 0 <= k < next + 1 implies #[trigger] after.opened[k] by {
                    if k < next {
                        assert(effect.opened[k]);
                    }
                }
                if next + 1 >= pages {
                    assert(open_between(after, 0, pages as int));
                }
            }
        },
        Stage::Flushing => {
            if outcome is Err && pages > 0 {
                assert(forall|k: int| 0 <= k < 0 ==> #[trigger] after.opened[k]);
            }
        },
        _ => {},
    }
}

/// Whatever the outcomes of its actions, a write that finishes leaves every
/// page range with its saved protection, with the replacement in place if it
/// succeeded and the original bytes if it failed; it asks the process to stop
/// only when undoing a step failed.
pub proof fn lemma_write_finishes_cleanly(pages: nat, outcomes: Seq<Result<(), Error>>)
    requires
        pages <= usize::MAX,
    ensures
        ({
            let (stage, action, effect) = run(pages, outcomes);
            &&& action matches Action::Finish(result) ==> all_closed(effect) && effect.replaced == (
            result is Ok)
            &&& !terminal(action) ==> expected(pages, stage, effect) && action == pending(stage)
        }),
    decreases outcomes.len(),
{
    if outcomes.len() == 0 {
        let effect = untouched(pages);
        if pages > 0 {
            assert(open_between(effect, 0, 0));
        } else {
            assert(open_between(effect, 0, pages as int));
        }
    } else {
        lemma_write_finishes_cleanly(pages, outcomes.drop_last());
        let (stage, action, effect) = run(pages, outcomes.drop_last());
        if !terminal(action) {
            lemma_write_step(pages, stage, effect, outcomes.last());
        }
    }
}

} // verus!
