//! The search for a free page near a function on Windows, which reserves
//! address space in units of the allocation granularity.
use super::{CAPACITY, REACH};
use crate::error::Error;
use crate::memory::windows::MEM_FREE;
use vstd::prelude::*;

verus! {

/// Windows reserves address space at multiples of this size.
pub const GRANULARITY: usize = 65536;

/// `value` rounded up to the allocation granularity.
pub open spec fn granule_above(value: int) -> int {
    (value + GRANULARITY - 1) / GRANULARITY as int * GRANULARITY
}

/// Windows' error code for an invalid parameter, which a system without the
/// shadow-stack policy gives.
pub const INVALID_PARAMETER: i32 = 87;

/// What the shadow-stack policy query says when it returned `result`, wrote
/// `flags` and left the error code `code`: shadow stacks are on when the
/// lowest bit of the policy is set; a system without the policy answers
/// with an invalid parameter, which means "off"; any other error is reported.
pub fn shadow_stack_status(result: i32, flags: u32, code: i32) -> (status: Result<bool, Error>)
    ensures
        status == (if result == 0 {
            if code == INVALID_PARAMETER {
                Ok(false)
            } else {
                Err(Error::Os { operation: "query shadow stack", code })
            }
        } else {
            Ok::<bool, Error>(flags & 1 != 0)
        }),
{
    if result == 0 {
        if code == INVALID_PARAMETER {
            return Ok(false);
        }
        return Err(Error::Os { operation: "query shadow stack", code });
    }
    Ok(flags & 1 != 0)
}

/// What the search for a page near a function hears about the region at an
/// address: where the region ends, which is the end of the address space
/// when it would lie past it, and whether it is free.
pub fn free_region(base: usize, size: usize, state: u32) -> (result: (usize, bool))
    ensures
        result.0 == (if base + size > usize::MAX {
            usize::MAX
        } else {
            (base + size) as usize
        }),
        result.1 == (state == MEM_FREE),
{
    (base.saturating_add(size), state == MEM_FREE)
}

/// The first address the search asks about.
pub open spec fn first_candidate(source: int) -> int {
    let below = if source >= REACH {
        source - REACH
    } else {
        0
    };
    granule_above(
        if below > GRANULARITY {
            below
        } else {
            GRANULARITY as int
        },
    )
}

/// The last address at which a whole page still lies within reach.
pub open spec fn last_candidate(source: int) -> int {
    let above = if source + REACH <= isize::MAX {
        source + REACH
    } else {
        isize::MAX as int
    };
    if above >= CAPACITY {
        above - CAPACITY
    } else {
        0
    }
}

/// What the search hears back: the end of a region and whether it is free,
/// or where a page was reserved.
pub enum Heard {
    /// The answer about the region at the current candidate.
    Region(Result<(usize, bool), Error>),
    /// The outcome of a reservation at the current candidate.
    Reserved(Option<usize>),
}

/// Where a search stands.
pub enum Search {
    /// It asks about the region at the candidate.
    Asking(usize),
    /// It tries to reserve a page at the candidate.
    Reserving(usize),
    /// It is over.
    Done(Result<usize, Error>),
}

/// The search at the candidate `next`, unless the candidates are used up.
pub open spec fn moving_to(source: int, next: int) -> Search {
    if next <= last_candidate(source) {
        Search::Asking(next as usize)
    } else {
        Search::Done(Err(Error::InsufficientSpace))
    }
}

/// The search after it heard `heard` in `state`. A region that does not end
/// after the candidate is an error; a free region with room for a page is
/// reserved; a busy or small one is skipped to the next granule after its
/// end; a failed reservation, which another thread won, moves on by one
/// granule.
pub open spec fn next(source: int, state: Search, heard: Heard) -> Search {
    match (state, heard) {
        (Search::Asking(at), Heard::Region(answer)) => match answer {
            Err(error) => Search::Done(Err(error)),
            Ok((end, free)) => if end <= at {
                Search::Done(Err(Error::InvalidRange))
            } else if free && end - at >= CAPACITY {
                Search::Reserving(at)
            } else {
                moving_to(source, granule_above(end as int))
            },
        },
        (Search::Reserving(at), Heard::Reserved(granted)) => match granted {
            Some(address) => Search::Done(Ok(address)),
            None => moving_to(source, at + GRANULARITY),
        },
        (state, _) => state,
    }
}

/// The search for `source` after it heard `heard`, in order.
pub open spec fn searched(source: int, heard: Seq<Heard>) -> Search
    decreases heard.len(),
{
    if heard.len() == 0 {
        moving_to(source, first_candidate(source))
    } else {
        next(source, searched(source, heard.drop_last()), heard.last())
    }
}

/// `region`, in some state, gave `answer` about `at`.
pub open spec fn region_said<R>(at: usize, answer: Result<(usize, bool), Error>) -> bool where
    R: FnMut(usize) -> Result<(usize, bool), Error>,
{
    exists|state: R| #[trigger] call_ensures(state, (at,), answer)
}

/// `reserve`, in some state, gave `granted` for `at`.
pub open spec fn reserve_said<S>(at: usize, granted: Option<usize>) -> bool where
    S: FnMut(usize) -> Option<usize>,
{
    exists|state: S| #[trigger] call_ensures(state, (at,), granted)
}

/// Everything the search heard came from `region` or `reserve`, in some
/// state, about the candidate it stood at.
pub open spec fn heard_from<R, S>(source: int, heard: Seq<Heard>) -> bool where
    R: FnMut(usize) -> Result<(usize, bool), Error>,
    S: FnMut(usize) -> Option<usize>,
{
    forall|i: int|
        0 <= i < heard.len() ==> match #[trigger] searched(source, heard.take(i)) {
            Search::Asking(at) => heard[i] matches Heard::Region(answer) && region_said::<R>(
                at,
                answer,
            ),
            Search::Reserving(at) => heard[i] matches Heard::Reserved(granted) && reserve_said::<S>(
                at,
                granted,
            ),
            Search::Done(_) => false,
        }
}

/// What the search heard stays explained when it hears from the callback
/// that its state asks.
pub proof fn lemma_heard_more<R, S>(source: int, heard: Seq<Heard>, more: Heard)
    where
        R: FnMut(usize) -> Result<(usize, bool), Error>,
        S: FnMut(usize) -> Option<usize>,
    requires
        heard_from::<R, S>(source, heard),
        match searched(source, heard) {
            Search::Asking(at) => more matches Heard::Region(answer) && region_said::<R>(at, answer),
            Search::Reserving(at) => more matches Heard::Reserved(granted) && reserve_said::<S>(
                at,
                granted,
            ),
            Search::Done(_) => false,
        },
    ensures
        heard_from::<R, S>(source, heard.push(more)),
        searched(source, heard.push(more)) == next(source, searched(source, heard), more),
{
    let longer = heard.push(more);
    assert(longer.drop_last() == heard);
    assert forall|i: int| 0 <= i < longer.len() implies match #[trigger] searched(
        source,
        longer.take(i),
    ) {
        Search::Asking(at) => longer[i] matches Heard::Region(answer) && region_said::<R>(
            at,
            answer,
        ),
        Search::Reserving(at) => longer[i] matches Heard::Reserved(granted) && reserve_said::<S>(
            at,
            granted,
        ),
        Search::Done(_) => false,
    } by {
        if i < heard.len() {
            assert(longer.take(i) == heard.take(i));
            assert(longer[i] == heard[i]);
        } else {
            assert(longer.take(i) == heard);
        }
    }
}

/// Rounds `value` up to the allocation granularity.
fn round_up(value: usize) -> (result: usize)
    requires
        value + GRANULARITY <= usize::MAX,
    ensures
        result == granule_above(value as int),
        value <= result < value + GRANULARITY,
        result % GRANULARITY == 0,
{
    (value + (GRANULARITY - 1)) / GRANULARITY * GRANULARITY
}

/// Finds a free, granularity-aligned page within reach of `source`; see
/// [`next`].
///
/// `region` reports the end of the memory region at an address and whether
/// it is free; `reserve` tries to reserve a page there and returns its address.
/// The candidates walk upward; after the last one the search fails with
/// [`Error::InsufficientSpace`].
pub fn search<R, S>(source: usize, region: &mut R, reserve: &mut S) -> (result: Result<usize, Error>)
    where
        R: FnMut(usize) -> Result<(usize, bool), Error>,
        S: FnMut(usize) -> Option<usize>,
    requires
        forall|state: R, address: usize| call_requires(state, (address,)),
        forall|state: S, address: usize| call_requires(state, (address,)),
    ensures
        exists|heard: Seq<Heard>|
            heard_from::<R, S>(source as int, heard) && #[trigger] searched(source as int, heard)
                == Search::Done(result),
{
    let below = source.saturating_sub(REACH);
    let lower = if below > GRANULARITY {
        below
    } else {
        GRANULARITY
    };
    let above = source.saturating_add(REACH);
    let upper = if above <= isize::MAX as usize {
        above
    } else {
        isize::MAX as usize
    };
    let last = upper.saturating_sub(CAPACITY);
    let mut cursor = round_up(lower);
    let ghost mut heard = Seq::<Heard>::empty();
    if cursor > last {
        assert(searched(source as int, heard) == Search::Done(Err::<usize, Error>(Error::InsufficientSpace)));
        return Err(Error::InsufficientSpace);
    }
    loop
        invariant
            forall|state: R, address: usize| call_requires(state, (address,)),
            forall|state: S, address: usize| call_requires(state, (address,)),
            cursor % GRANULARITY == 0,
            cursor <= last,
            last == last_candidate(source as int),
            last <= isize::MAX,
            searched(source as int, heard) == Search::Asking(cursor),
            heard_from::<R, S>(source as int, heard),
        decreases last - cursor,
    {
        let ghost asked = *region;
        let answer = region(cursor);
        proof {
            assert(call_ensures(asked, (cursor,), answer));
            assert(region_said::<R>(cursor, answer));
            lemma_heard_more::<R, S>(source as int, heard, Heard::Region(answer));
            heard = heard.push(Heard::Region(answer));
        }
        let (end, free) = match answer {
            Ok(pair) => pair,
            Err(error) => {
                let failed: Result<usize, Error> = Err(error);
                assert(searched(source as int, heard) == Search::Done(failed));
                return failed;
            },
        };
        if end <= cursor {
            assert(searched(source as int, heard) == Search::Done(
                Err::<usize, Error>(Error::InvalidRange),
            ));
            return Err(Error::InvalidRange);
        }
        if free && end - cursor >= CAPACITY {
            let ghost reserving = *reserve;
            let granted = reserve(cursor);
            proof {
                assert(call_ensures(reserving, (cursor,), granted));
                assert(reserve_said::<S>(cursor, granted));
                lemma_heard_more::<R, S>(source as int, heard, Heard::Reserved(granted));
                heard = heard.push(Heard::Reserved(granted));
            }
            if let Some(address) = granted {
                return Ok(address);
            }
            // Another thread may have reserved part of this region.
            if cursor + GRANULARITY > last {
                return Err(Error::InsufficientSpace);
            }
            cursor = cursor + GRANULARITY;
        } else if end > last {
            proof {
                assert(granule_above(end as int) >= end) by {
                    assert((end + GRANULARITY - 1) / GRANULARITY as int * GRANULARITY >= end)
                        by (nonlinear_arith)
                        requires
                            end >= 0,
                    ;
                }
            }
            assert(searched(source as int, heard) == Search::Done(
                Err::<usize, Error>(Error::InsufficientSpace),
            ));
            return Err(Error::InsufficientSpace);
        } else {
            let next = round_up(end);
            if next > last {
                assert(searched(source as int, heard) == Search::Done(
                    Err::<usize, Error>(Error::InsufficientSpace),
                ));
                return Err(Error::InsufficientSpace);
            }
            cursor = next;
        }
    }
}

} // verus!
