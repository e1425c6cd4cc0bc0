//! The search for a page near a function on Linux and macOS, where the
//! kernel takes an address as a hint and may map the page elsewhere.
use super::{CAPACITY, REACH};
use crate::error::Error;
use vstd::prelude::*;

verus! {

/// The distance between two addresses.
pub open spec fn distance(left: int, right: int) -> int {
    if left <= right {
        right - left
    } else {
        left - right
    }
}

/// The first hint the search passes to the kernel.
pub open spec fn first_hint(source: int) -> int {
    let below = if source >= REACH {
        source - REACH
    } else {
        0
    };
    let lower = if below > CAPACITY {
        below
    } else {
        CAPACITY as int
    };
    (lower + CAPACITY - 1) / CAPACITY as int * CAPACITY
}

/// The last hint at which a whole page still lies within reach.
pub open spec fn last_hint(source: int) -> int {
    let above = if source + REACH <= isize::MAX {
        source + REACH
    } else {
        isize::MAX as int
    };
    above - CAPACITY
}

/// What the search hears back: where the kernel placed a page for a hint,
/// or whether releasing a page worked.
pub enum Heard {
    /// The page that the kernel mapped for the current hint, if any.
    Mapped(Option<usize>),
    /// The outcome of releasing the page mapped out of reach.
    Released(Result<(), Error>),
}

/// Where a search stands.
pub enum Search {
    /// It asks for a page at the hint.
    Mapping(usize),
    /// It releases the page at `address`, mapped for the hint `at`.
    Releasing { at: usize, address: usize },
    /// It is over.
    Done(Result<usize, Error>),
}

/// The search at the hint `next`, unless the hints are used up.
pub open spec fn moving_to(source: int, next: int) -> Search {
    if next <= last_hint(source) {
        Search::Mapping(next as usize)
    } else {
        Search::Done(Err(Error::InsufficientSpace))
    }
}

/// The search after it heard `heard` in `state`. A page within reach is the
/// result; one out of reach is released, and a failed release ends the
/// search; then, as when no page was mapped, the next hint is one page up.
pub open spec fn next(source: int, state: Search, heard: Heard) -> Search {
    match (state, heard) {
        (Search::Mapping(at), Heard::Mapped(placed)) => match placed {
            Some(address) => if distance(source, address as int) <= REACH {
                Search::Done(Ok(address))
            } else {
                Search::Releasing { at, address }
            },
            None => moving_to(source, at + CAPACITY),
        },
        (Search::Releasing { at, .. }, Heard::Released(released)) => match released {
            Err(error) => Search::Done(Err(error)),
            Ok(()) => moving_to(source, at + CAPACITY),
        },
        (state, _) => state,
    }
}

/// The search for `source` after it heard `heard`, in order.
pub open spec fn searched(source: int, heard: Seq<Heard>) -> Search
    decreases heard.len(),
{
    if heard.len() == 0 {
        moving_to(source, first_hint(source))
    } else {
        next(source, searched(source, heard.drop_last()), heard.last())
    }
}

/// `map`, in some state, placed a page for `at` as `placed` says.
pub open spec fn map_said<M>(at: usize, placed: Option<usize>) -> bool where
    M: FnMut(usize) -> Option<usize>,
{
    exists|state: M| #[trigger] call_ensures(state, (at,), placed)
}

/// `unmap`, in some state, gave `released` for the page at `address`.
pub open spec fn unmap_said<U>(address: usize, released: Result<(), Error>) -> bool where
    U: FnMut(usize) -> Result<(), Error>,
{
    exists|state: U| #[trigger] call_ensures(state, (address,), released)
}

/// What the search hears in `state` came from the callback that the state
/// asks.
pub open spec fn fits<M, U>(state: Search, heard: Heard) -> bool where
    M: FnMut(usize) -> Option<usize>,
    U: FnMut(usize) -> Result<(), Error>,
{
    match state {
        Search::Mapping(at) => heard matches Heard::Mapped(placed) && map_said::<M>(at, placed),
        Search::Releasing { address, .. } => heard matches Heard::Released(released)
            && unmap_said::<U>(address, released),
        Search::Done(_) => false,
    }
}

/// Everything the search heard came from `map` or `unmap`, about the hint or
/// page it stood at.
pub open spec fn heard_from<M, U>(source: int, heard: Seq<Heard>) -> bool where
    M: FnMut(usize) -> Option<usize>,
    U: FnMut(usize) -> Result<(), Error>,
{
    forall|i: int| 0 <= i < heard.len() ==> fits::<M, U>(#[trigger] searched(source, heard.take(i)), heard[i])
}

/// What the search heard stays explained when it hears from the callback
/// that its state asks.
pub proof fn lemma_heard_more<M, U>(source: int, heard: Seq<Heard>, more: Heard)
    where
        M: FnMut(usize) -> Option<usize>,
        U: FnMut(usize) -> Result<(), Error>,
    requires
        heard_from::<M, U>(source, heard),
        fits::<M, U>(searched(source, heard), more),
    ensures
        heard_from::<M, U>(source, heard.push(more)),
        searched(source, heard.push(more)) == next(source, searched(source, heard), more),
{
    let longer = heard.push(more);
    assert(longer.drop_last() == heard);
    assert forall|i: int| 0 <= i < longer.len() implies fits::<M, U>(
        #[trigger] searched(source, longer.take(i)),
        longer[i],
    ) by {
        if i < heard.len() {
            assert(longer.take(i) == heard.take(i));
        } else {
            assert(longer.take(i) == heard);
        }
    }
}

/// Maps a page within reach of `source`; see [`next`].
///
/// `map` asks the kernel for a page at a hint and returns where the page was
/// placed, if anywhere; `unmap` releases a page. The hints walk upward in
/// steps of one page through the addresses within reach; after the last one
/// the search fails with [`Error::InsufficientSpace`].
pub fn search<M, U>(source: usize, map: &mut M, unmap: &mut U) -> (result: Result<usize, Error>)
    where
        M: FnMut(usize) -> Option<usize>,
        U: FnMut(usize) -> Result<(), Error>,
    requires
        forall|state: M, address: usize| call_requires(state, (address,)),
        forall|state: U, address: usize| call_requires(state, (address,)),
    ensures
        exists|heard: Seq<Heard>|
            heard_from::<M, U>(source as int, heard) && #[trigger] searched(source as int, heard)
                == Search::Done(result),
{
    let below = source.saturating_sub(REACH);
    let lower = if below > CAPACITY {
        below
    } else {
        CAPACITY
    };
    let above = source.saturating_add(REACH);
    let upper = if above <= isize::MAX as usize {
        above
    } else {
        isize::MAX as usize
    };
    let last = upper - CAPACITY;
    let mut at = (lower + (CAPACITY - 1)) / CAPACITY * CAPACITY;
    let ghost mut heard = Seq::<Heard>::empty();
    if at > last {
        assert(searched(source as int, heard) == Search::Done(
            Err::<usize, Error>(Error::InsufficientSpace),
        ));
        return Err(Error::InsufficientSpace);
    }
    loop
        invariant
            forall|state: M, address: usize| call_requires(state, (address,)),
            forall|state: U, address: usize| call_requires(state, (address,)),
            at <= last,
            last == last_hint(source as int),
            last <= isize::MAX,
            searched(source as int, heard) == Search::Mapping(at),
            heard_from::<M, U>(source as int, heard),
        decreases last - at,
    {
        let ghost mapping = *map;
        let placed = map(at);
        proof {
            assert(call_ensures(mapping, (at,), placed));
            assert(map_said::<M>(at, placed));
            lemma_heard_more::<M, U>(source as int, heard, Heard::Mapped(placed));
            heard = heard.push(Heard::Mapped(placed));
        }
        if let Some(address) = placed {
            let near = if address <= source {
                source - address <= REACH
            } else {
                address - source <= REACH
            };
            if near {
                assert(searched(source as int, heard) == Search::Done(Ok::<usize, Error>(address)));
                return Ok(address);
            }
            let ghost unmapping = *unmap;
            let released = unmap(address);
            proof {
                assert(call_ensures(unmapping, (address,), released));
                assert(unmap_said::<U>(address, released));
                lemma_heard_more::<M, U>(source as int, heard, Heard::Released(released));
                heard = heard.push(Heard::Released(released));
            }
            if let Err(error) = released {
                let failed: Result<usize, Error> = Err(error);
                assert(searched(source as int, heard) == Search::Done(failed));
                return failed;
            }
        }
        if at + CAPACITY > last {
            assert(searched(source as int, heard) == Search::Done(
                Err::<usize, Error>(Error::InsufficientSpace),
            ));
            return Err(Error::InsufficientSpace);
        }
        at = at + CAPACITY;
    }
}

/// The search asks only for hints within reach, and a page that it returns
/// lies within reach of `source`.
pub proof fn lemma_found_pages_are_near(source: int, heard: Seq<Heard>)
    ensures
        searched(source, heard) matches Search::Mapping(at) ==> at <= last_hint(source),
        searched(source, heard) matches Search::Done(Ok(address)) ==> distance(
            source,
            address as int,
        ) <= REACH,
    decreases heard.len(),
{
    if heard.len() > 0 {
        lemma_found_pages_are_near(source, heard.drop_last());
    }
}

/// Where code may sit at any distance (AArch64 macOS, whose relays use an
/// absolute jump), a search that found no page near the function takes a
/// page wherever `map` places one without a hint; any other outcome stands.
pub fn fallback<M>(found: Result<usize, Error>, map: &mut M) -> (result: Result<usize, Error>) where
    M: FnMut(usize) -> Option<usize>,
    requires
        forall|state: M, hint: usize| call_requires(state, (hint,)),
    ensures
        found != Err::<usize, Error>(Error::InsufficientSpace) ==> result == found,
        found == Err::<usize, Error>(Error::InsufficientSpace) ==> exists|placed: Option<usize>|
            {
                &&& map_said::<M>(0, placed)
                &&& result == #[trigger] placed_anywhere(placed)
            },
{
    match found {
        Err(Error::InsufficientSpace) => {
            let ghost mapping = *map;
            let placed = map(0);
            assert(call_ensures(mapping, (0usize,), placed));
            assert(map_said::<M>(0, placed));
            match placed {
                Some(address) => {
                    assert(Ok::<usize, Error>(address) == placed_anywhere(placed));
                    Ok(address)
                },
                None => {
                    assert(Err::<usize, Error>(Error::InsufficientSpace) == placed_anywhere(placed));
                    Err(Error::InsufficientSpace)
                },
            }
        },
        other => other,
    }
}

/// The page that a mapping without a hint gave, or why there is none.
pub open spec fn placed_anywhere(placed: Option<usize>) -> Result<usize, Error> {
    match placed {
        Some(address) => Ok(address),
        None => Err(Error::InsufficientSpace),
    }
}

} // verus!
