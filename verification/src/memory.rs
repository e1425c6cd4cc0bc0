//! Code reads and writes, checked against the memory map, with rollback on
//! failure.
//!
//! The platform layer answers questions about the memory map and performs the
//! reads, permission changes and copies; the decisions are made here.
pub mod mach;
pub mod maps;
pub mod remap;
pub mod windows;
pub mod writing;

use crate::error::Error;
use vstd::prelude::*;

verus! {

/// A mapped region `[start, end)` with its protection flags.
#[derive(Clone, Copy, Debug)]
pub struct Region {
    /// First address of the region.
    pub start: usize,
    /// First address after the region.
    pub end: usize,
    /// The platform's protection flags.
    pub protection: u32,
    /// The region can be read.
    pub readable: bool,
    /// The region can be executed.
    pub executable: bool,
}

/// Whole pages whose permissions change during a write.
#[derive(Clone, Copy, Debug)]
pub struct PageRange {
    /// First address, at a page boundary.
    pub address: usize,
    /// Length in bytes.
    pub length: usize,
    /// The protection flags to restore.
    pub protection: u32,
}

/// The end of `length` bytes at `address`, or why there is none.
pub open spec fn end_of(address: int, length: int) -> Result<usize, Error> {
    if address == 0 {
        Err(Error::InvalidAddress)
    } else if length == 0 {
        Err(Error::InvalidRange)
    } else if address + length > usize::MAX {
        Err(Error::InvalidRange)
    } else {
        Ok((address + length) as usize)
    }
}

/// The end of `length` bytes at `address`.
pub fn checked_end(address: usize, length: usize) -> (result: Result<usize, Error>)
    ensures
        result == end_of(address as int, length as int),
{
    if address == 0 {
        return Err(Error::InvalidAddress);
    }
    if length == 0 {
        return Err(Error::InvalidRange);
    }
    match address.checked_add(length) {
        Some(end) => Ok(end),
        None => Err(Error::InvalidRange),
    }
}

/// What the answer about the region at `at` says against running code
/// there: nothing for a readable executable region that holds `at`.
pub open spec fn objection(answer: Option<Region>, at: int) -> Option<Error> {
    match answer {
        Some(region) => if !(region.start <= at < region.end) || !region.readable {
            Some(Error::InvalidAddress)
        } else if !region.executable {
            Some(Error::NotExecutable)
        } else {
            None
        },
        None => Some(Error::InvalidAddress),
    }
}

/// A walk over the memory map: still going at `cursor` with the regions
/// found so far, or finished.
pub enum Walk {
    /// The next question is about `cursor`.
    Going { cursor: usize, found: Seq<Region> },
    /// The walk is over.
    Done(Result<Seq<Region>, Error>),
}

/// The walk after one more answer. A readable executable region is kept and
/// the walk moves to its end; anything else ends the walk, as an error when no
/// region was found yet.
pub open spec fn step(cursor: usize, end: usize, found: Seq<Region>, answer: Result<
    Option<Region>,
    Error,
>) -> Walk {
    match answer {
        Err(error) => Walk::Done(Err(error)),
        Ok(answer) => match objection(answer, cursor as int) {
            None => {
                let region = answer->Some_0;
                if region.end >= end {
                    Walk::Done(Ok(found.push(region)))
                } else {
                    Walk::Going { cursor: region.end, found: found.push(region) }
                }
            },
            Some(error) => Walk::Done(
                if found.len() == 0 {
                    Err(error)
                } else {
                    Ok(found)
                },
            ),
        },
    }
}

/// The walk from `address` to `end` after the answers, in order.
pub open spec fn walked(address: usize, end: usize, answers: Seq<Result<Option<Region>, Error>>) -> Walk
    decreases answers.len(),
{
    if answers.len() == 0 {
        Walk::Going { cursor: address, found: Seq::empty() }
    } else {
        match walked(address, end, answers.drop_last()) {
            Walk::Going { cursor, found } => step(cursor, end, found, answers.last()),
            done => done,
        }
    }
}

/// `region_at`, in some state, gave `answer` about `at`.
pub open spec fn answered<F>(at: usize, answer: Result<Option<Region>, Error>) -> bool where
    F: FnMut(usize) -> Result<Option<Region>, Error>,
{
    exists|state: F| #[trigger] call_ensures(state, (at,), answer)
}

/// Each answer came from `region_at` about the cursor of the walk at that
/// point.
pub open spec fn asked<F>(address: usize, end: usize, answers: Seq<Result<Option<Region>, Error>>) -> bool where
    F: FnMut(usize) -> Result<Option<Region>, Error>,
{
    forall|i: int|
        0 <= i < answers.len() ==> match #[trigger] walked(address, end, answers.take(i)) {
            Walk::Going { cursor, found } => answered::<F>(cursor, answers[i]),
            Walk::Done(_) => false,
        }
}

/// The regions of `length` bytes at `address` after the answers.
pub open spec fn regions_outcome(
    address: usize,
    length: usize,
    answers: Seq<Result<Option<Region>, Error>>,
) -> Result<Seq<Region>, Error> {
    match end_of(address as int, length as int) {
        Err(error) => Err(error),
        Ok(end) => match walked(address, end, answers) {
            Walk::Done(outcome) => outcome,
            Walk::Going { .. } => Err(Error::InvalidRange),
        },
    }
}

/// The answers are all that a walk over `length` bytes at `address` asks.
pub open spec fn complete(address: usize, length: usize, answers: Seq<Result<Option<Region>, Error>>) -> bool {
    match end_of(address as int, length as int) {
        Err(_) => answers.len() == 0,
        Ok(end) => walked(address, end, answers) is Done,
    }
}

/// A result carries the outcome, the regions by their sequence.
pub open spec fn same_regions(result: Result<Vec<Region>, Error>, outcome: Result<Seq<Region>, Error>) -> bool {
    match result {
        Ok(regions) => outcome == Ok::<Seq<Region>, Error>(regions@),
        Err(error) => outcome == Err::<Seq<Region>, Error>(error),
    }
}

/// The readable executable regions that hold `length` bytes at `address`,
/// in order, as far as they reach without a gap; `region_at` tells which
/// region holds an address.
pub fn executable_regions<F>(address: usize, length: usize, region_at: &mut F) -> (result: Result<
    Vec<Region>,
    Error,
>) where F: FnMut(usize) -> Result<Option<Region>, Error>
    requires
        forall|state: F, at: usize| call_requires(state, (at,)),
    ensures
        exists|answers: Seq<Result<Option<Region>, Error>>|
            {
                &&& asked::<F>(address, (address + length) as usize, answers)
                &&& complete(address, length, answers)
                &&& #[trigger] same_regions(result, regions_outcome(address, length, answers))
            },
{
    let end = match checked_end(address, length) {
        Ok(end) => end,
        Err(error) => {
            let ghost none = Seq::<Result<Option<Region>, Error>>::empty();
            assert(same_regions(Err::<Vec<Region>, Error>(error), regions_outcome(address, length, none)));
            return Err(error);
        },
    };
    let mut regions: Vec<Region> = Vec::new();
    let mut cursor = address;
    let ghost mut answers = Seq::<Result<Option<Region>, Error>>::empty();
    loop
        invariant
            forall|state: F, at: usize| call_requires(state, (at,)),
            end == address + length,
            end_of(address as int, length as int) == Ok::<usize, Error>(end),
            cursor < end,
            walked(address, end, answers) == (Walk::Going { cursor, found: regions@ }),
            asked::<F>(address, end, answers),
        decreases end - cursor,
    {
        let ghost state = *region_at;
        let answer = region_at(cursor);
        proof {
            assert(call_ensures(state, (cursor,), answer));
            assert(answered::<F>(cursor, answer));
            assert(answers.push(answer).drop_last() =~= answers);
            assert(answers.push(answer).take(answers.len() as int) =~= answers);
            assert forall|i: int| 0 <= i < answers.len() implies #[trigger] answers.push(answer).take(i)
                =~= answers.take(i) by {}
            let before = answers;
            answers = answers.push(answer);
            assert(answers.drop_last() == before);
            assert(walked(address, end, answers) == step(cursor, end, regions@, answer));
        }
        let found = match answer {
            Ok(found) => found,
            Err(error) => {
                assert(same_regions(Err(error), regions_outcome(address, length, answers)));
                return Err(error);
            },
        };
        let objected = match found {
            Some(region) => if !(region.start <= cursor && cursor < region.end) || !region.readable {
                Some(Error::InvalidAddress)
            } else if !region.executable {
                Some(Error::NotExecutable)
            } else {
                None
            },
            None => Some(Error::InvalidAddress),
        };
        match objected {
            None => {
                let region = found.unwrap();
                regions.push(region);
                if region.end >= end {
                    assert(same_regions(Ok(regions), regions_outcome(address, length, answers)));
                    return Ok(regions);
                }
                cursor = region.end;
            },
            Some(error) => {
                if regions.len() == 0 {
                    assert(same_regions(Err(error), regions_outcome(address, length, answers)));
                    return Err(error);
                }
                assert(same_regions(Ok(regions), regions_outcome(address, length, answers)));
                return Ok(regions);
            },
        }
    }
}

/// Along a walk, the cursor is the end of the last region found, and every
/// region found ends above `address`.
pub proof fn lemma_walk_ends(address: usize, end: usize, answers: Seq<Result<Option<Region>, Error>>)
    requires
        address < end,
    ensures
        match walked(address, end, answers) {
            Walk::Going { cursor, found } => address <= cursor < end && (found.len() == 0
                ==> cursor == address) && (found.len() > 0 ==> found.last().end == cursor
                && cursor > address),
            Walk::Done(Ok(found)) => found.len() > 0 && found.last().end > address,
            Walk::Done(Err(_)) => true,
        },
    decreases answers.len(),
{
    if answers.len() > 0 {
        lemma_walk_ends(address, end, answers.drop_last());
    }
}

/// How many bytes a read of at most `limit` bytes at `address` returns: up to
/// the end of the regions, or why it cannot start.
pub open spec fn read_outcome(address: usize, limit: usize, regions: Result<Seq<Region>, Error>) -> Result<
    usize,
    Error,
> {
    match regions {
        Err(error) => Err(error),
        Ok(regions) => {
            let available = regions.last().end - address;
            Ok(
                (if available < limit {
                    available
                } else {
                    limit as int
                }) as usize,
            )
        },
    }
}

/// The number of bytes that a read of at most `limit` bytes at `address`
/// returns: it stops at the end of the readable executable code.
pub fn read_length<F>(address: usize, limit: usize, region_at: &mut F) -> (result: Result<
    usize,
    Error,
>) where F: FnMut(usize) -> Result<Option<Region>, Error>
    requires
        forall|state: F, at: usize| call_requires(state, (at,)),
    ensures
        exists|answers: Seq<Result<Option<Region>, Error>>|
            {
                &&& asked::<F>(address, (address + limit) as usize, answers)
                &&& complete(address, limit, answers)
                &&& result == #[trigger] read_outcome(
                    address,
                    limit,
                    regions_outcome(address, limit, answers),
                )
            },
{
    let regions = executable_regions(address, limit, region_at);
    let ghost answers = choose|answers: Seq<Result<Option<Region>, Error>>|
        {
            &&& asked::<F>(address, (address + limit) as usize, answers)
            &&& complete(address, limit, answers)
            &&& #[trigger] same_regions(regions, regions_outcome(address, limit, answers))
        };
    match regions {
        Err(error) => {
            assert(Err::<usize, Error>(error) == read_outcome(
                address,
                limit,
                regions_outcome(address, limit, answers),
            ));
            Err(error)
        },
        Ok(regions) => {
            proof {
                lemma_walk_ends(address, (address + limit) as usize, answers);
            }
            let last = regions[regions.len() - 1];
            let available = last.end - address;
            let length = if available < limit {
                available
            } else {
                limit
            };
            assert(Ok::<usize, Error>(length) == read_outcome(
                address,
                limit,
                regions_outcome(address, limit, answers),
            ));
            Ok(length)
        },
    }
}

/// The regions reach the end of the bytes to write.
pub fn check_coverage(end: usize, regions: &Vec<Region>) -> (result: Result<(), Error>)
    requires
        regions@.len() > 0,
    ensures
        result == (if regions@.last().end < end {
            Err(Error::InvalidRange)
        } else {
            Ok::<(), Error>(())
        }),
{
    if regions[regions.len() - 1].end < end {
        Err(Error::InvalidRange)
    } else {
        Ok(())
    }
}

/// `value` rounded down to a multiple of `page_size`.
pub open spec fn page_floor(value: int, page_size: int) -> int {
    value / page_size * page_size
}

/// A page boundary at or below `value`, within one page of it.
pub proof fn lemma_page_floor(value: int, page_size: int)
    requires
        value >= 0,
        page_size > 0,
    ensures
        0 <= page_floor(value, page_size) <= value < page_floor(value, page_size) + page_size,
{
    vstd::arithmetic::div_mod::lemma_fundamental_div_mod(value, page_size);
    vstd::arithmetic::mul::lemma_mul_is_commutative(value / page_size, page_size);
    vstd::arithmetic::div_mod::lemma_div_pos_is_pos(value, page_size);
    vstd::arithmetic::mul::lemma_mul_nonnegative(value / page_size, page_size);
}

/// The whole pages of `region` that hold bytes of `[address, end)`, where
/// `last_end` is the end of the last page that holds one.
pub open spec fn page_range(address: int, last_end: int, page_size: int, region: Region) -> PageRange {
    let first = page_floor(address, page_size);
    let start = if region.start > first {
        region.start as int
    } else {
        first
    };
    let stop = if region.end < last_end {
        region.end as int
    } else {
        last_end
    };
    PageRange { address: start as usize, length: (stop - start) as usize, protection: region.protection }
}

/// The region holds some of the bytes `[address, end)`.
pub open spec fn overlaps(region: Region, address: int, end: int) -> bool {
    region.start < region.end && region.start < end && address < region.end
}

/// The pages whose permissions change to write `[address, end)` within the
/// regions, one range per region, or why they cannot be given.
pub open spec fn pages_outcome(address: int, end: int, page_size: int, regions: Seq<Region>) -> Result<
    Seq<PageRange>,
    Error,
> {
    if end + page_size - 1 > usize::MAX {
        Err(Error::InvalidRange)
    } else if exists|i: int| 0 <= i < regions.len() && !overlaps(#[trigger] regions[i], address, end) {
        Err(Error::InvalidRange)
    } else {
        let last_end = page_floor(end + page_size - 1, page_size);
        Ok(regions.map_values(|region: Region| page_range(address, last_end, page_size, region)))
    }
}

/// The pages whose permissions change to write `[address, end)`; see
/// [`pages_outcome`].
pub fn page_ranges(address: usize, end: usize, regions: &Vec<Region>, page_size: usize) -> (result:
    Result<Vec<PageRange>, Error>)
    requires
        page_size > 0,
        address < end,
    ensures
        match result {
            Ok(pages) => pages_outcome(address as int, end as int, page_size as int, regions@)
                == Ok::<Seq<PageRange>, Error>(pages@),
            Err(error) => pages_outcome(address as int, end as int, page_size as int, regions@)
                == Err::<Seq<PageRange>, Error>(error),
        },
{
    let rounded = match end.checked_add(page_size - 1) {
        Some(rounded) => rounded,
        None => return Err(Error::InvalidRange),
    };
    proof {
        lemma_page_floor(rounded as int, page_size as int);
        lemma_page_floor(address as int, page_size as int);
    }
    let last_end = rounded / page_size * page_size;
    let first = address / page_size * page_size;
    let mut pages: Vec<PageRange> = Vec::new();
    let mut index: usize = 0;
    while index < regions.len()
        invariant
            index <= regions@.len(),
            first == page_floor(address as int, page_size as int),
            last_end == page_floor(end + page_size - 1, page_size as int),
            first <= address < end <= last_end,
            end + page_size - 1 <= usize::MAX,
            pages@.len() == index,
            forall|i: int| 0 <= i < index ==> overlaps(#[trigger] regions@[i], address as int, end as int),
            forall|i: int|
                0 <= i < index ==> #[trigger] pages@[i] == page_range(
                    address as int,
                    last_end as int,
                    page_size as int,
                    regions@[i],
                ),
        decreases regions@.len() - index,
    {
        let region = regions[index];
        if !(region.start < region.end && region.start < end && address < region.end) {
            assert(!overlaps(regions@[index as int], address as int, end as int));
            return Err(Error::InvalidRange);
        }
        let start = if region.start > first {
            region.start
        } else {
            first
        };
        let stop = if region.end < last_end {
            region.end
        } else {
            last_end
        };
        pages.push(PageRange { address: start, length: stop - start, protection: region.protection });
        index = index + 1;
    }
    assert(pages@ =~= regions@.map_values(
        |region: Region| page_range(address as int, last_end as int, page_size as int, region),
    ));
    Ok(pages)
}

/// A multiple of the page size rounded down is itself.
proof fn lemma_page_floor_aligned(value: int, page_size: int)
    requires
        value >= 0,
        page_size > 0,
    ensures
        page_floor(value, page_size) % page_size == 0,
{
    vstd::arithmetic::div_mod::lemma_mod_multiples_basic(value / page_size, page_size);
}

/// The pages that a write makes writable hold written bytes and are whole:
/// one range per region, within the region and with its protection; each
/// starts at a page boundary or at the region's start, no whole page before
/// the first written byte, and ends at a page boundary or at the region's
/// end, no whole page after the last one; and each holds every written byte
/// of its region.
pub proof fn lemma_pages_hold_written_bytes(address: int, end: int, page_size: int, regions: Seq<Region>)
    requires
        0 <= address < end,
        page_size > 0,
    ensures
        pages_outcome(address, end, page_size, regions) matches Ok(pages) ==> {
            &&& pages.len() == regions.len()
            &&& forall|i: int|
                #![trigger pages[i]]
                0 <= i < pages.len() ==> {
                    let page = pages[i];
                    let region = regions[i];
                    &&& region.start <= page.address
                    &&& page.address + page.length <= region.end
                    &&& page.protection == region.protection
                    &&& ((page.address as int) % page_size == 0 || page.address == region.start)
                    &&& address < page.address + page_size
                    &&& ((page.address + page.length) % page_size == 0 || page.address + page.length
                        == region.end)
                    &&& page.address + page.length < end + page_size
                    &&& page.address <= (if address > region.start {
                        address
                    } else {
                        region.start as int
                    })
                    &&& page.address + page.length >= (if end < region.end {
                        end
                    } else {
                        region.end as int
                    })
                }
        },
{
    if let Ok(pages) = pages_outcome(address, end, page_size, regions) {
        let last_end = page_floor(end + page_size - 1, page_size);
        let first = page_floor(address, page_size);
        lemma_page_floor(end + page_size - 1, page_size);
        lemma_page_floor(address, page_size);
        lemma_page_floor_aligned(end + page_size - 1, page_size);
        lemma_page_floor_aligned(address, page_size);
        assert forall|i: int| #![trigger pages[i]] 0 <= i < pages.len() implies {
            let page = pages[i];
            let region = regions[i];
            &&& region.start <= page.address
            &&& page.address + page.length <= region.end
            &&& page.protection == region.protection
            &&& ((page.address as int) % page_size == 0 || page.address == region.start)
            &&& address < page.address + page_size
            &&& ((page.address + page.length) % page_size == 0 || page.address + page.length
                == region.end)
            &&& page.address + page.length < end + page_size
            &&& page.address <= (if address > region.start {
                address
            } else {
                region.start as int
            })
            &&& page.address + page.length >= (if end < region.end {
                end
            } else {
                region.end as int
            })
        } by {
            let region = regions[i];
            assert(overlaps(region, address, end));
            assert(pages[i] == page_range(address, last_end, page_size, region));
        }
    }
}

/// The regions are readable and executable and follow each other without a
/// gap, from the one that holds `address` on.
pub open spec fn runs_from(regions: Seq<Region>, address: int) -> bool {
    &&& regions.len() > 0 ==> regions[0].start <= address < regions[0].end
    &&& forall|i: int| 0 <= i < regions.len() ==> (#[trigger] regions[i]).readable && regions[i].executable
    &&& forall|i: int|
        0 <= i < regions.len() - 1 ==> (#[trigger] regions[i + 1]).start <= regions[i].end
            < regions[i + 1].end
}

/// Code is read and written only within readable executable regions that
/// follow each other without a gap from the first byte on.
pub proof fn lemma_walk_runs(address: usize, end: usize, answers: Seq<Result<Option<Region>, Error>>)
    requires
        address < end,
    ensures
        match walked(address, end, answers) {
            Walk::Going { cursor, found } => runs_from(found, address as int) && (found.len() > 0
                ==> found.last().end == cursor),
            Walk::Done(Ok(found)) => runs_from(found, address as int),
            Walk::Done(Err(_)) => true,
        },
    decreases answers.len(),
{
    if answers.len() > 0 {
        lemma_walk_runs(address, end, answers.drop_last());
        lemma_walk_ends(address, end, answers.drop_last());
        if let Walk::Going { cursor, found } = walked(address, end, answers.drop_last()) {
            if let Ok(Some(region)) = answers.last() {
                if objection(Some(region), cursor as int) is None {
                    let grown = found.push(region);
                    assert forall|i: int| 0 <= i < grown.len() - 1 implies (#[trigger] grown[i
                        + 1]).start <= grown[i].end < grown[i + 1].end by {
                        if i < found.len() - 1 {
                            assert(grown[i] == found[i] && grown[i + 1] == found[i + 1]);
                        }
                    }
                }
            }
        }
    }
}

/// The two byte strings are equal.
fn same_bytes(a: &[u8], b: &[u8]) -> (same: bool)
    ensures
        same == (a@ == b@),
{
    if a.len() != b.len() {
        return false;
    }
    let mut i: usize = 0;
    while i < a.len()
        invariant
            a@.len() == b@.len(),
            i <= a@.len(),
            forall|j: int| 0 <= j < i ==> a@[j] == b@[j],
        decreases a@.len() - i,
    {
        if a[i] != b[i] {
            return false;
        }
        i = i + 1;
    }
    assert(a@ =~= b@);
    true
}

/// `read_bytes`, in some state, gave `answer` for `length` bytes at `address`.
pub open spec fn read_answered<R>(address: usize, length: usize, answer: Result<Vec<u8>, Error>) -> bool where
    R: FnMut(usize, usize) -> Result<Vec<u8>, Error>,
{
    exists|state: R| #[trigger] call_ensures(state, (address, length), answer)
}

/// `page_size`, in some state, gave `answer`.
pub open spec fn size_answered<P>(answer: Result<usize, Error>) -> bool where
    P: FnMut() -> Result<usize, Error>,
{
    exists|state: P| #[trigger] call_ensures(state, (), answer)
}

/// The checks before a write reach the read of the current bytes: the two
/// byte strings have one length and the regions hold all of them.
pub open spec fn reads_current(
    address: usize,
    expected: Seq<u8>,
    replacement_len: nat,
    regions: Result<Seq<Region>, Error>,
) -> bool {
    &&& expected.len() == replacement_len
    &&& regions matches Ok(found) && found.last().end >= address + expected.len()
}

/// The checks reach the question of the page size: the current bytes were
/// read and are the expected ones.
pub open spec fn asks_page_size(
    address: usize,
    expected: Seq<u8>,
    replacement_len: nat,
    regions: Result<Seq<Region>, Error>,
    current: Result<Vec<u8>, Error>,
) -> bool {
    &&& reads_current(address, expected, replacement_len, regions)
    &&& current matches Ok(bytes) && bytes@ == expected
}

/// What a write of `expected` (to be replaced by `replacement_len` bytes) at
/// `address` starts from: the bytes it replaces and the pages to make
/// writable; or why it cannot start. `regions` is the walk over the memory
/// map, `current` the read of the bytes there and `page_size` the platform's
/// page size, each taken into account only once the checks before it pass.
pub open spec fn write_outcome(
    address: usize,
    expected: Seq<u8>,
    replacement_len: nat,
    regions: Result<Seq<Region>, Error>,
    current: Result<Vec<u8>, Error>,
    page_size: Result<usize, Error>,
) -> Result<(Seq<u8>, Seq<PageRange>), Error> {
    if expected.len() != replacement_len {
        Err(Error::InvalidRange)
    } else {
        match regions {
            Err(error) => Err(error),
            Ok(found) => if found.last().end < address + expected.len() {
                Err(Error::InvalidRange)
            } else {
                match current {
                    Err(error) => Err(error),
                    Ok(bytes) => if bytes@ != expected {
                        Err(Error::MemoryChanged)
                    } else {
                        match page_size {
                            Err(error) => Err(error),
                            Ok(size) => if size == 0 {
                                Err(Error::InvalidRange)
                            } else {
                                match pages_outcome(
                                    address as int,
                                    address + expected.len(),
                                    size as int,
                                    found,
                                ) {
                                    Err(error) => Err(error),
                                    Ok(pages) => Ok((expected, pages)),
                                }
                            },
                        }
                    },
                }
            },
        }
    }
}

/// A result carries the outcome, the byte strings and pages by their views.
pub open spec fn same_plan(
    result: Result<(Vec<u8>, Vec<PageRange>), Error>,
    outcome: Result<(Seq<u8>, Seq<PageRange>), Error>,
) -> bool {
    match result {
        Ok((bytes, pages)) => outcome == Ok::<(Seq<u8>, Seq<PageRange>), Error>((bytes@, pages@)),
        Err(error) => outcome == Err::<(Seq<u8>, Seq<PageRange>), Error>(error),
    }
}

/// Checks a write of `replacement` over `expected` at `address` and returns
/// the bytes it replaces with the pages to make writable, in the order of
/// [`write_outcome`]: the lengths, the memory map (through `region_at`), the
/// current bytes (through `read_bytes`) and the page size (through
/// `page_size`). Nothing is changed here.
pub fn prepare_write<F, R, P>(
    address: usize,
    expected: &[u8],
    replacement: &[u8],
    region_at: &mut F,
    read_bytes: &mut R,
    page_size: &mut P,
) -> (result: Result<(Vec<u8>, Vec<PageRange>), Error>) where
    F: FnMut(usize) -> Result<Option<Region>, Error>,
    R: FnMut(usize, usize) -> Result<Vec<u8>, Error>,
    P: FnMut() -> Result<usize, Error>,
    requires
        forall|state: F, at: usize| call_requires(state, (at,)),
        forall|state: R, at: usize, length: usize| call_requires(state, (at, length)),
        forall|state: P| call_requires(state, ()),
    ensures
        exists|
            answers: Seq<Result<Option<Region>, Error>>,
            current: Result<Vec<u8>, Error>,
            size: Result<usize, Error>,
        |
            {
                &&& expected@.len() == replacement@.len() ==> {
                    &&& asked::<F>(address, (address + expected@.len()) as usize, answers)
                    &&& complete(address, expected@.len() as usize, answers)
                }
                &&& reads_current(
                    address,
                    expected@,
                    replacement@.len(),
                    regions_outcome(address, expected@.len() as usize, answers),
                ) ==> read_answered::<R>(address, expected@.len() as usize, current)
                &&& asks_page_size(
                    address,
                    expected@,
                    replacement@.len(),
                    regions_outcome(address, expected@.len() as usize, answers),
                    current,
                ) ==> size_answered::<P>(size)
                &&& #[trigger] same_plan(
                    result,
                    write_outcome(
                        address,
                        expected@,
                        replacement@.len(),
                        regions_outcome(address, expected@.len() as usize, answers),
                        current,
                        size,
                    ),
                )
            },
{
    let ghost none = Seq::<Result<Option<Region>, Error>>::empty();
    let ghost unread = Err::<Vec<u8>, Error>(Error::InvalidRange);
    let ghost unasked = Err::<usize, Error>(Error::InvalidRange);
    if expected.len() != replacement.len() {
        assert(same_plan(
            Err(Error::InvalidRange),
            write_outcome(
                address,
                expected@,
                replacement@.len(),
                regions_outcome(address, expected@.len() as usize, none),
                unread,
                unasked,
            ),
        ));
        return Err(Error::InvalidRange);
    }
    let length = expected.len();
    let found = executable_regions(address, length, region_at);
    let ghost answers = choose|answers: Seq<Result<Option<Region>, Error>>|
        {
            &&& asked::<F>(address, (address + length) as usize, answers)
            &&& complete(address, length, answers)
            &&& #[trigger] same_regions(found, regions_outcome(address, length, answers))
        };
    let ghost outcome = regions_outcome(address, length, answers);
    let regions = match found {
        Ok(regions) => regions,
        Err(error) => {
            assert(same_plan(
                Err(error),
                write_outcome(address, expected@, replacement@.len(), outcome, unread, unasked),
            ));
            return Err(error);
        },
    };
    proof {
        let end = end_of(address as int, length as int);
        assert(end is Ok);
        lemma_walk_ends(address, end->Ok_0, answers);
    }
    let end = address + length;
    if let Err(error) = check_coverage(end, &regions) {
        assert(same_plan(
            Err(error),
            write_outcome(address, expected@, replacement@.len(), outcome, unread, unasked),
        ));
        return Err(error);
    }
    let ghost reader = *read_bytes;
    let current = read_bytes(address, length);
    proof {
        assert(call_ensures(reader, (address, length), current));
        assert(read_answered::<R>(address, length, current));
    }
    let original = match current {
        Ok(bytes) => bytes,
        Err(error) => {
            assert(same_plan(
                Err(error),
                write_outcome(address, expected@, replacement@.len(), outcome, current, unasked),
            ));
            return Err(error);
        },
    };
    if !same_bytes(original.as_slice(), expected) {
        assert(same_plan(
            Err(Error::MemoryChanged),
            write_outcome(address, expected@, replacement@.len(), outcome, current, unasked),
        ));
        return Err(Error::MemoryChanged);
    }
    let ghost sizer = *page_size;
    let size = page_size();
    proof {
        assert(call_ensures(sizer, (), size));
        assert(size_answered::<P>(size));
    }
    let page = match size {
        Ok(page) => page,
        Err(error) => {
            assert(same_plan(
                Err(error),
                write_outcome(address, expected@, replacement@.len(), outcome, current, size),
            ));
            return Err(error);
        },
    };
    if page == 0 {
        assert(same_plan(
            Err(Error::InvalidRange),
            write_outcome(address, expected@, replacement@.len(), outcome, current, size),
        ));
        return Err(Error::InvalidRange);
    }
    match page_ranges(address, end, &regions, page) {
        Ok(pages) => {
            assert(same_plan(
                Ok((original, pages)),
                write_outcome(address, expected@, replacement@.len(), outcome, current, size),
            ));
            Ok((original, pages))
        },
        Err(error) => {
            assert(same_plan(
                Err(error),
                write_outcome(address, expected@, replacement@.len(), outcome, current, size),
            ));
            Err(error)
        },
    }
}

} // verus!
