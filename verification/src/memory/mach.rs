//! The memory map on macOS, as the kernel's region query describes it: the
//! query may answer with a submap, which is asked again one level deeper.
use crate::error::Error;
use crate::memory::Region;
use vstd::prelude::*;

verus! {

/// The kernel's status for success.
pub const KERN_SUCCESS: i32 = 0;

/// The kernel's status for an address with no region at or above it.
pub const KERN_INVALID_ADDRESS: i32 = 1;

/// The kernel's status for a general failure.
pub const KERN_FAILURE: i32 = 5;

/// The read permission bit of a region.
pub const VM_PROT_READ: i32 = 1;

/// The execute permission bit of a region.
pub const VM_PROT_EXECUTE: i32 = 4;

/// A kernel status as a result: anything but success is the error of
/// `operation`, with the status as its code.
pub fn check(operation: &'static str, code: i32) -> (result: Result<(), Error>)
    ensures
        result == (if code == KERN_SUCCESS {
            Ok(())
        } else {
            Err(Error::Os { operation, code })
        }),
{
    if code == KERN_SUCCESS {
        Ok(())
    } else {
        Err(Error::Os { operation, code })
    }
}

/// One answer of the region query: its status, the first region at or above
/// the address asked about, its protection, and whether it is a submap.
#[derive(Clone, Copy, Debug)]
pub struct MachRegion {
    /// The kernel's status.
    pub code: i32,
    /// First address of the region.
    pub start: u64,
    /// Length of the region in bytes.
    pub size: u64,
    /// The region's current protection bits.
    pub protection: i32,
    /// The region is a submap, to be asked about one level deeper.
    pub is_submap: bool,
}

/// Where a lookup stands: asking at a submap depth, or done.
pub enum Lookup {
    /// The next question is at this depth.
    Asking(u32),
    /// The lookup is over.
    Done(Result<Option<Region>, Error>),
}

/// The lookup of `address` after the answer at `depth`. An address with no
/// region is no error; a submap is asked again one level deeper; a region
/// that does not hold the address means there is none.
pub open spec fn lookup_step(address: usize, depth: u32, answer: MachRegion) -> Lookup {
    if answer.code == KERN_INVALID_ADDRESS {
        Lookup::Done(Ok(None))
    } else if answer.code != KERN_SUCCESS {
        Lookup::Done(Err(Error::Os { operation: "query memory", code: answer.code }))
    } else if answer.is_submap {
        if depth == u32::MAX {
            Lookup::Done(Err(Error::InvalidRange))
        } else {
            Lookup::Asking((depth + 1) as u32)
        }
    } else {
        let start = answer.start as usize;
        let size = answer.size as usize;
        if start + size > usize::MAX {
            Lookup::Done(Err(Error::InvalidRange))
        } else {
            let end = (start + size) as usize;
            if start > address || address >= end {
                Lookup::Done(Ok(None))
            } else {
                Lookup::Done(
                    Ok(
                        Some(
                            Region {
                                start,
                                end,
                                protection: answer.protection as u32,
                                readable: answer.protection & VM_PROT_READ != 0,
                                executable: answer.protection & VM_PROT_EXECUTE != 0,
                            },
                        ),
                    ),
                )
            }
        }
    }
}

/// The lookup of `address` after the answers, in order, from depth zero.
pub open spec fn looked(address: usize, answers: Seq<MachRegion>) -> Lookup
    decreases answers.len(),
{
    if answers.len() == 0 {
        Lookup::Asking(0)
    } else {
        match looked(address, answers.drop_last()) {
            Lookup::Asking(depth) => lookup_step(address, depth, answers.last()),
            done => done,
        }
    }
}

/// Each answer came from `query` at the depth that the lookup asked at then.
pub open spec fn queried<Q>(address: usize, answers: Seq<MachRegion>) -> bool where
    Q: FnMut(u32) -> MachRegion,
{
    forall|i: int|
        0 <= i < answers.len() ==> match #[trigger] looked(address, answers.take(i)) {
            Lookup::Asking(depth) => exists|state: Q| call_ensures(state, (depth,), answers[i]),
            Lookup::Done(_) => false,
        }
}

/// The region that holds `address`, if any; `query` asks the kernel at a
/// submap depth about the first region at or above `address`.
pub fn region_at<Q>(address: usize, query: &mut Q) -> (result: Result<Option<Region>, Error>) where
    Q: FnMut(u32) -> MachRegion,
    requires
        forall|state: Q, depth: u32| call_requires(state, (depth,)),
    ensures
        exists|answers: Seq<MachRegion>|
            {
                &&& queried::<Q>(address, answers)
                &&& #[trigger] looked(address, answers) == Lookup::Done(result)
            },
{
    let mut depth: u32 = 0;
    let ghost mut answers = Seq::<MachRegion>::empty();
    loop
        invariant
            forall|state: Q, depth: u32| call_requires(state, (depth,)),
            looked(address, answers) == Lookup::Asking(depth),
            queried::<Q>(address, answers),
        decreases u32::MAX - depth,
    {
        let ghost state = *query;
        let answer = query(depth);
        proof {
            assert(call_ensures(state, (depth,), answer));
            assert(answers.push(answer).drop_last() =~= answers);
            assert(answers.push(answer).take(answers.len() as int) =~= answers);
            assert forall|i: int| 0 <= i < answers.len() implies #[trigger] answers.push(answer).take(i)
                =~= answers.take(i) by {}
            answers = answers.push(answer);
            assert(looked(address, answers) == lookup_step(address, depth, answer));
        }
        if answer.code == KERN_INVALID_ADDRESS {
            return Ok(None);
        }
        if let Err(error) = check("query memory", answer.code) {
            return Err(error);
        }
        if answer.is_submap {
            if depth == u32::MAX {
                return Err(Error::InvalidRange);
            }
            depth = depth + 1;
            continue;
        }
        let start = answer.start as usize;
        let end = match start.checked_add(answer.size as usize) {
            Some(end) => end,
            None => return Err(Error::InvalidRange),
        };
        if start > address || address >= end {
            return Ok(None);
        }
        return Ok(
            Some(
                Region {
                    start,
                    end,
                    protection: answer.protection as u32,
                    readable: answer.protection & VM_PROT_READ != 0,
                    executable: answer.protection & VM_PROT_EXECUTE != 0,
                },
            ),
        );
    }
}

} // verus!
