//! Owned pages for saved function entries.
//!
//! The library decides where a page may lie and when it may be written; the
//! platform layer allocates, fills and seals it.
pub mod linux;
pub mod unix;
pub mod windows;

use crate::error::Error;
use vstd::prelude::*;

verus! {

/// Bytes in one page of saved entries.
pub const CAPACITY: usize = 16384;

/// Largest distance between a function and its saved entry that a 32-bit
/// x86-64 displacement spans.
pub const REACH: usize = 0x4000_0000;

/// The calls of a relocated prefix need the stack bridge, which shadow stacks
/// forbid.
pub fn check_shadow_stack(enabled: bool) -> (result: Result<(), Error>)
    ensures
        result == (if enabled {
            Err(Error::ShadowStack)
        } else {
            Ok::<(), Error>(())
        }),
{
    if enabled {
        Err(Error::ShadowStack)
    } else {
        Ok(())
    }
}

/// A page of saved entries near one function, written at most once.
///
/// The platform layer allocates the page, copies the bytes that
/// [`Executable::publish`] admits, makes the page executable and frees it.
pub struct Executable {
    address: usize,
    sealed: bool,
}

impl Executable {
    /// The page's address.
    pub closed spec fn spec_address(&self) -> usize {
        self.address
    }

    /// The page was handed out for writing.
    pub closed spec fn is_sealed(&self) -> bool {
        self.sealed
    }

    /// Takes the page that `allocate` places near `source`, which must be a
    /// function entry with room for a whole page of reach above it.
    pub fn near<A>(source: usize, allocate: A) -> (result: Result<Self, Error>) where
        A: FnOnce(usize) -> Result<usize, Error>,
        requires
            call_requires(allocate, (source,)),
        ensures
            source == 0 || source > isize::MAX - CAPACITY ==> result == Err::<Self, Error>(
                Error::InvalidAddress,
            ),
            !(source == 0 || source > isize::MAX - CAPACITY) ==> {
                &&& result matches Ok(page) ==> call_ensures(
                    allocate,
                    (source,),
                    Ok::<usize, Error>(page.spec_address()),
                ) && !page.is_sealed()
                &&& result matches Err(error) ==> call_ensures(
                    allocate,
                    (source,),
                    Err::<usize, Error>(error),
                )
            },
    {
        if source == 0 || source > isize::MAX as usize - CAPACITY {
            return Err(Error::InvalidAddress);
        }
        match allocate(source) {
            Ok(address) => Ok(Executable { address, sealed: false }),
            Err(error) => Err(error),
        }
    }

    /// The page's address.
    pub fn address(&self) -> (address: usize)
        ensures
            address == self.spec_address(),
    {
        self.address
    }

    /// Admits `bytes` to be written to the page. A page is written once, with
    /// at least one byte and no more than it holds; after a failed seal it
    /// may be read-only, so it is never written again.
    pub fn publish(&mut self, bytes: &[u8]) -> (result: Result<(), Error>)
        ensures
            final(self).spec_address() == old(self).spec_address(),
            old(self).is_sealed() || bytes@.len() == 0 || bytes@.len() > CAPACITY ==> {
                &&& result == Err::<(), Error>(Error::InvalidRange)
                &&& final(self).is_sealed() == old(self).is_sealed()
            },
            !(old(self).is_sealed() || bytes@.len() == 0 || bytes@.len() > CAPACITY) ==> {
                &&& result is Ok
                &&& final(self).is_sealed()
            },
    {
        if self.sealed || bytes.len() == 0 || bytes.len() > CAPACITY {
            return Err(Error::InvalidRange);
        }
        self.sealed = true;
        Ok(())
    }
}

} // verus!
