//! The memory map on Windows, as the virtual-memory query describes it, and
//! the protection that makes a page range writable there.
use crate::error::Error;
use crate::memory::Region;
use vstd::prelude::*;

verus! {

/// The state of committed pages.
pub const MEM_COMMIT: u32 = 0x1000;

/// The state of free address space.
pub const MEM_FREE: u32 = 0x10000;

/// The modifier of guard pages, which fault on first access.
pub const PAGE_GUARD: u32 = 0x100;

/// Read-only pages.
pub const PAGE_READONLY: u32 = 0x02;

/// Readable and writable pages.
pub const PAGE_READWRITE: u32 = 0x04;

/// Readable pages that are copied on write.
pub const PAGE_WRITECOPY: u32 = 0x08;

/// Readable executable pages.
pub const PAGE_EXECUTE_READ: u32 = 0x20;

/// Readable, writable and executable pages.
pub const PAGE_EXECUTE_READWRITE: u32 = 0x40;

/// Readable executable pages that are copied on write.
pub const PAGE_EXECUTE_WRITECOPY: u32 = 0x80;

/// The protection kind, without modifiers, lets code read the pages.
pub open spec fn readable_kind(kind: u32) -> bool {
    kind == PAGE_READONLY || kind == PAGE_READWRITE || kind == PAGE_WRITECOPY || kind
        == PAGE_EXECUTE_READ || kind == PAGE_EXECUTE_READWRITE || kind == PAGE_EXECUTE_WRITECOPY
}

/// The protection kind, without modifiers, lets code run in the pages.
pub open spec fn executable_kind(kind: u32) -> bool {
    kind == PAGE_EXECUTE_READ || kind == PAGE_EXECUTE_READWRITE || kind == PAGE_EXECUTE_WRITECOPY
}

/// The pages can be accessed: they are committed and not guard pages.
pub open spec fn accessible(state: u32, protection: u32) -> bool {
    state == MEM_COMMIT && protection & PAGE_GUARD == 0
}

/// The region that the query described by its base, size, state and
/// protection; a region that ends past the address space is an error.
pub fn region_of(base: usize, size: usize, state: u32, protection: u32) -> (result: Result<
    Region,
    Error,
>)
    ensures
        base + size > usize::MAX ==> result == Err::<Region, Error>(Error::InvalidRange),
        base + size <= usize::MAX ==> result == Ok::<Region, Error>(
            Region {
                start: base,
                end: (base + size) as usize,
                protection,
                readable: accessible(state, protection) && readable_kind(protection & 0xff),
                executable: accessible(state, protection) && executable_kind(protection & 0xff),
            },
        ),
{
    let end = match base.checked_add(size) {
        Some(end) => end,
        None => return Err(Error::InvalidRange),
    };
    let open = state == MEM_COMMIT && protection & PAGE_GUARD == 0;
    let kind = protection & 0xff;
    let readable = kind == PAGE_READONLY || kind == PAGE_READWRITE || kind == PAGE_WRITECOPY || kind
        == PAGE_EXECUTE_READ || kind == PAGE_EXECUTE_READWRITE || kind == PAGE_EXECUTE_WRITECOPY;
    let executable = kind == PAGE_EXECUTE_READ || kind == PAGE_EXECUTE_READWRITE || kind
        == PAGE_EXECUTE_WRITECOPY;
    Ok(
        Region {
            start: base,
            end,
            protection,
            readable: open && readable,
            executable: open && executable,
        },
    )
}

/// The protection that a page range with the saved `protection` gets: its
/// modifiers with readable, writable and executable pages while writable,
/// else the saved protection.
pub fn protection_for(protection: u32, writable: bool) -> (result: u32)
    ensures
        result == (if writable {
            (protection & !0xffu32) | PAGE_EXECUTE_READWRITE
        } else {
            protection
        }),
{
    if writable {
        (protection & !0xffu32) | PAGE_EXECUTE_READWRITE
    } else {
        protection
    }
}

} // verus!
