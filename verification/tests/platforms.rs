use shimforge::executable::windows::{free_region, GRANULARITY};
use shimforge::memory::mach::{self, region_at, MachRegion, KERN_FAILURE, KERN_INVALID_ADDRESS};
use shimforge::memory::windows::{protection_for, region_of, MEM_COMMIT, MEM_FREE};
use shimforge::Error;

fn answer(code: i32, start: u64, size: u64, protection: i32, is_submap: bool) -> MachRegion {
    MachRegion { code, start, size, protection, is_submap }
}

#[test]
fn kernel_errors_keep_the_mach_status() {
    assert_eq!(
        mach::check("query memory", KERN_FAILURE),
        Err(Error::Os { operation: "query memory", code: KERN_FAILURE })
    );
    assert_eq!(mach::check("query memory", 0), Ok(()));
    let result = region_at(0x1000, &mut |_| answer(KERN_FAILURE, 0, 0, 0, false));
    assert_eq!(result.err(), Some(Error::Os { operation: "query memory", code: KERN_FAILURE }));
}

#[test]
fn submaps_are_asked_one_level_deeper() {
    let mut depths = Vec::new();
    let region = region_at(0x1800, &mut |depth| {
        depths.push(depth);
        if depth < 2 {
            answer(0, 0x1000, 0x1000, 5, true)
        } else {
            answer(0, 0x1000, 0x1000, 5, false)
        }
    })
    .unwrap()
    .unwrap();
    assert_eq!(depths, [0, 1, 2]);
    assert_eq!((region.start, region.end, region.protection), (0x1000, 0x2000, 5));
    assert!(region.readable && region.executable);
    let region = region_at(0x1800, &mut |_| answer(0, 0x1000, 0x1000, 3, false))
        .unwrap()
        .unwrap();
    assert!(region.readable && !region.executable);
}

#[test]
fn addresses_outside_every_region_have_none() {
    // Nothing at or above the address.
    assert_eq!(
        region_at(usize::MAX, &mut |_| answer(KERN_INVALID_ADDRESS, 0, 0, 0, false)).unwrap().is_none(),
        true
    );
    // The first region lies above the address.
    assert!(region_at(1, &mut |_| answer(0, 0x1000, 0x1000, 5, false)).unwrap().is_none());
    // A region that would end past the address space.
    assert_eq!(
        region_at(0x1000, &mut |_| answer(0, u64::MAX, 2, 5, false)).err(),
        Some(Error::InvalidRange)
    );
}

#[test]
fn windows_regions_are_readable_when_committed_and_not_guarded() {
    let region = region_of(0x10000, 0x1000, MEM_COMMIT, 0x20).unwrap();
    assert_eq!((region.start, region.end, region.protection), (0x10000, 0x11000, 0x20));
    assert!(region.readable && region.executable);
    let region = region_of(0x10000, 0x1000, MEM_COMMIT, 0x04).unwrap();
    assert!(region.readable && !region.executable);
    // A guard page.
    let region = region_of(0x10000, 0x1000, MEM_COMMIT, 0x120).unwrap();
    assert!(!region.readable && !region.executable);
    // Reserved, not committed.
    let region = region_of(0x10000, 0x1000, 0x2000, 0x20).unwrap();
    assert!(!region.readable && !region.executable);
    // No access.
    let region = region_of(0x10000, 0x1000, MEM_COMMIT, 0x01).unwrap();
    assert!(!region.readable && !region.executable);
    assert_eq!(region_of(usize::MAX, 1, MEM_COMMIT, 0x20).err(), Some(Error::InvalidRange));
}

#[test]
fn writable_windows_pages_keep_their_modifiers() {
    assert_eq!(protection_for(0x20, true), 0x40);
    assert_eq!(protection_for(0x220, true), 0x240);
    assert_eq!(protection_for(0x220, false), 0x220);
}

#[test]
fn trampoline_regions_report_their_end_and_whether_they_are_free() {
    assert_eq!(free_region(GRANULARITY, GRANULARITY, MEM_FREE), (2 * GRANULARITY, true));
    assert_eq!(free_region(GRANULARITY, GRANULARITY, MEM_COMMIT), (2 * GRANULARITY, false));
    assert_eq!(free_region(usize::MAX - 1, 4, MEM_FREE), (usize::MAX, true));
}
