use shimforge::memory::remap::{splice, stage_page, Action, Remapper};
use shimforge::memory::PageRange;
use shimforge::Error;
use std::collections::HashMap;

const SIZE: usize = 0x1000;
const BASE: usize = 0x40000;

/// Remaps `replacement` at `address` over the page ranges of `memory`, which
/// starts at `BASE`, failing the listed occurrences of each operation; a
/// short read drops the last byte of each page. Returns the result, or `None`
/// for the fatal policy.
fn remap(
    memory: &mut [u8],
    address: usize,
    replacement: &[u8],
    ranges: &[PageRange],
    failures: &[(&'static str, usize)],
    short: bool,
) -> Option<Result<(), Error>> {
    let mut calls = HashMap::new();
    let mut fail = |operation: &'static str| {
        let count = calls.entry(operation).or_insert(0);
        *count += 1;
        if failures.contains(&(operation, *count)) {
            Err(Error::Os { operation, code: 5 })
        } else {
            Ok(())
        }
    };
    let mut images = Vec::new();
    for range in ranges {
        let offset = range.address - BASE;
        let mut bytes = memory[offset..offset + range.length].to_vec();
        if short {
            bytes.pop();
        }
        let staged = stage_page(address, replacement, *range, bytes);
        let (original, updated) = match staged {
            Ok(images) => images,
            Err(error) => return Some(Err(error)),
        };
        for _ in 0..2 {
            if let Err(error) = fail("allocate patch").and_then(|()| fail("seal patch")) {
                return Some(Err(error));
            }
        }
        images.push((original, updated));
    }
    let (mut remapper, mut action) = Remapper::start(images.len());
    loop {
        let outcome = match action {
            Action::Install { range, updated } => fail("protect memory").map(|()| {
                let offset = ranges[range].address - BASE;
                let image = if updated { &images[range].1 } else { &images[range].0 };
                memory[offset..offset + image.len()].copy_from_slice(image);
            }),
            Action::Flush { .. } => fail("flush instruction cache"),
            Action::Fatal => return None,
            Action::Finish(result) => return Some(result),
        };
        action = remapper.advance(outcome);
    }
}

fn one_range() -> PageRange {
    PageRange { address: BASE, length: SIZE, protection: 5 }
}

fn two_ranges() -> [PageRange; 2] {
    [
        PageRange { address: BASE, length: SIZE, protection: 5 },
        PageRange { address: BASE + SIZE, length: SIZE, protection: 5 },
    ]
}

#[test]
fn staging_failures_leave_the_target_unchanged() {
    let mut memory = vec![0x90; SIZE];
    for operation in [
        "allocate patch",
        "seal patch",
        "protect memory",
        "flush instruction cache",
    ] {
        let result = remap(&mut memory, BASE, &[1, 2, 3, 4], &[one_range()], &[(operation, 1)], false);
        assert!(matches!(result, Some(Err(_))), "{operation}");
        assert_eq!(memory[..4], [0x90; 4], "{operation}");
    }
    let result = remap(&mut memory, BASE, &[1, 2, 3, 4], &[one_range()], &[], false);
    assert_eq!(result, Some(Ok(())));
    assert_eq!(memory[..4], [1, 2, 3, 4]);
}

#[test]
fn failed_rollback_uses_the_fatal_policy() {
    let mut memory = vec![0x90; SIZE];
    let failures = [("flush instruction cache", 1), ("protect memory", 2)];
    assert_eq!(remap(&mut memory, BASE, &[1], &[one_range()], &failures, false), None);
}

#[test]
fn a_failure_on_a_later_range_rolls_back_every_installed_range() {
    let mut memory = vec![0x90; SIZE * 2];
    let address = BASE + SIZE - 2;
    let offset = SIZE - 2;
    // The first range is installed and flushed before the second one fails.
    for failure in [("protect memory", 2), ("flush instruction cache", 2)] {
        let result = remap(&mut memory, address, &[1, 2, 3, 4], &two_ranges(), &[failure], false);
        assert!(matches!(result, Some(Err(_))), "{failure:?}");
        assert_eq!(memory[offset..offset + 4], [0x90; 4], "{failure:?}");
    }
    let result = remap(&mut memory, address, &[1, 2, 3, 4], &two_ranges(), &[], false);
    assert_eq!(result, Some(Ok(())));
    assert_eq!(memory[offset..offset + 4], [1, 2, 3, 4]);
    assert_eq!(memory[offset - 1], 0x90);
    assert_eq!(memory[offset + 4], 0x90);
}

#[test]
fn failed_rollback_steps_use_the_fatal_policy() {
    let address = BASE + SIZE - 2;
    for failures in [
        // The rollback reinstall succeeds, but its flush fails.
        vec![("flush instruction cache", 1), ("flush instruction cache", 2)],
        // The second range fails; the rollback reaches the first range and fails there.
        vec![("protect memory", 2), ("protect memory", 4)],
    ] {
        let mut memory = vec![0x90; SIZE * 2];
        let result = remap(&mut memory, address, &[1, 2, 3, 4], &two_ranges(), &failures, false);
        assert_eq!(result, None, "{failures:?}");
    }
}

#[test]
fn a_short_read_never_stages_a_partial_page() {
    let mut memory = vec![0x90; SIZE];
    let result = remap(&mut memory, BASE, &[1, 2, 3, 4], &[one_range()], &[], true);
    assert_eq!(result, Some(Err(Error::InvalidRange)));
    assert_eq!(memory[..4], [0x90; 4]);
}

#[test]
fn splicing_writes_only_the_shared_bytes() {
    let page = [0x90; 8];
    assert_eq!(splice(&page, 0x100, 0x106, &[1, 2, 3, 4]), [0x90, 0x90, 0x90, 0x90, 0x90, 0x90, 1, 2]);
    assert_eq!(splice(&page, 0x100, 0xfe, &[1, 2, 3, 4]), [3, 4, 0x90, 0x90, 0x90, 0x90, 0x90, 0x90]);
    assert_eq!(splice(&page, 0x100, 0x200, &[1]), page);
    assert_eq!(
        stage_page(0xfe, &[1, 2, 3, 4], PageRange { address: 0x100, length: 8, protection: 5 }, page.to_vec()),
        Ok((page.to_vec(), vec![3, 4, 0x90, 0x90, 0x90, 0x90, 0x90, 0x90]))
    );
}
