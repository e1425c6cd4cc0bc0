use shimforge::memory::maps::parse_region;
use shimforge::memory::writing::{Action, Writer};
use shimforge::memory::{
    check_coverage, checked_end, executable_regions, page_ranges, prepare_write, read_length,
    Region,
};
use shimforge::Error;

#[test]
fn parses_permissions_and_holes() {
    let maps =
        "1000-2000 rwxp 0000 00:00 0\n3000-4000 ---s 0000 00:00 0\n5000-6000 r-xp 0000 00:00 0\n";
    let region = parse_region(maps, 0x1234).unwrap().unwrap();
    assert_eq!(
        region.protection,
        (libc::PROT_READ | libc::PROT_WRITE | libc::PROT_EXEC) as u32
    );
    let region = parse_region(maps, 0x3333).unwrap().unwrap();
    assert_eq!(region.protection, 0);
    assert!(!region.readable && !region.executable);
    assert!(parse_region(maps, 0x2500).unwrap().is_none());
    assert!(parse_region("", 0x1000).unwrap().is_none());
}

#[test]
fn rejects_malformed_maps() {
    for maps in [
        "\n",
        "garbage r-xp",
        "z-2000 r-xp",
        "1000-z r-xp",
        "2000-1000 r-xp",
        "1000-2000",
        "1000-2000 xr-p",
        "1000-2000 rx-p",
        "1000-2000 rw-px",
        "1000-2000 rwyp",
        "1000-2000 rwxy",
    ] {
        assert!(
            matches!(parse_region(maps, 0x1000), Err(Error::Mapping(_))),
            "{maps:?}"
        );
    }
}

#[test]
fn map_lines_follow_the_standard_library_rules() {
    let region = parse_region("  +a000-b000\tr-xs rest\r\n", 0xa800).unwrap().unwrap();
    assert_eq!((region.start, region.end), (0xa000, 0xb000));
    assert_eq!(region.protection, (libc::PROT_READ | libc::PROT_EXEC) as u32);
    assert!(region.readable && region.executable);
    let region = parse_region("1000-2000\u{a0}r--p", 0x1000).unwrap().unwrap();
    assert_eq!(region.protection, libc::PROT_READ as u32);
    assert!(!region.executable);
    let message = |maps: &str| match parse_region(maps, 0) {
        Err(Error::Mapping(message)) => message,
        other => panic!("{other:?}"),
    };
    assert_eq!(message("-1000 r-xp"), "cannot parse integer from empty string");
    assert_eq!(message("1000-1g00 r-xp"), "invalid digit found in string");
    assert_eq!(
        message("1000-10000000000000000 r-xp"),
        "number too large to fit in target type"
    );
    assert_eq!(message("1000 r-xp"), "missing mapping address range");
    assert_eq!(message("2000-2000 r-xp"), "invalid mapping permissions or range");
    // A malformed line after the region that holds the address is never read.
    assert!(parse_region("1000-2000 r-xp\nbad", 0x1800).unwrap().is_some());
}

fn region(start: usize, end: usize, readable: bool, executable: bool) -> Region {
    Region {
        start,
        end,
        protection: 5,
        readable,
        executable,
    }
}

#[test]
fn executable_regions_stop_at_permission_boundaries() {
    let map = [
        region(0x1000, 0x2000, true, true),
        region(0x2000, 0x3000, true, true),
        region(0x3000, 0x4000, true, false),
    ];
    let mut lookup = |address: usize| {
        Ok(map
            .iter()
            .copied()
            .find(|region| region.start <= address && address < region.end))
    };
    let found = executable_regions(0x1ffe, 0x1000, &mut lookup).unwrap();
    assert_eq!(found.len(), 2);
    assert_eq!(read_length(0x2ffe, 16, &mut lookup), Ok(2));
    assert_eq!(read_length(0x1800, 16, &mut lookup), Ok(16));
    assert_eq!(read_length(0, 1, &mut lookup), Err(Error::InvalidAddress));
    assert_eq!(read_length(0x1000, 0, &mut lookup), Err(Error::InvalidRange));
    assert_eq!(read_length(usize::MAX, 2, &mut lookup), Err(Error::InvalidRange));
    assert_eq!(read_length(0x3000, 1, &mut lookup), Err(Error::NotExecutable));
    assert_eq!(read_length(0x5000, 1, &mut lookup), Err(Error::InvalidAddress));
    assert_eq!(
        executable_regions(0x1000, 4, &mut |_| Err(Error::Mapping("gone".into()))).err(),
        Some(Error::Mapping("gone".into()))
    );
    assert_eq!(checked_end(0x1000, 0x10), Ok(0x1010));
}

#[test]
fn written_pages_cover_whole_pages_of_each_region() {
    let regions = vec![
        region(0x1000, 0x2000, true, true),
        region(0x2000, 0x5000, true, true),
    ];
    assert_eq!(check_coverage(0x3000, &regions), Ok(()));
    assert_eq!(check_coverage(0x6000, &regions), Err(Error::InvalidRange));
    let pages = page_ranges(0x1ffe, 0x2004, &regions, 0x1000).unwrap();
    assert_eq!(pages.len(), 2);
    assert_eq!((pages[0].address, pages[0].length), (0x1000, 0x1000));
    assert_eq!((pages[1].address, pages[1].length), (0x2000, 0x1000));
    assert_eq!(
        page_ranges(usize::MAX - 8, usize::MAX - 4, &regions, 0x1000).err(),
        Some(Error::InvalidRange)
    );
}

/// Runs a write over `pages` page ranges, failing the listed occurrences of
/// each operation; returns the result (`None` for the fatal policy), the
/// writable page ranges and whether the replacement is in place.
fn simulate(pages: usize, failures: &[(&str, usize)]) -> (Option<Result<(), Error>>, Vec<bool>, bool) {
    let mut calls = std::collections::HashMap::new();
    let mut fail = |operation: &'static str| {
        let count = calls.entry(operation).or_insert(0);
        *count += 1;
        failures.contains(&(operation, *count))
    };
    let mut writable = vec![false; pages];
    let mut replaced = false;
    let (mut writer, mut action) = Writer::start(pages);
    loop {
        let outcome = match action {
            Action::Protect { page, writable: open } => {
                if fail("protect memory") {
                    Err(Error::Os { operation: "protect memory", code: 5 })
                } else {
                    writable[page] = open;
                    Ok(())
                }
            }
            Action::CopyReplacement => {
                replaced = true;
                Ok(())
            }
            Action::CopyOriginal => {
                replaced = false;
                Ok(())
            }
            Action::Flush => {
                if fail("flush instruction cache") {
                    Err(Error::Os { operation: "flush instruction cache", code: 5 })
                } else {
                    Ok(())
                }
            }
            Action::Fatal => return (None, writable, replaced),
            Action::Finish(result) => return (Some(result), writable, replaced),
        };
        action = writer.advance(outcome);
    }
}

#[test]
fn writes_succeed_and_leave_protections_unchanged() {
    assert_eq!(simulate(2, &[]), (Some(Ok(())), vec![false, false], true));
    assert_eq!(simulate(0, &[]), (Some(Ok(())), vec![], true));
}

const PAGE: usize = 0x1000;
const BASE: usize = 0x10000;

/// Three pages at `BASE` filled with 0x90: read-execute, read-write-execute
/// and inaccessible, as the platform would describe them; `hole` unmaps one.
struct Memory {
    regions: Vec<Region>,
}

impl Memory {
    fn new() -> Self {
        Memory {
            regions: vec![
                Region { start: BASE, end: BASE + PAGE, protection: 5, readable: true, executable: true },
                Region { start: BASE + PAGE, end: BASE + 2 * PAGE, protection: 7, readable: true, executable: true },
                Region { start: BASE + 2 * PAGE, end: BASE + 3 * PAGE, protection: 0, readable: false, executable: false },
            ],
        }
    }

    fn hole(&mut self, page: usize) {
        self.regions.retain(|region| region.start != BASE + page * PAGE);
    }

    fn protect(&mut self, page: usize, readable: bool, executable: bool) {
        for region in &mut self.regions {
            if region.start == BASE + page * PAGE {
                region.readable = readable;
                region.executable = executable;
            }
        }
    }

    fn region_at(&self, address: usize) -> Result<Option<Region>, Error> {
        Ok(self
            .regions
            .iter()
            .copied()
            .find(|region| region.start <= address && address < region.end))
    }

    fn read(&self, address: usize, limit: usize) -> Result<usize, Error> {
        read_length(address, limit, &mut |at| self.region_at(at))
    }

    fn prepare(&self, address: usize, expected: &[u8], replacement: &[u8]) -> Result<usize, Error> {
        prepare_write(
            address,
            expected,
            replacement,
            &mut |at| self.region_at(at),
            &mut |_, length| Ok(vec![0x90; length]),
            &mut || Ok(PAGE),
        )
        .map(|(_, pages)| pages.len())
    }
}

#[test]
fn reads_stop_at_permission_boundaries_and_reject_invalid_ranges() {
    let mut memory = Memory::new();
    let last = BASE + PAGE * 2 - 2;
    assert_eq!(memory.read(last, 16), Ok(2));
    assert_eq!(memory.read(0, 1), Err(Error::InvalidAddress));
    assert_eq!(memory.read(1, 1), Err(Error::InvalidAddress));
    assert_eq!(memory.read(BASE, 0), Err(Error::InvalidRange));
    assert_eq!(memory.read(usize::MAX, 2), Err(Error::InvalidRange));
    assert_eq!(memory.read(BASE + PAGE * 2, 1), Err(Error::InvalidAddress));
    memory.protect(0, true, false);
    assert_eq!(memory.read(BASE, 1), Err(Error::NotExecutable));
}

#[test]
fn reads_and_writes_respect_unmapped_holes() {
    let mut memory = Memory::new();
    memory.hole(1);
    let address = BASE + PAGE - 2;
    assert_eq!(memory.read(address, 4), Ok(2));
    assert_eq!(memory.read(BASE + PAGE, 1), Err(Error::InvalidAddress));
    assert_eq!(memory.prepare(address, &[0x90; 4], &[0xcc; 4]), Err(Error::InvalidRange));
}

#[test]
fn failed_validation_never_changes_memory() {
    let memory = Memory::new();
    assert_eq!(memory.prepare(BASE, &[0x90], &[]), Err(Error::InvalidRange));
    assert_eq!(memory.prepare(BASE, &[], &[]), Err(Error::InvalidRange));
    assert_eq!(memory.prepare(0, &[0], &[1]), Err(Error::InvalidAddress));
    assert_eq!(memory.prepare(BASE, &[0x91], &[0xcc]), Err(Error::MemoryChanged));
    assert_eq!(
        memory.prepare(BASE + PAGE * 2 - 1, &[0x90; 2], &[0xcc; 2]),
        Err(Error::InvalidRange)
    );
    assert_eq!(memory.prepare(BASE + PAGE - 2, &[0x90; 4], &[0xcc; 4]), Ok(2));
}

#[test]
fn a_write_plan_keeps_the_replaced_bytes_and_whole_pages() {
    let memory = Memory::new();
    let (original, pages) = prepare_write(
        BASE + PAGE - 2,
        &[0x90; 4],
        &[1, 2, 3, 4],
        &mut |at| memory.region_at(at),
        &mut |_, length| Ok(vec![0x90; length]),
        &mut || Ok(PAGE),
    )
    .unwrap();
    assert_eq!(original, vec![0x90; 4]);
    assert_eq!(pages.len(), 2);
    assert_eq!((pages[0].address, pages[0].length, pages[0].protection), (BASE, PAGE, 5));
    assert_eq!((pages[1].address, pages[1].length, pages[1].protection), (BASE + PAGE, PAGE, 7));
    let empty_page = prepare_write(
        BASE,
        &[0x90],
        &[0xcc],
        &mut |at| memory.region_at(at),
        &mut |_, length| Ok(vec![0x90; length]),
        &mut || Ok(0),
    );
    assert_eq!(empty_page.err(), Some(Error::InvalidRange));
}

#[test]
fn errors_before_modification_leave_bytes_and_permissions_unchanged() {
    let memory = Memory::new();
    let failing = |operation: &'static str| Error::Os { operation, code: 5 };
    let query = prepare_write(
        BASE,
        &[0x90; 4],
        &[0xcc; 4],
        &mut |_| Err(failing("query memory")),
        &mut |_, length| Ok(vec![0x90; length]),
        &mut || Ok(PAGE),
    );
    assert_eq!(query.err(), Some(failing("query memory")));
    let read = prepare_write(
        BASE,
        &[0x90; 4],
        &[0xcc; 4],
        &mut |at| memory.region_at(at),
        &mut |_, _| Err(failing("read memory")),
        &mut || Ok(PAGE),
    );
    assert_eq!(read.err(), Some(failing("read memory")));
    let size = prepare_write(
        BASE,
        &[0x90],
        &[0xcc],
        &mut |at| memory.region_at(at),
        &mut |_, length| Ok(vec![0x90; length]),
        &mut || Err(failing("page size")),
    );
    assert!(matches!(size, Err(Error::Os { operation: "page size", .. })));
    let (result, writable, replaced) = simulate(1, &[("protect memory", 1)]);
    assert!(matches!(result, Some(Err(Error::Os { operation: "protect memory", .. }))));
    assert_eq!(writable, [false]);
    assert!(!replaced);
}

#[test]
fn partial_permission_change_failure_rolls_back_changed_pages() {
    let (result, writable, replaced) = simulate(2, &[("protect memory", 2)]);
    assert!(matches!(result, Some(Err(Error::Os { operation: "protect memory", .. }))));
    assert_eq!(writable, [false, false]);
    assert!(!replaced);
}

#[test]
fn failures_after_copy_roll_back_bytes_and_permissions() {
    for failure in [
        ("flush instruction cache", 1),
        ("protect memory", 3),
        ("protect memory", 4),
    ] {
        let (result, writable, replaced) = simulate(2, &[failure]);
        assert!(matches!(result, Some(Err(_))), "{failure:?}");
        assert_eq!(writable, [false, false], "{failure:?}");
        assert!(!replaced, "{failure:?}");
    }
}

#[test]
fn failed_rollbacks_select_the_fatal_policy() {
    for failures in [
        vec![("protect memory", 2), ("protect memory", 3)],
        vec![("flush instruction cache", 1), ("protect memory", 3)],
        vec![
            ("flush instruction cache", 1),
            ("flush instruction cache", 2),
        ],
        vec![("flush instruction cache", 1), ("protect memory", 5)],
    ] {
        assert_eq!(simulate(2, &failures).0, None, "{failures:?}");
    }
}
