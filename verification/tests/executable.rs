use shimforge::executable::linux::query_shadow_stack;
use shimforge::executable::windows::{self, shadow_stack_status, GRANULARITY};
use shimforge::executable::{check_shadow_stack, unix, Executable, CAPACITY, REACH};
use shimforge::Error;

#[test]
fn shadow_stack_policy_is_checked_without_changing_it() {
    assert_eq!(check_shadow_stack(false), Ok(()));
    assert_eq!(check_shadow_stack(true), Err(Error::ShadowStack));
}

#[test]
fn search_skips_busy_regions_and_retries_races() {
    let mut attempts = 0;
    let found = windows::search(
        1,
        &mut |address| Ok((address + GRANULARITY, address > GRANULARITY)),
        &mut |address| {
            attempts += 1;
            (attempts == 2).then_some(address)
        },
    )
    .unwrap();
    assert_eq!(found, 3 * GRANULARITY);
    assert_eq!(attempts, 2);
    assert_eq!(
        windows::search(1, &mut |_| Ok((REACH + CAPACITY, false)), &mut |_| None),
        Err(Error::InsufficientSpace)
    );
    assert_eq!(
        windows::search(1, &mut |address| Ok((address, true)), &mut |_| None),
        Err(Error::InvalidRange)
    );
    assert_eq!(
        windows::search(1, &mut |_| Err(Error::InvalidAddress), &mut |_| None),
        Err(Error::InvalidAddress)
    );
}

#[test]
fn search_rejects_far_pages_and_stops_at_its_limit() {
    let mut freed = Vec::new();
    let mut attempts = 0;
    let source = REACH * 4;
    assert_eq!(
        unix::search(
            source,
            &mut |_| {
                attempts += 1;
                Some(if attempts == 1 { CAPACITY } else { source })
            },
            &mut |address| {
                freed.push(address);
                Ok(())
            },
        ),
        Ok(source)
    );
    assert_eq!(freed, [CAPACITY]);
    assert_eq!(
        unix::search(source, &mut |_| Some(CAPACITY), &mut |_| Err(
            Error::InvalidAddress
        )),
        Err(Error::InvalidAddress)
    );
    assert_eq!(
        unix::search(1, &mut |_| None, &mut |_| Ok(())),
        Err(Error::InsufficientSpace)
    );
    assert_eq!(
        unix::search(isize::MAX as usize, &mut |_| None, &mut |_| Ok(())),
        Err(Error::InsufficientSpace)
    );
}

#[test]
fn windows_search_starts_at_the_first_granule_within_reach() {
    let source = REACH * 3 + 5;
    let mut asked = Vec::new();
    let found = windows::search(
        source,
        &mut |address| {
            asked.push(address);
            Ok((address + GRANULARITY, true))
        },
        &mut |address| Some(address),
    );
    let first = (source - REACH + GRANULARITY - 1) / GRANULARITY * GRANULARITY;
    assert_eq!(found, Ok(first));
    assert_eq!(asked, [first]);
}

#[test]
fn unix_search_hints_walk_upward_by_pages() {
    let source = REACH * 2;
    let mut hints = Vec::new();
    let found = unix::search(
        source,
        &mut |hint| {
            hints.push(hint);
            if hints.len() == 3 {
                Some(hint)
            } else {
                None
            }
        },
        &mut |_| Ok(()),
    );
    assert_eq!(found, Ok(REACH + 2 * CAPACITY));
    assert_eq!(hints, [REACH, REACH + CAPACITY, REACH + 2 * CAPACITY]);
}

#[test]
fn pages_are_placed_near_their_source_and_written_once() {
    assert_eq!(
        Executable::near(0, |_| Ok(4096)).err(),
        Some(Error::InvalidAddress)
    );
    assert_eq!(
        Executable::near(usize::MAX, |_| Ok(4096)).err(),
        Some(Error::InvalidAddress)
    );
    assert_eq!(
        Executable::near(0x1000, |_| Err(Error::InsufficientSpace)).err(),
        Some(Error::InsufficientSpace)
    );
    let mut page = Executable::near(0x1000, |source| Ok(source + 0x10000)).unwrap();
    assert_eq!(page.address(), 0x11000);
    assert_eq!(page.publish(&[]), Err(Error::InvalidRange));
    assert_eq!(page.publish(&[0; CAPACITY + 1]), Err(Error::InvalidRange));
    assert_eq!(page.publish(&[0xc3]), Ok(()));
    assert_eq!(page.publish(&[0xc3]), Err(Error::InvalidRange));
}

#[test]
fn shadow_stack_query_errors_are_reported() {
    for enabled in [false, true] {
        assert_eq!(
            query_shadow_stack(&mut || (0, usize::from(enabled), 0)),
            Ok(enabled)
        );
    }
    for code in [libc::EINVAL, libc::ENOSYS, libc::ENOTSUP, libc::EPERM] {
        let result = query_shadow_stack(&mut || (-1, 0, code));
        if code == libc::EPERM {
            assert!(result.is_err());
            assert_eq!(result, Err(Error::Os { operation: "query shadow stack", code }));
        } else {
            assert_eq!(result, Ok(false));
        }
    }
}

#[test]
fn tests_shadow_stack_query_errors_are_reported() {
    for code in [87, 5] {
        let result = shadow_stack_status(0, 0, code);
        if code == 87 {
            assert_eq!(result, Ok(false));
        } else {
            assert!(result.is_err());
        }
    }
    assert_eq!(shadow_stack_status(1, 1, 0), Ok(true));
    assert_eq!(shadow_stack_status(1, 2, 0), Ok(false));
}

#[test]
fn distant_pages_are_used_only_when_no_near_page_exists() {
    assert_eq!(
        unix::fallback(Ok(CAPACITY), &mut |_| -> Option<usize> { unreachable!() }),
        Ok(CAPACITY)
    );
    assert_eq!(
        unix::fallback(Err(Error::InvalidAddress), &mut |_| -> Option<usize> { unreachable!() }),
        Err(Error::InvalidAddress)
    );
    let mut hints = Vec::new();
    assert_eq!(
        unix::fallback(Err(Error::InsufficientSpace), &mut |hint| {
            hints.push(hint);
            Some(REACH * 64)
        }),
        Ok(REACH * 64)
    );
    assert_eq!(hints, [0]);
    assert_eq!(
        unix::fallback(Err(Error::InsufficientSpace), &mut |_| None),
        Err(Error::InsufficientSpace)
    );
}

#[test]
fn native_allocation_failure_is_reported() {
    // Every mapping fails: no page is reserved and the search reports it.
    let mut asked = Vec::new();
    let result = unix::search(REACH * 4, &mut |hint| {
        asked.push(hint);
        None
    }, &mut |_| Ok(()));
    assert_eq!(result, Err(Error::InsufficientSpace));
    assert!(!asked.is_empty());
    assert_eq!(unix::fallback(result, &mut |_| None), Err(Error::InsufficientSpace));
}
