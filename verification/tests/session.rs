use shimforge::code::x86::plan;
use shimforge::expectation::{Config, Ledger, State};
use shimforge::routing::Record;
use shimforge::session::{Acquired, Patch, Removal, Session};
use shimforge::Error;

fn global() -> Session {
    Session::new_global(false, Acquired::Granted).unwrap()
}

#[test]
fn sessions_open_once_per_thread_and_lock() {
    assert_eq!(Session::new(true, Acquired::Granted).err(), Some(Error::Busy));
    assert_eq!(Session::try_new_global(false, Acquired::WouldBlock).err(), Some(Error::Busy));
    assert!(Session::new_local(false, Acquired::Poisoned).unwrap().is_local());
    assert!(Session::try_new_local(false, Acquired::Granted).unwrap().is_local());
    assert!(!global().is_local());
}

#[test]
fn raw_replacements_need_a_global_session_and_distinct_free_addresses() {
    let local = Session::new(false, Acquired::Granted).unwrap();
    assert_eq!(
        local.check_raw(0x1000, 0x2000),
        Err(Error::Expectation("use mock! or mock_async in a local session".into()))
    );
    let mut session = global();
    assert_eq!(session.check_raw(0x1000, 0x1000), Err(Error::SameAddress));
    let bytes = [0x55, 0x48, 0x89, 0xe5, 0x48, 0x83, 0xec, 0x20, 0xc3];
    let patch = session.patch_for(0x1000, plan(0x1000, 0x2000, &bytes).unwrap(), &Vec::new()).unwrap();
    assert_eq!((patch.entry, patch.address), (0x1000, 0x1000));
    assert_eq!(patch.original, bytes[..8]);
    session.add_patch(patch);
    assert_eq!(session.check_raw(0x1004, 0x3000), Err(Error::Overlap));
    assert_eq!(session.check_raw(0x3000, 0x1007), Err(Error::Overlap));
    assert_eq!(session.check_raw(0x1008, 0x3000), Ok(()));
    assert_eq!(
        session.patch_for(0x1004, plan(0x1004, 0x3000, &[0x90; 16]).unwrap(), &Vec::new()).err(),
        Some(Error::Overlap)
    );
    let records = vec![Record { entry: 0x4000, address: 0x4000, length: 5, dispatcher: 0x9000, sites: vec![] }];
    assert_eq!(
        session.patch_for(0x3ffe, plan(0x3ffe, 0x8000, &[0x90; 16]).unwrap(), &records).err(),
        Some(Error::Overlap)
    );
}

#[test]
fn failed_restoration_keeps_ownership_for_retry() {
    let mut ledger = Ledger::new();
    let mut session = global();
    let bytes = [0x55, 0x48, 0x89, 0xe5, 0x48, 0x83, 0xec, 0x20, 0xc3];
    let mut memory = bytes.to_vec();
    let patch = session.patch_for(0x1000, plan(0x1000, 0x2000, &bytes).unwrap(), &Vec::new()).unwrap();
    memory[..8].copy_from_slice(&patch.replacement);
    session.add_patch(patch);
    memory[0] ^= 1;
    let mut unpatch = |memory: &mut Vec<u8>, patch: &Patch| {
        let at = patch.address - 0x1000;
        if memory[at..at + patch.replacement.len()] != patch.replacement[..] {
            return Err(Error::MemoryChanged);
        }
        memory[at..at + patch.original.len()].copy_from_slice(&patch.original);
        Ok(())
    };
    let result = session.restore(&mut ledger, &mut |_| {}, &mut |_| {}, &mut |patch| unpatch(&mut memory, patch));
    assert_eq!(result, Err(Error::MemoryChanged));
    assert_eq!(session.patch_count(), 1);
    memory[0] ^= 1;
    session
        .restore(&mut ledger, &mut |_| {}, &mut |_| {}, &mut |patch| unpatch(&mut memory, patch))
        .unwrap();
    assert_eq!(memory, bytes);
    assert_eq!(session.patch_count(), 0);
}

#[test]
fn restore_removes_routes_then_patches_newest_first_then_checks_mocks() {
    let mut ledger = Ledger::new();
    let mut session = global();
    let state = State::new(&mut ledger, "source");
    state.add(&mut ledger, Config::default().once()).unwrap();
    session.add_mock(state);
    session.add_local_patch(0x1000);
    session.add_local_patch(0x2000);
    session.add_global_route(0x3000);
    for (entry, byte) in [(0x4000, 1u8), (0x5000, 2)] {
        session.add_patch(Patch {
            entry,
            address: entry,
            original: vec![byte],
            replacement: vec![0xcc],
        });
    }
    let mut order = Vec::new();
    let log = std::cell::RefCell::new(&mut order);
    let result = session.restore(
        &mut ledger,
        &mut |source| log.borrow_mut().push(("local", source)),
        &mut |source| log.borrow_mut().push(("global", source)),
        &mut |patch: &Patch| {
            log.borrow_mut().push(("patch", patch.entry));
            Ok(())
        },
    );
    assert_eq!(
        order,
        [
            ("local", 0x2000),
            ("local", 0x1000),
            ("global", 0x3000),
            ("patch", 0x5000),
            ("patch", 0x4000),
        ]
    );
    // The expectation was never met; restore reports it after removing everything.
    assert!(matches!(result, Err(Error::Expectation(_))));
    assert!(!ledger.mocks[0].active);
    // Nothing is left to undo, so a second restore succeeds.
    assert_eq!(
        session.restore(&mut ledger, &mut |_| panic!(), &mut |_| panic!(), &mut |_| panic!()),
        Ok(())
    );
}

#[test]
fn removals_go_local_then_global_then_patches_newest_first() {
    let mut session = global();
    session.add_local_patch(0x1000);
    session.add_global_route(0x3000);
    session.add_local_patch(0x2000);
    for entry in [0x4000, 0x5000] {
        session.add_patch(Patch { entry, address: entry, original: vec![1], replacement: vec![0xcc] });
    }
    let mut order = Vec::new();
    while let Some(next) = session.next_removal() {
        order.push(next);
        session.finish_removal();
    }
    assert_eq!(
        order,
        [
            Removal::Local(0x2000),
            Removal::Local(0x1000),
            Removal::Global(0x3000),
            Removal::Patch(1),
            Removal::Patch(0),
        ]
    );
    assert_eq!(session.patch_count(), 0);
}
