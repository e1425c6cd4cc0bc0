use shimforge::code::relocate::RELAY;
use shimforge::routing::{
    add_site, find_record, global_conflict, install_conflict, local_conflict, overlaps,
    prepare_entry, remove, route, LocalRoute, Record,
};
use shimforge::Error;

fn records() -> Vec<Record> {
    vec![Record {
        entry: 0x1000,
        address: 0x1004,
        length: 5,
        dispatcher: 0x9000,
        sites: vec![0x9000],
    }]
}

#[test]
fn new_routes_must_not_meet_patched_entries() {
    let records = records();
    // The target lies in the patched prefix.
    assert!(install_conflict(&records, 0x2000, 0x9100, 0x1002));
    // Another source inside the patch.
    assert!(install_conflict(&records, 0x1001, 0x9100, 0x5000));
    // Another entry behind a dispatcher that already serves this one.
    assert!(install_conflict(&records, 0x2000, 0x9000, 0x5000));
    // The same entry from a new mock site.
    assert!(!install_conflict(&records, 0x1000, 0x9100, 0x5000));
    assert!(global_conflict(&records, 0x2000, 0x1008));
    assert!(global_conflict(&records, 0x1004, 0x5000));
    assert!(!global_conflict(&records, 0x1000, 0x5000));
    assert!(!global_conflict(&records, 0x2000, 0x9000));
    assert!(overlaps(&records, 0x1008, 1));
    assert!(overlaps(&records, 0x0fff, 6));
    assert!(!overlaps(&records, 0x1009, 4));
    assert!(!overlaps(&records, 0x1000, 4));
    assert_eq!(find_record(&records, 0x1000), Some(0));
    assert_eq!(find_record(&records, 0x1004), None);
}

#[test]
fn mock_sites_are_recorded_once() {
    let mut records = records();
    add_site(&mut records[0], 0x9100);
    add_site(&mut records[0], 0x9100);
    assert_eq!(records[0].sites, [0x9000, 0x9100]);
}

#[test]
fn calls_prefer_the_thread_route_then_the_global_one_then_the_original() {
    let mut routes = vec![
        LocalRoute { source: 0x1000, dispatcher: 0x9000, target: 0x5000 },
        LocalRoute { source: 0x2000, dispatcher: 0x9100, target: 0x9100 },
    ];
    assert!(local_conflict(&routes, 0x1000));
    assert!(!local_conflict(&routes, 0x3000));
    assert_eq!(route(Some(&routes), 0x9000, Some((0, 0x7000))), Some(0x5000));
    assert_eq!(route(Some(&routes), 0x9000, Some((0x6000, 0x7000))), Some(0x5000));
    // A route to the dispatcher itself falls through.
    assert_eq!(route(Some(&routes), 0x9100, Some((0, 0x7100))), Some(0x7100));
    // Routes that cannot be read fall through too.
    assert_eq!(route(None, 0x9000, Some((0x6000, 0x7000))), Some(0x6000));
    assert_eq!(route(Some(&routes), 0x9200, None), None);
    remove(&mut routes, 0x1000);
    assert_eq!(routes, [LocalRoute { source: 0x2000, dispatcher: 0x9100, target: 0x9100 }]);
    assert_eq!(route(Some(&routes), 0x9000, Some((0, 0x7000))), Some(0x7000));
}

#[test]
fn a_new_entry_moves_whole_instructions_to_its_saved_page() {
    // push rbp; mov rbp, rsp; sub rsp, 0x10; ret
    let bytes = [0x55, 0x48, 0x89, 0xe5, 0x48, 0x83, 0xec, 0x10, 0xc3];
    let fresh = prepare_entry(&Vec::new(), 0x10000, 0x20000, &bytes, 0x30000).unwrap();
    assert_eq!(fresh.address, 0x10000);
    assert_eq!(fresh.original, bytes[..8].to_vec());
    // jmp 0x20000 + RELAY, padded with nop.
    let relay = 0x20000 + RELAY;
    let displacement = (relay - (0x10000 + 5)) as u32;
    let mut replacement = vec![0xe9];
    replacement.extend_from_slice(&displacement.to_le_bytes());
    replacement.extend_from_slice(&[0x90; 3]);
    assert_eq!(fresh.replacement, replacement);
    // The saved entry starts with its own endbr64 marker, then the moved code.
    assert_eq!(&fresh.saved[..4], &[0xf3, 0x0f, 0x1e, 0xfa]);
    assert_eq!(&fresh.saved[4..12], &bytes[..8]);
    assert_eq!(fresh.saved.len(), RELAY + 5);
    assert_eq!(fresh.saved[RELAY], 0xe9);
    assert!(!fresh.call_bridge);
    // An endbr64 marker stays in place.
    let marked = [0xf3, 0x0f, 0x1e, 0xfa, 0x55, 0x48, 0x89, 0xe5, 0x48, 0x83, 0xec, 0x10];
    let fresh = prepare_entry(&Vec::new(), 0x10000, 0x20000, &marked, 0x30000).unwrap();
    assert_eq!(fresh.address, 0x10004);
    assert_eq!(fresh.original, marked[4..12].to_vec());
}

#[test]
fn a_new_entry_must_not_meet_another_patch() {
    let bytes = [0x55, 0x48, 0x89, 0xe5, 0x48, 0x83, 0xec, 0x10, 0xc3];
    let records = vec![Record {
        entry: 0x10004,
        address: 0x10004,
        length: 5,
        dispatcher: 0x9000,
        sites: vec![0x9000],
    }];
    assert_eq!(
        prepare_entry(&records, 0x10000, 0x20000, &bytes, 0x30000).err(),
        Some(Error::Overlap)
    );
    assert_eq!(
        prepare_entry(&Vec::new(), 0x10000, 0x20000, &[0x55, 0xc3], 0x30000).err(),
        Some(Error::InsufficientSpace)
    );
    assert_eq!(
        prepare_entry(&Vec::new(), 0, 0x20000, &bytes, 0x30000).err(),
        Some(Error::InvalidAddress)
    );
}
