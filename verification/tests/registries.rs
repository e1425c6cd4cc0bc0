use shimforge::asynchronous::{find, insert, registered, remove, RegistryEntry};
use shimforge::expectation::{CallGuard, Ledger, State};
use shimforge::Error;

#[test]
fn a_mocked_poll_function_is_found_until_removed() {
    let mut ledger = Ledger::new();
    let first = State::new(&mut ledger, "first");
    let second = State::new(&mut ledger, "second");
    let mut local: Vec<RegistryEntry> = Vec::new();
    let mut global: Vec<RegistryEntry> = Vec::new();
    insert(&mut local, 0x1000, first).unwrap();
    assert_eq!(
        insert(&mut local, 0x1000, second),
        Err(Error::Expectation("this future is already mocked".into()))
    );
    insert(&mut global, 0x1000, second).unwrap();
    insert(&mut global, 0x2000, second).unwrap();
    assert_eq!(find(&local, 0x1000), Some(first));
    assert_eq!(registered(&local, &global, true, 0x1000), Some(first));
    assert_eq!(registered(&local, &global, true, 0x2000), Some(second));
    assert_eq!(registered(&local, &global, false, 0x2000), None);
    remove(&mut local, 0x1000);
    assert_eq!(find(&local, 0x1000), None);
    assert_eq!(registered(&local, &global, true, 0x1000), Some(second));
}

#[test]
fn leaving_a_mock_call_undoes_entering_it() {
    let mut active = vec![7, 9];
    let guard = CallGuard::try_enter(&mut active, 11).unwrap();
    assert_eq!(active, [7, 9, 11]);
    assert_eq!(
        CallGuard::try_enter(&mut active, 11),
        Err(Error::Expectation("a mock called itself recursively".into()))
    );
    guard.leave(&mut active);
    assert_eq!(active, [7, 9]);
}
