use shimforge::code::prefix::decode;
use shimforge::code::relocate::trampoline;
use shimforge::code::x86::{jump, plan, ENDBR64};
use shimforge::Error;

#[test]
fn instructions_need_every_byte_and_ignore_what_follows() {
    // mov rax, [rip + 0x10]; then unrelated bytes.
    let bytes = [0x48, 0x8b, 0x05, 0x10, 0, 0, 0, 0xc3, 0x90];
    let whole = decode(&bytes).unwrap();
    assert_eq!(whole.size, 7);
    for cut in 0..whole.size {
        assert_eq!(decode(&bytes[..cut]).err(), Some(Error::InvalidInstruction), "{cut}");
    }
    let mut other = bytes[..7].to_vec();
    other.extend_from_slice(&[0xff, 0xff, 0xff]);
    let again = decode(&other).unwrap();
    assert_eq!(again.size, whole.size);
    assert_eq!(again.relative_memory, whole.relative_memory);
    assert_eq!(decode(&bytes[..7]).unwrap().size, 7);
}

#[test]
fn trampolines_start_with_the_marker() {
    let original = [0x55, 0x48, 0x89, 0xe5, 0x48, 0x83, 0xec, 0x28];
    let copy = trampoline(0x1000, 0x2000, &original).unwrap();
    assert_eq!(copy[..4], ENDBR64);
    assert_eq!(copy.len(), 17);
    assert_eq!(trampoline(0x2000, 0x1000, &[]).unwrap()[..4], ENDBR64);
}

#[test]
fn plans_pad_with_nop_up_to_the_first_boundary() {
    // push rbp (1); mov rbp, rsp (3); sub rsp, 0x28 (4): the jump needs 5.
    let bytes = [0x55, 0x48, 0x89, 0xe5, 0x48, 0x83, 0xec, 0x28, 0xc3];
    let planned = plan(0x1000, 0x2000, &bytes).unwrap();
    let jump = jump(0x1000, 0x2000).unwrap();
    assert_eq!(planned.original, bytes[..8].to_vec());
    assert_eq!(planned.replacement[..jump.len()], jump[..]);
    assert!(planned.replacement[jump.len()..].iter().all(|byte| *byte == 0x90));
    // A return before the jump ends leaves no room.
    assert_eq!(
        plan(0x1000, 0x2000, &[0x55, 0xc3, 0x90, 0x90, 0x90]).err(),
        Some(Error::InsufficientSpace)
    );
}
