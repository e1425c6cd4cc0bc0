use shimforge::code::x86 as code;
use shimforge::Error;

#[test]
fn decoder_preserves_complete_instructions_and_cet() {
    let bytes = [0x55, 0x48, 0x89, 0xe5, 0x48, 0x83, 0xec, 0x20, 0xc3];
    let plan = code::plan(0x1000, 0x2000, &bytes).unwrap();
    assert_eq!(plan.offset, 0);
    assert_eq!(plan.original, bytes[..8]);
    assert_eq!(plan.replacement, [0xe9, 0xfb, 0xf, 0, 0, 0x90, 0x90, 0x90]);
    let mut cet = vec![0xf3, 0x0f, 0x1e, 0xfa];
    cet.extend_from_slice(&bytes);
    let plan = code::plan(0x1000, 0x2000, &cet).unwrap();
    assert_eq!(plan.offset, 4);
    assert_eq!(plan.original, bytes[..8]);
    assert_eq!(&plan.replacement[..5], &[0xe9, 0xf7, 0xf, 0, 0]);
}

#[test]
fn decoder_handles_near_boundaries_and_far_jumps() {
    let source = 0x1_0000_0000usize;
    let bytes = [0x90; 32];
    for displacement in [i32::MIN, -1, 0, i32::MAX] {
        let target = (source as i128 + 5 + displacement as i128) as usize;
        let plan = code::plan(source, target, &bytes).unwrap();
        assert_eq!(plan.original.len(), 5);
        assert_eq!(plan.replacement[0], 0xe9);
        assert_eq!(&plan.replacement[1..], &displacement.to_le_bytes());
    }
    for target in [1, source + 5 + i32::MAX as usize + 1, usize::MAX] {
        let plan = code::plan(source, target, &bytes).unwrap();
        assert_eq!(plan.original.len(), 14);
        assert_eq!(&plan.replacement[..6], &[0xff, 0x25, 0, 0, 0, 0]);
        assert_eq!(&plan.replacement[6..], &(target as u64).to_le_bytes());
    }
}

#[test]
fn decoder_rejects_short_invalid_and_overflowing_entries() {
    for bytes in [
        &[][..],
        &[0x90, 0x90][..],
        &[0xc3][..],
        &[0xeb, 0][..],
        &[0xcc][..],
        &[0xcd, 0x80][..],
        &[0xf1][..],
        &[0x0f, 0x0b][..],
    ] {
        assert!(matches!(
            code::plan(0x1000, 0x2000, bytes),
            Err(Error::InsufficientSpace)
        ));
    }
    assert!(matches!(
        code::plan(1, 2, &[0x0f]),
        Err(Error::InvalidInstruction)
    ));
    assert!(matches!(
        code::plan(0, 2, &[0x90; 32]),
        Err(Error::InvalidAddress)
    ));
    assert!(matches!(
        code::plan(1, 0, &[0x90; 32]),
        Err(Error::InvalidAddress)
    ));
    assert!(matches!(
        code::plan(1, 1, &[0x90; 32]),
        Err(Error::SameAddress)
    ));
    assert!(matches!(
        code::plan(usize::MAX, 1, &[0x90; 32]),
        Err(Error::InvalidRange)
    ));
    assert!(matches!(
        code::plan(usize::MAX, 1, &[0xf3, 0x0f, 0x1e, 0xfa]),
        Err(Error::InvalidRange)
    ));
}
