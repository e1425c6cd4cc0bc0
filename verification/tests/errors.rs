use shimforge::Error;

#[test]
fn all_errors_are_useful() {
    let cases = [
        (Error::Busy, "another shimforge session is active"),
        (Error::InvalidAddress, "address is not readable"),
        (Error::InvalidRange, "invalid memory range"),
        (
            Error::NotExecutable,
            "address is not readable executable memory",
        ),
        (Error::MemoryChanged, "function bytes changed unexpectedly"),
        (
            Error::SameAddress,
            "source and replacement have the same address",
        ),
        (Error::Overlap, "target overlaps an active replacement"),
        (
            Error::InsufficientSpace,
            "function prefix is too short for a jump",
        ),
        (
            Error::InvalidInstruction,
            "function prefix contains an invalid instruction",
        ),
        (
            Error::Os {
                operation: "probe",
                code: 13,
            },
            "probe failed (OS error 13)",
        ),
        (
            Error::Mapping("missing".into()),
            "cannot inspect memory mapping: missing",
        ),
    ];
    for (error, message) in cases {
        assert_eq!(error.message(), message);
        assert_eq!(error.clone(), error);
        assert!(!format!("{error:?}").is_empty());
    }
}

