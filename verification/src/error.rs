use vstd::prelude::*;

verus! {

/// A mock could not be installed, checked, or restored.
#[derive(Debug, Clone, PartialEq, Eq)]
#[non_exhaustive]
pub enum Error {
    /// Another session is active, including on the current thread.
    Busy,
    /// An address is null or outside a readable mapping.
    InvalidAddress,
    /// A byte range is empty, mismatched, or overflows the address space.
    InvalidRange,
    /// The target is not in readable executable memory.
    NotExecutable,
    /// Code has changed since it was inspected.
    MemoryChanged,
    /// Source and replacement have the same address.
    SameAddress,
    /// This target overlaps an existing replacement.
    Overlap,
    /// The function ends before there is room for a jump.
    InsufficientSpace,
    /// The function prefix contains an unsupported or invalid instruction.
    InvalidInstruction,
    /// This entry needs a call bridge that cannot run with shadow stacks enabled.
    ShadowStack,
    /// An operating system call failed.
    Os {
        /// Name of the failed operation.
        operation: &'static str,
        /// OS error code.
        code: i32,
    },
    /// The operating system's memory map could not be read or parsed.
    Mapping(String),
    /// A call or expectation did not meet the mock's rules.
    Expectation(String),
}

/// The character of decimal digit `d`.
pub open spec fn digit(d: nat) -> char {
    (48 + d) as char
}

/// The decimal digits of `n`, most significant first.
pub open spec fn decimal(n: nat) -> Seq<char>
    decreases n,
{
    if n < 10 {
        seq![digit(n)]
    } else {
        decimal(n / 10).push(digit(n % 10))
    }
}

/// The text of a signed integer: its digits, after `-` when negative.
pub open spec fn signed_decimal(n: int) -> Seq<char> {
    if n < 0 {
        seq!['-'] + decimal((-n) as nat)
    } else {
        decimal(n as nat)
    }
}

fn digit_text(d: u64) -> (text: &'static str)
    requires
        d < 10,
    ensures
        text@ == seq![digit(d as nat)],
{
    proof {
        reveal_strlit("0");
        reveal_strlit("1");
        reveal_strlit("2");
        reveal_strlit("3");
        reveal_strlit("4");
        reveal_strlit("5");
        reveal_strlit("6");
        reveal_strlit("7");
        reveal_strlit("8");
        reveal_strlit("9");
    }
    match d {
        0 => "0",
        1 => "1",
        2 => "2",
        3 => "3",
        4 => "4",
        5 => "5",
        6 => "6",
        7 => "7",
        8 => "8",
        _ => "9",
    }
}

/// Appends the decimal digits of `n`.
pub fn push_decimal(out: &mut String, n: u64)
    ensures
        final(out)@ == old(out)@ + decimal(n as nat),
    decreases n,
{
    if n >= 10 {
        push_decimal(out, n / 10);
    }
    out.append(digit_text(n % 10));
    proof {
        if n >= 10 {
            assert(decimal(n as nat) == decimal((n / 10) as nat).push(digit((n % 10) as nat)));
        }
    }
    assert(final(out)@ =~= old(out)@ + decimal(n as nat));
}

/// Appends the text of a signed integer.
pub fn push_signed(out: &mut String, n: i64)
    ensures
        final(out)@ == old(out)@ + signed_decimal(n as int),
{
    if n < 0 {
        proof {
            reveal_strlit("-");
        }
        out.append("-");
        let magnitude: u64 = if n == i64::MIN {
            0x8000_0000_0000_0000
        } else {
            (-n) as u64
        };
        push_decimal(out, magnitude);
        assert(final(out)@ =~= old(out)@ + signed_decimal(n as int));
    } else {
        push_decimal(out, n as u64);
    }
}

impl Error {
    /// What the error says to a reader.
    pub open spec fn text(&self) -> Seq<char> {
        match self {
            Error::Busy => "another shimforge session is active"@,
            Error::InvalidAddress => "address is not readable"@,
            Error::InvalidRange => "invalid memory range"@,
            Error::NotExecutable => "address is not readable executable memory"@,
            Error::MemoryChanged => "function bytes changed unexpectedly"@,
            Error::SameAddress => "source and replacement have the same address"@,
            Error::Overlap => "target overlaps an active replacement"@,
            Error::InsufficientSpace => "function prefix is too short for a jump"@,
            Error::InvalidInstruction => "function prefix contains an invalid instruction"@,
            Error::ShadowStack => "this function entry cannot be mocked with shadow stacks enabled"@,
            Error::Os { operation, code } => operation@ + " failed (OS error "@ + signed_decimal(
                *code as int,
            ) + ")"@,
            Error::Mapping(message) => "cannot inspect memory mapping: "@ + message@,
            Error::Expectation(message) => message@,
        }
    }

    /// The message that describes this error.
    pub fn message(&self) -> (text: String)
        ensures
            text@ == self.text(),
    {
        match self {
            Error::Busy => String::from_str("another shimforge session is active"),
            Error::InvalidAddress => String::from_str("address is not readable"),
            Error::InvalidRange => String::from_str("invalid memory range"),
            Error::NotExecutable => String::from_str("address is not readable executable memory"),
            Error::MemoryChanged => String::from_str("function bytes changed unexpectedly"),
            Error::SameAddress => String::from_str("source and replacement have the same address"),
            Error::Overlap => String::from_str("target overlaps an active replacement"),
            Error::InsufficientSpace => String::from_str("function prefix is too short for a jump"),
            Error::InvalidInstruction => String::from_str(
                "function prefix contains an invalid instruction",
            ),
            Error::ShadowStack => String::from_str(
                "this function entry cannot be mocked with shadow stacks enabled",
            ),
            Error::Os { operation, code } => {
                let mut text = String::from_str(operation);
                text.append(" failed (OS error ");
                push_signed(&mut text, *code as i64);
                text.append(")");
                text
            },
            Error::Mapping(message) => {
                let mut text = String::from_str("cannot inspect memory mapping: ");
                text.append(message.as_str());
                text
            },
            Error::Expectation(message) => message.clone(),
        }
    }
}

/// Returns the value of a successful result. Setup code calls it where a
/// failure ends the test.
pub fn check<T>(result: Result<T, Error>) -> (value: T)
    requires
        result is Ok,
    ensures
        result == Ok::<T, Error>(value),
{
    match result {
        Ok(value) => value,
        Err(_) => vstd::pervasive::unreached(),
    }
}

} // verus!
