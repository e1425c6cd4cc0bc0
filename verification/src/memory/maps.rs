//! The Linux memory map, as `/proc/self/maps` describes it: one mapping per
//! line, whose first two fields are its address range, `start-end` in
//! hexadecimal, and its permissions, such as `r-xp`.
use super::Region;
use crate::error::Error;
use vstd::prelude::*;
use vstd::string::StringSliceAdditionalSpecFns;

verus! {

/// The kernel's protection bit for readable pages.
pub const PROT_READ: u32 = 1;

/// The kernel's protection bit for writable pages.
pub const PROT_WRITE: u32 = 2;

/// The kernel's protection bit for executable pages.
pub const PROT_EXEC: u32 = 4;

/// Why a number does not parse, as the standard library names it.
#[derive(Debug, PartialEq, Eq)]
pub enum NumberFault {
    /// The text is empty.
    Empty,
    /// The text holds something other than a digit.
    InvalidDigit,
    /// The number does not fit.
    PosOverflow,
}

/// Why the memory map cannot be read.
#[derive(Debug, PartialEq, Eq)]
pub enum MapsFault {
    /// A line has no `-` in its first field.
    MissingRange,
    /// An address does not parse.
    Number(NumberFault),
    /// The range is empty or the permissions are malformed.
    Invalid,
}

/// The message that a fault gives.
pub open spec fn fault_text(fault: MapsFault) -> Seq<char> {
    match fault {
        MapsFault::MissingRange => "missing mapping address range"@,
        MapsFault::Number(NumberFault::Empty) => "cannot parse integer from empty string"@,
        MapsFault::Number(NumberFault::InvalidDigit) => "invalid digit found in string"@,
        MapsFault::Number(NumberFault::PosOverflow) => "number too large to fit in target type"@,
        MapsFault::Invalid => "invalid mapping permissions or range"@,
    }
}

/// The length of the whitespace character that starts at `i`, or zero. The
/// characters are those of Unicode's `White_Space` property, in UTF-8.
pub open spec fn space_len(b: Seq<u8>, i: int, hi: int) -> int {
    if i >= hi || i < 0 {
        0
    } else if b[i] == 0x20 || (0x09 <= b[i] <= 0x0d) {
        1
    } else if i + 1 < hi && b[i] == 0xc2 && (b[i + 1] == 0x85 || b[i + 1] == 0xa0) {
        2
    } else if i + 2 < hi && ((b[i] == 0xe1 && b[i + 1] == 0x9a && b[i + 2] == 0x80) || (b[i]
        == 0xe2 && b[i + 1] == 0x80 && (b[i + 2] <= 0x8a || b[i + 2] == 0xa8 || b[i + 2] == 0xa9
        || b[i + 2] == 0xaf) && b[i + 2] >= 0x80) || (b[i] == 0xe2 && b[i + 1] == 0x81 && b[i + 2]
        == 0x9f) || (b[i] == 0xe3 && b[i + 1] == 0x80 && b[i + 2] == 0x80)) {
        3
    } else {
        0
    }
}

/// The first position at or after `i`, below `hi`, that does not start a
/// whitespace character.
pub open spec fn skip_spaces(b: Seq<u8>, i: int, hi: int) -> int
    decreases hi - i,
{
    if i >= hi || space_len(b, i, hi) == 0 {
        i
    } else {
        skip_spaces(b, i + space_len(b, i, hi), hi)
    }
}

/// The end of the field that starts at `i`: the first position that starts a
/// whitespace character, or `hi`.
pub open spec fn field_end(b: Seq<u8>, i: int, hi: int) -> int
    decreases hi - i,
{
    if i >= hi || space_len(b, i, hi) > 0 {
        i
    } else {
        field_end(b, i + 1, hi)
    }
}

/// The first position of `byte` from `i` on, below `hi`, or `hi`.
pub open spec fn find(b: Seq<u8>, byte: u8, i: int, hi: int) -> int
    decreases hi - i,
{
    if i >= hi || b[i] == byte {
        i
    } else {
        find(b, byte, i + 1, hi)
    }
}

/// `find` stays within `[i, hi]`, and what it skips is not `byte`.
pub proof fn lemma_find(b: Seq<u8>, byte: u8, i: int, hi: int)
    requires
        0 <= i <= hi <= b.len(),
    ensures
        i <= find(b, byte, i, hi) <= hi,
        forall|k: int| i <= k < find(b, byte, i, hi) ==> b[k] != byte,
        find(b, byte, i, hi) < hi ==> b[find(b, byte, i, hi)] == byte,
    decreases hi - i,
{
    if i < hi && b[i] != byte {
        lemma_find(b, byte, i + 1, hi);
    }
}

/// The value of a hexadecimal digit.
pub open spec fn hex_digit(byte: u8) -> Option<nat> {
    if 0x30 <= byte <= 0x39 {
        Some((byte - 0x30) as nat)
    } else if 0x61 <= byte <= 0x66 {
        Some((byte - 0x61 + 10) as nat)
    } else if 0x41 <= byte <= 0x46 {
        Some((byte - 0x41 + 10) as nat)
    } else {
        None
    }
}

/// The digits `[i, hi)` read after `value`, stopping at the first byte that is
/// no digit or the first digit that makes the number too large.
pub open spec fn hex_digits(b: Seq<u8>, i: int, hi: int, value: nat) -> Result<usize, NumberFault>
    decreases hi - i,
{
    if i >= hi {
        Ok(value as usize)
    } else {
        match hex_digit(b[i]) {
            None => Err(NumberFault::InvalidDigit),
            Some(digit) => if value * 16 + digit > usize::MAX {
                Err(NumberFault::PosOverflow)
            } else {
                hex_digits(b, i + 1, hi, value * 16 + digit)
            },
        }
    }
}

/// The hexadecimal number in `[lo, hi)`, with an optional leading `+`, as
/// `usize::from_str_radix` reads it.
pub open spec fn hex_number(b: Seq<u8>, lo: int, hi: int) -> Result<usize, NumberFault> {
    if lo >= hi {
        Err(NumberFault::Empty)
    } else if b[lo] == 0x2b || b[lo] == 0x2d {
        if lo + 1 == hi {
            Err(NumberFault::InvalidDigit)
        } else if b[lo] == 0x2b {
            hex_digits(b, lo + 1, hi, 0)
        } else {
            hex_digits(b, lo, hi, 0)
        }
    } else {
        hex_digits(b, lo, hi, 0)
    }
}

/// The permissions field `[lo, hi)` has four letters: `r` or `-`, `w` or `-`,
/// `x` or `-`, `p` or `s`.
pub open spec fn well_formed_permissions(b: Seq<u8>, lo: int, hi: int) -> bool {
    &&& hi - lo == 4
    &&& (b[lo] == 0x72 || b[lo] == 0x2d)
    &&& (b[lo + 1] == 0x77 || b[lo + 1] == 0x2d)
    &&& (b[lo + 2] == 0x78 || b[lo + 2] == 0x2d)
    &&& (b[lo + 3] == 0x70 || b[lo + 3] == 0x73)
}

/// The region that a well-formed line describes, with permissions at `p`.
pub open spec fn line_region(b: Seq<u8>, start: usize, end: usize, p: int) -> Region {
    Region {
        start,
        end,
        protection: (if b[p] == 0x72 {
            PROT_READ
        } else {
            0
        }) | (if b[p + 1] == 0x77 {
            PROT_WRITE
        } else {
            0
        }) | (if b[p + 2] == 0x78 {
            PROT_EXEC
        } else {
            0
        }),
        readable: b[p] == 0x72,
        executable: b[p + 2] == 0x78,
    }
}

/// What the line `[lo, hi)` says about `address`: the region that holds it,
/// nothing, or why the line is malformed.
pub open spec fn line_says(b: Seq<u8>, lo: int, hi: int, address: usize) -> Result<Option<Region>, MapsFault> {
    let range = skip_spaces(b, lo, hi);
    let range_end = field_end(b, range, hi);
    let permissions = skip_spaces(b, range_end, hi);
    let permissions_end = field_end(b, permissions, hi);
    let dash = find(b, 0x2d, range, range_end);
    if dash == range_end {
        Err(MapsFault::MissingRange)
    } else {
        match hex_number(b, range, dash) {
            Err(fault) => Err(MapsFault::Number(fault)),
            Ok(start) => match hex_number(b, dash + 1, range_end) {
                Err(fault) => Err(MapsFault::Number(fault)),
                Ok(end) => if start >= end || !well_formed_permissions(
                    b,
                    permissions,
                    permissions_end,
                ) {
                    Err(MapsFault::Invalid)
                } else if start <= address < end {
                    Ok(Some(line_region(b, start, end, permissions)))
                } else {
                    Ok(None)
                },
            },
        }
    }
}

/// The end of the line that starts at `lo`: before its `\n`, and before a
/// `\r` that precedes that `\n`.
pub open spec fn line_end(b: Seq<u8>, lo: int) -> int {
    let newline = find(b, 0x0a, lo, b.len() as int);
    if newline < b.len() && newline > lo && b[newline - 1] == 0x0d {
        newline - 1
    } else {
        newline
    }
}

/// What the lines from `lo` on say about `address`: the first region that
/// holds it, or the first malformed line, or nothing.
pub open spec fn map_says(b: Seq<u8>, lo: int, address: usize) -> Result<Option<Region>, MapsFault>
    decreases b.len() + 1 - lo,
    via map_says_decreases
{
    if lo >= b.len() || lo < 0 {
        Ok(None)
    } else {
        match line_says(b, lo, line_end(b, lo), address) {
            Ok(None) => map_says(b, find(b, 0x0a, lo, b.len() as int) + 1, address),
            other => other,
        }
    }
}

/// The length of the whitespace character at `i`; see [`space_len`].
fn space_at(b: &[u8], i: usize, hi: usize) -> (n: usize)
    requires
        hi <= b@.len(),
    ensures
        n == space_len(b@, i as int, hi as int),
{
    if i >= hi {
        return 0;
    }
    let c = b[i];
    if c == 0x20 || (0x09 <= c && c <= 0x0d) {
        1
    } else if i + 1 < hi && c == 0xc2 && (b[i + 1] == 0x85 || b[i + 1] == 0xa0) {
        2
    } else if hi - i > 2 {
        let d = b[i + 1];
        let e = b[i + 2];
        if (c == 0xe1 && d == 0x9a && e == 0x80) || (c == 0xe2 && d == 0x80 && (e <= 0x8a || e
            == 0xa8 || e == 0xa9 || e == 0xaf) && e >= 0x80) || (c == 0xe2 && d == 0x81 && e
            == 0x9f) || (c == 0xe3 && d == 0x80 && e == 0x80) {
            3
        } else {
            0
        }
    } else {
        0
    }
}

/// See [`skip_spaces`].
fn skip(b: &[u8], start: usize, hi: usize) -> (i: usize)
    requires
        start <= hi <= b@.len(),
    ensures
        i == skip_spaces(b@, start as int, hi as int),
        start <= i <= hi,
{
    let mut i = start;
    loop
        invariant
            start <= i <= hi,
            hi <= b@.len(),
            skip_spaces(b@, start as int, hi as int) == skip_spaces(b@, i as int, hi as int),
        decreases hi - i,
    {
        let n = space_at(b, i, hi);
        if i >= hi || n == 0 {
            return i;
        }
        i = i + n;
    }
}

/// See [`field_end`].
fn field(b: &[u8], start: usize, hi: usize) -> (i: usize)
    requires
        start <= hi <= b@.len(),
    ensures
        i == field_end(b@, start as int, hi as int),
        start <= i <= hi,
{
    let mut i = start;
    loop
        invariant
            start <= i <= hi,
            hi <= b@.len(),
            field_end(b@, start as int, hi as int) == field_end(b@, i as int, hi as int),
        decreases hi - i,
    {
        if i >= hi || space_at(b, i, hi) > 0 {
            return i;
        }
        i = i + 1;
    }
}

/// See [`find`].
fn find_byte(b: &[u8], byte: u8, start: usize, hi: usize) -> (i: usize)
    requires
        start <= hi <= b@.len(),
    ensures
        i == find(b@, byte, start as int, hi as int),
        start <= i <= hi,
{
    let mut i = start;
    while i < hi && b[i] != byte
        invariant
            start <= i <= hi,
            hi <= b@.len(),
            find(b@, byte, start as int, hi as int) == find(b@, byte, i as int, hi as int),
        decreases hi - i,
    {
        i = i + 1;
    }
    i
}

/// See [`hex_number`].
fn hex(b: &[u8], lo: usize, hi: usize) -> (result: Result<usize, NumberFault>)
    requires
        lo <= hi <= b@.len(),
    ensures
        result == hex_number(b@, lo as int, hi as int),
{
    if lo >= hi {
        return Err(NumberFault::Empty);
    }
    let mut i = lo;
    if b[lo] == 0x2b || b[lo] == 0x2d {
        if lo + 1 == hi {
            return Err(NumberFault::InvalidDigit);
        }
        if b[lo] == 0x2b {
            i = lo + 1;
        }
    }
    let mut value: usize = 0;
    while i < hi
        invariant
            lo <= i <= hi,
            hi <= b@.len(),
            hex_number(b@, lo as int, hi as int) == hex_digits(b@, i as int, hi as int, value as nat),
        decreases hi - i,
    {
        let c = b[i];
        let digit: usize = if 0x30 <= c && c <= 0x39 {
            (c - 0x30) as usize
        } else if 0x61 <= c && c <= 0x66 {
            (c - 0x61 + 10) as usize
        } else if 0x41 <= c && c <= 0x46 {
            (c - 0x41 + 10) as usize
        } else {
            return Err(NumberFault::InvalidDigit);
        };
        let next = value as u128 * 16 + digit as u128;
        if next > usize::MAX as u128 {
            return Err(NumberFault::PosOverflow);
        }
        value = next as usize;
        i = i + 1;
    }
    Ok(value)
}

/// See [`line_says`].
fn read_line(b: &[u8], lo: usize, hi: usize, address: usize) -> (result: Result<
    Option<Region>,
    MapsFault,
>)
    requires
        lo <= hi <= b@.len(),
    ensures
        result == line_says(b@, lo as int, hi as int, address),
{
    let range = skip(b, lo, hi);
    let range_end = field(b, range, hi);
    let permissions = skip(b, range_end, hi);
    let permissions_end = field(b, permissions, hi);
    let dash = find_byte(b, 0x2d, range, range_end);
    if dash == range_end {
        return Err(MapsFault::MissingRange);
    }
    let start = match hex(b, range, dash) {
        Ok(start) => start,
        Err(fault) => return Err(MapsFault::Number(fault)),
    };
    let end = match hex(b, dash + 1, range_end) {
        Ok(end) => end,
        Err(fault) => return Err(MapsFault::Number(fault)),
    };
    if start >= end || permissions_end - permissions != 4 {
        return Err(MapsFault::Invalid);
    }
    let p = permissions;
    if !((b[p] == 0x72 || b[p] == 0x2d) && (b[p + 1] == 0x77 || b[p + 1] == 0x2d) && (b[p + 2]
        == 0x78 || b[p + 2] == 0x2d) && (b[p + 3] == 0x70 || b[p + 3] == 0x73)) {
        return Err(MapsFault::Invalid);
    }
    if start <= address && address < end {
        let protection = (if b[p] == 0x72 {
            PROT_READ
        } else {
            0
        }) | (if b[p + 1] == 0x77 {
            PROT_WRITE
        } else {
            0
        }) | (if b[p + 2] == 0x78 {
            PROT_EXEC
        } else {
            0
        });
        Ok(
            Some(
                Region {
                    start,
                    end,
                    protection,
                    readable: b[p] == 0x72,
                    executable: b[p + 2] == 0x78,
                },
            ),
        )
    } else {
        Ok(None)
    }
}

/// What the memory map text `b` says about `address`: the region that holds
/// it, nothing when no line does, or the first malformed line's fault.
pub fn read_map(b: &[u8], address: usize) -> (result: Result<Option<Region>, MapsFault>)
    ensures
        result == map_says(b@, 0, address),
{
    let length = b.len();
    let mut lo: usize = 0;
    while lo < length
        invariant
            length == b@.len(),
            lo <= length,
            map_says(b@, 0, address) == map_says(b@, lo as int, address),
        decreases length - lo,
    {
        let newline = find_byte(b, 0x0a, lo, length);
        let hi = if newline < length && newline > lo && b[newline - 1] == 0x0d {
            newline - 1
        } else {
            newline
        };
        match read_line(b, lo, hi, address) {
            Ok(None) => {},
            other => return other,
        }
        if newline == length {
            assert(map_says(b@, newline + 1, address) == Ok::<Option<Region>, MapsFault>(None));
            return Ok(None);
        }
        lo = newline + 1;
    }
    Ok(None)
}

/// What the Linux memory map `maps` says about `address`; see [`map_says`].
pub fn parse_region(maps: &str, address: usize) -> (result: Result<Option<Region>, Error>)
    ensures
        match map_says(maps.spec_bytes(), 0, address) {
            Ok(region) => result == Ok::<Option<Region>, Error>(region),
            Err(fault) => result matches Err(Error::Mapping(message)) && message@ == fault_text(
                fault,
            ),
        },
{
    match read_map(maps.as_bytes(), address) {
        Ok(region) => Ok(region),
        Err(fault) => {
            let message = match fault {
                MapsFault::MissingRange => String::from_str("missing mapping address range"),
                MapsFault::Number(NumberFault::Empty) => String::from_str(
                    "cannot parse integer from empty string",
                ),
                MapsFault::Number(NumberFault::InvalidDigit) => String::from_str(
                    "invalid digit found in string",
                ),
                MapsFault::Number(NumberFault::PosOverflow) => String::from_str(
                    "number too large to fit in target type",
                ),
                MapsFault::Invalid => String::from_str("invalid mapping permissions or range"),
            };
            Err(Error::Mapping(message))
        },
    }
}

#[via_fn]
proof fn map_says_decreases(b: Seq<u8>, lo: int, address: usize) {
    if 0 <= lo < b.len() {
        lemma_find(b, 0x0a, lo, b.len() as int);
    }
}

/// The hexadecimal digit with value `d` (below 16), in upper or lower case.
pub open spec fn digit_char(d: nat, upper: bool) -> u8 {
    if d < 10 {
        (48 + d) as u8
    } else if upper {
        (65 + d - 10) as u8
    } else {
        (97 + d - 10) as u8
    }
}

/// `n` written in base 16, most significant digit first, without leading
/// zeros.
pub open spec fn hex_text(n: nat, upper: bool) -> Seq<u8>
    decreases n,
{
    if n < 16 {
        seq![digit_char(n, upper)]
    } else {
        hex_text(n / 16, upper).push(digit_char(n % 16, upper))
    }
}

/// The text of a number starts with a digit.
proof fn lemma_hex_text_starts_with_digit(n: nat, upper: bool)
    ensures
        hex_text(n, upper).len() >= 1,
        0x30 <= hex_text(n, upper)[0],
    decreases n,
{
    if n >= 16 {
        lemma_hex_text_starts_with_digit(n / 16, upper);
    }
}

/// Reading digits up to `hi` looks at no byte from `hi` on.
proof fn lemma_hex_digits_ignore_after(b: Seq<u8>, x: u8, i: int, hi: int, value: nat)
    requires
        0 <= i <= hi <= b.len(),
    ensures
        hex_digits(b.push(x), i, hi, value) == hex_digits(b, i, hi, value),
    decreases hi - i,
{
    if i < hi {
        assert(b.push(x)[i] == b[i]);
        if let Some(digit) = hex_digit(b[i]) {
            if value * 16 + digit <= usize::MAX {
                lemma_hex_digits_ignore_after(b, x, i + 1, hi, value * 16 + digit);
            }
        }
    }
}

/// One more digit at the end multiplies the value read so far by 16 and
/// adds the digit.
proof fn lemma_hex_digits_last(b: Seq<u8>, i: int, hi: int, value: nat, read: usize, digit: nat)
    requires
        0 <= i < hi <= b.len(),
        value <= usize::MAX,
        hex_digits(b, i, hi - 1, value) == Ok::<usize, NumberFault>(read),
        hex_digit(b[hi - 1]) == Some(digit),
        read * 16 + digit <= usize::MAX,
    ensures
        hex_digits(b, i, hi, value) == Ok::<usize, NumberFault>((read * 16 + digit) as usize),
    decreases hi - i,
{
    if i < hi - 1 {
        let first = hex_digit(b[i])->Some_0;
        assert(hex_digit(b[i]) is Some && value * 16 + first <= usize::MAX);
        assert(hex_digits(b, i + 1, hi - 1, value * 16 + first) == Ok::<usize, NumberFault>(read));
        lemma_hex_digits_last(b, i + 1, hi, value * 16 + first, read, digit);
    } else {
        assert(read == value);
        assert(hex_digits(b, i + 1, hi, value * 16 + digit) == Ok::<usize, NumberFault>(
            (value * 16 + digit) as usize,
        ));
    }
}

/// Every hexadecimal digit reads as its value, and the text of any number
/// that fits an address, in lower or upper case, reads back as that number:
/// the range fields of a memory map are read as base-16 numbers.
pub proof fn lemma_hex_round_trip(n: nat, upper: bool)
    requires
        n <= usize::MAX,
    ensures
        forall|d: nat| d < 16 ==> #[trigger] hex_digit(digit_char(d, upper)) == Some(d),
        hex_number(hex_text(n, upper), 0, hex_text(n, upper).len() as int) == Ok::<
            usize,
            NumberFault,
        >(n as usize),
    decreases n,
{
    let t = hex_text(n, upper);
    lemma_hex_text_starts_with_digit(n, upper);
    assert(t[0] != 0x2b && t[0] != 0x2d);
    assert(hex_number(t, 0, t.len() as int) == hex_digits(t, 0, t.len() as int, 0));
    if n < 16 {
        assert(hex_digit(t[0]) == Some(n));
        assert(hex_digits(t, 1, 1, n) == Ok::<usize, NumberFault>(n as usize));
    } else {
        let front = hex_text(n / 16, upper);
        lemma_hex_round_trip(n / 16, upper);
        lemma_hex_text_starts_with_digit(n / 16, upper);
        assert(t == front.push(digit_char(n % 16, upper)));
        assert(hex_number(front, 0, front.len() as int) == hex_digits(front, 0, front.len() as int, 0));
        lemma_hex_digits_ignore_after(front, digit_char(n % 16, upper), 0, front.len() as int, 0);
        assert(t[front.len() as int] == digit_char(n % 16, upper));
        assert(hex_digit(digit_char(n % 16, upper)) == Some(n % 16));
        vstd::arithmetic::div_mod::lemma_fundamental_div_mod(n as int, 16);
        assert(hex_digits(t, 0, front.len() as int, 0) == Ok::<usize, NumberFault>((n / 16) as usize));
        assert(t.len() == front.len() + 1);
        lemma_hex_digits_last(t, 0, front.len() + 1int, 0, (n / 16) as usize, n % 16);
        assert(((n / 16) as usize) * 16 + n % 16 == n);
    }
}

/// The text of a number in lower case holds only the digits `0` to `9` and
/// the letters `a` to `f`.
proof fn lemma_hex_text_digits(n: nat)
    ensures
        forall|k: int|
            0 <= k < hex_text(n, false).len() ==> (0x30 <= #[trigger] hex_text(n, false)[k] <= 0x39)
                || (0x61 <= hex_text(n, false)[k] <= 0x66),
    decreases n,
{
    if n >= 16 {
        lemma_hex_text_digits(n / 16);
        let front = hex_text(n / 16, false);
        assert forall|k: int| 0 <= k < hex_text(n, false).len() implies (0x30 <= #[trigger] hex_text(
            n,
            false,
        )[k] <= 0x39) || (0x61 <= hex_text(n, false)[k] <= 0x66) by {
            if k < front.len() {
                assert(hex_text(n, false)[k] == front[k]);
            }
        }
    }
}

/// Digits read the same wherever the text stands.
proof fn lemma_hex_digits_shift(b: Seq<u8>, c: Seq<u8>, off: int, i: int, hi: int, value: nat)
    requires
        0 <= i <= hi <= c.len(),
        0 <= off,
        hi + off <= b.len(),
        forall|k: int| i <= k < hi ==> b[k + off] == #[trigger] c[k],
    ensures
        hex_digits(b, i + off, hi + off, value) == hex_digits(c, i, hi, value),
    decreases hi - i,
{
    if i < hi {
        assert(b[i + off] == c[i]);
        if let Some(digit) = hex_digit(c[i]) {
            if value * 16 + digit <= usize::MAX {
                lemma_hex_digits_shift(b, c, off, i + 1, hi, value * 16 + digit);
            }
        }
    }
}

/// A field ends at the first whitespace character, or at `hi`.
proof fn lemma_field_end_at(b: Seq<u8>, i: int, j: int, hi: int)
    requires
        0 <= i <= j <= hi <= b.len(),
        forall|k: int| i <= k < j ==> #[trigger] space_len(b, k, hi) == 0,
        j == hi || space_len(b, j, hi) > 0,
    ensures
        field_end(b, i, hi) == j,
    decreases j - i,
{
    if i < j {
        lemma_field_end_at(b, i + 1, j, hi);
    }
}

/// The four permission letters of a memory map line.
pub open spec fn permission_letters(readable: bool, writable: bool, executable: bool, shared: bool) -> Seq<u8> {
    seq![
        if readable { 0x72u8 } else { 0x2du8 },
        if writable { 0x77u8 } else { 0x2du8 },
        if executable { 0x78u8 } else { 0x2du8 },
        if shared { 0x73u8 } else { 0x70u8 },
    ]
}

/// A memory map line as the kernel writes it, up to the permissions: the
/// range in lower-case hexadecimal, a space, the permission letters, and the
/// end of the line.
pub open spec fn map_line(
    start: usize,
    end: usize,
    readable: bool,
    writable: bool,
    executable: bool,
    shared: bool,
) -> Seq<u8> {
    hex_text(start as nat, false) + seq![0x2du8] + hex_text(end as nat, false) + seq![0x20u8]
        + permission_letters(readable, writable, executable, shared) + seq![0x0au8]
}

/// Where the parts of a memory map line lie.
#[verifier::spinoff_prover]
proof fn lemma_map_line_bytes(
    start: usize,
    end: usize,
    readable: bool,
    writable: bool,
    executable: bool,
    shared: bool,
)
    ensures
        ({
            let first = hex_text(start as nat, false);
            let second = hex_text(end as nat, false);
            let letters = permission_letters(readable, writable, executable, shared);
            let b = map_line(start, end, readable, writable, executable, shared);
            let dash = first.len() as int;
            let space = dash + 1 + second.len();
            let p = space + 1;
            &&& b.len() == p + 5
            &&& forall|k: int| 0 <= k < dash ==> #[trigger] b[k] == first[k]
            &&& b[dash] == 0x2d
            &&& forall|k: int| 0 <= k < second.len() ==> b[k + (dash + 1)] == #[trigger] second[k]
            &&& b[space] == 0x20
            &&& forall|k: int| 0 <= k < 4 ==> b[p + k] == #[trigger] letters[k]
            &&& b[p + 4] == 0x0a
        }),
{
}

/// The bytes of a memory map line other than its last are no newline and,
/// but for the space after the range, no whitespace; the range holds one
/// dash.
#[verifier::spinoff_prover]
#[verifier::rlimit(40)]
proof fn lemma_map_line_fields(
    start: usize,
    end: usize,
    readable: bool,
    writable: bool,
    executable: bool,
    shared: bool,
)
    ensures
        ({
            let b = map_line(start, end, readable, writable, executable, shared);
            let dash = hex_text(start as nat, false).len() as int;
            let space = dash + 1 + hex_text(end as nat, false).len();
            let p = space + 1;
            let hi = p + 4;
            &&& line_end(b, 0) == hi
            &&& find(b, 0x0a, 0, b.len() as int) == hi
            &&& skip_spaces(b, 0, hi) == 0
            &&& field_end(b, 0, hi) == space
            &&& skip_spaces(b, space, hi) == p
            &&& field_end(b, p, hi) == hi
            &&& find(b, 0x2d, 0, space) == dash
        }),
{
    let first = hex_text(start as nat, false);
    let second = hex_text(end as nat, false);
    let letters = permission_letters(readable, writable, executable, shared);
    let b = map_line(start, end, readable, writable, executable, shared);
    let dash = first.len() as int;
    let space = dash + 1 + second.len();
    let p = space + 1;
    let hi = p + 4;
    lemma_map_line_bytes(start, end, readable, writable, executable, shared);
    lemma_hex_text_starts_with_digit(start as nat, false);
    lemma_hex_text_digits(start as nat);
    lemma_hex_text_digits(end as nat);
    assert forall|k: int| 0 <= k < hi implies b[k] != 0x0a && #[trigger] space_len(b, k, hi) == (if k
        == space {
        1int
    } else {
        0
    }) && (k < space ==> (b[k] == 0x2d) == (k == dash)) by {
        if k < dash {
            assert(b[k] == first[k]);
        } else if dash < k < space {
            assert(b[(k - (dash + 1)) + (dash + 1)] == second[k - (dash + 1)]);
        } else if p <= k {
            assert(b[p + (k - p)] == letters[k - p]);
        }
    }
    lemma_find(b, 0x0a, 0, b.len() as int);
    lemma_field_end_at(b, 0, space, hi);
    assert(skip_spaces(b, p, hi) == p);
    lemma_field_end_at(b, p, hi, hi);
    lemma_find(b, 0x2d, 0, space);
}

/// A memory map line reads back as the region it describes: its range, its
/// protection bits (read 1, write 2, execute 4) and whether it can be read
/// and executed, for an address inside it; nothing for any other address.
#[verifier::spinoff_prover]
#[verifier::rlimit(60)]
pub proof fn lemma_map_line_round_trip(
    start: usize,
    end: usize,
    readable: bool,
    writable: bool,
    executable: bool,
    shared: bool,
    address: usize,
)
    requires
        start < end,
    ensures
        map_says(map_line(start, end, readable, writable, executable, shared), 0, address) == (if start
            <= address < end {
            Ok::<Option<Region>, MapsFault>(
                Some(
                    Region {
                        start,
                        end,
                        protection: ((if readable {
                            1int
                        } else {
                            0
                        }) + (if writable {
                            2int
                        } else {
                            0
                        }) + (if executable {
                            4int
                        } else {
                            0
                        })) as u32,
                        readable,
                        executable,
                    },
                ),
            )
        } else {
            Ok(None)
        }),
{
    let first = hex_text(start as nat, false);
    let second = hex_text(end as nat, false);
    let letters = permission_letters(readable, writable, executable, shared);
    let b = map_line(start, end, readable, writable, executable, shared);
    let dash = first.len() as int;
    let space = dash + 1 + second.len();
    let p = space + 1;
    let hi = p + 4;
    lemma_map_line_bytes(start, end, readable, writable, executable, shared);
    lemma_map_line_fields(start, end, readable, writable, executable, shared);
    lemma_hex_text_starts_with_digit(start as nat, false);
    lemma_hex_text_starts_with_digit(end as nat, false);
    lemma_hex_round_trip(start as nat, false);
    lemma_hex_round_trip(end as nat, false);
    assert forall|k: int| 0 <= k < dash implies b[k + 0] == #[trigger] first[k] by {
        assert(b[k] == first[k]);
    }
    lemma_hex_digits_shift(b, first, 0, 0, dash, 0);
    assert(hex_digits(b, 0, dash, 0) == hex_digits(first, 0, dash, 0));
    assert(b[0] == first[0]);
    assert(hex_number(b, 0, dash) == hex_number(first, 0, dash));
    assert forall|k: int| 0 <= k < second.len() implies b[k + (dash + 1)] == #[trigger] second[k] by {}
    lemma_hex_digits_shift(b, second, dash + 1, 0, second.len() as int, 0);
    assert(b[dash + 1] == second[0]);
    assert(hex_number(b, dash + 1, space) == hex_number(second, 0, second.len() as int));
    assert(b[p] == letters[0] && b[p + 1] == letters[1] && b[p + 2] == letters[2] && b[p + 3]
        == letters[3]);
    assert(well_formed_permissions(b, p, hi));
    assert(forall|a: u32, w: u32, x: u32|
        (a == 0 || a == 1) && (w == 0 || w == 2) && (x == 0 || x == 4) ==> #[trigger] (a | w | x)
            == a + w + x) by (bit_vector);
    let read_bit: u32 = if readable {
        1
    } else {
        0
    };
    let write_bit: u32 = if writable {
        2
    } else {
        0
    };
    let execute_bit: u32 = if executable {
        4
    } else {
        0
    };
    assert(read_bit | write_bit | execute_bit == read_bit + write_bit + execute_bit);
    assert(line_region(b, start, end, p).protection == read_bit | write_bit | execute_bit);
    assert(map_says(b, hi + 1, address) == Ok::<Option<Region>, MapsFault>(None));
}

} // verus!
