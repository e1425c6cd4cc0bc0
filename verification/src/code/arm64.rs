//! Entry patches and relocated prefixes for ARM64.
use crate::code::bytes::{le, le_value, lemma_le_length, lemma_le_round_trip, push_le, read_le};
use crate::code::relocate::{find_position, position_of, put4};
use crate::code::x86::{Plan, PlanView};
use crate::error::Error;
use vstd::prelude::*;
use vstd::slice::{slice_subrange, slice_to_vec};

verus! {

/// Bytes read from a function entry before planning a patch.
pub const MAX_PREFIX: usize = 32;

/// `nop`.
pub const NOP: u32 = 0xd503201f;

/// `bti c`, the landing pad of indirect calls.
pub const BTI: u32 = 0xd503245f;

/// Two to the power `n`.
pub open spec fn power2(n: nat) -> int
    decreases n,
{
    if n == 0 {
        1
    } else {
        2 * power2((n - 1) as nat)
    }
}

/// The little-endian bytes of one instruction word.
pub open spec fn word_bytes(word: u32) -> Seq<u8> {
    le(word as nat, 4)
}

/// An instruction address is not null and is four-byte aligned.
pub open spec fn alignment(address: int) -> Result<(), Error> {
    if address == 0 {
        Err(Error::InvalidAddress)
    } else if address % 4 != 0 {
        Err(Error::InvalidRange)
    } else {
        Ok(())
    }
}

/// Checks that `address` can hold an instruction.
pub fn aligned(address: usize) -> (result: Result<(), Error>)
    ensures
        match alignment(address as int) {
            Ok(()) => result is Ok,
            Err(error) => result == Err::<(), Error>(error),
        },
{
    if address == 0 {
        Err(Error::InvalidAddress)
    } else if address % 4 != 0 {
        Err(Error::InvalidRange)
    } else {
        Ok(())
    }
}

/// The first instruction word of `bytes`.
pub open spec fn first_word(bytes: Seq<u8>) -> Result<u32, Error> {
    if bytes.len() < 4 {
        Err(Error::InsufficientSpace)
    } else {
        Ok(le_value(bytes.subrange(0, 4)) as u32)
    }
}

/// Reads the first instruction word of `bytes`.
pub fn word(bytes: &[u8]) -> (result: Result<u32, Error>)
    ensures
        match first_word(bytes@) {
            Ok(value) => result == Ok::<u32, Error>(value),
            Err(error) => result == Err::<u32, Error>(error),
        },
{
    if bytes.len() < 4 {
        return Err(Error::InsufficientSpace);
    }
    proof {
        crate::code::bytes::lemma_le_value_bound(bytes@.subrange(0, 4));
        reveal_with_fuel(crate::code::bytes::pow256, 5);
    }
    Ok(read_le(bytes, 0, 4) as u32)
}

/// The `bits`-wide branch field that reaches `target` from `source`, or an
/// error when the distance is not a multiple of four or out of reach.
pub open spec fn field(source: int, target: int, bits: nat) -> Result<u32, Error> {
    let delta = target - source;
    let value = delta / 4;
    if delta % 4 != 0 || value < -power2((bits - 1) as nat) || value >= power2((bits - 1) as nat) {
        Err(Error::InvalidRange)
    } else {
        Ok(
            (if value < 0 {
                value + power2(bits)
            } else {
                value
            }) as u32,
        )
    }
}

/// Two to the power `n`, for `n` up to 32.
fn power(n: u32) -> (value: i128)
    requires
        n <= 32,
    ensures
        value == power2(n as nat),
{
    proof {
        assert(power2(32) == 0x1_0000_0000) by {
            reveal_with_fuel(power2, 33);
        }
        lemma_power2_monotone(0, 32);
    }
    let mut value: i128 = 1;
    let mut index: u32 = 0;
    while index < n
        invariant
            index <= n,
            n <= 32,
            value == power2(index as nat),
            power2(32) == 0x1_0000_0000,
        decreases n - index,
    {
        proof {
            lemma_power2_monotone((index + 1) as nat, 32);
        }
        value = value * 2;
        index = index + 1;
    }
    value
}

/// Powers of two grow with the exponent.
pub proof fn lemma_power2_monotone(small: nat, large: nat)
    requires
        small <= large,
    ensures
        1 <= power2(small) <= power2(large),
    decreases large,
{
    if small < large {
        lemma_power2_monotone(small, (large - 1) as nat);
    } else if small > 0 {
        lemma_power2_monotone((small - 1) as nat, (small - 1) as nat);
    }
}

/// Encodes the branch field from `source` to `target`; see [`field`].
#[verifier::rlimit(30)]
pub fn relative(source: usize, target: usize, bits: u32) -> (result: Result<u32, Error>)
    requires
        1 <= bits <= 32,
    ensures
        match field(source as int, target as int, bits as nat) {
            Ok(value) => result == Ok::<u32, Error>(value),
            Err(error) => result == Err::<u32, Error>(error),
        },
{
    let delta = target as i128 - source as i128;
    let half = power(bits - 1);
    let whole = power(bits);
    proof {
        lemma_power2_monotone(bits as nat, 32);
        assert(power2(32) == 0x1_0000_0000) by {
            reveal_with_fuel(power2, 33);
        }
    }
    let value = delta / 4;
    if delta % 4 != 0 || value < -half || value >= half {
        return Err(Error::InvalidRange);
    }
    let encoded = if value < 0 {
        value + whole
    } else {
        value
    };
    Ok(encoded as u32)
}

/// The signed value of the low `bits` bits of `value`.
pub open spec fn sign_extended(value: u32, bits: nat) -> int {
    let low = value as int % power2(bits);
    if low >= power2((bits - 1) as nat) {
        low - power2(bits)
    } else {
        low
    }
}

/// Sign-extends the low `bits` bits of `value`.
pub fn signed(value: u32, bits: u32) -> (result: i64)
    requires
        1 <= bits <= 32,
    ensures
        result == sign_extended(value, bits as nat),
        -power2((bits - 1) as nat) <= result < power2((bits - 1) as nat),
        -0x8000_0000 <= result < 0x8000_0000,
{
    let whole = power(bits);
    let half = power(bits - 1);
    proof {
        lemma_power2_monotone(bits as nat, 32);
        lemma_power2_monotone((bits - 1) as nat, 31);
        assert(power2(31) == 0x8000_0000) by {
            reveal_with_fuel(power2, 32);
        }
        assert(power2(32) == 0x1_0000_0000) by {
            reveal_with_fuel(power2, 33);
        }
    }
    let low = value as i128 % whole;
    let extended = if low >= half {
        low - whole
    } else {
        low
    };
    extended as i64
}

/// `address + delta` as an address.
pub open spec fn offset_address(address: int, delta: int) -> Result<usize, Error> {
    if 0 <= address + delta <= usize::MAX {
        Ok((address + delta) as usize)
    } else {
        Err(Error::InvalidRange)
    }
}

/// Moves an address by `delta` bytes.
pub fn add(address: usize, delta: i64) -> (result: Result<usize, Error>)
    ensures
        match offset_address(address as int, delta as int) {
            Ok(value) => result == Ok::<usize, Error>(value),
            Err(error) => result == Err::<usize, Error>(error),
        },
{
    let sum = address as i128 + delta as i128;
    if 0 <= sum && sum <= usize::MAX as i128 {
        Ok(sum as usize)
    } else {
        Err(Error::InvalidRange)
    }
}

/// One `movz`/`movk` of the 16-bit piece `half` of `value` into `register`.
pub open spec fn move_word(half: u32, value: usize, register: u32) -> u32 {
    (if half == 0 {
        0xd2800000u32
    } else {
        0xf2800000u32
    }) | (half << 21u32) | ((((value as u64) >> ((half * 16) as u64)) & 0xffffu64) as u32) << 5u32
        | register
}

/// The four instructions that load `value` into `register`.
pub open spec fn constant_bytes(register: u32, value: usize) -> Seq<u8> {
    word_bytes(move_word(0, value, register)) + word_bytes(move_word(1, value, register))
        + word_bytes(move_word(2, value, register)) + word_bytes(move_word(3, value, register))
}

/// Appends one instruction word.
fn emit(bytes: &mut Vec<u8>, instruction: u32)
    ensures
        final(bytes)@ == old(bytes)@ + word_bytes(instruction),
{
    push_le(bytes, instruction as u64, 4);
}

/// Appends the instructions that load `value` into `register`.
fn constant(bytes: &mut Vec<u8>, register: u32, value: usize)
    ensures
        final(bytes)@ == old(bytes)@ + constant_bytes(register, value),
{
    let ghost start = bytes@;
    let mut half: u32 = 0;
    while half < 4
        invariant
            half <= 4,
            bytes@ == start + (if half == 0 {
                Seq::empty()
            } else if half == 1 {
                word_bytes(move_word(0, value, register))
            } else if half == 2 {
                word_bytes(move_word(0, value, register)) + word_bytes(move_word(1, value, register))
            } else if half == 3 {
                word_bytes(move_word(0, value, register)) + word_bytes(move_word(1, value, register))
                    + word_bytes(move_word(2, value, register))
            } else {
                constant_bytes(register, value)
            }),
        decreases 4 - half,
    {
        let opcode: u32 = if half == 0 {
            0xd2800000
        } else {
            0xf2800000
        };
        let piece = (((value as u64) >> ((half * 16) as u64)) & 0xffff) as u32;
        emit(bytes, opcode | (half << 21u32) | (piece << 5u32) | register);
        half = half + 1;
        assert(bytes@ =~= start + (if half == 1 {
            word_bytes(move_word(0, value, register))
        } else if half == 2 {
            word_bytes(move_word(0, value, register)) + word_bytes(move_word(1, value, register))
        } else if half == 3 {
            word_bytes(move_word(0, value, register)) + word_bytes(move_word(1, value, register))
                + word_bytes(move_word(2, value, register))
        } else {
            constant_bytes(register, value)
        }));
    }
}

/// The jump from `source` to `target`: `b` when it is in reach, else a load
/// of the target into the veneer register `x16` and `br x16`.
pub open spec fn jump_bytes(source: int, target: int) -> Result<Seq<u8>, Error> {
    match alignment(source) {
        Err(error) => Err(error),
        Ok(()) => match alignment(target) {
            Err(error) => Err(error),
            Ok(()) => match field(source, target, 26) {
                Ok(delta) => Ok(word_bytes(0x14000000u32 | delta)),
                Err(_) => Ok(
                    word_bytes(0x58000050u32) + word_bytes(0xd61f0200u32) + le(target as nat, 8),
                ),
            },
        },
    }
}

/// Encodes a jump from `source` to `target`.
pub fn jump(source: usize, target: usize) -> (result: Result<Vec<u8>, Error>)
    ensures
        match jump_bytes(source as int, target as int) {
            Ok(bytes) => result matches Ok(out) && out@ == bytes,
            Err(error) => result matches Err(e) && e == error,
        },
{
    aligned(source)?;
    aligned(target)?;
    let mut bytes = Vec::new();
    match relative(source, target, 26) {
        Ok(delta) => emit(&mut bytes, 0x14000000 | delta),
        Err(_) => {
            emit(&mut bytes, 0x58000050);
            emit(&mut bytes, 0xd61f0200);
            push_le(&mut bytes, target as u64, 8);
        },
    }
    Ok(bytes)
}

/// A jump is one instruction word, or four words with the literal target.
pub proof fn lemma_jump_length(source: int, target: int)
    ensures
        jump_bytes(source, target) matches Ok(bytes) ==> bytes.len() == 4 || bytes.len() == 16,
{
    lemma_le_length(0x58000050nat, 4);
    lemma_le_length(0xd61f0200nat, 4);
    lemma_le_length(target as nat, 8);
    if let Ok(delta) = field(source, target, 26) {
        lemma_le_length((0x14000000u32 | delta) as nat, 4);
    }
}

/// The instruction is in an allocated major opcode group.
pub open spec fn valid_word(instruction: u32) -> bool {
    let group = (instruction / 0x200_0000) % 16;
    !(group == 0 || group == 1 || group == 3) && instruction != u32::MAX
}

/// The instruction never falls through: `b`, a register branch, or `brk`.
pub open spec fn terminal_word(instruction: u32) -> bool {
    instruction & 0xfc000000u32 == 0x14000000u32 || instruction & 0xfe000000u32 == 0xd6000000u32
        || instruction & 0xffe0001fu32 == 0xd4200000u32
}

fn valid(instruction: u32) -> (result: bool)
    ensures
        result == valid_word(instruction),
{
    let group = (instruction / 0x200_0000) % 16;
    !(group == 0 || group == 1 || group == 3) && instruction != u32::MAX
}

fn terminal(instruction: u32) -> (result: bool)
    ensures
        result == terminal_word(instruction),
{
    instruction & 0xfc000000 == 0x14000000 || instruction & 0xfe000000 == 0xd6000000
        || instruction & 0xffe0001f == 0xd4200000
}

/// The words of `prefix` from word `k` on are valid, and none but the last
/// ends the function.
pub open spec fn prefix_check(prefix: Seq<u8>, k: int) -> Result<(), Error>
    decreases prefix.len() - 4 * k,
{
    if k < 0 || 4 * k + 4 > prefix.len() {
        Ok(())
    } else {
        let instruction = first_word(prefix.subrange(4 * k, prefix.len() as int))->Ok_0;
        if !valid_word(instruction) {
            Err(Error::InvalidInstruction)
        } else if terminal_word(instruction) && (k + 1) * 4 < prefix.len() {
            Err(Error::InsufficientSpace)
        } else {
            prefix_check(prefix, k + 1)
        }
    }
}

/// The patch that jumps from `source` to `target`, where `bytes` are the
/// first bytes at `source`; it starts after a `bti` landing pad.
pub open spec fn planned(source: int, target: int, bytes: Seq<u8>) -> Result<PlanView, Error> {
    match alignment(source) {
        Err(error) => Err(error),
        Ok(()) => match alignment(target) {
            Err(error) => Err(error),
            Ok(()) => if source == target {
                Err(Error::SameAddress)
            } else {
                match first_word(bytes) {
                    Err(error) => Err(error),
                    Ok(first) => {
                        let offset: nat = if first & 0xffffff1fu32 == 0xd503241fu32 {
                            4
                        } else {
                            0
                        };
                        if source + offset > usize::MAX {
                            Err(Error::InvalidRange)
                        } else {
                        match jump_bytes(source + offset, target) {
                            Err(error) => Err(error),
                            Ok(replacement) => if offset + replacement.len() > bytes.len() {
                                Err(Error::InsufficientSpace)
                            } else {
                                let prefix = bytes.subrange(
                                    offset as int,
                                    (offset + replacement.len()) as int,
                                );
                                match prefix_check(prefix, 0) {
                                    Err(error) => Err(error),
                                    Ok(()) => Ok(
                                        PlanView { offset, original: prefix, replacement },
                                    ),
                                }
                            },
                        }
                        }
                    },
                }
            },
        },
    }
}

/// Plans a patch at `source` that jumps to `target`.
#[verifier::loop_isolation(false)]
pub fn plan(source: usize, target: usize, bytes: &[u8]) -> (result: Result<Plan, Error>)
    ensures
        match planned(source as int, target as int, bytes@) {
            Ok(plan) => result matches Ok(out) && out@ == plan,
            Err(error) => result matches Err(e) && e == error,
        },
{
    aligned(source)?;
    aligned(target)?;
    if source == target {
        return Err(Error::SameAddress);
    }
    let first = word(bytes)?;
    let offset: usize = if first & 0xffffff1f == 0xd503241f {
        4
    } else {
        0
    };
    let address = match source.checked_add(offset) {
        Some(address) => address,
        None => return Err(Error::InvalidRange),
    };
    let replacement = jump(address, target)?;
    proof {
        lemma_jump_length(address as int, target as int);
    }
    if offset + replacement.len() > bytes.len() {
        return Err(Error::InsufficientSpace);
    }
    let prefix = slice_subrange(bytes, offset, offset + replacement.len());
    let mut k: usize = 0;
    while 4 * k + 4 <= prefix.len()
        invariant
            prefix_check(prefix@, 0) == prefix_check(prefix@, k as int),
            4 * k <= prefix@.len() + 4,
            prefix@.len() <= 16,
        decreases prefix@.len() + 4 - 4 * k,
    {
        let chunk = slice_subrange(prefix, 4 * k, prefix.len());
        let instruction = word(chunk)?;
        if !valid(instruction) {
            return Err(Error::InvalidInstruction);
        }
        if terminal(instruction) && (k + 1) * 4 < prefix.len() {
            return Err(Error::InsufficientSpace);
        }
        k = k + 1;
    }
    let original = slice_to_vec(prefix);
    Ok(Plan { offset, original, replacement })
}

/// ARM64 calls restore `x30` directly; no call needs the x86-64 stack bridge.
pub fn needs_call_bridge(original: &[u8]) -> (result: Result<bool, Error>)
    ensures
        result == Ok::<bool, Error>(false),
{
    Ok(false)
}

/// Output of a relocation in progress.
pub struct WordLayout {
    /// Bytes written so far; branch words are still placeholders.
    pub output: Seq<u8>,
    /// For each copied instruction: its offset in the original and in the output.
    pub positions: Seq<(usize, usize)>,
    /// Branch words to fill: their output offset and the target address.
    pub branches: Seq<(usize, usize)>,
}

/// `b` and `bl`.
pub open spec fn is_branch(instruction: u32) -> bool {
    instruction & 0x7c000000u32 == 0x14000000u32
}

/// `b.cond`, `cbz`, `cbnz`, `tbz` and `tbnz`.
pub open spec fn is_conditional(instruction: u32) -> bool {
    instruction & 0xff000010u32 == 0x54000000u32 || instruction & 0x7e000000u32 == 0x34000000u32
        || instruction & 0x7e000000u32 == 0x36000000u32
}

/// `adr` and `adrp`.
pub open spec fn is_address(instruction: u32) -> bool {
    instruction & 0x1f000000u32 == 0x10000000u32
}

/// A load of a PC-relative literal.
pub open spec fn is_literal(instruction: u32) -> bool {
    instruction & 0x3b000000u32 == 0x18000000u32
}

/// `blr`.
pub open spec fn is_call_register(instruction: u32) -> bool {
    instruction & 0xfffffc1fu32 == 0xd63f0000u32
}

/// Instructions that no copy can keep: `b.consistent`, and register branches
/// other than `br`, `ret`, `retaa` and `retab`.
pub open spec fn unmovable(instruction: u32) -> bool {
    instruction & 0xff000000u32 == 0x54000000u32 || (instruction & 0xfe000000u32 == 0xd6000000u32
        && instruction & 0xfffffc1fu32 != 0xd61f0000u32 && instruction & 0xfffffc1fu32
        != 0xd65f0000u32 && instruction != 0xd65f0bffu32 && instruction != 0xd65f0fffu32)
}

/// The immediate field of a conditional branch: 14 bits for `tbz`/`tbnz`,
/// 19 bits for the others, at bit 5.
pub open spec fn condition_mask(instruction: u32) -> u32 {
    if instruction & 0x7e000000u32 == 0x36000000u32 {
        0x0007ffe0u32
    } else {
        0x00ffffe0u32
    }
}

/// Width of the immediate field of a conditional branch.
pub open spec fn condition_bits(instruction: u32) -> u32 {
    if instruction & 0x7e000000u32 == 0x36000000u32 {
        14
    } else {
        19
    }
}

/// The inverted condition that skips the next word, or nothing for the
/// conditions "always" and "never" of `b.cond`.
pub open spec fn skip_word(instruction: u32) -> Seq<u8> {
    let kept = instruction & !condition_mask(instruction);
    if instruction & 0xff000010u32 == 0x54000000u32 {
        if instruction & 15u32 < 14 {
            word_bytes((kept ^ 1u32) | 0x40u32)
        } else {
            Seq::empty()
        }
    } else {
        word_bytes((kept ^ 0x0100_0000u32) | 0x40u32)
    }
}

/// The signed 21-bit immediate of `adr` and `adrp`.
pub open spec fn address_immediate(instruction: u32) -> u32 {
    (((instruction >> 5u32) & 0x7ffffu32) << 2u32) | ((instruction >> 29u32) & 3u32)
}

/// The load of a 32-bit, 64-bit or sign-extended 32-bit value through a
/// register.
pub open spec fn load_opcode(operation: u32) -> u32 {
    if operation == 0 {
        0xb9400000u32
    } else if operation == 1 {
        0xf9400000u32
    } else {
        0xb9800000u32
    }
}

/// The word of `original` at offset `off`.
pub open spec fn word_at(original: Seq<u8>, off: int) -> u32 {
    le_value(original.subrange(off, off + 4)) as u32
}

/// The copy of the instruction at offset `off` of `total` bytes at `source`,
/// appended to `output`, with the branch words that it leaves to fill.
///
/// `b` and `bl` become a `b` to the same target; `bl` first loads the
/// return address into `x30`. Conditional branches skip over such a `b` when
/// their condition fails. `adr` and `adrp` load their address as a constant.
/// Literal loads are rebased, or load their address into their register and
/// read through it when the literal is out of reach. `blr` loads the return
/// address into `x30` and becomes `br`. Calls must come last.
#[verifier::opaque]
pub open spec fn moved(
    source: int,
    destination: int,
    continuation: int,
    total: int,
    off: int,
    instruction: u32,
    output: Seq<u8>,
) -> Result<(Seq<u8>, Seq<(usize, usize)>), Error> {
    let pc = source + off;
    if is_branch(instruction) {
        match offset_address(pc, sign_extended(instruction & 0x03ffffffu32, 26) * 4) {
            Err(error) => Err(error),
            Ok(target) => {
                let linking = instruction & 0x8000_0000u32 != 0;
                if linking && off + 4 != total {
                    Err(Error::InvalidInstruction)
                } else {
                    let head = if linking {
                        output + constant_bytes(30, continuation as usize)
                    } else {
                        output
                    };
                    Ok((head + word_bytes(0x14000000u32), seq![(head.len() as usize, target)]))
                }
            },
        }
    } else if is_conditional(instruction) {
        let mask = condition_mask(instruction);
        let bits = condition_bits(instruction);
        match offset_address(
            pc,
            sign_extended((instruction & mask) >> 5u32, bits as nat) * 4,
        ) {
            Err(error) => Err(error),
            Ok(target) => {
                let head = output + skip_word(instruction);
                Ok((head + word_bytes(0x14000000u32), seq![(head.len() as usize, target)]))
            },
        }
    } else if is_address(instruction) {
        let delta = sign_extended(address_immediate(instruction), 21);
        let target = if instruction & 0x8000_0000u32 != 0 {
            offset_address(((pc as usize) & !4095usize) as int, delta * 4096)
        } else {
            offset_address(pc, delta)
        };
        match target {
            Err(error) => Err(error),
            Ok(target) => Ok((output + constant_bytes(instruction & 31u32, target), seq![])),
        }
    } else if is_literal(instruction) {
        match offset_address(pc, sign_extended((instruction >> 5u32) & 0x7ffffu32, 19) * 4) {
            Err(error) => Err(error),
            Ok(target) => {
                let next = destination + output.len();
                if next > usize::MAX {
                    Err(Error::InvalidRange)
                } else {
                    match field(next, target as int, 19) {
                        Ok(delta) => Ok(
                            (
                                output + word_bytes(
                                    (instruction & !0x00ffffe0u32) | (delta << 5u32),
                                ),
                                seq![],
                            ),
                        ),
                        Err(_) => {
                            let register = instruction & 31u32;
                            let operation = instruction >> 30u32;
                            if instruction & 0x0400_0000u32 != 0 || register == 31 {
                                Err(Error::InvalidRange)
                            } else if operation == 3 {
                                Ok((output + word_bytes(NOP), seq![]))
                            } else {
                                Ok(
                                    (
                                        output + constant_bytes(register, target) + word_bytes(
                                            load_opcode(operation) | (register << 5u32) | register,
                                        ),
                                        seq![],
                                    ),
                                )
                            }
                        },
                    }
                }
            },
        }
    } else if is_call_register(instruction) {
        if off + 4 != total || (instruction >> 5u32) & 31u32 == 30 {
            Err(Error::InvalidInstruction)
        } else {
            Ok(
                (
                    output + constant_bytes(30, continuation as usize) + word_bytes(
                        instruction & !0x0020_0000u32,
                    ),
                    seq![],
                ),
            )
        }
    } else if unmovable(instruction) {
        Err(Error::InvalidInstruction)
    } else {
        Ok((output + word_bytes(instruction), seq![]))
    }
}

/// Relocates the words of `original` from offset `off` on.
pub open spec fn moved_words(
    source: int,
    destination: int,
    continuation: int,
    original: Seq<u8>,
    off: int,
    layout: WordLayout,
) -> Result<WordLayout, Error>
    decreases original.len() - off,
{
    if off < 0 || off + 4 > original.len() {
        Ok(layout)
    } else {
        let instruction = word_at(original, off);
        if !valid_word(instruction) {
            Err(Error::InvalidInstruction)
        } else {
            let positions = layout.positions.push((off as usize, layout.output.len() as usize));
            match moved(
                source,
                destination,
                continuation,
                original.len() as int,
                off,
                instruction,
                layout.output,
            ) {
                Err(error) => Err(error),
                Ok((output, added)) => moved_words(
                    source,
                    destination,
                    continuation,
                    original,
                    off + 4,
                    WordLayout { output, positions, branches: layout.branches + added },
                ),
            }
        }
    }
}

/// Fills the branch words from branch `k` on. A target inside the copied
/// prefix is mapped to its copy.
pub open spec fn linked(
    source: int,
    destination: int,
    continuation: int,
    positions: Seq<(usize, usize)>,
    branches: Seq<(usize, usize)>,
    output: Seq<u8>,
    k: int,
) -> Result<Seq<u8>, Error>
    decreases branches.len() - k,
{
    if k < 0 || k >= branches.len() {
        Ok(output)
    } else {
        let (at, target) = branches[k];
        let mapped = if source <= target < continuation {
            match find_position(positions, target - source, 0) {
                None => Err(Error::InvalidInstruction),
                Some(index) => if destination + positions[index].1 > usize::MAX {
                    Err(Error::InvalidRange)
                } else {
                    Ok(destination + positions[index].1)
                },
            }
        } else {
            Ok(target as int)
        };
        match mapped {
            Err(error) => Err(error),
            Ok(mapped) => {
                let pc = destination + at;
                if pc > usize::MAX {
                    Err(Error::InvalidRange)
                } else {
                    match field(pc, mapped, 26) {
                        Err(error) => Err(error),
                        Ok(delta) => linked(
                            source,
                            destination,
                            continuation,
                            positions,
                            branches,
                            put4(output, at as int, word_bytes(0x14000000u32 | delta)),
                            k + 1,
                        ),
                    }
                }
            },
        }
    }
}

/// The copy of `original` (the first words at `source`) that runs at
/// `destination`: a `bti c` landing pad, the relocated words, and a jump back
/// to the first word after `original` at `source`.
pub open spec fn trampoline_words(source: int, destination: int, original: Seq<u8>) -> Result<
    Seq<u8>,
    Error,
> {
    match alignment(source) {
        Err(error) => Err(error),
        Ok(()) => match alignment(destination) {
            Err(error) => Err(error),
            Ok(()) => if original.len() == 0 || original.len() % 4 != 0 {
                Err(Error::InvalidRange)
            } else if source + original.len() > usize::MAX {
                Err(Error::InvalidRange)
            } else {
                let continuation = source + original.len();
                let start = WordLayout {
                    output: word_bytes(BTI),
                    positions: Seq::empty(),
                    branches: Seq::empty(),
                };
                match moved_words(source, destination, continuation, original, 0, start) {
                    Err(error) => Err(error),
                    Ok(layout) => match linked(
                        source,
                        destination,
                        continuation,
                        layout.positions,
                        layout.branches,
                        layout.output,
                        0,
                    ) {
                        Err(error) => Err(error),
                        Ok(output) => {
                            let next = destination + output.len();
                            if next > usize::MAX {
                                Err(Error::InvalidRange)
                            } else {
                                match jump_bytes(next, continuation) {
                                    Err(error) => Err(error),
                                    Ok(tail) => Ok(output + tail),
                                }
                            }
                        },
                    },
                }
            },
        },
    }
}

/// An instruction word is four bytes.
pub broadcast proof fn lemma_word_length(word: u32)
    ensures
        #[trigger] word_bytes(word).len() == 4,
{
    lemma_le_length(word as nat, 4);
}

/// Loading a constant takes four instruction words.
pub broadcast proof fn lemma_constant_length(register: u32, value: usize)
    ensures
        #[trigger] constant_bytes(register, value).len() == 16,
{
    broadcast use lemma_word_length;

}

/// The opcode of a register load; see [`load_opcode`].
fn load(operation: u32) -> (opcode: u32)
    ensures
        opcode == load_opcode(operation),
{
    if operation == 0 {
        0xb9400000
    } else if operation == 1 {
        0xf9400000
    } else {
        0xb9800000
    }
}

/// Overwrites the word at `at` with `word`.
fn put_word(out: &mut Vec<u8>, at: usize, word: u32)
    requires
        at + 4 <= old(out)@.len(),
    ensures
        final(out)@ == put4(old(out)@, at as int, word_bytes(word)),
        final(out)@.len() == old(out)@.len(),
{
    broadcast use lemma_word_length;

    let mut field = Vec::new();
    emit(&mut field, word);
    assert(field@ =~= word_bytes(word));
    let ghost before = out@;
    let length = out.len();
    let mut index: usize = 0;
    while index < 4
        invariant
            index <= 4,
            length == out@.len(),
            at + 4 <= before.len(),
            field@ == word_bytes(word),
            field@.len() == 4,
            out@.len() == before.len(),
            forall|i: int| 0 <= i < out@.len() ==> out@[i] == if at <= i < at + index {
                field@[i - at]
            } else {
                before[i]
            },
        decreases 4 - index,
    {
        out.set(at + index, field[index]);
        index = index + 1;
    }
    assert(out@ =~= put4(before, at as int, field@));
}

/// Appends the copy of one instruction; see [`moved`].
#[verifier::rlimit(60)]
fn relocate_word(
    source: usize,
    destination: usize,
    continuation: usize,
    total: usize,
    off: usize,
    instruction: u32,
    output: &mut Vec<u8>,
    branches: &mut Vec<(usize, usize)>,
) -> (result: Result<(), Error>)
    requires
        off + 4 <= total,
        continuation == source + total,
    ensures
        match moved(
            source as int,
            destination as int,
            continuation as int,
            total as int,
            off as int,
            instruction,
            old(output)@,
        ) {
            Ok((bytes, added)) => result is Ok && final(output)@ == bytes && final(branches)@
                == old(branches)@ + added,
            Err(error) => result == Err::<(), Error>(error),
        },
        result is Ok ==> old(output)@.len() <= final(output)@.len() <= old(output)@.len() + 20,
        result is Ok ==> forall|k: int|
            old(branches)@.len() <= k < final(branches)@.len() ==> #[trigger] final(branches)@[k].0
                + 4 <= final(output)@.len(),
{
    broadcast use {lemma_word_length, lemma_constant_length};

    reveal(moved);
    let ghost start = output@;
    let ghost listed = branches@;
    let pc = source + off;
    if instruction & 0x7c000000 == 0x14000000 {
        let delta = signed(instruction & 0x03ffffff, 26) * 4;
        let target = match self::add(pc, delta) {
            Ok(target) => target,
            Err(error) => return Err(error),
        };
        if instruction & 0x8000_0000 != 0 {
            if off + 4 != total {
                return Err(Error::InvalidInstruction);
            }
            constant(output, 30, continuation);
        }
        let ghost head = output@;
        branches.push((output.len(), target));
        emit(output, 0x14000000);
        assert(branches@ =~= listed + seq![(head.len() as usize, target)]);
        Ok(())
    } else if instruction & 0xff000010 == 0x54000000 || instruction & 0x7e000000 == 0x34000000
        || instruction & 0x7e000000 == 0x36000000 {
        let test_bit = instruction & 0x7e000000 == 0x36000000;
        let bits: u32 = if test_bit {
            14
        } else {
            19
        };
        let mask: u32 = if test_bit {
            0x0007ffe0
        } else {
            0x00ffffe0
        };
        let delta = signed((instruction & mask) >> 5, bits) * 4;
        let target = match self::add(pc, delta) {
            Ok(target) => target,
            Err(error) => return Err(error),
        };
        if instruction & 0xff000010 == 0x54000000 {
            if instruction & 15 < 14 {
                emit(output, ((instruction & !mask) ^ 1) | 0x40);
            }
        } else {
            emit(output, ((instruction & !mask) ^ 0x0100_0000) | 0x40);
        }
        assert(output@ =~= start + skip_word(instruction));
        let ghost head = output@;
        branches.push((output.len(), target));
        emit(output, 0x14000000);
        assert(branches@ =~= listed + seq![(head.len() as usize, target)]);
        Ok(())
    } else if instruction & 0x1f000000 == 0x10000000 {
        let immediate = (((instruction >> 5) & 0x7ffff) << 2) | ((instruction >> 29) & 3);
        let delta = signed(immediate, 21);
        let found = if instruction & 0x8000_0000 != 0 {
            self::add(pc & !4095, delta * 4096)
        } else {
            self::add(pc, delta)
        };
        let target = match found {
            Ok(target) => target,
            Err(error) => return Err(error),
        };
        constant(output, instruction & 31, target);
        assert(branches@ =~= listed + Seq::<(usize, usize)>::empty());
        Ok(())
    } else if instruction & 0x3b000000 == 0x18000000 {
        let delta = signed((instruction >> 5) & 0x7ffff, 19) * 4;
        let target = match self::add(pc, delta) {
            Ok(target) => target,
            Err(error) => return Err(error),
        };
        let next = match destination.checked_add(output.len()) {
            Some(next) => next,
            None => return Err(Error::InvalidRange),
        };
        match relative(next, target, 19) {
            Ok(delta) => emit(output, (instruction & !0x00ffffe0) | (delta << 5)),
            Err(_) => {
                let register = instruction & 31;
                let operation = instruction >> 30;
                if instruction & 0x0400_0000 != 0 || register == 31 {
                    return Err(Error::InvalidRange);
                }
                if operation == 3 {
                    emit(output, NOP);
                } else {
                    constant(output, register, target);
                    emit(output, load(operation) | (register << 5) | register);
                }
            },
        }
        assert(branches@ =~= listed + Seq::<(usize, usize)>::empty());
        Ok(())
    } else if instruction & 0xfffffc1f == 0xd63f0000 {
        if off + 4 != total || (instruction >> 5) & 31 == 30 {
            return Err(Error::InvalidInstruction);
        }
        constant(output, 30, continuation);
        emit(output, instruction & !0x0020_0000);
        assert(branches@ =~= listed + Seq::<(usize, usize)>::empty());
        Ok(())
    } else {
        if instruction & 0xff000000 == 0x54000000 {
            return Err(Error::InvalidInstruction);
        }
        if instruction & 0xfe000000 == 0xd6000000 && instruction & 0xfffffc1f != 0xd61f0000
            && instruction & 0xfffffc1f != 0xd65f0000 && instruction != 0xd65f0bff && instruction
            != 0xd65f0fff {
            return Err(Error::InvalidInstruction);
        }
        emit(output, instruction);
        assert(branches@ =~= listed + Seq::<(usize, usize)>::empty());
        Ok(())
    }
}

/// Fills every branch word; see [`linked`].
#[verifier::loop_isolation(false)]
fn link(
    source: usize,
    destination: usize,
    continuation: usize,
    positions: &Vec<(usize, usize)>,
    branches: &Vec<(usize, usize)>,
    output: &mut Vec<u8>,
) -> (result: Result<(), Error>)
    requires
        forall|k: int| 0 <= k < branches@.len() ==> branches@[k].0 + 4 <= old(output)@.len(),
    ensures
        match result {
            Ok(()) => linked(
                source as int,
                destination as int,
                continuation as int,
                positions@,
                branches@,
                old(output)@,
                0,
            ) == Ok::<Seq<u8>, Error>(final(output)@),
            Err(error) => linked(
                source as int,
                destination as int,
                continuation as int,
                positions@,
                branches@,
                old(output)@,
                0,
            ) == Err::<Seq<u8>, Error>(error),
        },
{
    let ghost start = output@;
    let mut k: usize = 0;
    while k < branches.len()
        invariant
            k <= branches@.len(),
            output@.len() == start.len(),
            forall|j: int| 0 <= j < branches@.len() ==> branches@[j].0 + 4 <= start.len(),
            linked(
                source as int,
                destination as int,
                continuation as int,
                positions@,
                branches@,
                start,
                0,
            ) == linked(
                source as int,
                destination as int,
                continuation as int,
                positions@,
                branches@,
                output@,
                k as int,
            ),
        decreases branches@.len() - k,
    {
        let (at, target) = branches[k];
        let mapped = if source <= target && target < continuation {
            match position_of(positions, target - source) {
                None => return Err(Error::InvalidInstruction),
                Some(index) => match destination.checked_add(positions[index].1) {
                    Some(mapped) => mapped,
                    None => return Err(Error::InvalidRange),
                },
            }
        } else {
            target
        };
        let pc = match destination.checked_add(at) {
            Some(pc) => pc,
            None => return Err(Error::InvalidRange),
        };
        let delta = match relative(pc, mapped, 26) {
            Ok(delta) => delta,
            Err(error) => return Err(error),
        };
        put_word(output, at, 0x14000000 | delta);
        k = k + 1;
    }
    Ok(())
}

/// Copies the words `original`, taken from `source`, so that they run at
/// `destination` and then continue after them at `source`.
#[verifier::loop_isolation(false)]
#[verifier::rlimit(40)]
pub fn trampoline(source: usize, destination: usize, original: &[u8]) -> (result: Result<
    Vec<u8>,
    Error,
>)
    requires
        original@.len() < usize::MAX / 8,
    ensures
        match trampoline_words(source as int, destination as int, original@) {
            Ok(bytes) => result matches Ok(out) && out@ == bytes,
            Err(error) => result matches Err(e) && e == error,
        },
{
    broadcast use {lemma_word_length, lemma_constant_length};

    aligned(source)?;
    aligned(destination)?;
    if original.len() == 0 || original.len() % 4 != 0 {
        return Err(Error::InvalidRange);
    }
    let continuation = match source.checked_add(original.len()) {
        Some(continuation) => continuation,
        None => return Err(Error::InvalidRange),
    };
    let mut output: Vec<u8> = Vec::new();
    emit(&mut output, BTI);
    let mut positions: Vec<(usize, usize)> = Vec::new();
    let mut branches: Vec<(usize, usize)> = Vec::new();
    let ghost first = WordLayout { output: output@, positions: positions@, branches: branches@ };
    assert(first.output =~= word_bytes(BTI));
    let total = original.len();
    let mut off: usize = 0;
    while off < total
        invariant
            off <= total,
            off % 4 == 0,
            total % 4 == 0,
            total == original@.len(),
            total < usize::MAX / 8,
            continuation == source + total,
            output@.len() <= 4 + 5 * off,
            forall|k: int| 0 <= k < branches@.len() ==> #[trigger] branches@[k].0 + 4 <= output@.len(),
            moved_words(
                source as int,
                destination as int,
                continuation as int,
                original@,
                0,
                first,
            ) == moved_words(
                source as int,
                destination as int,
                continuation as int,
                original@,
                off as int,
                WordLayout { output: output@, positions: positions@, branches: branches@ },
            ),
        decreases total - off,
    {
        let piece = slice_subrange(original, off, off + 4);
        assert(piece@.subrange(0, 4) =~= original@.subrange(off as int, off + 4));
        let instruction = match word(piece) {
            Ok(instruction) => instruction,
            Err(error) => return Err(error),
        };
        if !valid(instruction) {
            return Err(Error::InvalidInstruction);
        }
        positions.push((off, output.len()));
        let ghost listed = branches@;
        match relocate_word(
            source,
            destination,
            continuation,
            total,
            off,
            instruction,
            &mut output,
            &mut branches,
        ) {
            Ok(()) => {},
            Err(error) => return Err(error),
        }
        assert forall|k: int| 0 <= k < branches@.len() implies #[trigger] branches@[k].0 + 4
            <= output@.len() by {
            if k >= listed.len() {
            } else {
                assert(branches@[k] == listed[k]);
            }
        }
        off = off + 4;
    }
    let ghost layout = WordLayout { output: output@, positions: positions@, branches: branches@ };
    assert(moved_words(
        source as int,
        destination as int,
        continuation as int,
        original@,
        0,
        first,
    ) == Ok::<WordLayout, Error>(layout));
    match link(source, destination, continuation, &positions, &branches, &mut output) {
        Ok(()) => {},
        Err(error) => return Err(error),
    }
    let next = match destination.checked_add(output.len()) {
        Some(next) => next,
        None => return Err(Error::InvalidRange),
    };
    let mut tail = jump(next, continuation)?;
    output.append(&mut tail);
    Ok(output)
}

/// A copy of a prefix ends with a jump back to the first word after the
/// prefix at its source.
pub proof fn lemma_trampoline_returns(source: int, destination: int, original: Seq<u8>)
    ensures
        trampoline_words(source, destination, original) matches Ok(out) ==> exists|head: Seq<u8>|
            #[trigger] jump_bytes(destination + head.len(), source + original.len()) matches Ok(
                tail,
            ) && out == head + tail,
{
    if let Ok(out) = trampoline_words(source, destination, original) {
        let continuation = source + original.len();
        let start = WordLayout {
            output: word_bytes(BTI),
            positions: Seq::empty(),
            branches: Seq::empty(),
        };
        let layout = moved_words(source, destination, continuation, original, 0, start)->Ok_0;
        let head = linked(
            source,
            destination,
            continuation,
            layout.positions,
            layout.branches,
            layout.output,
            0,
        )->Ok_0;
        assert(jump_bytes(destination + head.len(), continuation) matches Ok(tail) && out == head
            + tail);
    }
}

/// Clearing the low twelve bits of an address rounds it down to its 4 KiB page.
proof fn lemma_page_of(x: usize)
    ensures
        (x & !4095usize) as int == (x as int / 4096) * 4096,
{
    assert(x & !4095usize == x - x % 4096) by (bit_vector);
    vstd::arithmetic::div_mod::lemma_fundamental_div_mod(x as int, 4096);
}

/// A moved `adrp` loads its register with the address that the original
/// instruction computes: the start of the 4 KiB page that holds the
/// instruction, moved by its immediate in pages. The value is a multiple of
/// the page size wherever the prefix is copied.
pub proof fn lemma_adrp_loads_its_page(
    source: int,
    destination: int,
    continuation: int,
    total: int,
    off: int,
    instruction: u32,
    output: Seq<u8>,
)
    requires
        instruction & 0x9f000000u32 == 0x90000000u32,
        0 <= source + off <= usize::MAX,
    ensures
        moved(source, destination, continuation, total, off, instruction, output) matches Ok(
            (out, fixups),
        ) ==> {
            let pc = source + off;
            let page = (pc / 4096) * 4096 + sign_extended(address_immediate(instruction), 21)
                * 4096;
            &&& 0 <= page <= usize::MAX
            &&& page % 4096 == 0
            &&& out == output + constant_bytes(instruction & 31u32, page as usize)
            &&& fixups.len() == 0
        },
{
    reveal(moved);
    let pc = source + off;
    assert(instruction & 0x7c000000u32 != 0x14000000u32) by (bit_vector)
        requires
            instruction & 0x9f000000u32 == 0x90000000u32,
    ;
    assert(instruction & 0xff000010u32 != 0x54000000u32 && instruction & 0x7e000000u32
        != 0x34000000u32 && instruction & 0x7e000000u32 != 0x36000000u32) by (bit_vector)
        requires
            instruction & 0x9f000000u32 == 0x90000000u32,
    ;
    assert(instruction & 0x1f000000u32 == 0x10000000u32 && instruction & 0x8000_0000u32 != 0)
        by (bit_vector)
        requires
            instruction & 0x9f000000u32 == 0x90000000u32,
    ;
    lemma_page_of(pc as usize);
    let delta = sign_extended(address_immediate(instruction), 21);
    let page = (pc / 4096) * 4096 + delta * 4096;
    assert(page == (pc / 4096 + delta) * 4096);
    vstd::arithmetic::div_mod::lemma_mod_multiples_basic(pc / 4096 + delta, 4096);
}

/// A moved `adr` loads its register with the address that the original
/// instruction computes: the address of the instruction moved by its
/// immediate in bytes.
pub proof fn lemma_adr_loads_its_address(
    source: int,
    destination: int,
    continuation: int,
    total: int,
    off: int,
    instruction: u32,
    output: Seq<u8>,
)
    requires
        instruction & 0x9f000000u32 == 0x10000000u32,
    ensures
        moved(source, destination, continuation, total, off, instruction, output) matches Ok(
            (out, fixups),
        ) ==> {
            let address = source + off + sign_extended(address_immediate(instruction), 21);
            &&& 0 <= address <= usize::MAX
            &&& out == output + constant_bytes(instruction & 31u32, address as usize)
            &&& fixups.len() == 0
        },
{
    reveal(moved);
    assert(instruction & 0x7c000000u32 != 0x14000000u32) by (bit_vector)
        requires
            instruction & 0x9f000000u32 == 0x10000000u32,
    ;
    assert(instruction & 0xff000010u32 != 0x54000000u32 && instruction & 0x7e000000u32
        != 0x34000000u32 && instruction & 0x7e000000u32 != 0x36000000u32) by (bit_vector)
        requires
            instruction & 0x9f000000u32 == 0x10000000u32,
    ;
    assert(instruction & 0x1f000000u32 == 0x10000000u32 && instruction & 0x8000_0000u32 == 0)
        by (bit_vector)
        requires
            instruction & 0x9f000000u32 == 0x10000000u32,
    ;
}

/// A moved `b` or `bl` leaves one branch to fill, at the end of the copy,
/// aimed at the target of the original instruction: its address moved by
/// four times its 26-bit immediate. A `bl` first loads the original return
/// address into `x30`.
pub proof fn lemma_branch_keeps_its_target(
    source: int,
    destination: int,
    continuation: int,
    total: int,
    off: int,
    instruction: u32,
    output: Seq<u8>,
)
    requires
        instruction & 0x7c000000u32 == 0x14000000u32,
    ensures
        moved(source, destination, continuation, total, off, instruction, output) matches Ok(
            (out, fixups),
        ) ==> {
            let target = source + off + sign_extended(instruction & 0x03ffffffu32, 26) * 4;
            let linking = instruction & 0x8000_0000u32 != 0;
            let head = if linking {
                output + constant_bytes(30, continuation as usize)
            } else {
                output
            };
            &&& fixups.len() == 1
            &&& fixups[0].0 == head.len() as usize
            &&& fixups[0].1 == target
            &&& out == head + word_bytes(0x14000000u32)
        },
{
    reveal(moved);
}

/// What running `word` does to a 64-bit register that held `held`, when the
/// word is a `movz` or `movk` of that register: `movz` sets the register to
/// its 16-bit immediate shifted into the half-word `hw`; `movk` replaces
/// that half-word and keeps the rest. Other words leave it as it was.
pub open spec fn after_move(held: u64, word: u32) -> u64 {
    let shift = (((word >> 21u32) & 3u32) * 16) as u64;
    let immediate = ((word >> 5u32) & 0xffffu32) as u64;
    if word & 0xff800000u32 == 0xd2800000u32 {
        immediate << shift
    } else if word & 0xff800000u32 == 0xf2800000u32 {
        (held & !(0xffffu64 << shift)) | (immediate << shift)
    } else {
        held
    }
}

/// The word that starts at byte `at` of `bytes`.
pub open spec fn word_in(bytes: Seq<u8>, at: int) -> u32 {
    le_value(bytes.subrange(at, at + 4)) as u32
}

/// Running the four words of a constant load sets the register to the
/// value, whatever it held before.
proof fn lemma_moves_load(value: usize, register: u32, held: u64)
    requires
        register < 32,
    ensures
        after_move(
            after_move(
                after_move(after_move(held, move_word(0, value, register)), move_word(1, value, register)),
                move_word(2, value, register),
            ),
            move_word(3, value, register),
        ) == value as u64,
        move_word(0, value, register) & 31u32 == register,
        move_word(1, value, register) & 31u32 == register,
        move_word(2, value, register) & 31u32 == register,
        move_word(3, value, register) & 31u32 == register,
{
    let x = value as u64;
    let w0 = move_word(0, value, register);
    let w1 = move_word(1, value, register);
    let w2 = move_word(2, value, register);
    let w3 = move_word(3, value, register);
    assert(w0 == 0xd2800000u32 | (0u32 << 21u32) | ((((x >> 0u64) & 0xffffu64) as u32) << 5u32) | register);
    assert(w1 == 0xf2800000u32 | (1u32 << 21u32) | ((((x >> 16u64) & 0xffffu64) as u32) << 5u32) | register);
    assert(w2 == 0xf2800000u32 | (2u32 << 21u32) | ((((x >> 32u64) & 0xffffu64) as u32) << 5u32) | register);
    assert(w3 == 0xf2800000u32 | (3u32 << 21u32) | ((((x >> 48u64) & 0xffffu64) as u32) << 5u32) | register);
    assert(after_move(held, w0) == (x & 0xffffu64)) by (bit_vector)
        requires
            register < 32,
            w0 == 0xd2800000u32 | (0u32 << 21u32) | ((((x >> 0u64) & 0xffffu64) as u32) << 5u32) | register,
    ;
    assert(after_move(x & 0xffffu64, w1) == (x & 0xffff_ffffu64)) by (bit_vector)
        requires
            register < 32,
            w1 == 0xf2800000u32 | (1u32 << 21u32) | ((((x >> 16u64) & 0xffffu64) as u32) << 5u32) | register,
    ;
    assert(after_move(x & 0xffff_ffffu64, w2) == (x & 0xffff_ffff_ffffu64)) by (bit_vector)
        requires
            register < 32,
            w2 == 0xf2800000u32 | (2u32 << 21u32) | ((((x >> 32u64) & 0xffffu64) as u32) << 5u32) | register,
    ;
    assert(after_move(x & 0xffff_ffff_ffffu64, w3) == x) by (bit_vector)
        requires
            register < 32,
            w3 == 0xf2800000u32 | (3u32 << 21u32) | ((((x >> 48u64) & 0xffffu64) as u32) << 5u32) | register,
    ;
    assert(w0 & 31u32 == register && w1 & 31u32 == register && w2 & 31u32 == register && w3 & 31u32
        == register) by (bit_vector)
        requires
            register < 32,
            w0 == 0xd2800000u32 | (0u32 << 21u32) | ((((x >> 0u64) & 0xffffu64) as u32) << 5u32) | register,
            w1 == 0xf2800000u32 | (1u32 << 21u32) | ((((x >> 16u64) & 0xffffu64) as u32) << 5u32) | register,
            w2 == 0xf2800000u32 | (2u32 << 21u32) | ((((x >> 32u64) & 0xffffu64) as u32) << 5u32) | register,
            w3 == 0xf2800000u32 | (3u32 << 21u32) | ((((x >> 48u64) & 0xffffu64) as u32) << 5u32) | register,
    ;
}

/// A word written out reads back as itself.
proof fn lemma_word_round_trip(word: u32)
    ensures
        le_value(word_bytes(word)) == word,
{
    lemma_le_round_trip(word as nat, 4);
    reveal_with_fuel(crate::code::bytes::pow256, 5);
    vstd::arithmetic::div_mod::lemma_small_mod(word as nat, 0x1_0000_0000);
}

/// The constant load that a copy uses for addresses sets its register to
/// the value: its four words all write that register, and running them
/// leaves the value there whatever the register held.
pub proof fn lemma_constant_load_sets_register(register: u32, value: usize, held: u64)
    requires
        register < 32,
    ensures
        ({
            let bytes = constant_bytes(register, value);
            &&& bytes.len() == 16
            &&& after_move(
                after_move(after_move(after_move(held, word_in(bytes, 0)), word_in(bytes, 4)), word_in(bytes, 8)),
                word_in(bytes, 12),
            ) == value as u64
            &&& forall|i: int| 0 <= i < 4 ==> #[trigger] word_in(bytes, 4 * i) & 31u32 == register
        }),
{
    let bytes = constant_bytes(register, value);
    let w0 = move_word(0, value, register);
    let w1 = move_word(1, value, register);
    let w2 = move_word(2, value, register);
    let w3 = move_word(3, value, register);
    lemma_le_length(w0 as nat, 4);
    lemma_le_length(w1 as nat, 4);
    lemma_le_length(w2 as nat, 4);
    lemma_le_length(w3 as nat, 4);
    assert(bytes.subrange(0, 4) =~= word_bytes(w0));
    assert(bytes.subrange(4, 8) =~= word_bytes(w1));
    assert(bytes.subrange(8, 12) =~= word_bytes(w2));
    assert(bytes.subrange(12, 16) =~= word_bytes(w3));
    lemma_word_round_trip(w0);
    lemma_word_round_trip(w1);
    lemma_word_round_trip(w2);
    lemma_word_round_trip(w3);
    lemma_moves_load(value, register, held);
    assert forall|i: int| 0 <= i < 4 implies #[trigger] word_in(bytes, 4 * i) & 31u32 == register by {
        if i == 0 {
        } else if i == 1 {
        } else if i == 2 {
        } else {
        }
    }
}

} // verus!
