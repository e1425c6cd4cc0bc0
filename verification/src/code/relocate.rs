//! Copies of x86-64 function prefixes that run at another address.
use crate::code::bytes::{le, le_value, lemma_le_length, lemma_signed_round_trip, push_le, read_le, signed, twos};
use crate::code::prefix::{decode, decoded, opcode_index, seen, lemma_decoded_fields, lemma_decoded_size, Call};
use crate::code::x86::endbr64;
use crate::error::Error;
use vstd::prelude::*;
use vstd::slice::slice_subrange;

verus! {

/// Output bytes of a relocation in progress.
pub struct Layout {
    /// Bytes written so far; branch fields are still zero.
    pub output: Seq<u8>,
    /// For each copied instruction: its offset in the original and in the output.
    pub positions: Seq<(usize, usize)>,
    /// Branch fields to fill: output offset of the 32-bit field and the target address.
    pub fixups: Seq<(usize, i128)>,
}

/// A value fits in a 32-bit signed displacement.
pub open spec fn fits32(value: int) -> bool {
    i32::MIN <= value <= i32::MAX
}

/// The 32-bit little-endian displacement `value`.
pub open spec fn rel32(value: int) -> Seq<u8> {
    le(twos(value, 4), 4)
}

/// `bytes` with the four bytes at `at` replaced by `field`.
pub open spec fn put4(bytes: Seq<u8>, at: int, field: Seq<u8>) -> Seq<u8> {
    bytes.subrange(0, at) + field + bytes.subrange(at + 4, bytes.len() as int)
}

/// The signed 32-bit value stored at `at`.
pub open spec fn value32(bytes: Seq<u8>, at: int) -> int {
    signed(le_value(bytes.subrange(at, at + 4)), 4)
}

/// The signed branch displacement of `width` bytes at `at`.
pub open spec fn branch_value(bytes: Seq<u8>, at: int, width: usize) -> int {
    if width == 1 {
        signed(bytes[at] as nat, 1)
    } else {
        value32(bytes, at)
    }
}

/// `jmp r/m64` with the operand of `call r/m64` in ModRM byte `modrm`.
pub open spec fn as_jump(modrm: u8) -> u8 {
    (modrm - ((modrm / 8) % 8) * 8 + 0x20) as u8
}

/// The relocated instruction at `off`, appended to `output`, and the
/// branch fields that it adds.
pub open spec fn chunk_body(
    source: int,
    original: Seq<u8>,
    off: int,
    instruction: crate::code::prefix::Instruction,
    output: Seq<u8>,
    fixups: Seq<(usize, i128)>,
) -> (Seq<u8>, Seq<(usize, i128)>) {
    let end = off + instruction.size;
    match instruction.branch {
        Some(branch) => {
            let field = off + branch.displacement;
            let target = source + end + branch_value(original, field, branch.width);
            let kept = branch.displacement - (if branch.width == 4 && branch.condition is Some {
                2int
            } else {
                1
            });
            let opcode = match branch.condition {
                Some(condition) => seq![0x0fu8, (0x80 + condition) as u8],
                None => seq![0xe9u8],
            };
            let head = output + original.subrange(off, off + kept) + opcode;
            (head + seq![0u8, 0, 0, 0], fixups.push((head.len() as usize, target as i128)))
        },
        None => match instruction.call {
            Some(Call::Direct(displacement)) => {
                let target = source + end + value32(original, off + displacement);
                let head = output.push(0xe9u8);
                (head + seq![0u8, 0, 0, 0], fixups.push((head.len() as usize, target as i128)))
            },
            Some(Call::Indirect(modrm)) => {
                let copy = original.subrange(off, end);
                (output + copy.update(modrm as int, as_jump(copy[modrm as int])), fixups)
            },
            None => (output + original.subrange(off, end), fixups),
        },
    }
}

/// `output` with the RIP-relative displacement of the instruction copied at
/// `copied_start` rebased to the copy's address.
pub open spec fn chunk_rebase(
    source: int,
    destination: int,
    original: Seq<u8>,
    off: int,
    instruction: crate::code::prefix::Instruction,
    output: Seq<u8>,
    copied_start: int,
) -> Result<Seq<u8>, Error> {
    match instruction.relative_memory {
        Some(displacement) => {
            let target = source + off + instruction.size + value32(original, off + displacement);
            let next = destination + output.len();
            if !(0 <= target <= usize::MAX) || next > usize::MAX || !fits32(target - next) {
                Err(Error::InvalidRange)
            } else {
                Ok(put4(output, copied_start + displacement, rel32(target - next)))
            }
        },
        None => Ok(output),
    }
}

/// For a call at `start`: the push displacement to the return-address literal,
/// and the literal itself.
pub open spec fn chunk_finish(is_call: bool, continuation: int, output: Seq<u8>, start: int) -> Seq<
    u8,
> {
    if is_call {
        put4(output, start + 2, rel32(output.len() - start - 6)) + le(continuation as nat, 8)
    } else {
        output
    }
}

/// The output for one instruction of size `instruction.size` at offset `off`.
///
/// A call pushes the original return address from a literal that follows the
/// instruction, then jumps; relative branches become 32-bit branches whose
/// targets are filled in later; RIP-relative memory operands are rebased to the
/// copy's address. Instructions that cannot move, and calls that are not last,
/// are rejected.
pub open spec fn chunk(
    source: int,
    destination: int,
    continuation: int,
    original: Seq<u8>,
    off: int,
    instruction: crate::code::prefix::Instruction,
    layout: Layout,
) -> Result<Layout, Error> {
    let end = off + instruction.size;
    let is_call = instruction.call is Some;
    if instruction.cannot_move {
        Err(Error::InvalidInstruction)
    } else if is_call && end != original.len() {
        Err(Error::InvalidInstruction)
    } else {
        let start = layout.output.len();
        let positions = layout.positions.push((off as usize, start as usize));
        let o1 = if is_call {
            layout.output + seq![0xffu8, 0x35, 0, 0, 0, 0]
        } else {
            layout.output
        };
        let (o2, fixups) = chunk_body(source, original, off, instruction, o1, layout.fixups);
        match chunk_rebase(source, destination, original, off, instruction, o2, o1.len() as int) {
            Err(error) => Err(error),
            Ok(o3) => Ok(
                Layout {
                    output: chunk_finish(is_call, continuation, o3, start as int),
                    positions,
                    fixups,
                },
            ),
        }
    }
}

/// Relocates the instructions of `original` from offset `off` on.
pub open spec fn relocated(
    source: int,
    destination: int,
    continuation: int,
    original: Seq<u8>,
    off: int,
    layout: Layout,
) -> Result<Layout, Error>
    decreases original.len() - off,
    via relocated_decreases
{
    if off < 0 || off >= original.len() {
        Ok(layout)
    } else {
        match decoded(original.subrange(off, original.len() as int)) {
            None => Err(Error::InvalidInstruction),
            Some(instruction) => match chunk(
                source,
                destination,
                continuation,
                original,
                off,
                instruction,
                layout,
            ) {
                Err(error) => Err(error),
                Ok(next) => relocated(
                    source,
                    destination,
                    continuation,
                    original,
                    off + instruction.size,
                    next,
                ),
            },
        }
    }
}

#[via_fn]
proof fn relocated_decreases(
    source: int,
    destination: int,
    continuation: int,
    original: Seq<u8>,
    off: int,
    layout: Layout,
) {
    if 0 <= off < original.len() {
        let rest = original.subrange(off, original.len() as int);
        if decoded(rest) is Some {
            lemma_decoded_size(rest);
        }
    }
}

/// Index of the first position whose original offset is `offset`.
pub open spec fn find_position(positions: Seq<(usize, usize)>, offset: int, k: int) -> Option<int>
    decreases positions.len() - k,
{
    if k < 0 || k >= positions.len() {
        None
    } else if positions[k].0 == offset {
        Some(k)
    } else {
        find_position(positions, offset, k + 1)
    }
}

/// Fills the branch fields from fixup `k` on. A target inside the copied
/// prefix is mapped to its copy and must start an instruction there.
pub open spec fn resolved(
    source: int,
    destination: int,
    continuation: int,
    positions: Seq<(usize, usize)>,
    fixups: Seq<(usize, i128)>,
    output: Seq<u8>,
    k: int,
) -> Result<Seq<u8>, Error>
    decreases fixups.len() - k,
{
    if k < 0 || k >= fixups.len() {
        Ok(output)
    } else {
        let (field, target) = fixups[k];
        if !(0 <= target <= usize::MAX) {
            Err(Error::InvalidRange)
        } else {
            let mapped = if source <= target < continuation {
                match find_position(positions, target - source, 0) {
                    None => Err(Error::InvalidInstruction),
                    Some(index) => if destination + positions[index].1 > usize::MAX {
                        Err(Error::InvalidRange)
                    } else {
                        Ok(destination + positions[index].1)
                    },
                }
            } else {
                Ok(target as int)
            };
            match mapped {
                Err(error) => Err(error),
                Ok(mapped) => {
                    let next = destination + field + 4;
                    if next > usize::MAX || !fits32(mapped - next) {
                        Err(Error::InvalidRange)
                    } else {
                        resolved(
                            source,
                            destination,
                            continuation,
                            positions,
                            fixups,
                            put4(output, field as int, rel32(mapped - next)),
                            k + 1,
                        )
                    }
                },
            }
        }
    }
}

/// The copy of `original` (the first instructions at `source`) that runs at
/// `destination`: an `endbr64` marker, the relocated instructions, and a jump
/// back to the first byte after `original` at `source`.
pub open spec fn trampoline_bytes(source: int, destination: int, original: Seq<u8>) -> Result<
    Seq<u8>,
    Error,
> {
    if source == 0 || destination == 0 {
        Err(Error::InvalidAddress)
    } else if source + original.len() > usize::MAX {
        Err(Error::InvalidRange)
    } else {
        let continuation = source + original.len();
        let start = Layout { output: endbr64(), positions: Seq::empty(), fixups: Seq::empty() };
        match relocated(source, destination, continuation, original, 0, start) {
            Err(error) => Err(error),
            Ok(layout) => match resolved(
                source,
                destination,
                continuation,
                layout.positions,
                layout.fixups,
                layout.output,
                0,
            ) {
                Err(error) => Err(error),
                Ok(output) => {
                    let next = destination + output.len() + 5;
                    if next > usize::MAX || !fits32(continuation - next) {
                        Err(Error::InvalidRange)
                    } else {
                        Ok(output.push(0xe9u8) + rel32(continuation - next))
                    }
                },
            },
        }
    }
}

/// An x86-64 instruction list contains a call, which needs the call bridge.
pub open spec fn has_call(original: Seq<u8>, off: int) -> Result<bool, Error>
    decreases original.len() - off,
    via has_call_decreases
{
    if off < 0 || off >= original.len() {
        Ok(false)
    } else {
        match decoded(original.subrange(off, original.len() as int)) {
            None => Err(Error::InvalidInstruction),
            Some(instruction) => if instruction.call is Some {
                Ok(true)
            } else {
                has_call(original, off + instruction.size)
            },
        }
    }
}

#[via_fn]
proof fn has_call_decreases(original: Seq<u8>, off: int) {
    if 0 <= off < original.len() {
        let rest = original.subrange(off, original.len() as int);
        if decoded(rest) is Some {
            lemma_decoded_size(rest);
        }
    }
}

/// Appends `bytes[from..to]`.
fn push_range(out: &mut Vec<u8>, bytes: &[u8], from: usize, to: usize)
    requires
        from <= to <= bytes@.len(),
    ensures
        final(out)@ == old(out)@ + bytes@.subrange(from as int, to as int),
{
    let ghost start = out@;
    let mut index = from;
    while index < to
        invariant
            from <= index <= to,
            to <= bytes@.len(),
            out@ == start + bytes@.subrange(from as int, index as int),
        decreases to - index,
    {
        out.push(bytes[index]);
        index = index + 1;
        assert(out@ =~= start + bytes@.subrange(from as int, index as int));
    }
}

/// Writes the 32-bit displacement `value` at `at`.
fn put_rel32(out: &mut Vec<u8>, at: usize, value: i128)
    requires
        fits32(value as int),
        at + 4 <= old(out)@.len(),
    ensures
        final(out)@ == put4(old(out)@, at as int, rel32(value as int)),
        final(out)@.len() == old(out)@.len(),
{
    proof {
        reveal_with_fuel(crate::code::bytes::pow256, 5);
    }
    let encoded: u64 = if value < 0 {
        (value + 0x1_0000_0000) as u64
    } else {
        value as u64
    };
    let mut field = Vec::new();
    push_le(&mut field, encoded, 4);
    proof {
        lemma_le_length(encoded as nat, 4);
    }
    let ghost before = out@;
    let length = out.len();
    let mut index: usize = 0;
    while index < 4
        invariant
            index <= 4,
            length == out@.len(),
            at + 4 <= before.len(),
            field@ == rel32(value as int),
            field@.len() == 4,
            out@.len() == before.len(),
            forall|i: int| 0 <= i < out@.len() ==> out@[i] == if at <= i < at + index {
                field@[i - at]
            } else {
                before[i]
            },
        decreases 4 - index,
    {
        out.set(at + index, field[index]);
        index = index + 1;
    }
    assert(out@ =~= put4(before, at as int, field@));
}

/// Reads the signed 32-bit value at `at`.
fn read_value32(bytes: &[u8], at: usize) -> (value: i128)
    requires
        at + 4 <= bytes@.len(),
    ensures
        value == value32(bytes@, at as int),
        -0x8000_0000 <= value <= 0x7fff_ffff,
{
    proof {
        reveal_with_fuel(crate::code::bytes::pow256, 5);
    }
    let raw = read_le(bytes, at, 4);
    proof {
        crate::code::bytes::lemma_le_value_bound(bytes@.subrange(at as int, at + 4));
    }
    if raw >= 0x8000_0000 {
        raw as i128 - 0x1_0000_0000
    } else {
        raw as i128
    }
}

/// Appends the relocated instruction; see [`chunk_body`].
#[verifier::rlimit(80)]
fn emit_body(
    source: usize,
    original: &[u8],
    off: usize,
    instruction: crate::code::prefix::Instruction,
    output: &mut Vec<u8>,
    fixups: &mut Vec<(usize, i128)>,
)
    requires
        off < original@.len(),
        decoded(original@.subrange(off as int, original@.len() as int)) == Some(instruction),
        old(output)@.len() + 64 < usize::MAX,
    ensures
        (final(output)@, final(fixups)@) == chunk_body(
            source as int,
            original@,
            off as int,
            instruction,
            old(output)@,
            old(fixups)@,
        ),
        final(output)@.len() <= old(output)@.len() + 21,
        instruction.branch is None && !(instruction.call matches Some(Call::Direct(_)))
            ==> final(output)@.len() == old(output)@.len() + instruction.size,
        final(output)@.len() >= old(output)@.len(),
        (forall|k: int| 0 <= k < old(fixups)@.len() ==> old(fixups)@[k].0 + 4 <= old(output)@.len())
            ==> (forall|k: int| 0 <= k < final(fixups)@.len() ==> final(fixups)@[k].0 + 4 <= final(output)@.len()),
{
    let length = original.len();
    let ghost rest = original@.subrange(off as int, original@.len() as int);
    proof {
        lemma_decoded_size(rest);
        lemma_decoded_fields(rest);
    }
    let ghost o1 = output@;
    let end = off + instruction.size;
    match instruction.branch {
        Some(branch) => {
            let field = off + branch.displacement;
            let value: i128 = if branch.width == 1 {
                let raw = original[field] as i128;
                proof {
                    reveal_with_fuel(crate::code::bytes::pow256, 2);
                }
                if raw >= 128 {
                    raw - 256
                } else {
                    raw
                }
            } else {
                read_value32(original, field)
            };
            let target = source as i128 + end as i128 + value;
            let kept = branch.displacement - if branch.width == 4 && branch.condition.is_some() {
                2
            } else {
                1
            };
            push_range(output, original, off, off + kept);
            match branch.condition {
                Some(condition) => {
                    output.push(0x0f);
                    output.push(0x80 + condition);
                },
                None => {
                    output.push(0xe9);
                },
            }
            fixups.push((output.len(), target));
            output.push(0);
            output.push(0);
            output.push(0);
            output.push(0);
        },
        None => match instruction.call {
            Some(Call::Direct(displacement)) => {
                let value = read_value32(original, off + displacement);
                let target = source as i128 + end as i128 + value;
                output.push(0xe9);
                fixups.push((output.len(), target));
                output.push(0);
                output.push(0);
                output.push(0);
                output.push(0);
            },
            Some(Call::Indirect(modrm)) => {
                let before = output.len();
                push_range(output, original, off, end);
                let byte = original[off + modrm];
                output.set(before + modrm, byte - ((byte / 8) % 8) * 8 + 0x20);
                proof {
                    assert(rest[modrm as int] == byte);
                    let copy = original@.subrange(off as int, end as int);
                    assert(output@ =~= o1 + copy.update(modrm as int, as_jump(copy[modrm as int])));
                }
            },
            None => {
                push_range(output, original, off, end);
            },
        },
    }
}

/// Rebases a copied RIP-relative operand; see [`chunk_rebase`].
fn rebase(
    source: usize,
    destination: usize,
    original: &[u8],
    off: usize,
    instruction: crate::code::prefix::Instruction,
    output: &mut Vec<u8>,
    copied_start: usize,
) -> (result: Result<(), Error>)
    requires
        off < original@.len(),
        decoded(original@.subrange(off as int, original@.len() as int)) == Some(instruction),
        instruction.relative_memory matches Some(d) ==> copied_start + d + 4 <= old(output)@.len(),
    ensures
        match result {
            Ok(()) => chunk_rebase(
                source as int,
                destination as int,
                original@,
                off as int,
                instruction,
                old(output)@,
                copied_start as int,
            ) == Ok::<Seq<u8>, Error>(final(output)@),
            Err(error) => chunk_rebase(
                source as int,
                destination as int,
                original@,
                off as int,
                instruction,
                old(output)@,
                copied_start as int,
            ) == Err::<Seq<u8>, Error>(error),
        },
        final(output)@.len() == old(output)@.len(),
{
    let length = original.len();
    let ghost rest = original@.subrange(off as int, original@.len() as int);
    proof {
        lemma_decoded_size(rest);
        lemma_decoded_fields(rest);
    }
    match instruction.relative_memory {
        Some(displacement) => {
            let value = read_value32(original, off + displacement);
            let target = source as i128 + (off + instruction.size) as i128 + value;
            if !(0 <= target && target <= usize::MAX as i128) {
                return Err(Error::InvalidRange);
            }
            let next = match destination.checked_add(output.len()) {
                Some(next) => next,
                None => {
                    return Err(Error::InvalidRange);
                },
            };
            let relative = target - next as i128;
            if !(-0x8000_0000 <= relative && relative <= 0x7fff_ffff) {
                return Err(Error::InvalidRange);
            }
            put_rel32(output, copied_start + displacement, relative);
            Ok(())
        },
        None => Ok(()),
    }
}

/// Relocates one instruction; see [`chunk`].
fn relocate_one(
    source: usize,
    destination: usize,
    continuation: usize,
    original: &[u8],
    off: usize,
    instruction: crate::code::prefix::Instruction,
    output: &mut Vec<u8>,
    positions: &mut Vec<(usize, usize)>,
    fixups: &mut Vec<(usize, i128)>,
) -> (result: Result<(), Error>)
    requires
        off < original@.len(),
        decoded(original@.subrange(off as int, original@.len() as int)) == Some(instruction),
        old(output)@.len() + 128 < usize::MAX,
    ensures
        match result {
            Ok(()) => chunk(
                source as int,
                destination as int,
                continuation as int,
                original@,
                off as int,
                instruction,
                Layout { output: old(output)@, positions: old(positions)@, fixups: old(fixups)@ },
            ) == Ok::<Layout, Error>(
                Layout { output: final(output)@, positions: final(positions)@, fixups: final(fixups)@ },
            ),
            Err(error) => chunk(
                source as int,
                destination as int,
                continuation as int,
                original@,
                off as int,
                instruction,
                Layout { output: old(output)@, positions: old(positions)@, fixups: old(fixups)@ },
            ) == Err::<Layout, Error>(error),
        },
        final(output)@.len() <= old(output)@.len() + 64,
        final(output)@.len() >= old(output)@.len(),
        (forall|k: int| 0 <= k < old(fixups)@.len() ==> old(fixups)@[k].0 + 4 <= old(output)@.len())
            ==> (forall|k: int| 0 <= k < final(fixups)@.len() ==> final(fixups)@[k].0 + 4 <= final(output)@.len()),
{
    let length = original.len();
    let ghost rest = original@.subrange(off as int, original@.len() as int);
    proof {
        lemma_decoded_size(rest);
        lemma_decoded_fields(rest);
    }
    let end = off + instruction.size;
    let is_call = instruction.call.is_some();
    if instruction.cannot_move {
        return Err(Error::InvalidInstruction);
    }
    if is_call && end != original.len() {
        return Err(Error::InvalidInstruction);
    }
    let ghost layout = Layout { output: output@, positions: positions@, fixups: fixups@ };
    let start = output.len();
    positions.push((off, start));
    if is_call {
        output.push(0xff);
        output.push(0x35);
        output.push(0);
        output.push(0);
        output.push(0);
        output.push(0);
    }
    let ghost o1 = output@;
    assert(o1 =~= if is_call {
        layout.output + seq![0xffu8, 0x35, 0, 0, 0, 0]
    } else {
        layout.output
    });
    let copied_start = output.len();
    emit_body(source, original, off, instruction, output, fixups);
    let ghost o2 = output@;
    assert((o2, fixups@) == chunk_body(source as int, original@, off as int, instruction, o1, layout.fixups));
    match rebase(source, destination, original, off, instruction, output, copied_start) {
        Ok(()) => {},
        Err(error) => {
            return Err(error);
        },
    }
    let ghost o3 = output@;
    if is_call {
        let distance = (output.len() - start - 6) as i128;
        put_rel32(output, start + 2, distance);
        push_le(output, continuation as u64, 8);
        proof {
            lemma_le_length(continuation as nat, 8);
        }
    }
    assert(output@ == chunk_finish(is_call, continuation as int, o3, start as int));
    Ok(())
}

/// Index of the first position whose original offset is `offset`.
pub(crate) fn position_of(positions: &Vec<(usize, usize)>, offset: usize) -> (index: Option<usize>)
    ensures
        match index {
            Some(index) => find_position(positions@, offset as int, 0) == Some(index as int)
                && index < positions@.len(),
            None => find_position(positions@, offset as int, 0).is_none(),
        },
{
    let mut index: usize = 0;
    while index < positions.len()
        invariant
            index <= positions@.len(),
            find_position(positions@, offset as int, 0) == find_position(
                positions@,
                offset as int,
                index as int,
            ),
        decreases positions@.len() - index,
    {
        if positions[index].0 == offset {
            return Some(index);
        }
        index = index + 1;
    }
    None
}

/// Fills every branch field; see [`resolved`].
#[verifier::loop_isolation(false)]
fn resolve(
    source: usize,
    destination: usize,
    continuation: usize,
    positions: &Vec<(usize, usize)>,
    fixups: &Vec<(usize, i128)>,
    output: &mut Vec<u8>,
) -> (result: Result<(), Error>)
    requires
        forall|k: int| 0 <= k < fixups@.len() ==> fixups@[k].0 + 4 <= old(output)@.len(),
    ensures
        match result {
            Ok(()) => resolved(
                source as int,
                destination as int,
                continuation as int,
                positions@,
                fixups@,
                old(output)@,
                0,
            ) == Ok::<Seq<u8>, Error>(final(output)@),
            Err(error) => resolved(
                source as int,
                destination as int,
                continuation as int,
                positions@,
                fixups@,
                old(output)@,
                0,
            ) == Err::<Seq<u8>, Error>(error),
        },
        final(output)@.len() == old(output)@.len(),
{
    let ghost start = output@;
    let mut k: usize = 0;
    while k < fixups.len()
        invariant
            k <= fixups@.len(),
            output@.len() == start.len(),
            forall|j: int| 0 <= j < fixups@.len() ==> fixups@[j].0 + 4 <= start.len(),
            resolved(
                source as int,
                destination as int,
                continuation as int,
                positions@,
                fixups@,
                start,
                0,
            ) == resolved(
                source as int,
                destination as int,
                continuation as int,
                positions@,
                fixups@,
                output@,
                k as int,
            ),
        decreases fixups@.len() - k,
    {
        let (field, target) = fixups[k];
        if !(0 <= target && target <= usize::MAX as i128) {
            return Err(Error::InvalidRange);
        }
        let target = target as usize;
        let mapped = if source <= target && target < continuation {
            match position_of(positions, target - source) {
                None => {
                    return Err(Error::InvalidInstruction);
                },
                Some(index) => match destination.checked_add(positions[index].1) {
                    Some(mapped) => mapped,
                    None => {
                        return Err(Error::InvalidRange);
                    },
                },
            }
        } else {
            target
        };
        let next = match destination.checked_add(field) {
            Some(at) => match at.checked_add(4) {
                Some(next) => next,
                None => {
                    return Err(Error::InvalidRange);
                },
            },
            None => {
                return Err(Error::InvalidRange);
            },
        };
        let relative = mapped as i128 - next as i128;
        if !(-0x8000_0000 <= relative && relative <= 0x7fff_ffff) {
            return Err(Error::InvalidRange);
        }
        put_rel32(output, field, relative);
        k = k + 1;
    }
    Ok(())
}

/// Copies the instructions `original`, taken from `source`, so that they run
/// at `destination` and then continue after them at `source`.
#[verifier::loop_isolation(false)]
#[verifier::rlimit(60)]
pub fn trampoline(source: usize, destination: usize, original: &[u8]) -> (result: Result<
    Vec<u8>,
    Error,
>)
    requires
        original@.len() < usize::MAX / 128,
    ensures
        match result {
            Ok(bytes) => trampoline_bytes(source as int, destination as int, original@) == Ok::<
                Seq<u8>,
                Error,
            >(bytes@),
            Err(error) => trampoline_bytes(source as int, destination as int, original@) == Err::<
                Seq<u8>,
                Error,
            >(error),
        },
{
    if source == 0 || destination == 0 {
        return Err(Error::InvalidAddress);
    }
    let continuation = match source.checked_add(original.len()) {
        Some(continuation) => continuation,
        None => {
            return Err(Error::InvalidRange);
        },
    };
    let mut output: Vec<u8> = Vec::new();
    output.push(0xf3);
    output.push(0x0f);
    output.push(0x1e);
    output.push(0xfa);
    let mut positions: Vec<(usize, usize)> = Vec::new();
    let mut fixups: Vec<(usize, i128)> = Vec::new();
    let ghost first = Layout { output: output@, positions: positions@, fixups: fixups@ };
    assert(first.output =~= endbr64());
    let mut offset: usize = 0;
    while offset < original.len()
        invariant
            offset <= original@.len(),
            original@.len() < usize::MAX / 128,
            output@.len() <= 4 + 64 * offset,
            forall|k: int| 0 <= k < fixups@.len() ==> fixups@[k].0 + 4 <= output@.len(),
            relocated(
                source as int,
                destination as int,
                continuation as int,
                original@,
                0,
                first,
            ) == relocated(
                source as int,
                destination as int,
                continuation as int,
                original@,
                offset as int,
                Layout { output: output@, positions: positions@, fixups: fixups@ },
            ),
        decreases original@.len() - offset,
    {
        let rest = slice_subrange(original, offset, original.len());
        let instruction = match decode(rest) {
            Ok(instruction) => instruction,
            Err(error) => {
                return Err(error);
            },
        };
        proof {
            lemma_decoded_size(rest@);
            lemma_decoded_fields(rest@);
        }
        let ghost fixups_before = fixups@;
        let ghost output_before = output@;
        match relocate_one(
            source,
            destination,
            continuation,
            original,
            offset,
            instruction,
            &mut output,
            &mut positions,
            &mut fixups,
        ) {
            Ok(()) => {},
            Err(error) => {
                return Err(error);
            },
        }
        offset = offset + instruction.size;
    }
    let ghost layout = Layout { output: output@, positions: positions@, fixups: fixups@ };
    assert(relocated(source as int, destination as int, continuation as int, original@, 0, first)
        == Ok::<Layout, Error>(layout));
    match resolve(source, destination, continuation, &positions, &fixups, &mut output) {
        Ok(()) => {},
        Err(error) => {
            return Err(error);
        },
    }
    let ghost resolved_output = output@;
    let next = match destination.checked_add(output.len()) {
        Some(at) => match at.checked_add(5) {
            Some(next) => next,
            None => {
                return Err(Error::InvalidRange);
            },
        },
        None => {
            return Err(Error::InvalidRange);
        },
    };
    let relative = continuation as i128 - next as i128;
    if !(-0x8000_0000 <= relative && relative <= 0x7fff_ffff) {
        return Err(Error::InvalidRange);
    }
    output.push(0xe9);
    let at = output.len();
    output.push(0);
    output.push(0);
    output.push(0);
    output.push(0);
    let ghost pushed = output@;
    put_rel32(&mut output, at, relative);
    assert(pushed.subrange(0, at as int) =~= resolved_output.push(0xe9u8));
    assert(output@ =~= pushed.subrange(0, at as int) + rel32(relative as int));
    Ok(output)
}

/// Tells whether `original` holds a call, which needs the call bridge.
pub fn needs_call_bridge(original: &[u8]) -> (result: Result<bool, Error>)
    ensures
        match result {
            Ok(found) => has_call(original@, 0) == Ok::<bool, Error>(found),
            Err(error) => has_call(original@, 0) == Err::<bool, Error>(error),
        },
{
    let mut offset: usize = 0;
    while offset < original.len()
        invariant
            offset <= original@.len(),
            has_call(original@, 0) == has_call(original@, offset as int),
        decreases original@.len() - offset,
    {
        let rest = slice_subrange(original, offset, original.len());
        let instruction = match decode(rest) {
            Ok(instruction) => instruction,
            Err(error) => {
                return Err(error);
            },
        };
        proof {
            lemma_decoded_size(rest@);
        }
        if instruction.call.is_some() {
            return Ok(true);
        }
        offset = offset + instruction.size;
    }
    Ok(false)
}

/// Where the relay jump to the dispatcher starts in a page of saved entries.
pub const RELAY: usize = 512;

/// `bytes` cut or padded with `int3` to `length` bytes.
pub open spec fn fitted(bytes: Seq<u8>, length: nat) -> Seq<u8> {
    if bytes.len() >= length {
        bytes.take(length as int)
    } else {
        bytes + Seq::new((length - bytes.len()) as nat, |i: int| 0xccu8)
    }
}

/// The page of a saved entry at `page`: the copy of `original`, taken from
/// `address`, that continues after it at `address`, fitted to [`RELAY`]
/// bytes, then the relay jump to `dispatcher`.
pub open spec fn saved_entry_bytes(address: int, page: int, original: Seq<u8>, dispatcher: int) -> Result<
    Seq<u8>,
    Error,
> {
    match trampoline_bytes(address, page, original) {
        Err(error) => Err(error),
        Ok(copy) => match crate::code::x86::jump_bytes(page + RELAY, dispatcher) {
            None => Err(Error::InvalidRange),
            Some(relay) => Ok(fitted(copy, RELAY as nat) + relay),
        },
    }
}

/// Builds the page of a saved entry; see [`saved_entry_bytes`].
pub fn saved_entry(address: usize, page: usize, original: &[u8], dispatcher: usize) -> (result: Result<
    Vec<u8>,
    Error,
>)
    requires
        original@.len() < usize::MAX / 128,
        page + RELAY <= usize::MAX,
    ensures
        match result {
            Ok(bytes) => saved_entry_bytes(address as int, page as int, original@, dispatcher as int)
                == Ok::<Seq<u8>, Error>(bytes@),
            Err(error) => saved_entry_bytes(
                address as int,
                page as int,
                original@,
                dispatcher as int,
            ) == Err::<Seq<u8>, Error>(error),
        },
{
    let mut saved = trampoline(address, page, original)?;
    let ghost copy = saved@;
    if saved.len() >= RELAY {
        saved.truncate(RELAY);
    } else {
        while saved.len() < RELAY
            invariant
                copy.len() <= saved@.len() <= RELAY,
                saved@ == copy + Seq::new((saved@.len() - copy.len()) as nat, |i: int| 0xccu8),
            decreases RELAY - saved@.len(),
        {
            saved.push(0xcc);
            assert(saved@ =~= copy + Seq::new((saved@.len() - copy.len()) as nat, |i: int| 0xccu8));
        }
    }
    assert(saved@ =~= fitted(copy, RELAY as nat));
    let mut relay = crate::code::x86::jump(page + RELAY, dispatcher)?;
    saved.append(&mut relay);
    Ok(saved)
}

/// The output starts with `prefix` and every branch field to fill lies
/// after it, within the output.
pub open spec fn keeps(layout: Layout, prefix: Seq<u8>) -> bool {
    &&& layout.output.len() >= prefix.len()
    &&& layout.output.subrange(0, prefix.len() as int) == prefix
    &&& forall|j: int|
        0 <= j < layout.fixups.len() ==> prefix.len() <= (#[trigger] layout.fixups[j]).0
            && layout.fixups[j].0 + 4 <= layout.output.len()
}

/// The output starts with the `endbr64` marker and every branch field to
/// fill lies after it, within the output.
pub open spec fn marked(layout: Layout) -> bool {
    keeps(layout, endbr64())
}

/// Writing four bytes after the first `n` keeps them and the length.
proof fn lemma_put4_keeps(bytes: Seq<u8>, n: int, at: int, value: int)
    requires
        0 <= n <= at,
        at + 4 <= bytes.len(),
    ensures
        put4(bytes, at, rel32(value)).len() == bytes.len(),
        put4(bytes, at, rel32(value)).subrange(0, n) == bytes.subrange(0, n),
{
    lemma_le_length(twos(value, 4), 4);
    assert(put4(bytes, at, rel32(value)).subrange(0, n) =~= bytes.subrange(0, n));
}

/// Relocating one instruction keeps the marker and the branch fields in place.
#[verifier::rlimit(40)]
proof fn lemma_chunk_marked(
    source: int,
    destination: int,
    continuation: int,
    original: Seq<u8>,
    off: int,
    layout: Layout,
    prefix: Seq<u8>,
)
    requires
        keeps(layout, prefix),
        0 <= off < original.len(),
        original.len() < usize::MAX / 128,
        layout.output.len() <= 4 + 20 * off,
        decoded(original.subrange(off, original.len() as int)) is Some,
    ensures
        chunk(
            source,
            destination,
            continuation,
            original,
            off,
            decoded(original.subrange(off, original.len() as int))->0,
            layout,
        ) matches Ok(next) ==> keeps(next, prefix) && next.output.len() <= 4 + 20 * (off
            + decoded(original.subrange(off, original.len() as int))->0.size),
{
    let rest = original.subrange(off, original.len() as int);
    let instruction = decoded(rest)->0;
    lemma_decoded_size(rest);
    lemma_decoded_fields(rest);
    let n = prefix.len() as int;
    if let Ok(next) = chunk(source, destination, continuation, original, off, instruction, layout) {
        let end = off + instruction.size;
        let is_call = instruction.call is Some;
        let start = layout.output.len();
        let o1 = if is_call {
            layout.output + seq![0xffu8, 0x35, 0, 0, 0, 0]
        } else {
            layout.output
        };
        assert(o1.subrange(0, n) =~= layout.output.subrange(0, n));
        let (o2, fixups) = chunk_body(source, original, off, instruction, o1, layout.fixups);
        assert(o2.len() >= o1.len());
        assert(o2.len() <= o1.len() + instruction.size + 5);
        assert(o2.len() <= usize::MAX / 2);
        assert(o2.subrange(0, n) =~= o1.subrange(0, n));
        assert forall|j: int| 0 <= j < fixups.len() implies n <= (#[trigger] fixups[j]).0 && fixups[j].0
            + 4 <= o2.len() by {
            if j < layout.fixups.len() {
                assert(fixups[j] == layout.fixups[j]);
            } else {
                match instruction.branch {
                    Some(branch) => {
                        let kept = branch.displacement - (if branch.width == 4
                            && branch.condition is Some {
                            2int
                        } else {
                            1
                        });
                        let opcode = match branch.condition {
                            Some(condition) => seq![0x0fu8, (0x80 + condition) as u8],
                            None => seq![0xe9u8],
                        };
                        let head = o1 + original.subrange(off, off + kept) + opcode;
                        assert(fixups[j].0 == head.len());
                        assert(o2 == head + seq![0u8, 0, 0, 0]);
                    },
                    None => {
                        let head = o1.push(0xe9u8);
                        assert(fixups[j].0 == head.len());
                        assert(o2 == head + seq![0u8, 0, 0, 0]);
                    },
                }
            }
        }
        let o3 = chunk_rebase(source, destination, original, off, instruction, o2, o1.len() as int)->Ok_0;
        if let Some(displacement) = instruction.relative_memory {
            let target = source + off + instruction.size + value32(original, off + displacement);
            let here = destination + o2.len();
            assert(o2.len() == o1.len() + instruction.size);
            lemma_put4_keeps(o2, n, o1.len() + displacement, target - here);
        }
        assert(o3.len() == o2.len());
        assert(o3.subrange(0, n) == o2.subrange(0, n));
        let o4 = chunk_finish(is_call, continuation, o3, start as int);
        if is_call {
            lemma_put4_keeps(o3, n, start + 2int, o3.len() - start - 6);
            let put = put4(o3, start + 2int, rel32(o3.len() - start - 6));
            assert(o4.subrange(0, n) =~= put.subrange(0, n));
            lemma_le_length(continuation as nat, 8);
        }
        assert(next.output == o4);
        assert(next.fixups == fixups);
        assert(o4.len() <= o3.len() + 8);
    }
}

/// Relocating the instructions from `off` on keeps the marker and the branch
/// fields in place.
proof fn lemma_relocated_marked(
    source: int,
    destination: int,
    continuation: int,
    original: Seq<u8>,
    off: int,
    layout: Layout,
    prefix: Seq<u8>,
)
    requires
        keeps(layout, prefix),
        0 <= off,
        original.len() < usize::MAX / 128,
        layout.output.len() <= 4 + 20 * off,
    ensures
        relocated(source, destination, continuation, original, off, layout) matches Ok(done)
            ==> keeps(done, prefix),
    decreases original.len() - off,
{
    if 0 <= off < original.len() {
        let rest = original.subrange(off, original.len() as int);
        if let Some(instruction) = decoded(rest) {
            lemma_decoded_size(rest);
            lemma_chunk_marked(source, destination, continuation, original, off, layout, prefix);
            if let Ok(next) = chunk(
                source,
                destination,
                continuation,
                original,
                off,
                instruction,
                layout,
            ) {
                lemma_relocated_marked(
                    source,
                    destination,
                    continuation,
                    original,
                    off + instruction.size,
                    next,
                    prefix,
                );
            }
        }
    }
}

/// Filling branch fields keeps the marker and the length.
proof fn lemma_resolved_marked(
    source: int,
    destination: int,
    continuation: int,
    positions: Seq<(usize, usize)>,
    fixups: Seq<(usize, i128)>,
    output: Seq<u8>,
    k: int,
    prefix: Seq<u8>,
)
    requires
        output.len() >= prefix.len(),
        output.subrange(0, prefix.len() as int) == prefix,
        forall|j: int|
            0 <= j < fixups.len() ==> prefix.len() <= (#[trigger] fixups[j]).0 && fixups[j].0 + 4
                <= output.len(),
    ensures
        resolved(source, destination, continuation, positions, fixups, output, k) matches Ok(done)
            ==> done.len() == output.len() && done.subrange(0, prefix.len() as int) == prefix,
    decreases fixups.len() - k,
{
    if 0 <= k < fixups.len() {
        let (field, target) = fixups[k];
        if let Ok(done) = resolved(source, destination, continuation, positions, fixups, output, k) {
            let mapped = if source <= target < continuation {
                let index = find_position(positions, target - source, 0)->Some_0;
                destination + positions[index].1
            } else {
                target as int
            };
            let next = destination + field + 4;
            assert(prefix.len() <= fixups[k].0 && fixups[k].0 + 4 <= output.len());
            lemma_put4_keeps(output, prefix.len() as int, field as int, mapped - next);
            let put = put4(output, field as int, rel32(mapped - next));
            lemma_resolved_marked(
                source,
                destination,
                continuation,
                positions,
                fixups,
                put,
                k + 1,
                prefix,
            );
        }
    }
}

/// A copy of a prefix starts with the `endbr64` marker, so that it is a valid
/// indirect branch target under shadow-stack and branch-tracking rules.
pub proof fn lemma_trampoline_marked(source: int, destination: int, original: Seq<u8>)
    requires
        original.len() < usize::MAX / 128,
    ensures
        trampoline_bytes(source, destination, original) matches Ok(out) ==> out.len() >= 4
            && out.subrange(0, 4) == endbr64(),
{
    if let Ok(out) = trampoline_bytes(source, destination, original) {
        let continuation = source + original.len();
        let start = Layout { output: endbr64(), positions: Seq::empty(), fixups: Seq::empty() };
        assert(endbr64().subrange(0, 4) =~= endbr64());
        lemma_relocated_marked(source, destination, continuation, original, 0, start, endbr64());
        let layout = relocated(source, destination, continuation, original, 0, start)->Ok_0;
        lemma_resolved_marked(
            source,
            destination,
            continuation,
            layout.positions,
            layout.fixups,
            layout.output,
            0,
            endbr64(),
        );
        let output = resolved(
            source,
            destination,
            continuation,
            layout.positions,
            layout.fixups,
            layout.output,
            0,
        )->Ok_0;
        let next = destination + output.len() + 5;
        assert(out == output.push(0xe9u8) + rel32(continuation - next));
        assert(out.subrange(0, 4) =~= output.subrange(0, 4));
    }
}

/// A relocated conditional branch keeps its condition: when a prefix starts
/// with a short `jcc` (0x70 + cc with an 8-bit displacement) or a near one
/// (0x0f, 0x80 + cc with a 32-bit displacement), its copy holds, right after
/// the `endbr64` marker, the near branch 0x0f, 0x80 + cc with the same
/// condition code, whatever follows the branch in the prefix.
pub proof fn lemma_conditional_branch_keeps_condition(source: int, destination: int, original: Seq<u8>)
    requires
        original.len() < usize::MAX / 128,
        (original.len() >= 2 && 0x70 <= original[0] <= 0x7f) || (original.len() >= 6 && original[0]
            == 0x0f && 0x80 <= original[1] <= 0x8f),
    ensures
        trampoline_bytes(source, destination, original) matches Ok(out) ==> {
            &&& out.len() >= 6
            &&& out[4] == 0x0f
            &&& out[5] == (if original[0] == 0x0f {
                original[1] as int
            } else {
                original[0] + 0x10
            })
        },
{
    if let Ok(out) = trampoline_bytes(source, destination, original) {
        let short = original[0] != 0x0f;
        let code: u8 = if short {
            (original[0] + 0x10) as u8
        } else {
            original[1]
        };
        let continuation = source + original.len();
        let start = Layout { output: endbr64(), positions: Seq::empty(), fixups: Seq::empty() };
        let rest = original.subrange(0, original.len() as int);
        assert(rest =~= original);
        assert(opcode_index(original, 0) == 0);
        assert(!seen(original, 0, 0x66) && !seen(original, 0, 0x67) && !seen(original, 0, 0xf0));
        let instruction = decoded(original)->0;
        assert(decoded(original) is Some);
        assert(instruction.size == (if short {
            2usize
        } else {
            6usize
        }));
        assert(!instruction.cannot_move && instruction.call is None && instruction.relative_memory is None);
        let first = chunk(source, destination, continuation, original, 0, instruction, start)->Ok_0;
        let prefix = endbr64() + seq![0x0fu8, code];
        assert(first.output.len() == 10);
        assert(first.output.subrange(0, 6) =~= prefix);
        assert(keeps(first, prefix));
        lemma_relocated_marked(
            source,
            destination,
            continuation,
            original,
            instruction.size as int,
            first,
            prefix,
        );
        let layout = relocated(source, destination, continuation, original, 0, start)->Ok_0;
        assert(layout == relocated(
            source,
            destination,
            continuation,
            original,
            instruction.size as int,
            first,
        )->Ok_0);
        lemma_resolved_marked(
            source,
            destination,
            continuation,
            layout.positions,
            layout.fixups,
            layout.output,
            0,
            prefix,
        );
        let output = resolved(
            source,
            destination,
            continuation,
            layout.positions,
            layout.fixups,
            layout.output,
            0,
        )->Ok_0;
        let next = destination + output.len() + 5;
        assert(out == output.push(0xe9u8) + rel32(continuation - next));
        assert(out[4] == output.subrange(0, 6)[4]);
        assert(out[5] == output.subrange(0, 6)[5]);
    }
}

/// A relocated RIP-relative operand still names the same absolute address:
/// when the first instruction of a prefix reads memory relative to the
/// instruction pointer and is no call, its copy follows the `endbr64`
/// marker with the same bytes up to the displacement field, and the new
/// displacement, taken from the end of the copy at `destination`, reaches
/// the address that the original displacement reached from the end of the
/// instruction at `source`.
/// The first step of relocating a prefix whose first instruction reads
/// memory relative to the instruction pointer and is no call: the marker,
/// then the instruction with its displacement rebased to the copy.
#[verifier::rlimit(60)]
proof fn lemma_rip_relative_first_chunk(
    source: int,
    destination: int,
    continuation: int,
    original: Seq<u8>,
)
    requires
        original.len() < usize::MAX / 128,
        decoded(original) is Some,
        decoded(original)->0.relative_memory is Some,
        decoded(original)->0.call is None,
    ensures
        ({
            let i = decoded(original)->0;
            let d = i.relative_memory->Some_0 as int;
            let size = i.size as int;
            let o2 = endbr64() + original.subrange(0, size);
            let target = source + size + value32(original, d);
            let next = destination + 4 + size;
            let start = Layout { output: endbr64(), positions: Seq::empty(), fixups: Seq::empty() };
            chunk(source, destination, continuation, original, 0, i, start) matches Ok(first) ==> {
                &&& first.output == put4(o2, 4 + d, rel32(target - next))
                &&& first.fixups.len() == 0
                &&& o2.len() == 4 + size
                &&& 4 + d + 4 <= o2.len()
                &&& -0x8000_0000 <= target - next < 0x8000_0000
            }
        }),
{
    lemma_decoded_size(original);
    lemma_decoded_fields(original);
}

#[verifier::rlimit(60)]
pub proof fn lemma_rip_relative_operand_keeps_its_target(
    source: int,
    destination: int,
    original: Seq<u8>,
)
    requires
        original.len() < usize::MAX / 128,
    ensures
        decoded(original) matches Some(i) ==> (i.relative_memory matches Some(d) ==> (i.call is None
            ==> (trampoline_bytes(source, destination, original) matches Ok(out) ==> {
            &&& out.len() >= 4 + i.size
            &&& out.subrange(4, 4 + d) == original.subrange(0, d as int)
            &&& destination + 4 + i.size + value32(out, 4 + d) == source + i.size + value32(
                original,
                d as int,
            )
        }))),
{
    if let Some(instruction) = decoded(original) {
        if let Some(d) = instruction.relative_memory {
            if instruction.call is None {
                if let Ok(out) = trampoline_bytes(source, destination, original) {
                    lemma_decoded_size(original);
                    lemma_decoded_fields(original);
                    let size = instruction.size as int;
                    let continuation = source + original.len();
                    let start = Layout {
                        output: endbr64(),
                        positions: Seq::empty(),
                        fixups: Seq::empty(),
                    };
                    let rest = original.subrange(0, original.len() as int);
                    assert(rest =~= original);
                    let first = chunk(source, destination, continuation, original, 0, instruction, start)->Ok_0;
                    let o2 = endbr64() + original.subrange(0, size);
                    let target = source + size + value32(original, d as int);
                    let next = destination + 4 + size;
                    lemma_rip_relative_first_chunk(source, destination, continuation, original);
                    lemma_put4_keeps(o2, 4, 4 + d, target - next);
                    lemma_le_length(twos(target - next, 4), 4);
                    let prefix = first.output;
                    assert(first.output.subrange(0, prefix.len() as int) =~= prefix);
                    assert(keeps(first, prefix));
                    lemma_relocated_marked(source, destination, continuation, original, size, first, prefix);
                    let layout = relocated(source, destination, continuation, original, 0, start)->Ok_0;
                    lemma_resolved_marked(
                        source,
                        destination,
                        continuation,
                        layout.positions,
                        layout.fixups,
                        layout.output,
                        0,
                        prefix,
                    );
                    let output = resolved(
                        source,
                        destination,
                        continuation,
                        layout.positions,
                        layout.fixups,
                        layout.output,
                        0,
                    )->Ok_0;
                    let tail_next = destination + output.len() + 5;
                    assert(out == output.push(0xe9u8) + rel32(continuation - tail_next));
                    assert(out.subrange(0, prefix.len() as int) =~= prefix);
                    let field = rel32(target - next);
                    assert forall|k: int| 0 <= k < 4 + size implies #[trigger] out[k] == prefix[k] by {
                        assert(out.subrange(0, prefix.len() as int)[k] == out[k]);
                    }
                    assert forall|k: int| 0 <= k < d implies #[trigger] out[4 + k] == original[k] by {
                        assert(prefix[4 + k] == o2[4 + k]);
                        assert(o2[4 + k] == original.subrange(0, size)[k]);
                    }
                    assert(out.subrange(4, 4 + d) =~= original.subrange(0, d as int));
                    assert forall|k: int| 0 <= k < 4 implies #[trigger] out[4 + d + k] == field[k] by {
                        assert(prefix[4 + d + k] == field[k]);
                    }
                    assert(out.subrange(4 + d, 4 + d + 4) =~= field);
                    lemma_signed_round_trip(target - next);
                }
            }
        }
    }
}

/// A relocated conditional branch still reaches the original target: for a
/// prefix that is one short `jcc` (0x70 + cc, rel8) or one near `jcc` (0x0f,
/// 0x80 + cc, rel32) whose target lies outside the prefix, the copy's near
/// branch, at `destination` after the four-byte marker, has a displacement
/// that, taken from the end of the six-byte branch, reaches that target.
#[verifier::rlimit(60)]
pub proof fn lemma_conditional_branch_keeps_target(source: int, destination: int, original: Seq<u8>)
    requires
        0 <= source <= usize::MAX,
        0 <= destination <= usize::MAX,
        (original.len() == 2 && 0x70 <= original[0] <= 0x7f) || (original.len() == 6 && original[0]
            == 0x0f && 0x80 <= original[1] <= 0x8f),
    ensures
        ({
            let displacement = if original.len() == 2 {
                if original[1] >= 128 {
                    original[1] - 256
                } else {
                    original[1] as int
                }
            } else {
                value32(original, 2)
            };
            let target = source + original.len() + displacement;
            !(source <= target < source + original.len()) ==> (trampoline_bytes(
                source,
                destination,
                original,
            ) matches Ok(out) ==> out.len() >= 10 && destination + 10 + value32(out, 6) == target)
        }),
{
    let short = original.len() == 2;
    let displacement = if short {
        if original[1] >= 128 {
            original[1] - 256
        } else {
            original[1] as int
        }
    } else {
        value32(original, 2)
    };
    let target = source + original.len() + displacement;
    if !(source <= target < source + original.len()) {
        if let Ok(out) = trampoline_bytes(source, destination, original) {
            let continuation = source + original.len();
            let start = Layout { output: endbr64(), positions: Seq::empty(), fixups: Seq::empty() };
            let rest = original.subrange(0, original.len() as int);
            assert(rest =~= original);
            assert(opcode_index(original, 0) == 0);
            assert(!seen(original, 0, 0x66) && !seen(original, 0, 0x67) && !seen(original, 0, 0xf0));
            let instruction = decoded(original)->0;
            assert(decoded(original) is Some);
            assert(instruction.size == original.len());
            reveal_with_fuel(crate::code::bytes::pow256, 2);
            assert(branch_value(original, if short {
                1int
            } else {
                2
            }, if short {
                1usize
            } else {
                4
            }) == displacement);
            let first = chunk(source, destination, continuation, original, 0, instruction, start)->Ok_0;
            assert(first.output.len() == 10);
            assert(first.fixups == seq![(6usize, target as i128)]);
            assert(chunk(source, destination, continuation, original, 0, instruction, start) is Ok);
            assert(relocated(
                source,
                destination,
                continuation,
                original,
                original.len() as int,
                first,
            ) == Ok::<Layout, Error>(first));
            assert(relocated(source, destination, continuation, original, 0, start) == Ok::<
                Layout,
                Error,
            >(first));
            let next = destination + 10;
            assert(usize::MAX <= 0xffff_ffff_ffff_ffffu64);
            if !short {
                crate::code::bytes::lemma_le_value_bound(original.subrange(2, 6));
                reveal_with_fuel(crate::code::bytes::pow256, 5);
            }
            assert(-0x1_0000_0000 <= displacement <= 0x1_0000_0000);
            assert((target as i128) as int == target);
            assert(resolved(
                source,
                destination,
                continuation,
                first.positions,
                first.fixups,
                first.output,
                0,
            ) is Ok);
            assert(-0x8000_0000 <= target - next < 0x8000_0000);
            let field = rel32(target - next);
            let output = put4(first.output, 6, field);
            assert(resolved(
                source,
                destination,
                continuation,
                first.positions,
                first.fixups,
                output,
                1,
            ) == Ok::<Seq<u8>, Error>(output));
            assert(resolved(
                source,
                destination,
                continuation,
                first.positions,
                first.fixups,
                first.output,
                0,
            ) == Ok::<Seq<u8>, Error>(output));
            lemma_le_length(twos(target - next, 4), 4);
            let tail_next = destination + output.len() + 5;
            assert(out == output.push(0xe9u8) + rel32(continuation - tail_next));
            assert(out.subrange(6, 10) =~= field);
            lemma_signed_round_trip(target - next);
        }
    }
}

/// A copy of a prefix ends with a jump back to the first byte after the
/// prefix at its source.
pub proof fn lemma_trampoline_returns(source: int, destination: int, original: Seq<u8>)
    ensures
        trampoline_bytes(source, destination, original) matches Ok(out) ==> {
            &&& out.len() >= 5
            &&& out[out.len() - 5] == 0xe9
            &&& out.subrange(out.len() - 4, out.len() as int) == rel32(
                source + original.len() - (destination + out.len()),
            )
        },
{
    if let Ok(out) = trampoline_bytes(source, destination, original) {
        let continuation = source + original.len();
        let start = Layout { output: endbr64(), positions: Seq::empty(), fixups: Seq::empty() };
        let layout = relocated(source, destination, continuation, original, 0, start)->Ok_0;
        let output = resolved(
            source,
            destination,
            continuation,
            layout.positions,
            layout.fixups,
            layout.output,
            0,
        )->Ok_0;
        let next = destination + output.len() + 5;
        lemma_le_length(twos(continuation - next, 4), 4);
        assert(out == output.push(0xe9u8) + rel32(continuation - next));
        assert(out.subrange(out.len() - 4, out.len() as int) =~= rel32(continuation - next));
    }
}

} // verus!
