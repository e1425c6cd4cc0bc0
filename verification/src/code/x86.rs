//! Entry patches for x86-64.
use crate::code::bytes::{
    le, le_value, lemma_le_length, lemma_le_round_trip, lemma_signed_round_trip, pow256, push_le,
    signed, twos,
};
use crate::code::prefix::{decoded, instruction, lemma_decoded_size};
use crate::error::Error;
use vstd::prelude::*;
use vstd::slice::{slice_subrange, slice_to_vec};

verus! {

/// Bytes read from a function entry before planning a patch.
pub const MAX_PREFIX: usize = 32;

/// The `endbr64` marker at indirect-branch targets under CET.
pub const ENDBR64: [u8; 4] = [0xf3, 0x0f, 0x1e, 0xfa];

/// The bytes of `endbr64`.
pub open spec fn endbr64() -> Seq<u8> {
    seq![0xf3u8, 0x0f, 0x1e, 0xfa]
}

/// The code that replaces a function prefix.
pub struct Plan {
    /// Distance from the function entry to the first patched byte.
    pub offset: usize,
    /// The whole instructions that the patch overwrites.
    pub original: Vec<u8>,
    /// The jump, padded with `nop` to the length of `original`.
    pub replacement: Vec<u8>,
}

/// A plan as values.
pub struct PlanView {
    /// Distance from the function entry to the first patched byte.
    pub offset: nat,
    /// The overwritten instructions.
    pub original: Seq<u8>,
    /// The padded jump.
    pub replacement: Seq<u8>,
}

impl View for Plan {
    type V = PlanView;

    open spec fn view(&self) -> PlanView {
        PlanView {
            offset: self.offset as nat,
            original: self.original@,
            replacement: self.replacement@,
        }
    }
}

/// The jump from `source` to `target`: `jmp rel32` when the target is within
/// reach of a 32-bit displacement, else `jmp [rip]` followed by the absolute
/// target. `None` when the address after the short form overflows.
pub open spec fn jump_bytes(source: int, target: int) -> Option<Seq<u8>> {
    let next = source + 5;
    if next > usize::MAX {
        None
    } else {
        let displacement = target - next;
        if i32::MIN <= displacement <= i32::MAX {
            Some(seq![0xe9u8] + le(twos(displacement, 4), 4))
        } else {
            Some(seq![0xffu8, 0x25, 0, 0, 0, 0] + le(target as nat, 8))
        }
    }
}

/// Encodes a jump from `source` to `target`.
pub fn jump(source: usize, target: usize) -> (result: Result<Vec<u8>, Error>)
    ensures
        match result {
            Ok(bytes) => jump_bytes(source as int, target as int) == Some(bytes@),
            Err(error) => jump_bytes(source as int, target as int).is_none() && error
                == Error::InvalidRange,
        },
{
    let next = match source.checked_add(5) {
        Some(next) => next,
        None => {
            return Err(Error::InvalidRange);
        },
    };
    let displacement = target as i128 - next as i128;
    let mut bytes = Vec::new();
    if -0x8000_0000 <= displacement && displacement <= 0x7fff_ffff {
        proof {
            reveal_with_fuel(crate::code::bytes::pow256, 5);
        }
        let encoded: u64 = if displacement < 0 {
            (displacement + 0x1_0000_0000) as u64
        } else {
            displacement as u64
        };
        bytes.push(0xe9);
        push_le(&mut bytes, encoded, 4);
    } else {
        bytes.push(0xff);
        bytes.push(0x25);
        bytes.push(0);
        bytes.push(0);
        bytes.push(0);
        bytes.push(0);
        push_le(&mut bytes, target as u64, 8);
    }
    Ok(bytes)
}

/// Grows `length` over whole instructions of `prefix` until it covers `need`
/// bytes. A return, tail jump or trap before that point means the function is
/// too short.
pub open spec fn cover(prefix: Seq<u8>, need: nat, length: nat) -> Result<nat, Error>
    decreases prefix.len() - length,
    via cover_decreases
{
    if length >= need {
        Ok(length)
    } else if length >= prefix.len() {
        Err(Error::InsufficientSpace)
    } else {
        match decoded(prefix.subrange(length as int, prefix.len() as int)) {
            None => Err(Error::InvalidInstruction),
            Some(instruction) => {
                let next = (length + instruction.size) as nat;
                if instruction.terminal && next < need {
                    Err(Error::InsufficientSpace)
                } else {
                    cover(prefix, need, next)
                }
            },
        }
    }
}

#[via_fn]
proof fn cover_decreases(prefix: Seq<u8>, need: nat, length: nat) {
    if length < need && length < prefix.len() {
        let rest = prefix.subrange(length as int, prefix.len() as int);
        if decoded(rest) is Some {
            lemma_decoded_size(rest);
        }
    }
}

/// The patch that jumps from `source` to `target`, where `bytes` are the
/// first bytes at `source`. The patch starts after an `endbr64` marker.
pub open spec fn planned(source: int, target: int, bytes: Seq<u8>) -> Result<PlanView, Error> {
    if source == 0 || target == 0 {
        Err(Error::InvalidAddress)
    } else if source == target {
        Err(Error::SameAddress)
    } else {
        let offset: nat = if bytes.len() >= 4 && bytes.subrange(0, 4) == endbr64() {
            4
        } else {
            0
        };
        match jump_bytes(source + offset, target) {
            None => Err(Error::InvalidRange),
            Some(jump) => {
                let prefix = bytes.subrange(offset as int, bytes.len() as int);
                match cover(prefix, jump.len(), 0) {
                    Err(error) => Err(error),
                    Ok(length) => Ok(
                        PlanView {
                            offset,
                            original: prefix.subrange(0, length as int),
                            replacement: jump + Seq::new(
                                (length - jump.len()) as nat,
                                |i: int| 0x90u8,
                            ),
                        },
                    ),
                }
            },
        }
    }
}

/// Plans a patch at `source` that jumps to `target`.
#[verifier::loop_isolation(false)]
pub fn plan(source: usize, target: usize, bytes: &[u8]) -> (result: Result<Plan, Error>)
    ensures
        match result {
            Ok(plan) => planned(source as int, target as int, bytes@) == Ok::<PlanView, Error>(
                plan@,
            ),
            Err(error) => planned(source as int, target as int, bytes@) == Err::<PlanView, Error>(
                error,
            ),
        },
{
    if source == 0 || target == 0 {
        return Err(Error::InvalidAddress);
    }
    if source == target {
        return Err(Error::SameAddress);
    }
    let marked = bytes.len() >= 4 && bytes[0] == 0xf3 && bytes[1] == 0x0f && bytes[2] == 0x1e
        && bytes[3] == 0xfa;
    proof {
        if bytes@.len() >= 4 {
            if marked {
                assert(bytes@.subrange(0, 4) =~= endbr64());
            } else {
                assert(bytes@.subrange(0, 4)[0] == bytes@[0]);
                assert(bytes@.subrange(0, 4)[1] == bytes@[1]);
                assert(bytes@.subrange(0, 4)[2] == bytes@[2]);
                assert(bytes@.subrange(0, 4)[3] == bytes@[3]);
            }
        }
    }
    let offset: usize = if marked {
        4
    } else {
        0
    };
    let address = match source.checked_add(offset) {
        Some(address) => address,
        None => {
            assert(jump_bytes(source + offset, target as int).is_none());
            return Err(Error::InvalidRange);
        },
    };
    let mut replacement = jump(address, target)?;
    let need = replacement.len();
    let prefix = slice_subrange(bytes, offset, bytes.len());
    let ghost p = prefix@;
    let mut length: usize = 0;
    while length < need
        invariant
            length <= prefix@.len(),
            p == prefix@,
            cover(p, need as nat, 0) == cover(p, need as nat, length as nat),
        decreases prefix@.len() - length,
    {
        if length == prefix.len() {
            return Err(Error::InsufficientSpace);
        }
        let rest = slice_subrange(prefix, length, prefix.len());
        let (size, terminal) = match instruction(rest) {
            Ok(decoded) => decoded,
            Err(error) => {
                return Err(error);
            },
        };
        proof {
            lemma_decoded_size(rest@);
        }
        length = length + size;
        if terminal && length < need {
            return Err(Error::InsufficientSpace);
        }
    }
    let ghost jump_seq = replacement@;
    while replacement.len() < length
        invariant
            need <= length,
            replacement@.len() <= length,
            replacement@.len() >= need,
            replacement@ == jump_seq + Seq::new((replacement@.len() - need) as nat, |i: int| 0x90u8),
            jump_seq.len() == need,
        decreases length - replacement@.len(),
    {
        let ghost before = replacement@;
        replacement.push(0x90);
        assert(replacement@ =~= jump_seq + Seq::new((replacement@.len() - need) as nat, |i: int| 0x90u8));
    }
    let original = slice_to_vec(slice_subrange(prefix, 0, length));
    proof {
        assert(replacement@ =~= jump_seq + Seq::new((length - jump_seq.len()) as nat, |i: int| 0x90u8));
    }
    Ok(Plan { offset, original, replacement })
}

/// Growing over whole instructions reaches at least `need` bytes and stays
/// within the prefix.
pub proof fn lemma_cover_bounds(prefix: Seq<u8>, need: nat, length: nat)
    requires
        length <= prefix.len() || length >= need,
    ensures
        cover(prefix, need, length) matches Ok(covered) ==> need <= covered && length <= covered
            && (covered <= prefix.len() || covered == length),
    decreases prefix.len() - length,
{
    if length < need && length < prefix.len() {
        let rest = prefix.subrange(length as int, prefix.len() as int);
        if let Some(instruction) = decoded(rest) {
            lemma_decoded_size(rest);
            lemma_cover_bounds(prefix, need, (length + instruction.size) as nat);
        }
    }
}

/// A patch overwrites whole instructions after an `endbr64` marker, and is
/// exactly as long as what it overwrites: the jump to the target, padded
/// with `nop`.
pub proof fn lemma_plan_fits(source: int, target: int, bytes: Seq<u8>)
    ensures
        planned(source, target, bytes) matches Ok(plan) ==> {
            let jump = jump_bytes(source + plan.offset, target)->Some_0;
            &&& plan.offset == (if bytes.len() >= 4 && bytes.subrange(0, 4) == endbr64() {
                4nat
            } else {
                0nat
            })
            &&& plan.replacement.len() == plan.original.len()
            &&& jump.len() <= plan.original.len()
            &&& plan.replacement.subrange(0, jump.len() as int) == jump
            &&& forall|i: int|
                jump.len() <= i < plan.replacement.len() ==> #[trigger] plan.replacement[i] == 0x90u8
            &&& plan.original == bytes.subrange(
                plan.offset as int,
                (plan.offset + plan.original.len()) as int,
            )
        },
{
    if let Ok(plan) = planned(source, target, bytes) {
        let offset: nat = if bytes.len() >= 4 && bytes.subrange(0, 4) == endbr64() {
            4
        } else {
            0
        };
        let jump = jump_bytes(source + offset, target)->Some_0;
        let prefix = bytes.subrange(offset as int, bytes.len() as int);
        lemma_cover_bounds(prefix, jump.len(), 0);
        assert(plan.replacement.subrange(0, jump.len() as int) =~= jump);
        assert(plan.original =~= bytes.subrange(offset as int, (offset + plan.original.len()) as int));
    }
}

/// Where the instruction walk over `prefix` stands after `steps` whole
/// instructions from its start, if it gets that far.
pub open spec fn walk(prefix: Seq<u8>, steps: nat) -> Option<nat>
    decreases steps,
{
    if steps == 0 {
        Some(0)
    } else {
        match walk(prefix, (steps - 1) as nat) {
            Some(at) => if at < prefix.len() {
                match decoded(prefix.subrange(at as int, prefix.len() as int)) {
                    Some(instruction) => Some((at + instruction.size) as nat),
                    None => None,
                }
            } else {
                None
            },
            None => None,
        }
    }
}

/// Step `j` of the walk starts an instruction before `need` bytes, and that
/// instruction, if it never falls through, ends at or after `need`.
pub open spec fn early_step(prefix: Seq<u8>, need: nat, j: nat) -> bool {
    match walk(prefix, j) {
        Some(at) => at < need && at < prefix.len() && match decoded(
            prefix.subrange(at as int, prefix.len() as int),
        ) {
            Some(instruction) => instruction.terminal ==> at + instruction.size >= need,
            None => false,
        },
        None => false,
    }
}

/// Growing the cover from step `steps` of the walk stops at the first
/// instruction boundary at or past `need`, having passed only instructions
/// that fall through.
proof fn lemma_cover_walk(prefix: Seq<u8>, need: nat, length: nat, steps: nat) -> (n: nat)
    requires
        walk(prefix, steps) == Some(length),
        forall|j: nat| j < steps ==> #[trigger] early_step(prefix, need, j),
    ensures
        cover(prefix, need, length) matches Ok(covered) ==> walk(prefix, n) == Some(covered)
            && forall|j: nat| j < n ==> #[trigger] early_step(prefix, need, j),
    decreases prefix.len() - length,
{
    if length >= need || length >= prefix.len() {
        steps
    } else {
        let rest = prefix.subrange(length as int, prefix.len() as int);
        match decoded(rest) {
            None => steps,
            Some(instruction) => {
                lemma_decoded_size(rest);
                let next = (length + instruction.size) as nat;
                if instruction.terminal && next < need {
                    steps
                } else {
                    assert(early_step(prefix, need, steps));
                    assert(walk(prefix, steps + 1) == Some(next));
                    lemma_cover_walk(prefix, need, next, steps + 1)
                }
            },
        }
    }
}

/// A patch overwrites exactly the instructions up to the first instruction
/// boundary at or past the end of the jump, and none of the instructions
/// before that boundary ends early without falling through.
pub proof fn lemma_plan_covers_whole_instructions(source: int, target: int, bytes: Seq<u8>)
    ensures
        planned(source, target, bytes) matches Ok(plan) ==> {
            let jump = jump_bytes(source + plan.offset, target)->Some_0;
            let prefix = bytes.subrange(plan.offset as int, bytes.len() as int);
            exists|n: nat|
                #[trigger] walk(prefix, n) == Some(plan.original.len()) && forall|j: nat|
                    j < n ==> #[trigger] early_step(prefix, jump.len(), j)
        },
{
    if let Ok(plan) = planned(source, target, bytes) {
        let jump = jump_bytes(source + plan.offset, target)->Some_0;
        let prefix = bytes.subrange(plan.offset as int, bytes.len() as int);
        lemma_cover_bounds(prefix, jump.len(), 0);
        let covered = cover(prefix, jump.len(), 0)->Ok_0;
        let n = lemma_cover_walk(prefix, jump.len(), 0, 0);
        assert(plan.original.len() == covered);
        assert(walk(prefix, n) == Some(plan.original.len()));
    }
}

/// A jump lands on its target: within 2 GiB it is `jmp rel32`, whose
/// displacement taken from the end of the five-byte jump reaches the target;
/// farther away it is `jmp [rip + 0]` followed by the target's eight bytes.
pub proof fn lemma_jump_reaches_target(source: int, target: int)
    requires
        0 <= source,
        0 <= target <= usize::MAX,
    ensures
        jump_bytes(source, target) matches Some(jump) ==> {
            ||| {
                &&& jump.len() == 5
                &&& jump[0] == 0xe9
                &&& source + 5 + signed(le_value(jump.subrange(1, 5)), 4) == target
            }
            ||| {
                &&& jump.len() == 14
                &&& jump.subrange(0, 6) == seq![0xffu8, 0x25, 0, 0, 0, 0]
                &&& le_value(jump.subrange(6, 14)) == target
                &&& !(-0x8000_0000 <= target - (source + 5) < 0x8000_0000)
            }
        },
{
    if let Some(jump) = jump_bytes(source, target) {
        let displacement = target - (source + 5);
        if -0x8000_0000 <= displacement <= 0x7fff_ffff {
            lemma_le_length(twos(displacement, 4), 4);
            assert(jump.subrange(1, 5) =~= le(twos(displacement, 4), 4));
            lemma_signed_round_trip(displacement);
            assert(jump.len() == 5);
            assert(jump[0] == 0xe9);
        } else {
            lemma_le_length(target as nat, 8);
            assert(jump.subrange(6, 14) =~= le(target as nat, 8));
            assert(jump.subrange(0, 6) =~= seq![0xffu8, 0x25, 0, 0, 0, 0]);
            lemma_le_round_trip(target as nat, 8);
            reveal_with_fuel(pow256, 9);
            assert(pow256(8) == 0x1_0000_0000_0000_0000);
            assert(usize::MAX <= 0xffff_ffff_ffff_ffffu64);
            vstd::arithmetic::div_mod::lemma_small_mod(target as nat, pow256(8));
            assert((target as nat) % pow256(8) == target);
            assert(jump.len() == 14);
        }
    }
}

} // verus!
