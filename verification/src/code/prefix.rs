//! Lengths and control flow of the x86-64 instructions that start functions.
//!
//! Only known entry instructions are sized; every other form is rejected.
use crate::error::Error;
use vstd::prelude::*;

verus! {

/// The architectural limit on the length of one x86-64 instruction.
pub const MAX_LENGTH: usize = 15;

/// A call whose return address must be kept when the instruction moves.
#[derive(Clone, Copy, Debug, PartialEq, Eq, Structural)]
pub enum Call {
    /// `call rel32`; the offset of the 32-bit displacement.
    Direct(usize),
    /// `call r/m64`; the offset of the ModRM byte.
    Indirect(usize),
}

/// A relative branch.
#[derive(Clone, Copy, Debug, PartialEq, Eq, Structural)]
pub struct Branch {
    /// Offset of the displacement field inside the instruction.
    pub displacement: usize,
    /// Width of the displacement field in bytes (1 or 4).
    pub width: usize,
    /// Condition code of a conditional branch.
    pub condition: Option<u8>,
}

/// One decoded instruction.
#[derive(Clone, Copy, Debug, PartialEq, Eq, Structural)]
pub struct Instruction {
    /// Length in bytes.
    pub size: usize,
    /// The instruction never falls through to the next one.
    pub terminal: bool,
    /// Offset of a RIP-relative 32-bit displacement.
    pub relative_memory: Option<usize>,
    /// The instruction cannot run at another address.
    pub cannot_move: bool,
    /// The instruction is a call.
    pub call: Option<Call>,
    /// The instruction is a relative branch.
    pub branch: Option<Branch>,
}

/// The operand shape of one opcode, as the decoding table gives it.
#[derive(Clone, Copy, Debug)]
pub struct Form {
    /// A ModRM byte follows the opcode.
    pub modrm: bool,
    /// Bytes of immediate data or displacement after the ModRM operand.
    pub immediate: usize,
    /// The instruction never falls through.
    pub terminal: bool,
    /// The instruction cannot run at another address.
    pub cannot_move: bool,
    /// `call rel32`.
    pub direct_call: bool,
    /// `call r/m64`.
    pub indirect_call: bool,
    /// Relative branch: displacement width and condition.
    pub branch: Option<(usize, Option<u8>)>,
    /// A `lock` prefix is allowed with a memory operand.
    pub lockable: bool,
}

/// A REX prefix byte.
pub open spec fn is_rex(byte: u8) -> bool {
    0x40 <= byte <= 0x4f
}

/// A legacy prefix byte: operand size, address size, lock, segments, repeats.
pub open spec fn is_legacy_prefix(byte: u8) -> bool {
    byte == 0x66 || byte == 0x67 || byte == 0xf0 || byte == 0x26 || byte == 0x2e || byte == 0x36
        || byte == 0x3e || byte == 0x64 || byte == 0x65 || byte == 0xf2 || byte == 0xf3
}

/// Any prefix byte.
pub open spec fn is_prefix(byte: u8) -> bool {
    is_rex(byte) || is_legacy_prefix(byte)
}

/// Index of the first byte at or after `i` that is not a prefix.
pub open spec fn opcode_index(bytes: Seq<u8>, i: int) -> int
    decreases bytes.len() - i,
{
    if 0 <= i < bytes.len() && is_prefix(bytes[i]) {
        opcode_index(bytes, i + 1)
    } else {
        i
    }
}

/// The prefix `value` occurs before `end`.
pub open spec fn seen(bytes: Seq<u8>, end: int, value: u8) -> bool {
    exists|i: int| 0 <= i < end && bytes[i] == value
}

/// Number of bytes a decoder may read: the input, at most one instruction long.
pub open spec fn limit(bytes: Seq<u8>) -> int {
    if bytes.len() < MAX_LENGTH {
        bytes.len() as int
    } else {
        MAX_LENGTH as int
    }
}

/// A form with `immediate` bytes after the opcode and nothing else.
pub open spec fn plain(immediate: usize) -> Form {
    Form {
        modrm: false,
        immediate,
        terminal: false,
        cannot_move: false,
        direct_call: false,
        indirect_call: false,
        branch: None,
        lockable: false,
    }
}

/// A form with a ModRM operand followed by `immediate` bytes.
pub open spec fn with_modrm(immediate: usize, lockable: bool) -> Form {
    Form { modrm: true, lockable, ..plain(immediate) }
}

/// The table of one-byte opcodes. `immediate` is the operand-size immediate
/// (2 or 4), `wide` is REX.W, `reg` and `rm` are fields of the ModRM byte.
pub open spec fn primary_form(
    op: u8,
    immediate: usize,
    wide: bool,
    address32: bool,
    reg: u8,
    rm: u8,
) -> Option<Form> {
    if (0x50 <= op <= 0x5f) || (0x90 <= op <= 0x99) || op == 0x9c || op == 0x9d || op == 0xc9
        || op == 0xfc || op == 0xfd {
        Some(plain(0))
    } else if op == 0xc3 || op == 0xcb || op == 0xcc || op == 0xcf || op == 0xf1 || op == 0xf4 {
        Some(Form { terminal: true, ..plain(0) })
    } else if op == 0xc2 || op == 0xca {
        Some(Form { terminal: true, ..plain(2) })
    } else if op == 0xcd {
        Some(Form { terminal: true, cannot_move: true, ..plain(1) })
    } else if op == 0xeb {
        Some(Form { terminal: true, branch: Some((1, None)), ..plain(1) })
    } else if op == 0xe9 {
        Some(Form { terminal: true, branch: Some((4, None)), ..plain(4) })
    } else if op == 0xe8 {
        Some(Form { direct_call: true, ..plain(4) })
    } else if 0x70 <= op <= 0x7f {
        Some(Form { branch: Some((1, Some((op - 0x70) as u8))), ..plain(1) })
    } else if 0xe0 <= op <= 0xe3 {
        Some(Form { cannot_move: true, ..plain(1) })
    } else if op == 0x6a || (0xb0 <= op <= 0xb7) || op == 0xa8 {
        Some(plain(1))
    } else if op == 0x68 || op == 0xa9 {
        Some(plain(immediate))
    } else if 0xb8 <= op <= 0xbf {
        Some(plain(if wide { 8 } else { immediate }))
    } else if 0xa0 <= op <= 0xa3 {
        Some(plain(if address32 { 4 } else { 8 }))
    } else if op <= 0x3d && op % 8 <= 5 {
        if op % 8 <= 3 {
            Some(with_modrm(0, op % 8 <= 1 && op < 0x38))
        } else if op % 8 == 4 {
            Some(plain(1))
        } else {
            Some(plain(immediate))
        }
    } else if op == 0x63 || (0x84 <= op <= 0x8b) || op == 0x8d || (0xd0 <= op <= 0xd3) {
        Some(with_modrm(0, op == 0x86 || op == 0x87))
    } else if op == 0x69 || op == 0x81 {
        Some(with_modrm(immediate, op == 0x81 && reg != 7))
    } else if op == 0x6b || op == 0x80 || op == 0x83 || op == 0xc0 || op == 0xc1 {
        Some(with_modrm(1, (op == 0x80 || op == 0x83) && reg != 7))
    } else if op == 0x8f || op == 0xc6 || op == 0xc7 {
        if reg != 0 {
            None
        } else if op == 0xc6 {
            Some(with_modrm(1, false))
        } else if op == 0xc7 {
            Some(with_modrm(immediate, false))
        } else {
            Some(with_modrm(0, false))
        }
    } else if op == 0xf6 || op == 0xf7 {
        if reg == 1 {
            None
        } else if reg == 0 {
            Some(with_modrm(if op == 0xf6 { 1 } else { immediate }, false))
        } else {
            Some(with_modrm(0, reg == 2 || reg == 3))
        }
    } else if op == 0xfe || op == 0xff {
        if (op == 0xfe && reg > 1) || reg == 3 || reg == 5 || reg == 7 {
            None
        } else {
            Some(
                Form {
                    terminal: op == 0xff && reg == 4,
                    indirect_call: op == 0xff && reg == 2,
                    // A call through the stack pointer would see the pushed return address.
                    cannot_move: op == 0xff && reg == 2 && rm == 4,
                    ..with_modrm(0, reg <= 1)
                },
            )
        }
    } else {
        None
    }
}

/// The table of `0x0f` opcodes.
pub open spec fn secondary_form(op: u8, reg: u8) -> Option<Form> {
    if op == 0x0b {
        Some(Form { terminal: true, ..plain(0) })
    } else if op == 0x1f {
        if reg != 0 {
            None
        } else {
            Some(with_modrm(0, false))
        }
    } else if (0x10 <= op <= 0x17) || (0x28 <= op <= 0x2f) || (0x40 <= op <= 0x4f) || (0x54 <= op
        <= 0x59) || op == 0x6e || op == 0x6f || op == 0x7e || op == 0x7f || (0x90 <= op <= 0x9f)
        || op == 0xaf || op == 0xb6 || op == 0xb7 || op == 0xbe || op == 0xbf || op == 0xef {
        Some(with_modrm(0, false))
    } else if 0x80 <= op <= 0x8f {
        Some(Form { branch: Some((4, Some((op - 0x80) as u8))), ..plain(4) })
    } else if 0xc8 <= op <= 0xcf {
        Some(plain(0))
    } else {
        None
    }
}

/// The byte at `i`, or zero past the readable limit.
pub open spec fn byte_at(bytes: Seq<u8>, i: int) -> u8 {
    if 0 <= i < limit(bytes) {
        bytes[i]
    } else {
        0
    }
}

/// Length of the ModRM operand that starts at `at`: ModRM, SIB and displacement.
pub open spec fn modrm_length(bytes: Seq<u8>, at: int) -> int {
    let modrm = byte_at(bytes, at);
    let mode = modrm / 64;
    let rm = modrm % 8;
    if mode == 3 {
        1
    } else {
        let sib = rm == 4;
        let base = if sib {
            byte_at(bytes, at + 1) % 8
        } else {
            rm
        };
        let displacement = if mode == 0 {
            if base == 5 {
                4int
            } else {
                0
            }
        } else if mode == 1 {
            1
        } else {
            4
        };
        1 + (if sib {
            1int
        } else {
            0
        }) + displacement
    }
}

/// The instruction at the start of `bytes`, or `None` when it is unsupported,
/// invalid, or longer than `bytes` or 15 bytes.
pub open spec fn decoded(bytes: Seq<u8>) -> Option<Instruction> {
    let lim = limit(bytes);
    let o = opcode_index(bytes, 0);
    if o >= lim {
        None
    } else {
        let word = seen(bytes, o, 0x66);
        let address32 = seen(bytes, o, 0x67);
        let lock = seen(bytes, o, 0xf0);
        let wide = o > 0 && 0x48 <= bytes[o - 1] <= 0x4f;
        let immediate: usize = if word && !wide {
            2
        } else {
            4
        };
        let two = bytes[o] == 0x0f;
        if two && o + 1 >= lim {
            None
        } else {
            let p = if two {
                o + 2
            } else {
                o + 1
            };
            let modrm = byte_at(bytes, p);
            let reg = (modrm / 8) % 8;
            let rm = modrm % 8;
            let form = if two {
                secondary_form(bytes[o + 1], reg)
            } else {
                primary_form(bytes[o], immediate, wide, address32, reg, rm)
            };
            match form {
                None => None,
                Some(f) => finished(bytes, p, f, word, address32, lock),
            }
        }
    }
}

/// The instruction whose operands start at `p`, given its form and prefixes.
pub open spec fn finished(
    bytes: Seq<u8>,
    p: int,
    f: Form,
    word: bool,
    address32: bool,
    lock: bool,
) -> Option<Instruction> {
    let lim = limit(bytes);
    let modrm = byte_at(bytes, p);
    let rm = modrm % 8;
    let operand_end = if f.modrm {
        p + modrm_length(bytes, p)
    } else {
        p
    };
    let end = operand_end + f.immediate;
    let memory = f.modrm && modrm / 64 != 3;
    let relative = f.modrm && modrm / 64 == 0 && rm == 5;
    if end > lim || (lock && !(f.lockable && memory)) {
        None
    } else {
        Some(
            Instruction {
                size: end as usize,
                terminal: f.terminal,
                relative_memory: if relative {
                    Some((p + 1) as usize)
                } else {
                    None
                },
                cannot_move: f.cannot_move || (address32 && relative) || (word && (f.direct_call
                    || f.branch.is_some())),
                call: if f.direct_call {
                    Some(Call::Direct(p as usize))
                } else if f.indirect_call {
                    Some(Call::Indirect(p as usize))
                } else {
                    None
                },
                branch: match f.branch {
                    Some((width, condition)) => Some(
                        Branch { displacement: p as usize, width, condition },
                    ),
                    None => None,
                },
            },
        )
    }
}

fn primary(op: u8, immediate: usize, wide: bool, address32: bool, reg: u8, rm: u8) -> (form:
    Option<Form>)
    ensures
        form == primary_form(op, immediate, wide, address32, reg, rm),
{
    let plain0 = Form {
        modrm: false,
        immediate: 0,
        terminal: false,
        cannot_move: false,
        direct_call: false,
        indirect_call: false,
        branch: None,
        lockable: false,
    };
    if (0x50 <= op && op <= 0x5f) || (0x90 <= op && op <= 0x99) || op == 0x9c || op == 0x9d || op
        == 0xc9 || op == 0xfc || op == 0xfd {
        Some(plain0)
    } else if op == 0xc3 || op == 0xcb || op == 0xcc || op == 0xcf || op == 0xf1 || op == 0xf4 {
        Some(Form { terminal: true, ..plain0 })
    } else if op == 0xc2 || op == 0xca {
        Some(Form { terminal: true, immediate: 2, ..plain0 })
    } else if op == 0xcd {
        Some(Form { terminal: true, cannot_move: true, immediate: 1, ..plain0 })
    } else if op == 0xeb {
        Some(Form { terminal: true, branch: Some((1, None)), immediate: 1, ..plain0 })
    } else if op == 0xe9 {
        Some(Form { terminal: true, branch: Some((4, None)), immediate: 4, ..plain0 })
    } else if op == 0xe8 {
        Some(Form { direct_call: true, immediate: 4, ..plain0 })
    } else if 0x70 <= op && op <= 0x7f {
        Some(Form { branch: Some((1, Some(op - 0x70))), immediate: 1, ..plain0 })
    } else if 0xe0 <= op && op <= 0xe3 {
        Some(Form { cannot_move: true, immediate: 1, ..plain0 })
    } else if op == 0x6a || (0xb0 <= op && op <= 0xb7) || op == 0xa8 {
        Some(Form { immediate: 1, ..plain0 })
    } else if op == 0x68 || op == 0xa9 {
        Some(Form { immediate, ..plain0 })
    } else if 0xb8 <= op && op <= 0xbf {
        Some(
            Form {
                immediate: if wide {
                    8
                } else {
                    immediate
                },
                ..plain0
            },
        )
    } else if 0xa0 <= op && op <= 0xa3 {
        Some(
            Form {
                immediate: if address32 {
                    4
                } else {
                    8
                },
                ..plain0
            },
        )
    } else if op <= 0x3d && op % 8 <= 5 {
        if op % 8 <= 3 {
            Some(Form { modrm: true, lockable: op % 8 <= 1 && op < 0x38, ..plain0 })
        } else if op % 8 == 4 {
            Some(Form { immediate: 1, ..plain0 })
        } else {
            Some(Form { immediate, ..plain0 })
        }
    } else if op == 0x63 || (0x84 <= op && op <= 0x8b) || op == 0x8d || (0xd0 <= op && op
        <= 0xd3) {
        Some(Form { modrm: true, lockable: op == 0x86 || op == 0x87, ..plain0 })
    } else if op == 0x69 || op == 0x81 {
        Some(Form { modrm: true, immediate, lockable: op == 0x81 && reg != 7, ..plain0 })
    } else if op == 0x6b || op == 0x80 || op == 0x83 || op == 0xc0 || op == 0xc1 {
        Some(
            Form {
                modrm: true,
                immediate: 1,
                lockable: (op == 0x80 || op == 0x83) && reg != 7,
                ..plain0
            },
        )
    } else if op == 0x8f || op == 0xc6 || op == 0xc7 {
        if reg != 0 {
            None
        } else if op == 0xc6 {
            Some(Form { modrm: true, immediate: 1, ..plain0 })
        } else if op == 0xc7 {
            Some(Form { modrm: true, immediate, ..plain0 })
        } else {
            Some(Form { modrm: true, ..plain0 })
        }
    } else if op == 0xf6 || op == 0xf7 {
        if reg == 1 {
            None
        } else if reg == 0 {
            Some(
                Form {
                    modrm: true,
                    immediate: if op == 0xf6 {
                        1
                    } else {
                        immediate
                    },
                    ..plain0
                },
            )
        } else {
            Some(Form { modrm: true, lockable: reg == 2 || reg == 3, ..plain0 })
        }
    } else if op == 0xfe || op == 0xff {
        if (op == 0xfe && reg > 1) || reg == 3 || reg == 5 || reg == 7 {
            None
        } else {
            Some(
                Form {
                    modrm: true,
                    terminal: op == 0xff && reg == 4,
                    indirect_call: op == 0xff && reg == 2,
                    cannot_move: op == 0xff && reg == 2 && rm == 4,
                    lockable: reg <= 1,
                    ..plain0
                },
            )
        }
    } else {
        None
    }
}

fn secondary(op: u8, reg: u8) -> (form: Option<Form>)
    ensures
        form == secondary_form(op, reg),
{
    let plain0 = Form {
        modrm: false,
        immediate: 0,
        terminal: false,
        cannot_move: false,
        direct_call: false,
        indirect_call: false,
        branch: None,
        lockable: false,
    };
    if op == 0x0b {
        Some(Form { terminal: true, ..plain0 })
    } else if op == 0x1f {
        if reg != 0 {
            None
        } else {
            Some(Form { modrm: true, ..plain0 })
        }
    } else if (0x10 <= op && op <= 0x17) || (0x28 <= op && op <= 0x2f) || (0x40 <= op && op
        <= 0x4f) || (0x54 <= op && op <= 0x59) || op == 0x6e || op == 0x6f || op == 0x7e || op
        == 0x7f || (0x90 <= op && op <= 0x9f) || op == 0xaf || op == 0xb6 || op == 0xb7 || op
        == 0xbe || op == 0xbf || op == 0xef {
        Some(Form { modrm: true, ..plain0 })
    } else if 0x80 <= op && op <= 0x8f {
        Some(Form { branch: Some((4, Some(op - 0x80))), immediate: 4, ..plain0 })
    } else if 0xc8 <= op && op <= 0xcf {
        Some(plain0)
    } else {
        None
    }
}

proof fn lemma_opcode_index_skips(bytes: Seq<u8>, i: int)
    requires
        0 <= i < bytes.len(),
        is_prefix(bytes[i]),
    ensures
        opcode_index(bytes, i) == opcode_index(bytes, i + 1),
{
}

proof fn lemma_opcode_index_at_least(bytes: Seq<u8>, i: int)
    ensures
        opcode_index(bytes, i) >= i,
    decreases bytes.len() - i,
{
    if 0 <= i < bytes.len() && is_prefix(bytes[i]) {
        lemma_opcode_index_at_least(bytes, i + 1);
    }
}

/// A decoded instruction is at least one byte long and fits in the readable limit.
pub proof fn lemma_decoded_size(bytes: Seq<u8>)
    requires
        decoded(bytes) is Some,
    ensures
        1 <= decoded(bytes)->0.size <= limit(bytes),
        limit(bytes) <= bytes.len(),
{
    lemma_opcode_index_at_least(bytes, 0);
}

/// Where the fields of a decoded instruction lie.
#[verifier::rlimit(40)]
pub proof fn lemma_decoded_fields(bytes: Seq<u8>)
    requires
        decoded(bytes) is Some,
    ensures
        ({
            let i = decoded(bytes)->0;
            &&& i.branch matches Some(b) ==> {
                &&& b.displacement + b.width == i.size
                &&& b.width == 1 || b.width == 4
                &&& b.displacement >= 1
                &&& (b.width == 4 && b.condition is Some ==> b.displacement >= 2)
                &&& (b.condition matches Some(c) ==> c < 16)
            }
            &&& i.call matches Some(Call::Direct(d)) ==> d + 4 == i.size
            &&& i.call matches Some(Call::Indirect(m)) ==> m < i.size && (bytes[m as int] / 8) % 8 == 2
            &&& i.relative_memory matches Some(d) ==> d + 4 <= i.size
            &&& !(i.branch is Some && i.call is Some)
            &&& !(i.branch is Some && i.relative_memory is Some)
            &&& (i.call matches Some(Call::Direct(_)) ==> i.relative_memory is None)
        }),
{
    lemma_opcode_index_at_least(bytes, 0);
}

/// Which table entry an opcode has does not depend on the ModRM byte when
/// the entry has no ModRM operand.
proof fn lemma_form_ignores_operand(
    op: u8,
    immediate: usize,
    wide: bool,
    address32: bool,
    reg: u8,
    rm: u8,
    other_reg: u8,
    other_rm: u8,
)
    ensures
        primary_form(op, immediate, wide, address32, reg, rm) is Some && !primary_form(
            op,
            immediate,
            wide,
            address32,
            reg,
            rm,
        )->0.modrm ==> primary_form(op, immediate, wide, address32, other_reg, other_rm)
            == primary_form(op, immediate, wide, address32, reg, rm),
        secondary_form(op, reg) is Some && !secondary_form(op, reg)->0.modrm ==> secondary_form(
            op,
            other_reg,
        ) == secondary_form(op, reg),
{
}

/// The bytes from `i` up to the opcode are prefixes.
proof fn lemma_prefix_bytes(bytes: Seq<u8>, i: int)
    requires
        0 <= i <= bytes.len(),
    ensures
        i <= opcode_index(bytes, i) <= bytes.len(),
        forall|j: int| i <= j < opcode_index(bytes, i) ==> is_prefix(#[trigger] bytes[j]),
    decreases bytes.len() - i,
{
    if i < bytes.len() && is_prefix(bytes[i]) {
        lemma_prefix_bytes(bytes, i + 1);
    }
}

/// Where the opcode lies depends only on the bytes up to it.
proof fn lemma_opcode_index_agrees(b: Seq<u8>, c: Seq<u8>, i: int, n: int)
    requires
        0 <= i <= n,
        n <= b.len(),
        n <= c.len(),
        forall|j: int| 0 <= j < n ==> #[trigger] b[j] == c[j],
        opcode_index(b, i) < n,
    ensures
        opcode_index(c, i) == opcode_index(b, i),
    decreases n - i,
{
    lemma_opcode_index_at_least(b, i);
    if i < n {
        assert(b[i] == c[i]);
        if is_prefix(b[i]) {
            lemma_opcode_index_agrees(b, c, i + 1, n);
        }
    }
}

/// Whether a prefix occurs before `end` depends only on the bytes before it.
proof fn lemma_seen_agrees(b: Seq<u8>, c: Seq<u8>, end: int, value: u8)
    requires
        0 <= end <= b.len(),
        end <= c.len(),
        forall|j: int| 0 <= j < end ==> #[trigger] b[j] == c[j],
    ensures
        seen(b, end, value) == seen(c, end, value),
{
    if seen(b, end, value) {
        let i = choose|i: int| 0 <= i < end && b[i] == value;
        assert(c[i] == value);
    }
    if seen(c, end, value) {
        let i = choose|i: int| 0 <= i < end && c[i] == value;
        assert(b[i] == c[i]);
    }
}

/// Input that is all prefix bytes from `i` on has no opcode.
proof fn lemma_only_prefixes(bytes: Seq<u8>, i: int)
    requires
        0 <= i <= bytes.len(),
        forall|j: int| i <= j < bytes.len() ==> is_prefix(#[trigger] bytes[j]),
    ensures
        opcode_index(bytes, i) == bytes.len(),
    decreases bytes.len() - i,
{
    if i < bytes.len() {
        lemma_only_prefixes(bytes, i + 1);
    }
}

/// Bytes after an instruction do not change how it decodes: any input that
/// starts with the same bytes, as many as the instruction is long, decodes
/// to the same instruction.
#[verifier::rlimit(60)]
pub proof fn lemma_decoded_ignores_what_follows(b: Seq<u8>, c: Seq<u8>)
    requires
        decoded(b) is Some,
        c.len() >= decoded(b)->0.size,
        c.subrange(0, decoded(b)->0.size as int) == b.subrange(0, decoded(b)->0.size as int),
    ensures
        decoded(c) == decoded(b),
{
    let size = decoded(b)->0.size as int;
    lemma_decoded_size(b);
    assert forall|j: int| 0 <= j < size implies #[trigger] b[j] == c[j] by {
        assert(b[j] == b.subrange(0, size)[j]);
        assert(c[j] == c.subrange(0, size)[j]);
    }
    assert forall|j: int| 0 <= j < size implies #[trigger] byte_at(b, j) == byte_at(c, j) by {}
    let o = opcode_index(b, 0);
    lemma_prefix_bytes(b, 0);
    let two = b[o] == 0x0f;
    let p = if two {
        o + 2
    } else {
        o + 1
    };
    // The operands start inside the instruction, so the opcode lies in it.
    assert(o < size);
    lemma_opcode_index_agrees(b, c, 0, size);
    lemma_seen_agrees(b, c, o, 0x66);
    lemma_seen_agrees(b, c, o, 0x67);
    lemma_seen_agrees(b, c, o, 0xf0);
    let word = seen(b, o, 0x66);
    let address32 = seen(b, o, 0x67);
    let wide = o > 0 && 0x48 <= b[o - 1] <= 0x4f;
    let immediate: usize = if word && !wide {
        2
    } else {
        4
    };
    let modrm_b = byte_at(b, p);
    let modrm_c = byte_at(c, p);
    lemma_form_ignores_operand(
        if two {
            b[o + 1]
        } else {
            b[o]
        },
        immediate,
        wide,
        address32,
        (modrm_b / 8) % 8,
        modrm_b % 8,
        (modrm_c / 8) % 8,
        modrm_c % 8,
    );
}

/// An instruction cut short does not decode: no input shorter than the
/// instruction, holding its first bytes, is an instruction.
#[verifier::rlimit(60)]
pub proof fn lemma_decoded_needs_every_byte(b: Seq<u8>, k: int)
    requires
        decoded(b) is Some,
        0 <= k < decoded(b)->0.size,
    ensures
        decoded(b.subrange(0, k)) is None,
{
    let size = decoded(b)->0.size as int;
    lemma_decoded_size(b);
    let t = b.subrange(0, k);
    assert forall|j: int| 0 <= j < k implies #[trigger] t[j] == b[j] by {}
    let o = opcode_index(b, 0);
    lemma_prefix_bytes(b, 0);
    if o >= k {
        assert forall|j: int| 0 <= j < t.len() implies is_prefix(#[trigger] t[j]) by {
            assert(t[j] == b[j]);
        }
        lemma_only_prefixes(t, 0);
    } else {
        lemma_opcode_index_agrees(b, t, 0, k);
        lemma_seen_agrees(b, t, o, 0x66);
        lemma_seen_agrees(b, t, o, 0x67);
        lemma_seen_agrees(b, t, o, 0xf0);
        let two = b[o] == 0x0f;
        if !(two && o + 1 >= k) {
            let p = if two {
                o + 2
            } else {
                o + 1
            };
            let word = seen(b, o, 0x66);
            let address32 = seen(b, o, 0x67);
            let wide = o > 0 && 0x48 <= b[o - 1] <= 0x4f;
            let immediate: usize = if word && !wide {
                2
            } else {
                4
            };
            let modrm_b = byte_at(b, p);
            let modrm_t = byte_at(t, p);
            lemma_form_ignores_operand(
                if two {
                    b[o + 1]
                } else {
                    b[o]
                },
                immediate,
                wide,
                address32,
                (modrm_t / 8) % 8,
                modrm_t % 8,
                (modrm_b / 8) % 8,
                modrm_b % 8,
            );
            if p < k {
                assert(byte_at(t, p) == byte_at(b, p));
                if p + 1 < k {
                    assert(byte_at(t, p + 1) == byte_at(b, p + 1));
                }
            }
        }
    }
}

/// How many bytes a ModRM operand takes, as the x86-64 encoding defines it:
/// the ModRM byte; a SIB byte when the mode is a memory mode and `rm` is 4;
/// then a displacement of one byte in mode 1, four bytes in mode 2, and four
/// bytes in mode 0 for RIP-relative `rm` 5 or a SIB base of 5.
pub open spec fn encoded_operand_length(modrm: u8, sib: u8) -> int {
    let mode = modrm / 64;
    let rm = modrm % 8;
    if mode == 3 {
        1
    } else {
        let displacement: int = if mode == 1 {
            1
        } else if mode == 2 {
            4
        } else if (rm == 4 && sib % 8 == 5) || (rm != 4 && rm == 5) {
            4
        } else {
            0
        };
        if rm == 4 {
            2 + displacement
        } else {
            1 + displacement
        }
    }
}

/// Instructions between a register and a ModRM operand carry no immediate:
/// `add`, `or`, `adc`, `sbb`, `and`, `sub`, `xor` and `cmp` in their
/// register forms (opcodes below 0x3c whose low three bits are at most 3),
/// `movsxd` (0x63), `test`, `xchg` and `mov` (0x84 to 0x8b), `lea` (0x8d) and
/// the shifts by one or by `cl` (0xd0 to 0xd3). Such an instruction is its
/// prefixes, the opcode and the ModRM operand, and it decodes whenever those
/// bytes fit and no `lock` prefix stands before it.
pub proof fn lemma_register_operand_forms(bytes: Seq<u8>)
    requires
        opcode_index(bytes, 0) < bytes.len(),
        ({
            let op = bytes[opcode_index(bytes, 0)];
            (0x84 <= op <= 0x8b) || (op <= 0x3b && op % 8 <= 3) || op == 0x63 || op == 0x8d || (0xd0
                <= op <= 0xd3)
        }),
    ensures
        ({
            let o = opcode_index(bytes, 0);
            let length = o + 1 + encoded_operand_length(bytes[o + 1], bytes[o + 2]);
            &&& decoded(bytes) matches Some(i) ==> i.size == length && !i.terminal
            &&& length <= limit(bytes) && !seen(bytes, o, 0xf0) ==> decoded(bytes) is Some
        }),
{
    let o = opcode_index(bytes, 0);
    lemma_opcode_index_at_least(bytes, 0);
    let p = o + 1;
    if p < limit(bytes) {
        assert(byte_at(bytes, p) == bytes[p]);
        if p + 1 < limit(bytes) {
            assert(byte_at(bytes, p + 1) == bytes[p + 1]);
        }
    }
}

/// Group-1 and shift instructions with an immediate (opcodes 0x80, 0x81,
/// 0x83, 0x69, 0x6b, 0xc0 and 0xc1) are their prefixes, the opcode, the ModRM
/// operand and the immediate: one byte, except for 0x81 and 0x69, whose
/// immediate is two bytes under an operand-size prefix without REX.W and
/// four bytes otherwise. They decode whenever those bytes fit and no `lock`
/// prefix stands before them.
pub proof fn lemma_immediate_operand_forms(bytes: Seq<u8>)
    requires
        opcode_index(bytes, 0) < bytes.len(),
        ({
            let op = bytes[opcode_index(bytes, 0)];
            op == 0x80 || op == 0x81 || op == 0x83 || op == 0x69 || op == 0x6b || op == 0xc0 || op
                == 0xc1
        }),
    ensures
        ({
            let o = opcode_index(bytes, 0);
            let op = bytes[o];
            let word = exists|i: int| 0 <= i < o && bytes[i] == 0x66;
            let wide = o > 0 && 0x48 <= bytes[o - 1] <= 0x4f;
            let immediate: int = if op == 0x81 || op == 0x69 {
                if word && !wide {
                    2
                } else {
                    4
                }
            } else {
                1
            };
            let length = o + 1 + encoded_operand_length(bytes[o + 1], bytes[o + 2]) + immediate;
            &&& decoded(bytes) matches Some(i) ==> i.size == length && !i.terminal
            &&& length <= limit(bytes) && !seen(bytes, o, 0xf0) ==> decoded(bytes) is Some
        }),
{
    let o = opcode_index(bytes, 0);
    lemma_opcode_index_at_least(bytes, 0);
    let p = o + 1;
    if p < limit(bytes) {
        assert(byte_at(bytes, p) == bytes[p]);
        if p + 1 < limit(bytes) {
            assert(byte_at(bytes, p + 1) == bytes[p + 1]);
        }
    }
}

/// Relative jumps and calls are their prefixes, the opcode and the
/// displacement: one byte for `jcc rel8` (0x70 to 0x7f) and `jmp rel8`
/// (0xeb), four bytes for `call rel32` (0xe8) and `jmp rel32` (0xe9). The
/// unconditional jumps never fall through; conditional jumps and calls do.
pub proof fn lemma_relative_branch_forms(bytes: Seq<u8>)
    requires
        opcode_index(bytes, 0) < bytes.len(),
        ({
            let op = bytes[opcode_index(bytes, 0)];
            (0x70 <= op <= 0x7f) || op == 0xeb || op == 0xe8 || op == 0xe9
        }),
    ensures
        ({
            let o = opcode_index(bytes, 0);
            let op = bytes[o];
            let length = o + 1 + (if op == 0xe8 || op == 0xe9 {
                4int
            } else {
                1
            });
            &&& decoded(bytes) matches Some(i) ==> i.size == length && i.terminal == (op == 0xeb
                || op == 0xe9)
            &&& length <= limit(bytes) && !seen(bytes, o, 0xf0) ==> decoded(bytes) is Some
        }),
{
    lemma_opcode_index_at_least(bytes, 0);
}

/// The prefixes in front of an opcode.
struct Prefixes {
    opcode: usize,
    word: bool,
    address32: bool,
    lock: bool,
    wide: bool,
}

fn scan_prefixes(bytes: &[u8]) -> (result: Option<Prefixes>)
    ensures
        match result {
            Some(prefixes) => {
                &&& prefixes.opcode == opcode_index(bytes@, 0)
                &&& prefixes.opcode < limit(bytes@)
                &&& prefixes.word == seen(bytes@, prefixes.opcode as int, 0x66)
                &&& prefixes.address32 == seen(bytes@, prefixes.opcode as int, 0x67)
                &&& prefixes.lock == seen(bytes@, prefixes.opcode as int, 0xf0)
                &&& prefixes.wide == (prefixes.opcode > 0 && 0x48 <= bytes@[prefixes.opcode - 1]
                    <= 0x4f)
            },
            None => opcode_index(bytes@, 0) >= limit(bytes@),
        },
{
    let lim = if bytes.len() < MAX_LENGTH {
        bytes.len()
    } else {
        MAX_LENGTH
    };
    let ghost b = bytes@;
    let mut offset: usize = 0;
    let mut word = false;
    let mut address32 = false;
    let mut lock = false;
    let mut wide = false;
    while offset < lim
        invariant
            offset <= lim,
            lim == limit(b),
            b == bytes@,
            lim <= b.len(),
            opcode_index(b, 0) == opcode_index(b, offset as int),
            word == seen(b, offset as int, 0x66),
            address32 == seen(b, offset as int, 0x67),
            lock == seen(b, offset as int, 0xf0),
            wide == (offset > 0 && 0x48 <= b[offset - 1] <= 0x4f),
        decreases lim - offset,
    {
        let byte = bytes[offset];
        if !(byte == 0x66 || byte == 0x67 || byte == 0xf0 || byte == 0x26 || byte == 0x2e || byte
            == 0x36 || byte == 0x3e || byte == 0x64 || byte == 0x65 || byte == 0xf2 || byte == 0xf3
            || (0x40 <= byte && byte <= 0x4f)) {
            return Some(Prefixes { opcode: offset, word, address32, lock, wide });
        }
        proof {
            lemma_opcode_index_skips(b, offset as int);
            if byte == 0x66 {
                assert(b[offset as int] == 0x66);
            }
            if byte == 0x67 {
                assert(b[offset as int] == 0x67);
            }
            if byte == 0xf0 {
                assert(b[offset as int] == 0xf0);
            }
            assert(seen(b, offset + 1, 0x66) == (seen(b, offset as int, 0x66) || byte == 0x66));
            assert(seen(b, offset + 1, 0x67) == (seen(b, offset as int, 0x67) || byte == 0x67));
            assert(seen(b, offset + 1, 0xf0) == (seen(b, offset as int, 0xf0) || byte == 0xf0));
        }
        word = word || byte == 0x66;
        address32 = address32 || byte == 0x67;
        lock = lock || byte == 0xf0;
        wide = 0x48 <= byte && byte <= 0x4f;
        offset = offset + 1;
    }
    proof {
        lemma_opcode_index_at_least(b, offset as int);
    }
    None
}

/// Length of the ModRM operand at `at`, or `None` when it does not fit in `lim` bytes.
fn operand_length(bytes: &[u8], at: usize, lim: usize) -> (length: Option<usize>)
    requires
        lim == limit(bytes@),
        at < lim,
    ensures
        match length {
            Some(length) => length == modrm_length(bytes@, at as int) && length <= 6,
            None => at + modrm_length(bytes@, at as int) > lim,
        },
{
    let modrm = bytes[at];
    let rm = modrm % 8;
    let mode = modrm / 64;
    if mode == 3 {
        return Some(1);
    }
    let sib = rm == 4;
    let base = if sib {
        if at + 1 >= lim {
            return None;
        }
        bytes[at + 1] % 8
    } else {
        rm
    };
    let displacement: usize = if mode == 0 {
        if base == 5 {
            4
        } else {
            0
        }
    } else if mode == 1 {
        1
    } else {
        4
    };
    Some(
        1 + (if sib {
            1
        } else {
            0
        }) + displacement,
    )
}

/// Decodes the instruction at the start of `bytes`.
pub fn decode(bytes: &[u8]) -> (result: Result<Instruction, Error>)
    ensures
        match result {
            Ok(instruction) => decoded(bytes@) == Some(instruction),
            Err(error) => decoded(bytes@).is_none() && error == Error::InvalidInstruction,
        },
{
    let lim = if bytes.len() < MAX_LENGTH {
        bytes.len()
    } else {
        MAX_LENGTH
    };
    let prefixes = match scan_prefixes(bytes) {
        Some(prefixes) => prefixes,
        None => {
            return Err(Error::InvalidInstruction);
        },
    };
    let o = prefixes.opcode;
    let op = bytes[o];
    let word = prefixes.word;
    let wide = prefixes.wide;
    let address32 = prefixes.address32;
    let immediate: usize = if word && !wide {
        2
    } else {
        4
    };
    let two = op == 0x0f;
    if two && o + 1 >= lim {
        return Err(Error::InvalidInstruction);
    }
    let p = if two {
        o + 2
    } else {
        o + 1
    };
    let modrm = if p < lim {
        bytes[p]
    } else {
        0
    };
    let reg = (modrm / 8) % 8;
    let rm = modrm % 8;
    let mode = modrm / 64;
    let form = if two {
        secondary(bytes[o + 1], reg)
    } else {
        primary(op, immediate, wide, address32, reg, rm)
    };
    let form = match form {
        None => {
            return Err(Error::InvalidInstruction);
        },
        Some(form) => form,
    };
    finish(bytes, lim, p, form, word, address32, prefixes.lock)
}

/// Completes an instruction; see [`finished`].
fn finish(
    bytes: &[u8],
    lim: usize,
    p: usize,
    form: Form,
    word: bool,
    address32: bool,
    lock: bool,
) -> (result: Result<Instruction, Error>)
    requires
        lim == limit(bytes@),
        p <= lim + 1,
        form.immediate <= 8,
    ensures
        match result {
            Ok(instruction) => finished(bytes@, p as int, form, word, address32, lock) == Some(
                instruction,
            ),
            Err(error) => finished(bytes@, p as int, form, word, address32, lock).is_none()
                && error == Error::InvalidInstruction,
        },
{
    let modrm = if p < lim {
        bytes[p]
    } else {
        0
    };
    let rm = modrm % 8;
    let mode = modrm / 64;
    let operand_end = if form.modrm {
        if p >= lim {
            return Err(Error::InvalidInstruction);
        }
        match operand_length(bytes, p, lim) {
            Some(length) => p + length,
            None => {
                return Err(Error::InvalidInstruction);
            },
        }
    } else {
        p
    };
    if operand_end + form.immediate > lim {
        return Err(Error::InvalidInstruction);
    }
    let end = operand_end + form.immediate;
    let memory = form.modrm && mode != 3;
    let relative = form.modrm && mode == 0 && rm == 5;
    if lock && !(form.lockable && memory) {
        return Err(Error::InvalidInstruction);
    }
    let branch = match form.branch {
        Some((width, condition)) => Some(Branch { displacement: p, width, condition }),
        None => None,
    };
    let call = if form.direct_call {
        Some(Call::Direct(p))
    } else if form.indirect_call {
        Some(Call::Indirect(p))
    } else {
        None
    };
    Ok(
        Instruction {
            size: end,
            terminal: form.terminal,
            relative_memory: if relative {
                Some(p + 1)
            } else {
                None
            },
            cannot_move: form.cannot_move || (address32 && relative) || (word && (form.direct_call
                || form.branch.is_some())),
            call,
            branch,
        },
    )
}

/// Sizes the instruction at the start of `bytes` and tells whether it ends
/// the straight-line code (return, jump or trap).
pub fn instruction(bytes: &[u8]) -> (result: Result<(usize, bool), Error>)
    ensures
        match result {
            Ok((size, terminal)) => decoded(bytes@) matches Some(i) && i.size == size && i.terminal
                == terminal,
            Err(error) => decoded(bytes@).is_none() && error == Error::InvalidInstruction,
        },
{
    let decoded = decode(bytes)?;
    Ok((decoded.size, decoded.terminal))
}

} // verus!
