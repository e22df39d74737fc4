//! The concrete classic BPF instruction, the kernel's `struct sock_filter`.
//!
//! The opcodes below are the ones this library emits and interprets. Each is the bitwise OR of an
//! instruction class with the size, mode, operation and source bits that the class takes.

use crate::render::{
    self, push_decimal, push_hexadecimal, push_left_aligned, push_zero_filled,
};
use vstd::prelude::*;
use vstd::string::*;

verus! {

/// `BPF_LD | BPF_H | BPF_ABS`.
pub const LDH_ABS: u16 = 0x28;

/// `BPF_LD | BPF_B | BPF_ABS`.
pub const LDB_ABS: u16 = 0x30;

/// `BPF_LD | BPF_W | BPF_ABS`.
pub const LDW_ABS: u16 = 0x20;

/// `BPF_LD | BPF_H | BPF_IND`.
pub const LDH_IND: u16 = 0x48;

/// `BPF_LDX | BPF_B | BPF_MSH`.
pub const LDX_MSH: u16 = 0xb1;

/// `BPF_ALU | BPF_AND | BPF_K`.
pub const AND_K: u16 = 0x54;

/// `BPF_JMP | BPF_JA`.
pub const JA: u16 = 0x05;

/// `BPF_JMP | BPF_JEQ | BPF_K`.
pub const JEQ_K: u16 = 0x15;

/// `BPF_JMP | BPF_JGT | BPF_K`.
pub const JGT_K: u16 = 0x25;

/// `BPF_JMP | BPF_JGE | BPF_K`.
pub const JGE_K: u16 = 0x35;

/// `BPF_JMP | BPF_JSET | BPF_K`.
pub const JSET_K: u16 = 0x45;

/// `BPF_RET | BPF_K`.
pub const RET_K: u16 = 0x06;

/// The operand of `ret` that means "keep the whole packet".
///
/// An accepting `ret` keeps the first `k` bytes, and no packet is `0xFFFF_FFFF` bytes long.
pub const KEEP_WHOLE_PACKET: u32 = 0xFFFF_FFFF;

/// One classic BPF instruction, with the fields of the kernel's `struct sock_filter`:
/// `code`, the two conditional-jump displacements `jt` and `jf`, and the operand `k`.
///
/// Displacements are relative to the next instruction.
#[derive(Debug, Clone, Copy, PartialEq, Eq, Structural)]
pub struct Insn {
    pub code: u16,
    pub jt: u8,
    pub jf: u8,
    pub k: u32,
}

/// A decoded [`Insn`]. See [`Insn::decode`].
#[derive(Debug, Clone, Copy, PartialEq, Eq, Structural)]
pub enum Op {
    LdhAbs(u32),
    LdbAbs(u32),
    LdwAbs(u32),
    LdhInd(u32),
    LdxMsh(u32),
    AluAndK(u32),
    Ja(u32),
    Jeq(u32),
    Jgt(u32),
    Jge(u32),
    Jset(u32),
    Ret(u32),
    Unknown,
}

impl Default for Insn {
    /// The all-zero instruction.
    fn default() -> (insn: Insn)
        ensures
            insn == (Insn { code: 0, jt: 0, jf: 0, k: 0 }),
    {
        Insn { code: 0, jt: 0, jf: 0, k: 0 }
    }
}

impl Insn {
    /// The instruction with opcode `code`, operand `k` and no conditional displacements.
    pub open spec fn plain(code: u16, k: u32) -> Insn {
        Insn { code, jt: 0, jf: 0, k }
    }

    /// The operation that an opcode stands for, applied to this instruction's operand. Opcodes
    /// outside the twelve of this library are [`Op::Unknown`].
    pub open spec fn op(self) -> Op {
        if self.code == LDH_ABS {
            Op::LdhAbs(self.k)
        } else if self.code == LDB_ABS {
            Op::LdbAbs(self.k)
        } else if self.code == LDW_ABS {
            Op::LdwAbs(self.k)
        } else if self.code == LDH_IND {
            Op::LdhInd(self.k)
        } else if self.code == LDX_MSH {
            Op::LdxMsh(self.k)
        } else if self.code == AND_K {
            Op::AluAndK(self.k)
        } else if self.code == JA {
            Op::Ja(self.k)
        } else if self.code == JEQ_K {
            Op::Jeq(self.k)
        } else if self.code == JGT_K {
            Op::Jgt(self.k)
        } else if self.code == JGE_K {
            Op::Jge(self.k)
        } else if self.code == JSET_K {
            Op::Jset(self.k)
        } else if self.code == RET_K {
            Op::Ret(self.k)
        } else {
            Op::Unknown
        }
    }

    /// Whether this instruction uses its `jt` and `jf` displacements.
    pub open spec fn branches(self) -> bool {
        ||| self.op() is Jeq
        ||| self.op() is Jgt
        ||| self.op() is Jge
        ||| self.op() is Jset
    }

    /// `ldh [k]`: load the half-word at absolute offset `k`.
    pub fn ldh_abs(k: u32) -> (insn: Insn)
        ensures
            insn == Insn::plain(LDH_ABS, k),
            insn.op() == Op::LdhAbs(k),
    {
        Insn { code: LDH_ABS, jt: 0, jf: 0, k }
    }

    /// `ldb [k]`: load the byte at absolute offset `k`.
    pub fn ldb_abs(k: u32) -> (insn: Insn)
        ensures
            insn == Insn::plain(LDB_ABS, k),
            insn.op() == Op::LdbAbs(k),
    {
        Insn { code: LDB_ABS, jt: 0, jf: 0, k }
    }

    /// `ld [k]`: load the four-byte word at absolute offset `k`.
    pub fn ldw_abs(k: u32) -> (insn: Insn)
        ensures
            insn == Insn::plain(LDW_ABS, k),
            insn.op() == Op::LdwAbs(k),
    {
        Insn { code: LDW_ABS, jt: 0, jf: 0, k }
    }

    /// `ldxb 4*([k]&0xf)`: put four times the low nibble of the byte at offset `k` into `X`. On the
    /// first byte of an IPv4 header this is the header's length in bytes.
    pub fn ldx_msh(k: u32) -> (insn: Insn)
        ensures
            insn == Insn::plain(LDX_MSH, k),
            insn.op() == Op::LdxMsh(k),
    {
        Insn { code: LDX_MSH, jt: 0, jf: 0, k }
    }

    /// `ldh [x + k]`: load the half-word at `X + k`.
    pub fn ldh_ind(k: u32) -> (insn: Insn)
        ensures
            insn == Insn::plain(LDH_IND, k),
            insn.op() == Op::LdhInd(k),
    {
        Insn { code: LDH_IND, jt: 0, jf: 0, k }
    }

    /// `jeq #k`: branch on `A == k`.
    pub fn jeq(k: u32, jt: u8, jf: u8) -> (insn: Insn)
        ensures
            insn == (Insn { code: JEQ_K, jt, jf, k }),
            insn.op() == Op::Jeq(k),
    {
        Insn { code: JEQ_K, jt, jf, k }
    }

    /// `jgt #k`: branch on `A > k`.
    pub fn jgt(k: u32, jt: u8, jf: u8) -> (insn: Insn)
        ensures
            insn == (Insn { code: JGT_K, jt, jf, k }),
            insn.op() == Op::Jgt(k),
    {
        Insn { code: JGT_K, jt, jf, k }
    }

    /// `jge #k`: branch on `A >= k`.
    pub fn jge(k: u32, jt: u8, jf: u8) -> (insn: Insn)
        ensures
            insn == (Insn { code: JGE_K, jt, jf, k }),
            insn.op() == Op::Jge(k),
    {
        Insn { code: JGE_K, jt, jf, k }
    }

    /// `jset #k`: branch on `A & k != 0`.
    pub fn jset(k: u32, jt: u8, jf: u8) -> (insn: Insn)
        ensures
            insn == (Insn { code: JSET_K, jt, jf, k }),
            insn.op() == Op::Jset(k),
    {
        Insn { code: JSET_K, jt, jf, k }
    }

    /// `ja k`: jump `k` instructions ahead of the next one. The displacement has all 32 bits of `k`.
    pub fn jmp(k: u32) -> (insn: Insn)
        ensures
            insn == Insn::plain(JA, k),
            insn.op() == Op::Ja(k),
    {
        Insn { code: JA, jt: 0, jf: 0, k }
    }

    /// `ret #k`.
    pub fn ret(k: u32) -> (insn: Insn)
        ensures
            insn == Insn::plain(RET_K, k),
            insn.op() == Op::Ret(k),
    {
        Insn { code: RET_K, jt: 0, jf: 0, k }
    }

    /// `and #k`: `A = A & k`.
    pub fn and_k(k: u32) -> (insn: Insn)
        ensures
            insn == Insn::plain(AND_K, k),
            insn.op() == Op::AluAndK(k),
    {
        Insn { code: AND_K, jt: 0, jf: 0, k }
    }

    /// Decodes `code` into a typed operation.
    pub fn decode(self) -> (op: Op)
        ensures
            op == self.op(),
    {
        if self.code == LDH_ABS {
            Op::LdhAbs(self.k)
        } else if self.code == LDB_ABS {
            Op::LdbAbs(self.k)
        } else if self.code == LDW_ABS {
            Op::LdwAbs(self.k)
        } else if self.code == LDH_IND {
            Op::LdhInd(self.k)
        } else if self.code == LDX_MSH {
            Op::LdxMsh(self.k)
        } else if self.code == AND_K {
            Op::AluAndK(self.k)
        } else if self.code == JA {
            Op::Ja(self.k)
        } else if self.code == JEQ_K {
            Op::Jeq(self.k)
        } else if self.code == JGT_K {
            Op::Jgt(self.k)
        } else if self.code == JGE_K {
            Op::Jge(self.k)
        } else if self.code == JSET_K {
            Op::Jset(self.k)
        } else if self.code == RET_K {
            Op::Ret(self.k)
        } else {
            Op::Unknown
        }
    }

    /// Whether this is one of the four conditional jumps.
    pub fn is_conditional_jump(self) -> (yes: bool)
        ensures
            yes == self.branches(),
    {
        match self.decode() {
            Op::Jeq(_) | Op::Jgt(_) | Op::Jge(_) | Op::Jset(_) => true,
            _ => false,
        }
    }
}

/// The mnemonic of an operation.
pub open spec fn mnemonic_of(op: Op) -> Seq<char> {
    match op {
        Op::LdhAbs(_) => "ldh"@,
        Op::LdbAbs(_) => "ldb"@,
        Op::LdwAbs(_) => "ld"@,
        Op::LdhInd(_) => "ldh"@,
        Op::LdxMsh(_) => "ldxb"@,
        Op::AluAndK(_) => "and"@,
        Op::Ja(_) => "ja"@,
        Op::Jeq(_) => "jeq"@,
        Op::Jgt(_) => "jgt"@,
        Op::Jge(_) => "jge"@,
        Op::Jset(_) => "jset"@,
        Op::Ret(_) => "ret"@,
        Op::Unknown => "unimp"@,
    }
}

/// The operand of instruction `index` as a listing shows it. An unconditional jump shows the index
/// of its target, an unknown instruction its opcode.
pub open spec fn operand_of(insn: Insn, index: nat) -> Seq<char> {
    match insn.op() {
        Op::LdhAbs(k) | Op::LdbAbs(k) | Op::LdwAbs(k) => "["@ + render::decimal(k as nat) + "]"@,
        Op::LdhInd(k) => "[x + "@ + render::decimal(k as nat) + "]"@,
        Op::LdxMsh(k) => "4*(["@ + render::decimal(k as nat) + "]&0xf)"@,
        Op::Ja(k) => render::decimal(index + 1 + k as nat),
        Op::AluAndK(k) | Op::Jeq(k) | Op::Jgt(k) | Op::Jge(k) | Op::Jset(k) | Op::Ret(k) => "#0x"@
            + render::hexadecimal(k as nat),
        Op::Unknown => "0x"@ + render::hexadecimal(insn.code as nat),
    }
}

/// The line of a listing for instruction `index`, as `tcpdump -d` prints it: `(%03d) %-8s %s`, and
/// for a conditional jump `(%03d) %-8s %-16s jt %d<tab>jf %d` with the indices of its targets.
pub open spec fn line(insn: Insn, index: nat) -> Seq<char> {
    let start = "("@ + render::zero_filled(index, 3) + ") "@ + render::left_aligned(
        mnemonic_of(insn.op()),
        8,
    ) + " "@;
    if insn.branches() {
        start + render::left_aligned(operand_of(insn, index), 16) + " jt "@ + render::decimal(
            index + 1 + insn.jt as nat,
        ) + "\tjf "@ + render::decimal(index + 1 + insn.jf as nat)
    } else {
        start + operand_of(insn, index)
    }
}

/// Appends the line of a listing for instruction `index`.
pub fn fmt_insn(out: &mut String, insn: Insn, index: usize)
    ensures
        final(out)@ == old(out)@ + line(insn, index as nat),
{
    let (mnemonic, operand): (&'static str, String) = describe(insn, index);
    out.append("(");
    push_zero_filled(out, index as u128, 3);
    out.append(") ");
    push_left_aligned(out, mnemonic, 8);
    out.append(" ");
    if insn.is_conditional_jump() {
        push_left_aligned(out, operand.as_str(), 16);
        out.append(" jt ");
        push_decimal(out, index as u128 + 1 + insn.jt as u128);
        out.append("\tjf ");
        push_decimal(out, index as u128 + 1 + insn.jf as u128);
    } else {
        out.append(operand.as_str());
    }
}

/// The mnemonic and the operand of instruction `index`.
pub fn describe(insn: Insn, index: usize) -> (described: (&'static str, String))
    ensures
        described.0@ == mnemonic_of(insn.op()),
        described.1@ == operand_of(insn, index as nat),
{
    let mut operand: String = String::new();
    let mnemonic: &'static str = match insn.decode() {
        Op::LdhAbs(k) => {
            push_bracketed(&mut operand, "[", k, "]");
            "ldh"
        },
        Op::LdbAbs(k) => {
            push_bracketed(&mut operand, "[", k, "]");
            "ldb"
        },
        Op::LdwAbs(k) => {
            push_bracketed(&mut operand, "[", k, "]");
            "ld"
        },
        Op::LdhInd(k) => {
            push_bracketed(&mut operand, "[x + ", k, "]");
            "ldh"
        },
        Op::LdxMsh(k) => {
            push_bracketed(&mut operand, "4*([", k, "]&0xf)");
            "ldxb"
        },
        Op::AluAndK(k) => {
            push_immediate(&mut operand, "#0x", k);
            "and"
        },
        Op::Ja(k) => {
            push_decimal(&mut operand, index as u128 + 1 + k as u128);
            "ja"
        },
        Op::Jeq(k) => {
            push_immediate(&mut operand, "#0x", k);
            "jeq"
        },
        Op::Jgt(k) => {
            push_immediate(&mut operand, "#0x", k);
            "jgt"
        },
        Op::Jge(k) => {
            push_immediate(&mut operand, "#0x", k);
            "jge"
        },
        Op::Jset(k) => {
            push_immediate(&mut operand, "#0x", k);
            "jset"
        },
        Op::Ret(k) => {
            push_immediate(&mut operand, "#0x", k);
            "ret"
        },
        Op::Unknown => {
            push_immediate(&mut operand, "0x", insn.code as u32);
            "unimp"
        },
    };
    (mnemonic, operand)
}

/// Appends a number in decimal between two texts.
fn push_bracketed(out: &mut String, open: &str, k: u32, close: &str)
    ensures
        final(out)@ == old(out)@ + (open@ + render::decimal(k as nat) + close@),
{
    out.append(open);
    push_decimal(out, k as u128);
    out.append(close);
}

/// Appends a prefix and a number in hexadecimal.
fn push_immediate(out: &mut String, prefix: &str, k: u32)
    ensures
        final(out)@ == old(out)@ + (prefix@ + render::hexadecimal(k as nat)),
{
    out.append(prefix);
    push_hexadecimal(out, k);
}

} // verus!
