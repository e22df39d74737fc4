//! A small classic BPF interpreter.
//!
//! The operand of the `ret` that a program reaches is its status, raw and unclamped. A load outside
//! the packet, a jump outside the program, running off its end and an unknown opcode all reject the
//! packet with status `0`.

use crate::insn::{Insn, Op};
use crate::packet::{self, read_u16, read_u32, read_u8};
use vstd::prelude::*;

verus! {

/// The machine's two registers: the accumulator `a` and the index register `x`.
pub struct Regs {
    pub a: u32,
    pub x: u32,
}

/// What executing one instruction does.
pub enum Effect {
    /// Go on with the next instruction.
    Next(Regs),
    /// Skip that many instructions after this one.
    Skip(nat, Regs),
    /// Stop with that status.
    Stop(u32),
}

/// The effect of putting a loaded value into the accumulator. A load that failed rejects.
pub open spec fn load_a(value: Option<u32>, regs: Regs) -> Effect {
    match value {
        Some(v) => Effect::Next(Regs { a: v, x: regs.x }),
        None => Effect::Stop(0),
    }
}

/// The comparison that a conditional jump makes between the accumulator and its operand.
pub enum Test {
    Equal,
    Greater,
    GreaterOrEqual,
    AnyBitSet,
}

impl Test {
    /// Whether the comparison holds of the accumulator `a` and the operand `k`.
    pub open spec fn holds(self, a: u32, k: u32) -> bool {
        match self {
            Test::Equal => a == k,
            Test::Greater => a > k,
            Test::GreaterOrEqual => a >= k,
            Test::AnyBitSet => a & k != 0,
        }
    }
}

/// The effect of an operation that does not jump. (Of a jump, this says nothing of use.)
pub open spec fn straight_effect(op: Op, regs: Regs, packet: Seq<u8>) -> Effect {
    match op {
        Op::LdhAbs(k) => load_a(packet::half_at(packet, k as int), regs),
        Op::LdbAbs(k) => load_a(packet::byte_at(packet, k as int), regs),
        Op::LdwAbs(k) => load_a(packet::word_at(packet, k as int), regs),
        Op::LdhInd(k) => load_a(packet::half_at(packet, regs.x + k), regs),
        Op::LdxMsh(k) => match packet::byte_at(packet, k as int) {
            Some(byte) => Effect::Next(Regs { a: regs.a, x: (byte % 16 * 4) as u32 }),
            None => Effect::Stop(0),
        },
        Op::AluAndK(k) => Effect::Next(Regs { a: regs.a & k, x: regs.x }),
        Op::Ret(k) => Effect::Stop(k),
        _ => Effect::Stop(0),
    }
}

/// The effect of a conditional jump.
pub open spec fn branch_effect(test: Test, insn: Insn, regs: Regs) -> Effect {
    Effect::Skip(
        if test.holds(regs.a, insn.k) {
            insn.jt as nat
        } else {
            insn.jf as nat
        },
        regs,
    )
}

/// The effect of one instruction on `regs`, reading `packet`.
pub open spec fn effect(insn: Insn, regs: Regs, packet: Seq<u8>) -> Effect {
    match insn.op() {
        Op::Ja(k) => Effect::Skip(k as nat, regs),
        Op::Jeq(_) => branch_effect(Test::Equal, insn, regs),
        Op::Jgt(_) => branch_effect(Test::Greater, insn, regs),
        Op::Jge(_) => branch_effect(Test::GreaterOrEqual, insn, regs),
        Op::Jset(_) => branch_effect(Test::AnyBitSet, insn, regs),
        op => straight_effect(op, regs, packet),
    }
}

/// The status of the program that goes on at instruction `pc` with `regs`.
pub open spec fn status_from(insns: Seq<Insn>, pc: nat, regs: Regs, packet: Seq<u8>) -> u32
    decreases
            if pc < insns.len() {
                insns.len() - pc
            } else {
                0
            },
{
    if pc >= insns.len() {
        0
    } else {
        match effect(insns[pc as int], regs, packet) {
            Effect::Next(next) => status_from(insns, pc + 1, next, packet),
            Effect::Skip(skip, next) => status_from(insns, pc + 1 + skip, next, packet),
            Effect::Stop(status) => status,
        }
    }
}

/// The status of a program on a packet: it starts at the first instruction with both registers `0`.
pub open spec fn status(insns: Seq<Insn>, packet: Seq<u8>) -> u32 {
    status_from(insns, 0, Regs { a: 0, x: 0 }, packet)
}

/// Runs a program against a packet and returns its status, the operand of the `ret` it reaches: how
/// many bytes of the packet to keep, `0` meaning none.
pub fn run(insns: &[Insn], packet: &[u8]) -> (kept: u32)
    ensures
        kept == status(insns@, packet@),
{
    let mut a: u32 = 0;
    let mut x: u32 = 0;
    let mut pc: usize = 0;
    let len: usize = packet.len();

    while pc < insns.len()
        invariant
            len == packet@.len(),
            status(insns@, packet@) == status_from(insns@, pc as nat, Regs { a, x }, packet@),
        decreases
            if pc < insns@.len() {
                insns@.len() - pc
            } else {
                0
            },
    {
        let insn: Insn = insns[pc];
        let mut skip: u32 = 0;
        match insn.decode() {
            Op::LdhAbs(k) => match read_u16(packet, k as usize) {
                Some(v) => {
                    a = v;
                },
                None => {
                    return 0;
                },
            },
            Op::LdbAbs(k) => match read_u8(packet, k as usize) {
                Some(v) => {
                    a = v;
                },
                None => {
                    return 0;
                },
            },
            Op::LdhInd(k) => match (x as usize).checked_add(k as usize) {
                Some(offset) => match read_u16(packet, offset) {
                    Some(v) => {
                        a = v;
                    },
                    None => {
                        return 0;
                    },
                },
                None => {
                    return 0;
                },
            },
            Op::LdwAbs(k) => match read_u32(packet, k as usize) {
                Some(v) => {
                    a = v;
                },
                None => {
                    return 0;
                },
            },
            Op::LdxMsh(k) => match read_u8(packet, k as usize) {
                Some(byte) => {
                    assert(byte & 0x0f == byte % 16) by (bit_vector);
                    x = (byte & 0x0f) * 4;
                },
                None => {
                    return 0;
                },
            },
            Op::AluAndK(k) => {
                a = a & k;
            },
            Op::Ja(k) => {
                skip = k;
            },
            Op::Jeq(k) => {
                skip = branch(&insn, a == k);
            },
            Op::Jgt(k) => {
                skip = branch(&insn, a > k);
            },
            Op::Jge(k) => {
                skip = branch(&insn, a >= k);
            },
            Op::Jset(k) => {
                skip = branch(&insn, a & k != 0);
            },
            Op::Ret(k) => {
                return k;
            },
            Op::Unknown => {
                return 0;
            },
        }
        assert(status(insns@, packet@) == status_from(
            insns@,
            (pc + 1 + skip) as nat,
            Regs { a, x },
            packet@,
        ));
        match step(pc, skip) {
            Some(next) => {
                pc = next;
            },
            None => {
                return 0;
            },
        }
    }
    0
}

/// The displacement that a conditional jump takes.
pub fn branch(insn: &Insn, taken: bool) -> (skip: u32)
    ensures
        skip == if taken {
            insn.jt
        } else {
            insn.jf
        },
{
    if taken {
        insn.jt as u32
    } else {
        insn.jf as u32
    }
}

/// The index `skip` instructions after the one that follows `pc`, or `None` where no index is that
/// large.
pub fn step(pc: usize, skip: u32) -> (next: Option<usize>)
    ensures
        match next {
            Some(n) => n == pc + 1 + skip,
            None => pc + 1 + skip > usize::MAX,
        },
{
    match pc.checked_add(1) {
        Some(following) => following.checked_add(skip as usize),
        None => None,
    }
}

} // verus!
