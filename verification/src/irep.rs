//! Intermediate representation with symbolic jump targets.

use crate::error::Offset;
use crate::insn::Op;
use crate::vm::{self, Effect, Regs, Test};
use core::ops::Range;
use vstd::prelude::*;

verus! {

/// A handle to a not-yet-resolved instruction offset. [`IrBuilder::new_label`] hands it out, and
/// [`IrBuilder::place`] must place it before [`crate::backpatch::assemble`] runs.
#[derive(Debug, Clone, Copy, PartialEq, Eq, Structural)]
pub struct Label(pub usize);

impl Label {
    /// The label's position among the labels of its builder.
    pub fn index(self) -> (index: usize)
        ensures
            index == self.0,
    {
        self.0
    }
}

/// One item in the stream: a real instruction, or a zero-width marker recording that a label
/// resolves to whatever real instruction comes next.
#[derive(Debug)]
pub enum IrOp {
    Real(IrInsn),
    Mark(Label),
}

/// An instruction and the source text it was generated for.
#[derive(Debug)]
pub struct IrInsn {
    pub op: IrOp2,
    pub offset: Offset,
}

/// The operations that code generation needs. Jumps carry [`Label`]s instead of displacements;
/// everything else is in its final form.
#[derive(Clone, Copy, Debug)]
pub enum IrOp2 {
    LdhAbs(u32),
    LdbAbs(u32),
    LdwAbs(u32),
    LdxMsh(u32),
    LdhInd(u32),
    AndK(u32),
    Jeq { imm: u32, jt: Label, jf: Label },
    Jgt { imm: u32, jt: Label, jf: Label },
    Jge { imm: u32, jt: Label, jf: Label },
    Jset { imm: u32, jt: Label, jf: Label },
    Jmp { target: Label },
    Ret(u32),
}

/// The mathematical value of an [`IrOp2`]: an operation that does not jump, a conditional jump or
/// an unconditional one.
pub enum Action {
    Do(Op),
    If { test: Test, imm: u32, jt: nat, jf: nat },
    Goto(nat),
}

/// The mathematical value of an [`IrOp`].
pub enum Item {
    Real(Action, Range<usize>),
    Mark(nat),
}

/// The mathematical value of a builder or a finished program: its stream, and how many labels it
/// has.
#[verifier::ext_equal]
pub struct Code {
    pub stream: Seq<Item>,
    pub labels: nat,
}

impl View for IrOp2 {
    type V = Action;

    open spec fn view(&self) -> Action {
        match *self {
            IrOp2::LdhAbs(k) => Action::Do(Op::LdhAbs(k)),
            IrOp2::LdbAbs(k) => Action::Do(Op::LdbAbs(k)),
            IrOp2::LdwAbs(k) => Action::Do(Op::LdwAbs(k)),
            IrOp2::LdxMsh(k) => Action::Do(Op::LdxMsh(k)),
            IrOp2::LdhInd(k) => Action::Do(Op::LdhInd(k)),
            IrOp2::AndK(k) => Action::Do(Op::AluAndK(k)),
            IrOp2::Jeq { imm, jt, jf } => Action::If {
                test: Test::Equal,
                imm,
                jt: jt.0 as nat,
                jf: jf.0 as nat,
            },
            IrOp2::Jgt { imm, jt, jf } => Action::If {
                test: Test::Greater,
                imm,
                jt: jt.0 as nat,
                jf: jf.0 as nat,
            },
            IrOp2::Jge { imm, jt, jf } => Action::If {
                test: Test::GreaterOrEqual,
                imm,
                jt: jt.0 as nat,
                jf: jf.0 as nat,
            },
            IrOp2::Jset { imm, jt, jf } => Action::If {
                test: Test::AnyBitSet,
                imm,
                jt: jt.0 as nat,
                jf: jf.0 as nat,
            },
            IrOp2::Jmp { target } => Action::Goto(target.0 as nat),
            IrOp2::Ret(k) => Action::Do(Op::Ret(k)),
        }
    }
}

impl View for IrOp {
    type V = Item;

    open spec fn view(&self) -> Item {
        match *self {
            IrOp::Real(insn) => Item::Real(insn.op@, insn.offset),
            IrOp::Mark(label) => Item::Mark(label.0 as nat),
        }
    }
}

/// The values of a stream's items.
pub open spec fn items(stream: Seq<IrOp>) -> Seq<Item> {
    stream.map_values(|op: IrOp| op@)
}

/// Where `label` was last placed in `stream`.
pub open spec fn place_of(stream: Seq<Item>, label: nat) -> Option<nat>
    decreases stream.len(),
{
    if stream.len() == 0 {
        None
    } else if stream.last() == Item::Mark(label) {
        Some((stream.len() - 1) as nat)
    } else {
        place_of(stream.drop_last(), label)
    }
}

/// How many real instructions are among the first `n` items of `stream`: the index of the next real
/// instruction at or after item `n`.
pub open spec fn reals_before(stream: Seq<Item>, n: nat) -> nat
    decreases n,
{
    if n == 0 {
        0
    } else {
        reals_before(stream, (n - 1) as nat) + if stream[n - 1] is Real {
            1nat
        } else {
            0nat
        }
    }
}

/// Whether `item` may jump to `label`.
pub open spec fn jumps_to(item: Item, label: nat) -> bool {
    match item {
        Item::Real(Action::If { jt, jf, .. }, _) => label == jt || label == jf,
        Item::Real(Action::Goto(target), _) => label == target,
        _ => false,
    }
}

/// Whether `item` is not one of the operations that only jumps are for.
pub open spec fn proper(item: Item) -> bool {
    match item {
        Item::Real(Action::Do(op), _) => match op {
            Op::Ja(_) | Op::Jeq(_) | Op::Jgt(_) | Op::Jge(_) | Op::Jset(_) | Op::Unknown => false,
            _ => true,
        },
        _ => true,
    }
}

/// Whether `item` is a `ret`.
pub open spec fn is_ret(item: Item) -> bool {
    item matches Item::Real(Action::Do(Op::Ret(_)), _)
}

impl Code {
    /// Whether the code is ready to assemble: it places no foreign label, and every label that an
    /// instruction jumps to is placed after that instruction.
    pub open spec fn well_formed(self) -> bool {
        &&& forall|i: int|
            0 <= i < self.stream.len() ==> (#[trigger] self.stream[i] matches Item::Mark(label)
                ==> label < self.labels)
        &&& forall|i: int, label: nat|
            0 <= i < self.stream.len() && #[trigger] jumps_to(self.stream[i], label) ==> {
                &&& label < self.labels
                &&& place_of(self.stream, label) matches Some(at) && at > i
            }
    }
}

/// The status of the symbolic code that goes on at item `at` with `regs`. A jump to a label that is
/// not placed further on rejects.
pub open spec fn code_status_from(
    stream: Seq<Item>,
    at: nat,
    regs: Regs,
    packet: Seq<u8>,
) -> u32
    decreases
            if at < stream.len() {
                stream.len() - at
            } else {
                0
            },
{
    if at >= stream.len() {
        0
    } else {
        match stream[at as int] {
            Item::Mark(_) => code_status_from(stream, at + 1, regs, packet),
            Item::Real(Action::Do(op), _) => match vm::straight_effect(op, regs, packet) {
                Effect::Next(next) => code_status_from(stream, at + 1, next, packet),
                Effect::Skip(..) => 0,
                Effect::Stop(status) => status,
            },
            Item::Real(Action::If { test, imm, jt, jf }, _) => {
                let label = if test.holds(regs.a, imm) {
                    jt
                } else {
                    jf
                };
                match place_of(stream, label) {
                    Some(target) if target > at => code_status_from(stream, target, regs, packet),
                    _ => 0,
                }
            },
            Item::Real(Action::Goto(label), _) => match place_of(stream, label) {
                Some(target) if target > at => code_status_from(stream, target, regs, packet),
                _ => 0,
            },
        }
    }
}

/// Collects a stream and hands out its labels.
#[derive(Debug)]
pub struct IrBuilder {
    stream: Vec<IrOp>,
    /// The labels handed out, in order. The next label's index is their number, which a vector
    /// keeps within `usize`.
    labels: Vec<Label>,
}

impl View for IrBuilder {
    type V = Code;

    closed spec fn view(&self) -> Code {
        Code { stream: items(self.stream@), labels: self.labels@.len() }
    }
}

impl IrBuilder {
    /// A builder with an empty stream and no labels.
    pub fn new() -> (builder: IrBuilder)
        ensures
            builder@ == (Code { stream: seq![], labels: 0 }),
    {
        let builder = IrBuilder { stream: Vec::new(), labels: Vec::new() };
        builder
    }

    /// Allocates a new, not-yet-placed label.
    pub fn new_label(&mut self) -> (label: Label)
        ensures
            label.0 == old(self)@.labels,
            final(self)@ == (Code { labels: old(self)@.labels + 1, ..old(self)@ }),
    {
        let label = Label(self.labels.len());
        self.labels.push(label);
        label
    }

    /// Marks the current position in the stream as where `label` resolves to.
    pub fn place(&mut self, label: Label)
        ensures
            final(self)@ == (Code {
                stream: old(self)@.stream.push(Item::Mark(label.0 as nat)),
                ..old(self)@
            }),
    {
        self.stream.push(IrOp::Mark(label));
    }

    /// Appends an instruction.
    pub fn emit(&mut self, op: IrOp2, offset: Offset)
        ensures
            final(self)@ == (Code {
                stream: old(self)@.stream.push(Item::Real(op@, offset)),
                ..old(self)@
            }),
    {
        self.stream.push(IrOp::Real(IrInsn { op, offset }));
    }

    /// The finished program: the stream and how many labels it needs room for.
    pub fn finish(self) -> (program: IrProgram)
        ensures
            program@ == self@,
    {
        IrProgram { num_labels: self.labels.len(), stream: self.stream }
    }
}

/// A finished symbolic program.
#[derive(Debug)]
pub struct IrProgram {
    pub stream: Vec<IrOp>,
    pub num_labels: usize,
}

impl View for IrProgram {
    type V = Code;

    open spec fn view(&self) -> Code {
        Code { stream: items(self.stream@), labels: self.num_labels as nat }
    }
}

} // verus!
