//! Two-pass assembler: from symbolic [`crate::irep`] to concrete [`Insn`]s.

use crate::error::{copy_offset, CompileError, ErrorTag, Failure, Offset, Reason};
use crate::insn::{self, Insn, Op};
use crate::irep::{self, Action, Code, IrInsn, IrOp, IrOp2, IrProgram, Item, Label};
use crate::vm::{self, Regs, Test};
use core::ops::Range;
use vstd::prelude::*;

verus! {

/// Where each label of `code` resolves to: the index of the next real instruction after the place
/// where it was placed last.
pub open spec fn label_table(code: Code) -> Seq<Option<nat>> {
    Seq::new(
        code.labels,
        |label: int|
            match irep::place_of(code.stream, label as nat) {
                Some(at) => Some(irep::reals_before(code.stream, at)),
                None => None,
            },
    )
}

/// How far `label` is ahead of the instruction that follows instruction `idx`.
pub open spec fn displacement(idx: nat, label: nat, table: Seq<Option<nat>>) -> nat {
    (table[label as int]->0 - (idx + 1)) as nat
}

/// Whether instruction `idx` can jump to `label`: the label resolves to a later instruction.
pub open spec fn reachable(idx: nat, label: nat, table: Seq<Option<nat>>) -> bool {
    &&& label < table.len()
    &&& table[label as int] matches Some(target)
    &&& target >= idx + 1
}

/// Whether `action`, as instruction `idx`, jumps to reachable labels only.
pub open spec fn lowerable(idx: nat, action: Action, table: Seq<Option<nat>>) -> bool {
    match action {
        Action::Do(_) => true,
        Action::If { jt, jf, .. } => reachable(idx, jt, table) && reachable(idx, jf, table),
        Action::Goto(label) => reachable(idx, label, table),
    }
}

/// The failure of instruction `idx`, generated for the text at `offset`, to reach `label`.
pub open spec fn too_far(
    idx: nat,
    label: nat,
    offset: Range<usize>,
    table: Seq<Option<nat>>,
) -> Failure {
    Failure {
        offset,
        reason: Reason::JumpDisplacementOverflow {
            inst_index: idx,
            displacement: displacement(idx, label, table) as u32,
        },
    }
}

/// The instruction of an operation that does not jump.
pub open spec fn straight_insn(op: Op) -> Insn {
    match op {
        Op::LdhAbs(k) => Insn::plain(insn::LDH_ABS, k),
        Op::LdbAbs(k) => Insn::plain(insn::LDB_ABS, k),
        Op::LdwAbs(k) => Insn::plain(insn::LDW_ABS, k),
        Op::LdxMsh(k) => Insn::plain(insn::LDX_MSH, k),
        Op::LdhInd(k) => Insn::plain(insn::LDH_IND, k),
        Op::AluAndK(k) => Insn::plain(insn::AND_K, k),
        Op::Ret(k) => Insn::plain(insn::RET_K, k),
        _ => Insn::plain(0, 0),
    }
}

/// The opcode of the conditional jump that makes a comparison.
pub open spec fn branch_code(test: Test) -> u16 {
    match test {
        Test::Equal => insn::JEQ_K,
        Test::Greater => insn::JGT_K,
        Test::GreaterOrEqual => insn::JGE_K,
        Test::AnyBitSet => insn::JSET_K,
    }
}

/// The concrete form of `action` as instruction `idx`. A conditional jump fails if one of its
/// displacements, `jt` first, does not fit in eight bits.
pub open spec fn lowered(
    idx: nat,
    action: Action,
    offset: Range<usize>,
    table: Seq<Option<nat>>,
) -> Result<Insn, Failure> {
    match action {
        Action::Do(op) => Ok(straight_insn(op)),
        Action::If { test, imm, jt, jf } => if displacement(idx, jt, table) > 255 {
            Err(too_far(idx, jt, offset, table))
        } else if displacement(idx, jf, table) > 255 {
            Err(too_far(idx, jf, offset, table))
        } else {
            Ok(
                Insn {
                    code: branch_code(test),
                    jt: displacement(idx, jt, table) as u8,
                    jf: displacement(idx, jf, table) as u8,
                    k: imm,
                },
            )
        },
        Action::Goto(label) => Ok(Insn::plain(insn::JA, displacement(idx, label, table) as u32)),
    }
}

/// The concrete form of the first `n` items of `code`, or the failure of the first instruction
/// among them that has none.
pub open spec fn assembled_upto(code: Code, n: nat) -> Result<Seq<Insn>, Failure>
    decreases n,
{
    if n == 0 {
        Ok(seq![])
    } else {
        match assembled_upto(code, (n - 1) as nat) {
            Err(failure) => Err(failure),
            Ok(insns) => match code.stream[n - 1] {
                Item::Mark(_) => Ok(insns),
                Item::Real(action, offset) => match lowered(
                    insns.len(),
                    action,
                    offset,
                    label_table(code),
                ) {
                    Ok(insn) => Ok(insns.push(insn)),
                    Err(failure) => Err(failure),
                },
            },
        }
    }
}

/// The concrete form of `code`.
pub open spec fn assembled(code: Code) -> Result<Seq<Insn>, Failure> {
    assembled_upto(code, code.stream.len())
}

/// The label table that an executable table stands for.
pub open spec fn table_of(offsets: Seq<Option<usize>>) -> Seq<Option<nat>> {
    offsets.map_values(
        |target: Option<usize>|
            match target {
                Some(index) => Some(index as nat),
                None => None,
            },
    )
}

/// Resolves a program's labels and lowers its instructions.
pub fn assemble(program: IrProgram) -> (result: Result<Vec<Insn>, CompileError>)
    requires
        program@.well_formed(),
    ensures
        match result {
            Ok(insns) => assembled(program@) == Ok::<Seq<Insn>, Failure>(insns@),
            Err(error) => assembled(program@) == Err::<Seq<Insn>, Failure>(error@),
        },
{
    let offsets: Vec<Option<usize>> = resolve_labels(&program);
    let mut insns: Vec<Insn> = Vec::new();
    let mut i: usize = 0;
    while i < program.stream.len()
        invariant
            i <= program.stream@.len(),
            program@.well_formed(),
            table_of(offsets@) == label_table(program@),
            assembled_upto(program@, i as nat) == Ok::<Seq<Insn>, Failure>(insns@),
            insns@.len() == irep::reals_before(program@.stream, i as nat),
        decreases program.stream@.len() - i,
    {
        if let IrOp::Real(insn) = &program.stream[i] {
            proof {
                lemma_lowerable(program@, i as nat);
            }
            match lower(insns.len(), insn, &offsets) {
                Ok(lowered_insn) => {
                    insns.push(lowered_insn);
                },
                Err(error) => {
                    proof {
                        lemma_failure_persists(program@, (i + 1) as nat, program@.stream.len());
                    }
                    return Err(error);
                },
            }
        }
        i = i + 1;
    }
    Ok(insns)
}

/// The first pass: where each label resolves to.
fn resolve_labels(program: &IrProgram) -> (offsets: Vec<Option<usize>>)
    requires
        program@.well_formed(),
    ensures
        table_of(offsets@) == label_table(program@),
{
    let mut offsets: Vec<Option<usize>> = Vec::new();
    while offsets.len() < program.num_labels
        invariant
            offsets@.len() <= program.num_labels,
            forall|l: int| 0 <= l < offsets@.len() ==> offsets@[l] is None,
        decreases program.num_labels - offsets@.len(),
    {
        offsets.push(None);
    }
    let ghost stream = program@.stream;
    let mut count: usize = 0;
    let mut i: usize = 0;
    while i < program.stream.len()
        invariant
            i <= program.stream@.len(),
            stream == program@.stream,
            program@.well_formed(),
            count <= i,
            count == irep::reals_before(stream, i as nat),
            offsets@.len() == program.num_labels,
            forall|l: int|
                0 <= l < offsets@.len() ==> match irep::place_of(stream.take(i as int), l as nat) {
                    Some(at) => #[trigger] offsets@[l] matches Some(index) && index
                        == irep::reals_before(stream, at),
                    None => offsets@[l] is None,
                },
        decreases program.stream@.len() - i,
    {
        assert(stream[i as int] == program.stream@[i as int]@);
        assert(stream.take(i + 1).drop_last() =~= stream.take(i as int));
        match &program.stream[i] {
            IrOp::Mark(label) => {
                offsets[label.index()] = Some(count);
            },
            IrOp::Real(_) => {
                count = count + 1;
            },
        }
        i = i + 1;
    }
    assert(stream.take(i as int) =~= stream);
    offsets
}

/// Resolves a conditional jump's target into a `jt` or `jf` displacement.
pub fn resolve_branch(
    idx: usize,
    label: Label,
    offsets: &Vec<Option<usize>>,
    offset: &Offset,
) -> (result: Result<u8, CompileError>)
    requires
        reachable(idx as nat, label.0 as nat, table_of(offsets@)),
    ensures
        match result {
            Ok(skip) => skip == displacement(idx as nat, label.0 as nat, table_of(offsets@)),
            Err(error) => {
                &&& displacement(idx as nat, label.0 as nat, table_of(offsets@)) > 255
                &&& error@ == too_far(idx as nat, label.0 as nat, *offset, table_of(offsets@))
            },
        },
{
    let skip: usize = displacement_from(idx, label, offsets);
    if skip <= 255 {
        Ok(skip as u8)
    } else {
        Err(
            CompileError::new(
                copy_offset(offset),
                ErrorTag::JumpDisplacementOverflow {
                    inst_index: idx,
                    displacement: #[verifier::truncate]
                    (skip as u32),
                },
            ),
        )
    }
}

/// Resolves an unconditional jump's target into the 32-bit operand of `ja`.
pub fn resolve_jmp(idx: usize, label: Label, offsets: &Vec<Option<usize>>) -> (k: u32)
    requires
        reachable(idx as nat, label.0 as nat, table_of(offsets@)),
    ensures
        k == displacement(idx as nat, label.0 as nat, table_of(offsets@)) as u32,
{
    #[verifier::truncate]
    (displacement_from(idx, label, offsets) as u32)
}

/// How far `label` is ahead of the instruction that follows `idx`.
pub fn displacement_from(idx: usize, label: Label, offsets: &Vec<Option<usize>>) -> (skip: usize)
    requires
        reachable(idx as nat, label.0 as nat, table_of(offsets@)),
    ensures
        skip == displacement(idx as nat, label.0 as nat, table_of(offsets@)),
{
    match offsets[label.index()] {
        Some(target) => target - (idx + 1),
        None => 0,
    }
}

/// Lowers one instruction.
pub fn lower(idx: usize, insn: &IrInsn, offsets: &Vec<Option<usize>>) -> (result: Result<
    Insn,
    CompileError,
>)
    requires
        lowerable(idx as nat, insn.op@, table_of(offsets@)),
    ensures
        match result {
            Ok(concrete) => lowered(idx as nat, insn.op@, insn.offset, table_of(offsets@)) == Ok::<
                Insn,
                Failure,
            >(concrete),
            Err(error) => lowered(idx as nat, insn.op@, insn.offset, table_of(offsets@)) == Err::<
                Insn,
                Failure,
            >(error@),
        },
{
    let (imm, on_true, on_false): (u32, Label, Label) = match insn.op {
        IrOp2::LdhAbs(k) => {
            return Ok(Insn::ldh_abs(k));
        },
        IrOp2::LdbAbs(k) => {
            return Ok(Insn::ldb_abs(k));
        },
        IrOp2::LdwAbs(k) => {
            return Ok(Insn::ldw_abs(k));
        },
        IrOp2::LdxMsh(k) => {
            return Ok(Insn::ldx_msh(k));
        },
        IrOp2::LdhInd(k) => {
            return Ok(Insn::ldh_ind(k));
        },
        IrOp2::AndK(k) => {
            return Ok(Insn::and_k(k));
        },
        IrOp2::Ret(k) => {
            return Ok(Insn::ret(k));
        },
        IrOp2::Jmp { target } => {
            return Ok(Insn::jmp(resolve_jmp(idx, target, offsets)));
        },
        IrOp2::Jeq { imm, jt, jf } => (imm, jt, jf),
        IrOp2::Jgt { imm, jt, jf } => (imm, jt, jf),
        IrOp2::Jge { imm, jt, jf } => (imm, jt, jf),
        IrOp2::Jset { imm, jt, jf } => (imm, jt, jf),
    };
    let jt: u8 = match resolve_branch(idx, on_true, offsets, &insn.offset) {
        Ok(skip) => skip,
        Err(error) => {
            return Err(error);
        },
    };
    let jf: u8 = match resolve_branch(idx, on_false, offsets, &insn.offset) {
        Ok(skip) => skip,
        Err(error) => {
            return Err(error);
        },
    };
    match insn.op {
        IrOp2::Jeq { .. } => Ok(Insn::jeq(imm, jt, jf)),
        IrOp2::Jgt { .. } => Ok(Insn::jgt(imm, jt, jf)),
        IrOp2::Jge { .. } => Ok(Insn::jge(imm, jt, jf)),
        _ => Ok(Insn::jset(imm, jt, jf)),
    }
}

/// The number of real instructions does not decrease along a stream.
proof fn lemma_reals_before_grows(stream: Seq<Item>, m: nat, n: nat)
    requires
        m <= n,
    ensures
        irep::reals_before(stream, m) <= irep::reals_before(stream, n),
        irep::reals_before(stream, n) <= irep::reals_before(stream, m) + (n - m),
    decreases n - m,
{
    if m < n {
        lemma_reals_before_grows(stream, m, (n - 1) as nat);
    }
}

/// A label's place is an item of the stream that marks it.
pub proof fn lemma_place_of(stream: Seq<Item>, label: nat)
    ensures
        match irep::place_of(stream, label) {
            Some(at) => {
                &&& at < stream.len()
                &&& stream[at as int] == Item::Mark(label)
                &&& forall|i: int| at < i < stream.len() ==> stream[i] != Item::Mark(label)
            },
            None => forall|i: int| 0 <= i < stream.len() ==> stream[i] != Item::Mark(label),
        },
    decreases stream.len(),
{
    if stream.len() > 0 && stream.last() != Item::Mark(label) {
        lemma_place_of(stream.drop_last(), label);
        assert forall|i: int|
            0 <= i < stream.len() && stream[i] == Item::Mark(label) implies stream.drop_last()[i]
            == Item::Mark(label) by {}
    }
}

/// In well-formed code every instruction reaches the labels it jumps to.
proof fn lemma_lowerable(code: Code, i: nat)
    requires
        code.well_formed(),
        i < code.stream.len(),
        code.stream[i as int] is Real,
    ensures
        lowerable(
            irep::reals_before(code.stream, i),
            code.stream[i as int]->Real_0,
            label_table(code),
        ),
{
    let stream = code.stream;
    assert forall|label: nat| irep::jumps_to(stream[i as int], label) implies reachable(
        irep::reals_before(stream, i),
        label,
        label_table(code),
    ) by {
        let at = irep::place_of(stream, label)->0;
        lemma_reals_before_grows(stream, i + 1, at);
    }
    match stream[i as int]->Real_0 {
        Action::If { jt, jf, .. } => {
            assert(irep::jumps_to(stream[i as int], jt));
            assert(irep::jumps_to(stream[i as int], jf));
        },
        Action::Goto(label) => {
            assert(irep::jumps_to(stream[i as int], label));
        },
        _ => {},
    }
}

/// A failure among the first items is the failure of the whole.
proof fn lemma_failure_persists(code: Code, m: nat, n: nat)
    requires
        m <= n,
        assembled_upto(code, m) is Err,
    ensures
        assembled_upto(code, n) == assembled_upto(code, m),
    decreases n - m,
{
    if m < n {
        lemma_failure_persists(code, m, (n - 1) as nat);
    }
}

/// Assembled code holds the lowered form of every real instruction, in order.
proof fn lemma_assembled_holds(code: Code, n: nat, i: nat)
    requires
        assembled_upto(code, n) is Ok,
    ensures
        assembled_upto(code, n)->Ok_0.len() == irep::reals_before(code.stream, n),
        i < n && code.stream[i as int] is Real ==> {
            let idx = irep::reals_before(code.stream, i);
            let item = code.stream[i as int];
            &&& idx < assembled_upto(code, n)->Ok_0.len()
            &&& lowered(idx, item->Real_0, item->Real_1, label_table(code)) == Ok::<Insn, Failure>(
                assembled_upto(code, n)->Ok_0[idx as int],
            )
        },
    decreases n,
{
    if n > 0 {
        lemma_assembled_holds(code, (n - 1) as nat, i);
        if i < n {
            lemma_reals_before_grows(code.stream, i, (n - 1) as nat);
        }
    }
}

/// The concrete instructions go on, from the instruction that item `at` resolves to, as the
/// symbolic code does from that item.
proof fn lemma_same_status_from(code: Code, at: nat, regs: Regs, packet: Seq<u8>)
    requires
        code.well_formed(),
        assembled(code) is Ok,
        assembled(code)->Ok_0.len() <= 0x1_0000_0000,
        at <= code.stream.len(),
    ensures
        irep::code_status_from(code.stream, at, regs, packet) == vm::status_from(
            assembled(code)->Ok_0,
            irep::reals_before(code.stream, at),
            regs,
            packet,
        ),
    decreases code.stream.len() - at,
{
    let stream = code.stream;
    let table = label_table(code);
    let idx = irep::reals_before(stream, at);
    lemma_assembled_holds(code, stream.len(), at);
    if at < stream.len() {
        match stream[at as int] {
            Item::Mark(_) => {
                lemma_same_status_from(code, at + 1, regs, packet);
            },
            Item::Real(action, _) => {
                lemma_lowerable(code, at);
                assert forall|label: nat| irep::jumps_to(stream[at as int], label) implies ({
                    let target = irep::place_of(stream, label);
                    &&& target is Some
                    &&& at < target->0 < stream.len()
                    &&& displacement(idx, label, table) + idx + 1 == irep::reals_before(
                        stream,
                        target->0,
                    )
                    &&& displacement(idx, label, table) <= u32::MAX
                }) by {
                    let target = irep::place_of(stream, label)->0;
                    lemma_place_of(stream, label);
                    lemma_reals_before_grows(stream, at + 1, target);
                    lemma_reals_before_grows(stream, target, stream.len());
                }
                match action {
                    Action::Do(op) => match vm::straight_effect(op, regs, packet) {
                        vm::Effect::Next(next) => {
                            lemma_same_status_from(code, at + 1, next, packet);
                        },
                        _ => {},
                    },
                    Action::If { test, imm, jt, jf } => {
                        let label = if test.holds(regs.a, imm) {
                            jt
                        } else {
                            jf
                        };
                        assert(irep::jumps_to(stream[at as int], label));
                        lemma_same_status_from(
                            code,
                            irep::place_of(stream, label)->0,
                            regs,
                            packet,
                        );
                    },
                    Action::Goto(label) => {
                        assert(irep::jumps_to(stream[at as int], label));
                        lemma_same_status_from(
                            code,
                            irep::place_of(stream, label)->0,
                            regs,
                            packet,
                        );
                    },
                }
            },
        }
    }
}

/// Assembling keeps what a program does: on every packet the concrete instructions end with the
/// status of the symbolic code. (The length bound is that of an unconditional jump's operand.)
pub proof fn assembling_keeps_status(code: Code, packet: Seq<u8>)
    requires
        code.well_formed(),
        assembled(code) is Ok,
        assembled(code)->Ok_0.len() <= 0x1_0000_0000,
    ensures
        vm::status(assembled(code)->Ok_0, packet) == irep::code_status_from(
            code.stream,
            0,
            Regs { a: 0, x: 0 },
            packet,
        ),
{
    lemma_same_status_from(code, 0, Regs { a: 0, x: 0 }, packet);
}

/// Whether instruction `idx` has a known opcode and, if it jumps, jumps to an instruction of the
/// program.
pub open spec fn stays_inside(insns: Seq<Insn>, idx: int) -> bool {
    match insns[idx].op() {
        Op::Ja(k) => idx + 1 + k < insns.len(),
        Op::Jeq(_) | Op::Jgt(_) | Op::Jge(_) | Op::Jset(_) => {
            &&& idx + 1 + insns[idx].jt < insns.len()
            &&& idx + 1 + insns[idx].jf < insns.len()
        },
        Op::Unknown => false,
        _ => true,
    }
}

/// Whether a program is one that a packet filter machine takes: every opcode is known, every jump goes
/// ahead to an instruction of the program, and the last instruction is a `ret`.
pub open spec fn valid_program(insns: Seq<Insn>) -> bool {
    &&& insns.len() > 0
    &&& insns.last().op() is Ret
    &&& forall|idx: int| 0 <= idx < insns.len() ==> #[trigger] stays_inside(insns, idx)
}

/// Which item instruction `idx` comes from.
proof fn lemma_item_of(stream: Seq<Item>, n: nat, idx: nat) -> (i: nat)
    requires
        idx < irep::reals_before(stream, n),
    ensures
        i < n,
        stream[i as int] is Real,
        irep::reals_before(stream, i) == idx,
    decreases n,
{
    if irep::reals_before(stream, (n - 1) as nat) > idx {
        lemma_item_of(stream, (n - 1) as nat, idx)
    } else {
        (n - 1) as nat
    }
}

/// Assembling code that ends with a `ret` makes a valid program. (The length bound is that of an
/// unconditional jump's operand.)
pub proof fn assembled_programs_are_valid(code: Code)
    requires
        code.well_formed(),
        forall|i: int| 0 <= i < code.stream.len() ==> irep::proper(#[trigger] code.stream[i]),
        code.stream.len() > 0,
        code.stream.last() matches Item::Real(Action::Do(Op::Ret(_)), _),
        assembled(code) is Ok,
        assembled(code)->Ok_0.len() <= 0x1_0000_0000,
    ensures
        valid_program(assembled(code)->Ok_0),
{
    let stream = code.stream;
    let insns = assembled(code)->Ok_0;
    let table = label_table(code);
    let end = (stream.len() - 1) as nat;
    lemma_assembled_holds(code, stream.len(), end);
    assert forall|idx: int| 0 <= idx < insns.len() implies #[trigger] stays_inside(insns, idx) by {
        let i = lemma_item_of(stream, stream.len(), idx as nat);
        lemma_assembled_holds(code, stream.len(), i);
        lemma_lowerable(code, i);
        assert forall|label: nat| irep::jumps_to(stream[i as int], label) implies idx + 1
            + displacement(idx as nat, label, table) < insns.len() && displacement(
            idx as nat,
            label,
            table,
        ) <= u32::MAX by {
            let at = irep::place_of(stream, label)->0;
            lemma_place_of(stream, label);
            lemma_reals_before_grows(stream, i + 1, at);
            lemma_reals_before_grows(stream, at, end);
        }
        match stream[i as int]->Real_0 {
            Action::If { jt, jf, .. } => {
                assert(irep::jumps_to(stream[i as int], jt));
                assert(irep::jumps_to(stream[i as int], jf));
            },
            Action::Goto(label) => {
                assert(irep::jumps_to(stream[i as int], label));
            },
            _ => {},
        }
    }
}

/// Whether two streams have the same shape: the same marks, the same jumps and the same offsets, and
/// straight operations, though perhaps not the same ones, at the same places.
pub open spec fn same_shape(a: Seq<Item>, b: Seq<Item>) -> bool {
    &&& a.len() == b.len()
    &&& forall|i: int| 0 <= i < a.len() ==> #[trigger] same_but_op(a[i], b[i])
}

/// Whether two items are the same but for the straight operation that they may hold.
pub open spec fn same_but_op(a: Item, b: Item) -> bool {
    match (a, b) {
        (Item::Real(Action::Do(_), a_offset), Item::Real(Action::Do(_), b_offset)) => a_offset
            == b_offset,
        _ => a == b,
    }
}

/// Streams of the same shape place a label at the same item.
proof fn lemma_same_place(a: Seq<Item>, b: Seq<Item>, label: nat)
    requires
        same_shape(a, b),
    ensures
        irep::place_of(a, label) == irep::place_of(b, label),
    decreases a.len(),
{
    if a.len() > 0 {
        let end = a.len() - 1;
        assert(same_but_op(a[end], b[end]));
        assert forall|i: int| 0 <= i < end implies #[trigger] same_but_op(
            a.drop_last()[i],
            b.drop_last()[i],
        ) by {
            assert(same_but_op(a[i], b[i]));
        }
        lemma_same_place(a.drop_last(), b.drop_last(), label);
    }
}

/// Streams of the same shape have their real instructions at the same items.
proof fn lemma_same_reals(a: Seq<Item>, b: Seq<Item>, n: nat)
    requires
        same_shape(a, b),
        n <= a.len(),
    ensures
        irep::reals_before(a, n) == irep::reals_before(b, n),
    decreases n,
{
    if n > 0 {
        assert(same_but_op(a[n - 1], b[n - 1]));
        lemma_same_reals(a, b, (n - 1) as nat);
    }
}

/// Code of the same shape resolves its labels alike.
proof fn lemma_same_table(a: Code, b: Code)
    requires
        same_shape(a.stream, b.stream),
        a.labels == b.labels,
    ensures
        label_table(a) == label_table(b),
{
    assert forall|label: int| 0 <= label < a.labels implies label_table(a)[label] == label_table(
        b,
    )[label] by {
        lemma_same_place(a.stream, b.stream, label as nat);
        lemma_place_of(a.stream, label as nat);
        if let Some(at) = irep::place_of(a.stream, label as nat) {
            lemma_same_reals(a.stream, b.stream, at);
        }
    }
    assert(label_table(a) =~= label_table(b));
}

/// Code of the same shape fails to assemble alike, or assembles to as many instructions.
pub proof fn same_shapes_assemble_alike(a: Code, b: Code, n: nat)
    requires
        same_shape(a.stream, b.stream),
        a.labels == b.labels,
        n <= a.stream.len(),
    ensures
        match (assembled_upto(a, n), assembled_upto(b, n)) {
            (Ok(x), Ok(y)) => x.len() == y.len(),
            (Err(x), Err(y)) => x == y,
            _ => false,
        },
    decreases n,
{
    if n > 0 {
        same_shapes_assemble_alike(a, b, (n - 1) as nat);
        assert(same_but_op(a.stream[n - 1], b.stream[n - 1]));
        lemma_same_table(a, b);
    }
}

/// The item that an instruction was lowered from.
pub proof fn instruction_comes_from_an_item(code: Code, idx: nat) -> (i: nat)
    requires
        assembled(code) is Ok,
        idx < assembled(code)->Ok_0.len(),
    ensures
        i < code.stream.len(),
        code.stream[i as int] is Real,
        irep::reals_before(code.stream, i) == idx,
        lowered(
            idx,
            code.stream[i as int]->Real_0,
            code.stream[i as int]->Real_1,
            label_table(code),
        ) == Ok::<Insn, Failure>(assembled(code)->Ok_0[idx as int]),
{
    lemma_assembled_holds(code, code.stream.len(), 0);
    let i = lemma_item_of(code.stream, code.stream.len(), idx);
    lemma_assembled_holds(code, code.stream.len(), i);
    i
}

/// The item that the instructions at the same place of two programs of the same shape were lowered
/// from. Their jumps resolve alike.
pub proof fn instructions_come_from_one_item(a: Code, b: Code, idx: nat) -> (i: nat)
    requires
        same_shape(a.stream, b.stream),
        a.labels == b.labels,
        assembled(a) is Ok,
        idx < assembled(a)->Ok_0.len(),
    ensures
        assembled(b) is Ok,
        assembled(b)->Ok_0.len() == assembled(a)->Ok_0.len(),
        i < a.stream.len(),
        same_but_op(a.stream[i as int], b.stream[i as int]),
        a.stream[i as int] is Real,
        irep::reals_before(a.stream, i) == idx,
        lowered(idx, a.stream[i as int]->Real_0, a.stream[i as int]->Real_1, label_table(a)) == Ok::<
            Insn,
            Failure,
        >(assembled(a)->Ok_0[idx as int]),
        lowered(idx, b.stream[i as int]->Real_0, b.stream[i as int]->Real_1, label_table(a)) == Ok::<
            Insn,
            Failure,
        >(assembled(b)->Ok_0[idx as int]),
{
    same_shapes_assemble_alike(a, b, a.stream.len());
    lemma_same_table(a, b);
    let i = instruction_comes_from_an_item(a, idx);
    assert(same_but_op(a.stream[i as int], b.stream[i as int]));
    lemma_same_reals(a.stream, b.stream, i);
    lemma_assembled_holds(b, b.stream.len(), i);
    i
}

/// Whether the last two instructions of a program are `ret kept` and `ret 0`, and it has no other
/// `ret`.
pub open spec fn ends_with_both_rets(insns: Seq<Insn>, kept: u32) -> bool {
    &&& insns.len() >= 2
    &&& insns[insns.len() - 2] == Insn::plain(insn::RET_K, kept)
    &&& insns[insns.len() - 1] == Insn::plain(insn::RET_K, 0)
    &&& forall|idx: int| 0 <= idx < insns.len() - 2 ==> (#[trigger] insns[idx]).code != insn::RET_K
}

/// Code of at most 256 items has no branch that is too far.
pub proof fn short_code_assembles(code: Code, n: nat)
    requires
        code.stream.len() <= 256,
        n <= code.stream.len(),
        code.well_formed(),
    ensures
        assembled_upto(code, n) is Ok,
        assembled_upto(code, n)->Ok_0.len() <= n,
    decreases n,
{
    if n > 0 {
        let i = (n - 1) as nat;
        short_code_assembles(code, i);
        lemma_assembled_holds(code, i, 0);
        if code.stream[i as int] is Real {
            lemma_lowerable(code, i);
            assert forall|label: nat| irep::jumps_to(code.stream[i as int], label) implies
                displacement(irep::reals_before(code.stream, i), label, label_table(code))
                <= 255 by {
                let at = irep::place_of(code.stream, label)->0;
                lemma_place_of(code.stream, label);
                lemma_few_reals(code.stream, at);
                lemma_reals_before_grows(code.stream, i + 1, at);
            }
            if let Action::If { jt, jf, .. } = code.stream[i as int]->Real_0 {
                assert(irep::jumps_to(code.stream[i as int], jt));
                assert(irep::jumps_to(code.stream[i as int], jf));
            }
        }
    }
}

/// There are no more real instructions among the first items than there are items.
proof fn lemma_few_reals(stream: Seq<Item>, n: nat)
    ensures
        irep::reals_before(stream, n) <= n,
    decreases n,
{
    if n > 0 {
        lemma_few_reals(stream, (n - 1) as nat);
    }
}

/// A failure to assemble names an instruction and one of its targets that are more than 255
/// instructions apart: the displacement leads from the instruction after the one named to the label's
/// next instruction. Everything before it assembles.
pub proof fn far_branches_are_named(code: Code, n: nat) -> (found: (nat, nat))
    requires
        code.well_formed(),
        code.stream.len() <= 0x1_0000_0000,
        n <= code.stream.len(),
        assembled_upto(code, n) is Err,
    ensures
        ({
            let (i, label) = found;
            let failure = assembled_upto(code, n)->Err_0;
            &&& i < n
            &&& assembled_upto(code, i) is Ok
            &&& assembled_upto(code, i + 1) is Err
            &&& irep::jumps_to(code.stream[i as int], label)
            &&& code.stream[i as int]->Real_1 == failure.offset
            &&& failure.reason matches Reason::JumpDisplacementOverflow {
                inst_index,
                displacement,
            } && {
                &&& displacement > 255
                &&& inst_index == irep::reals_before(code.stream, i)
                &&& inst_index + 1 + displacement == irep::reals_before(
                    code.stream,
                    irep::place_of(code.stream, label)->0,
                )
            }
        }),
    decreases n,
{
    let i = (n - 1) as nat;
    if assembled_upto(code, i) is Err {
        far_branches_are_named(code, i)
    } else {
        lemma_assembled_holds(code, i, 0);
        lemma_lowerable(code, i);
        let item = code.stream[i as int];
        let table = label_table(code);
        let idx = irep::reals_before(code.stream, i);
        let jt = item->Real_0->If_jt;
        let jf = item->Real_0->If_jf;
        let label = if displacement(idx, jt, table) > 255 {
            jt
        } else {
            jf
        };
        assert(irep::jumps_to(item, label));
        lemma_place_of(code.stream, label);
        lemma_few_reals(code.stream, irep::place_of(code.stream, label)->0);
        (i, label)
    }
}

/// How many instructions there are between a branch and a label that it may go to.
pub open spec fn distance(stream: Seq<Item>, i: nat, label: nat) -> int {
    irep::reals_before(stream, irep::place_of(stream, label)->0) - irep::reals_before(stream, i) - 1
}

/// Code assembles exactly if no branch skips more than 255 instructions.
pub proof fn code_assembles_if_branches_reach(code: Code)
    requires
        code.well_formed(),
        code.stream.len() <= 0x1_0000_0000,
    ensures
        assembled(code) is Ok <==> forall|i: int, label: nat|
            0 <= i < code.stream.len() && #[trigger] irep::jumps_to(code.stream[i], label)
                && code.stream[i]->Real_0 is If ==> distance(code.stream, i as nat, label) <= 255,
{
    let stream = code.stream;
    if assembled(code) is Ok {
        assert forall|i: int, label: nat|
            0 <= i < stream.len() && #[trigger] irep::jumps_to(stream[i], label)
                && stream[i]->Real_0 is If implies distance(stream, i as nat, label) <= 255 by {
            lemma_assembled_holds(code, stream.len(), i as nat);
            lemma_lowerable(code, i as nat);
        }
    } else {
        let (i, label) = far_branches_are_named(code, stream.len());
        assert(irep::jumps_to(stream[i as int], label));
        lemma_assembled_holds(code, i, 0);
        if !(stream[i as int]->Real_0 is If) {
            assert(assembled_upto(code, i + 1) is Ok);
        }
    }
}

/// Nothing but a branch that is too far keeps code from being assembled.
pub proof fn only_far_branches_fail(code: Code, n: nat)
    ensures
        assembled_upto(code, n) matches Err(failure) ==> failure.reason
            is JumpDisplacementOverflow,
    decreases n,
{
    if n > 0 {
        only_far_branches_fail(code, (n - 1) as nat);
    }
}

/// Assembling code whose only `ret`s are the two at its end makes a program whose only `ret`s are its
/// last two instructions.
pub proof fn assembled_programs_keep_their_rets(code: Code, kept: u32)
    requires
        assembled(code) is Ok,
        ({
            let stream = code.stream;
            let end = stream.len();
            &&& end >= 4
            &&& stream[end - 4] is Mark
            &&& stream[end - 3] matches Item::Real(Action::Do(op), _) && op == Op::Ret(kept)
            &&& stream[end - 2] is Mark
            &&& stream[end - 1] matches Item::Real(Action::Do(op), _) && op == Op::Ret(0)
            &&& forall|i: int| 0 <= i < end - 4 ==> !irep::is_ret(#[trigger] stream[i])
        }),
    ensures
        ends_with_both_rets(assembled(code)->Ok_0, kept),
        irep::reals_before(code.stream, (code.stream.len() - 4) as nat) == assembled(
            code,
        )->Ok_0.len() - 2,
        irep::reals_before(code.stream, (code.stream.len() - 3) as nat) == assembled(
            code,
        )->Ok_0.len() - 2,
        irep::reals_before(code.stream, (code.stream.len() - 1) as nat) == assembled(
            code,
        )->Ok_0.len() - 1,
{
    let stream = code.stream;
    let end = stream.len();
    let insns = assembled(code)->Ok_0;
    lemma_assembled_holds(code, end, (end - 3) as nat);
    lemma_assembled_holds(code, end, (end - 1) as nat);
    assert(irep::reals_before(stream, end) == irep::reals_before(stream, (end - 1) as nat) + 1);
    assert(irep::reals_before(stream, (end - 1) as nat) == irep::reals_before(
        stream,
        (end - 2) as nat,
    ));
    assert(irep::reals_before(stream, (end - 2) as nat) == irep::reals_before(
        stream,
        (end - 3) as nat,
    ) + 1);
    assert(irep::reals_before(stream, (end - 3) as nat) == irep::reals_before(
        stream,
        (end - 4) as nat,
    ));
    assert forall|idx: int| 0 <= idx < insns.len() - 2 implies (#[trigger] insns[idx]).code
        != insn::RET_K by {
        let i = instruction_comes_from_an_item(code, idx as nat);
        assert(!irep::is_ret(stream[i as int]));
    }
}

} // verus!
