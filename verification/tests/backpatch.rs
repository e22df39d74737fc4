//! Assembling symbolic code.

use cbpf_rs::backpatch::assemble;
use cbpf_rs::irep::{IrBuilder, IrOp2};
use cbpf_rs::{ErrorTag, Insn};

#[test]
fn resolves_a_simple_forward_jump() {
    let mut b = IrBuilder::new();
    let jt = b.new_label();
    let jf = b.new_label();
    b.emit(IrOp2::Jeq { imm: 80, jt, jf }, 0..1);
    b.emit(IrOp2::LdbAbs(0), 0..1); // instruction 1: skipped when jt taken
    b.place(jt);
    b.emit(IrOp2::Ret(1), 0..1); // instruction 2
    b.place(jf);
    b.emit(IrOp2::Ret(0), 0..1); // instruction 3

    let insns = assemble(b.finish()).unwrap();
    assert_eq!(insns[0], Insn::jeq(80, 1, 2));
}

#[test]
fn displacement_of_exactly_255_succeeds() {
    // jf resolves immediately (displacement 0); jt has to cross exactly 255 filler instructions
    // to land at the boundary this instruction set allows.
    let mut b = IrBuilder::new();
    let jt = b.new_label();
    let jf = b.new_label();
    b.emit(IrOp2::Jeq { imm: 1, jt, jf }, 0..1);
    b.place(jf);
    for _ in 0..255 {
        b.emit(IrOp2::LdbAbs(0), 0..1);
    }
    b.place(jt);
    b.emit(IrOp2::Ret(1), 0..1);

    let insns = assemble(b.finish()).unwrap();
    assert_eq!(insns[0], Insn::jeq(1, 255, 0));
}

#[test]
fn displacement_of_256_is_a_compile_error() {
    // Same shape, but one filler instruction further - 256 crosses the boundary and must be
    // rejected, not silently truncated.
    let mut b = IrBuilder::new();
    let jt = b.new_label();
    let jf = b.new_label();
    let offset = 5..9;
    b.emit(IrOp2::Jeq { imm: 1, jt, jf }, offset.clone());
    b.place(jt);
    for _ in 0..256 {
        b.emit(IrOp2::LdbAbs(0), 0..1);
    }
    b.place(jf);
    b.emit(IrOp2::Ret(0), 0..1);

    let err = assemble(b.finish()).unwrap_err();
    assert_eq!(err.offset, offset);
    assert_eq!(
        err.tag,
        ErrorTag::JumpDisplacementOverflow {
            inst_index: 0,
            displacement: 256
        }
    );
}

#[test]
fn multi_label_or_chain_shape() {
    // Mirrors what codegen's Or-lowering produces: p1 true -> accept;
    // p1 false -> try p2; p2 true -> accept; p2 false -> reject.
    let mut b = IrBuilder::new();
    let accept = b.new_label();
    let reject = b.new_label();
    let mid = b.new_label();

    b.emit(
        IrOp2::Jeq {
            imm: 1,
            jt: accept,
            jf: mid,
        },
        0..1,
    ); // 0
    b.place(mid);
    b.emit(
        IrOp2::Jeq {
            imm: 2,
            jt: accept,
            jf: reject,
        },
        0..1,
    ); // 1
    b.place(accept);
    b.emit(IrOp2::Ret(u32::MAX), 0..1); // 2
    b.place(reject);
    b.emit(IrOp2::Ret(0), 0..1); // 3

    let insns = assemble(b.finish()).unwrap();
    assert_eq!(insns[0], Insn::jeq(1, 1, 0)); // accept is insn 2 (disp 1), mid is insn 1 (disp 0)
    assert_eq!(insns[1], Insn::jeq(2, 0, 1)); // accept is insn 2 (disp 0), reject is insn 3 (disp 1)
}

#[test]
fn unconditional_jump_uses_k_not_jt_jf() {
    let mut b = IrBuilder::new();
    let target = b.new_label();
    b.emit(IrOp2::Jmp { target }, 0..1);
    b.emit(IrOp2::LdbAbs(0), 0..1);
    b.place(target);
    b.emit(IrOp2::Ret(0), 0..1);

    let insns = assemble(b.finish()).unwrap();
    assert_eq!(insns[0], Insn::jmp(1));
}
