//! The same code with its packet loads further on.

use crate::ast::{AddrLit, DirTag, PrimType};
use crate::backpatch;
use crate::codegen;
use crate::desugar::{CompiledPrimitive, ExpandedExpr};
use crate::insn::{Insn, Op};
use crate::irep::{Action, Code, Item};
use crate::laws;
use crate::linktype::{L3OffsetInfo, LinkType};
use crate::semantics;
use core::ops::Range;
use vstd::prelude::*;

verus! {

/// Whether an operation loads from the packet.
pub open spec fn loads(op: Op) -> bool {
    op is LdhAbs || op is LdbAbs || op is LdwAbs || op is LdhInd || op is LdxMsh
}

/// Whether `later` is `op`, but `n` bytes further on if it loads from the packet.
pub open spec fn op_later(op: Op, later: Op, n: u32) -> bool {
    match (op, later) {
        (Op::LdhAbs(k), Op::LdhAbs(m)) => m == k + n,
        (Op::LdbAbs(k), Op::LdbAbs(m)) => m == k + n,
        (Op::LdwAbs(k), Op::LdwAbs(m)) => m == k + n,
        (Op::LdhInd(k), Op::LdhInd(m)) => m == k + n,
        (Op::LdxMsh(k), Op::LdxMsh(m)) => m == k + n,
        _ => !loads(op) && later == op,
    }
}

/// Whether `later` is `item`, but `n` bytes further on if it loads from the packet.
pub open spec fn item_later(item: Item, later: Item, n: u32) -> bool {
    match (item, later) {
        (Item::Real(Action::Do(op), offset), Item::Real(Action::Do(later_op), later_offset)) => {
            &&& op_later(op, later_op, n)
            &&& offset == later_offset
        },
        _ => item == later,
    }
}

/// Whether `later` is `stream` with every packet load `n` bytes further on.
pub open spec fn stream_later(stream: Seq<Item>, later: Seq<Item>, n: u32) -> bool {
    &&& stream.len() == later.len()
    &&& forall|i: int| 0 <= i < stream.len() ==> #[trigger] item_later(stream[i], later[i], n)
}

/// Whether `later` is `code` with every packet load `n` bytes further on.
pub open spec fn code_later(code: Code, later: Code, n: u32) -> bool {
    &&& stream_later(code.stream, later.stream, n)
    &&& code.labels == later.labels
}

/// Whether `later` is `insn`, with an operand that is larger by `n` if it loads from the packet.
pub open spec fn insn_later(insn: Insn, later: Insn, n: u32) -> bool {
    &&& later.code == insn.code
    &&& later.jt == insn.jt
    &&& later.jf == insn.jf
    &&& later.k == insn.k + if loads(insn.op()) {
        n as int
    } else {
        0
    }
}

/// Whether the offsets of a link type stay small when they move `n` bytes on.
pub open spec fn has_room(l3: L3OffsetInfo, n: u32) -> bool {
    &&& l3.ip_base + n <= 0xffff
    &&& l3.ethertype_offset matches Some(at) ==> at + n <= 0xffff
}

/// Code joined from two parts is later if both parts are.
proof fn lemma_join_later(a: Code, b: Code, c: Code, d: Code, n: u32)
    requires
        code_later(a, c, n),
        code_later(b, d, n),
    ensures
        code_later(codegen::joined(a, b), codegen::joined(c, d), n),
{
    let ab = codegen::joined(a, b).stream;
    let cd = codegen::joined(c, d).stream;
    assert forall|i: int| 0 <= i < ab.len() implies #[trigger] item_later(ab[i], cd[i], n) by {
        if i < a.stream.len() {
            assert(item_later(a.stream[i], c.stream[i], n));
        } else {
            let j = i - a.stream.len();
            assert(item_later(b.stream[j], d.stream[j], n));
        }
    }
}

/// The gates move with the link type's offsets.
proof fn lemma_gates_later(
    l3: L3OffsetInfo,
    n: u32,
    ethertype: u32,
    ip_proto: Option<u32>,
    offset: Range<usize>,
    on_false: nat,
    next: nat,
)
    requires
        has_room(l3, n),
    ensures
        code_later(
            codegen::gates_code(l3, ethertype, ip_proto, offset, on_false, next),
            codegen::gates_code(
                laws::later_by(l3, n),
                ethertype,
                ip_proto,
                offset,
                on_false,
                next,
            ),
            n,
        ),
{
    let m3 = laws::later_by(l3, n);
    let a = codegen::ethertype_code(l3, ethertype, offset, on_false, next);
    let c = codegen::ethertype_code(m3, ethertype, offset, on_false, next);
    let b = codegen::ip_proto_code(l3, ip_proto, offset, on_false, a.labels);
    let d = codegen::ip_proto_code(m3, ip_proto, offset, on_false, c.labels);
    assert(code_later(a, c, n));
    assert(code_later(b, d, n));
    lemma_join_later(a, b, c, d, n);
}

/// A primitive's prologue moves with the link type's offsets.
proof fn lemma_prologue_later(
    p: CompiledPrimitive,
    l3: L3OffsetInfo,
    n: u32,
    on_false: nat,
    next: nat,
)
    requires
        has_room(l3, n),
    ensures
        code_later(
            codegen::prologue_code(p, l3, on_false, next),
            codegen::prologue_code(p, laws::later_by(l3, n), on_false, next),
            n,
        ),
{
    let m3 = laws::later_by(l3, n);
    match p.ty {
        PrimType::Host(addr) | PrimType::Net(addr, _) => {
            let gates = codegen::addr_gates_of(p.proto, addr);
            lemma_gates_later(l3, n, gates.ethertype, gates.ip_proto, p.offset, on_false, next);
        },
        PrimType::Port(_) | PrimType::PortRange(_, _) => {
            let proto = semantics::port_proto(p.proto);
            let ip = semantics::ETH_TYPE_IP;
            let a = codegen::gates_code(l3, ip, proto, p.offset, on_false, next);
            let c = codegen::gates_code(m3, ip, proto, p.offset, on_false, next);
            lemma_gates_later(l3, n, ip, proto, p.offset, on_false, next);
            let b = codegen::not_fragment_code(l3, p.offset, on_false, a.labels);
            let d = codegen::not_fragment_code(m3, p.offset, on_false, c.labels);
            assert(code_later(b, d, n));
            lemma_join_later(a, b, c, d, n);
            let length = Code {
                stream: seq![codegen::act(Op::LdxMsh(l3.ip_base), p.offset)],
                labels: b.labels,
            };
            let later_length = Code {
                stream: seq![codegen::act(Op::LdxMsh(m3.ip_base), p.offset)],
                labels: d.labels,
            };
            assert(code_later(length, later_length, n));
            lemma_join_later(
                codegen::joined(a, b),
                length,
                codegen::joined(c, d),
                later_length,
                n,
            );
        },
    }
}

/// The comparison of a word moves with the word.
proof fn lemma_word_later(
    at: u32,
    n: u32,
    value: u32,
    bits: nat,
    offset: Range<usize>,
    on_true: nat,
    on_false: nat,
)
    requires
        at + n <= 0xf_ffff,
    ensures
        stream_later(
            codegen::word_code(at, value, bits, offset, on_true, on_false),
            codegen::word_code((at + n) as u32, value, bits, offset, on_true, on_false),
            n,
        ),
{
}

/// The comparison of an IPv6 address moves with the address.
proof fn lemma_words_later(
    at: u32,
    n: u32,
    addr: u128,
    bits: nat,
    i: nat,
    offset: Range<usize>,
    on_true: nat,
    on_false: nat,
    next: nat,
)
    requires
        at + n <= 0x1_ffff,
        bits <= 255,
        32 * i <= bits,
    ensures
        code_later(
            codegen::words_code(at, addr, bits, i, offset, on_true, on_false, next),
            codegen::words_code(
                (at + n) as u32,
                addr,
                bits,
                i,
                offset,
                on_true,
                on_false,
                next,
            ),
            n,
        ),
    decreases bits - 32 * i,
{
    let later = (at + n) as u32;
    let here = (at + 4 * i) as u32;
    let value = semantics::word6(addr, i);
    let in_word = semantics::bits_in_word(bits, i);
    assert((later + 4 * i) as u32 == (here + n) as u32);
    if 32 * i + 32 >= bits {
        lemma_word_later(here, n, value, in_word, offset, on_true, on_false);
    } else {
        let mark = Code { stream: seq![Item::Mark(next)], labels: next + 1 };
        let a = Code {
            stream: codegen::word_code(here, value, in_word, offset, next, on_false),
            labels: next,
        };
        let c = Code {
            stream: codegen::word_code((here + n) as u32, value, in_word, offset, next, on_false),
            labels: next,
        };
        let b = codegen::words_code(at, addr, bits, i + 1, offset, on_true, on_false, next + 1);
        let d = codegen::words_code(
            later,
            addr,
            bits,
            i + 1,
            offset,
            on_true,
            on_false,
            next + 1,
        );
        lemma_word_later(here, n, value, in_word, offset, next, on_false);
        lemma_words_later(at, n, addr, bits, i + 1, offset, on_true, on_false, next + 1);
        assert(code_later(mark, mark, n));
        lemma_join_later(a, mark, c, mark, n);
        lemma_join_later(codegen::joined(a, mark), b, codegen::joined(c, mark), d, n);
        assert(a.stream.push(Item::Mark(next)) =~= a.stream + mark.stream);
        assert(c.stream.push(Item::Mark(next)) =~= c.stream + mark.stream);
    }
}

/// The comparison of an address moves with the address.
proof fn lemma_address_later(
    at: u32,
    n: u32,
    addr: AddrLit,
    bits: nat,
    offset: Range<usize>,
    on_true: nat,
    on_false: nat,
    next: nat,
)
    requires
        at + n <= 0x1_ffff,
        bits <= 255,
    ensures
        code_later(
            codegen::address_code(at, addr, bits, offset, on_true, on_false, next),
            codegen::address_code((at + n) as u32, addr, bits, offset, on_true, on_false, next),
            n,
        ),
{
    match addr {
        AddrLit::V4(value) => {
            lemma_word_later(at, n, value, bits, offset, on_true, on_false);
        },
        AddrLit::V6(value) => {
            lemma_words_later(at, n, value, bits, 0, offset, on_true, on_false, next);
        },
    }
}

/// The check of one direction's field moves with the link type's offsets.
proof fn lemma_terminal_later(
    p: CompiledPrimitive,
    dir: DirTag,
    l3: L3OffsetInfo,
    n: u32,
    on_true: nat,
    on_false: nat,
    next: nat,
)
    requires
        has_room(l3, n),
        codegen::objection(p, l3) is None,
    ensures
        code_later(
            codegen::terminal_code(p, dir, l3, on_true, on_false, next),
            codegen::terminal_code(p, dir, laws::later_by(l3, n), on_true, on_false, next),
            n,
        ),
{
    match p.ty {
        PrimType::Host(addr) => {
            let at = (l3.ip_base + codegen::addr_gates_of(p.proto, addr).offset(dir)) as u32;
            let bits = semantics::prefix_bits(addr, None);
            lemma_address_later(at, n, addr, bits, p.offset, on_true, on_false, next);
        },
        PrimType::Net(addr, prefix) => {
            let at = (l3.ip_base + codegen::addr_gates_of(p.proto, addr).offset(dir)) as u32;
            let bits = semantics::prefix_bits(addr, prefix);
            lemma_address_later(at, n, addr, bits, p.offset, on_true, on_false, next);
        },
        PrimType::Port(_) | PrimType::PortRange(_, _) => {},
    }
}

/// The code of an expression moves with the link type's offsets.
proof fn lemma_expr_later(
    e: ExpandedExpr,
    l3: L3OffsetInfo,
    n: u32,
    on_true: nat,
    on_false: nat,
    next: nat,
)
    requires
        has_room(l3, n),
        codegen::first_failure(e, l3) is None,
    ensures
        code_later(
            codegen::expr_code(e, l3, on_true, on_false, next),
            codegen::expr_code(e, laws::later_by(l3, n), on_true, on_false, next),
            n,
        ),
    decreases e,
{
    let m3 = laws::later_by(l3, n);
    match e {
        ExpandedExpr::Leaf(p) => {
            let a = codegen::prologue_code(p, l3, on_false, next);
            let c = codegen::prologue_code(p, m3, on_false, next);
            lemma_prologue_later(p, l3, n, on_false, next);
            let b = codegen::terminal_code(p, p.dir, l3, on_true, on_false, a.labels);
            let d = codegen::terminal_code(p, p.dir, m3, on_true, on_false, c.labels);
            lemma_terminal_later(p, p.dir, l3, n, on_true, on_false, a.labels);
            lemma_join_later(a, b, c, d, n);
        },
        ExpandedExpr::Not(inner) => {
            lemma_expr_later(*inner, l3, n, on_false, on_true, next);
        },
        ExpandedExpr::And(l, r) => {
            let a = codegen::expr_code(*l, l3, next, on_false, next + 1);
            let c = codegen::expr_code(*l, m3, next, on_false, next + 1);
            lemma_expr_later(*l, l3, n, next, on_false, next + 1);
            lemma_expr_later(*r, l3, n, on_true, on_false, a.labels);
            lemma_through_later(
                a,
                codegen::expr_code(*r, l3, on_true, on_false, a.labels),
                c,
                codegen::expr_code(*r, m3, on_true, on_false, c.labels),
                next,
                n,
            );
        },
        ExpandedExpr::Or(l, r) => match (*l, *r) {
            (ExpandedExpr::Leaf(p1), ExpandedExpr::Leaf(p2)) if codegen::is_dir_pair(p1, p2) => {
                assert(codegen::first_failure(*l, l3) is None);
                let a = codegen::prologue_code(p1, l3, on_false, next);
                let c = codegen::prologue_code(p1, m3, on_false, next);
                let mid = a.labels;
                lemma_prologue_later(p1, l3, n, on_false, next);
                let b = codegen::terminal_code(p1, p1.dir, l3, on_true, mid, mid + 1);
                let d = codegen::terminal_code(p1, p1.dir, m3, on_true, mid, mid + 1);
                lemma_terminal_later(p1, p1.dir, l3, n, on_true, mid, mid + 1);
                lemma_terminal_later(p1, p2.dir, l3, n, on_true, on_false, b.labels);
                lemma_join_later(a, b, c, d, n);
                lemma_through_later(
                    codegen::joined(a, b),
                    codegen::terminal_code(p1, p2.dir, l3, on_true, on_false, b.labels),
                    codegen::joined(c, d),
                    codegen::terminal_code(p1, p2.dir, m3, on_true, on_false, d.labels),
                    mid,
                    n,
                );
            },
            _ => {
                let a = codegen::expr_code(*l, l3, on_true, next, next + 1);
                let c = codegen::expr_code(*l, m3, on_true, next, next + 1);
                lemma_expr_later(*l, l3, n, on_true, next, next + 1);
                lemma_expr_later(*r, l3, n, on_true, on_false, a.labels);
                lemma_through_later(
                    a,
                    codegen::expr_code(*r, l3, on_true, on_false, a.labels),
                    c,
                    codegen::expr_code(*r, m3, on_true, on_false, c.labels),
                    next,
                    n,
                );
            },
        },
    }
}

/// Code joined from two parts around a label is later if both parts are.
proof fn lemma_through_later(a: Code, b: Code, c: Code, d: Code, label: nat, n: u32)
    requires
        code_later(a, c, n),
        code_later(b, d, n),
    ensures
        code_later(
            codegen::joined(codegen::joined(a, codegen::marked(label, a.labels)), b),
            codegen::joined(codegen::joined(c, codegen::marked(label, c.labels)), d),
            n,
        ),
{
    let mark = codegen::marked(label, a.labels);
    assert(code_later(mark, mark, n));
    lemma_join_later(a, mark, c, mark, n);
    lemma_join_later(codegen::joined(a, mark), b, codegen::joined(c, mark), d, n);
}

/// The code of a whole program for Linux cooked capture is that for Ethernet with every packet load
/// two bytes further on.
pub proof fn cooked_code_is_ethernet_code_later(e: ExpandedExpr, snaplen: u32)
    requires
        codegen::first_failure(e, LinkType::Ethernet.l3()) is None,
    ensures
        code_later(
            codegen::program_code(e, LinkType::Ethernet, snaplen),
            codegen::program_code(e, LinkType::LinuxSll, snaplen),
            2,
        ),
{
    let nowhere = Range { start: 0usize, end: 0usize };
    let a = codegen::expr_code(e, LinkType::Ethernet.l3(), 0, 1, 2);
    let c = codegen::expr_code(e, LinkType::LinuxSll.l3(), 0, 1, 2);
    assert(LinkType::LinuxSll.l3() == laws::later_by(LinkType::Ethernet.l3(), 2));
    lemma_expr_later(e, LinkType::Ethernet.l3(), 2, 0, 1, 2);
    let tail = Code {
        stream: seq![
            Item::Mark(0),
            codegen::act(Op::Ret(snaplen), nowhere),
            Item::Mark(1),
            codegen::act(Op::Ret(0), nowhere),
        ],
        labels: a.labels,
    };
    assert(code_later(tail, tail, 2));
    lemma_join_later(a, tail, c, tail, 2);
}

/// Later code assembles to the same instructions with the operands of packet loads larger by `n`, or
/// fails alike.
pub proof fn later_code_assembles_to_later_instructions(code: Code, later: Code, n: u32)
    requires
        code_later(code, later, n),
    ensures
        match (backpatch::assembled(code), backpatch::assembled(later)) {
            (Ok(insns), Ok(later_insns)) => {
                &&& insns.len() == later_insns.len()
                &&& forall|idx: int|
                    0 <= idx < insns.len() ==> #[trigger] insn_later(
                        insns[idx],
                        later_insns[idx],
                        n,
                    )
            },
            (Err(failure), Err(later_failure)) => failure == later_failure,
            _ => false,
        },
{
    assert forall|i: int| 0 <= i < code.stream.len() implies #[trigger] backpatch::same_but_op(
        code.stream[i],
        later.stream[i],
    ) by {
        assert(item_later(code.stream[i], later.stream[i], n));
    }
    backpatch::same_shapes_assemble_alike(code, later, code.stream.len());
    if let Ok(insns) = backpatch::assembled(code) {
        let later_insns = backpatch::assembled(later)->Ok_0;
        assert forall|idx: int| 0 <= idx < insns.len() implies #[trigger] insn_later(
            insns[idx],
            later_insns[idx],
            n,
        ) by {
            let i = backpatch::instructions_come_from_one_item(code, later, idx as nat);
            assert(item_later(code.stream[i as int], later.stream[i as int], n));
        }
    }
}

} // verus!
