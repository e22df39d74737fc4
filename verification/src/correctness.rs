//! Generated code does what the expression means.
//!
//! The proofs follow the shape of the generated code. Each fragment sits somewhere in the stream of
//! a whole program, and a lemma per kind of fragment says where control goes from its start, in terms
//! of the fragment's outcome.

use crate::ast::{AddrLit, DirTag, PrimType};
use crate::backpatch;
use crate::codegen;
use crate::desugar::{CompiledPrimitive, ExpandedExpr};
use crate::insn::Op;
use crate::irep::{self, Action, Item};
use crate::linktype::{L3OffsetInfo, LinkType};
use crate::packet;
use crate::semantics::{self, ETH_TYPE_IP, FRAG_MASK, IP_FLAGS_FRAG_OFFSET, IP_PROTO_OFFSET};
use crate::vm::{self, Effect, Regs};
use core::ops::Range;
use vstd::prelude::*;

verus! {

// ---------------------------------------------------------------------------------------------
// Labels
// ---------------------------------------------------------------------------------------------

/// Whether no label is placed twice.
pub open spec fn placed_once(stream: Seq<Item>) -> bool {
    forall|i: int, j: int|
        0 <= i < j < stream.len() && #[trigger] stream[i] is Mark && #[trigger] stream[j] is Mark
            ==> stream[i] != stream[j]
}

/// Whether `stream` places `label` after item `i`.
pub open spec fn placed_after(stream: Seq<Item>, i: int, label: nat) -> bool {
    exists|j: int| i < j < stream.len() && #[trigger] stream[j] == Item::Mark(label)
}

/// Whether a fragment keeps to its labels: it places only labels in `lo..hi`, each at most once, and
/// jumps only to `on_true`, to `on_false` or ahead to labels that it places itself. All its other
/// operations are straight ones, and none of them is a `ret`.
pub open spec fn tidy(stream: Seq<Item>, on_true: nat, on_false: nat, lo: nat, hi: nat) -> bool {
    &&& lo <= hi
    &&& placed_once(stream)
    &&& forall|i: int|
        0 <= i < stream.len() ==> irep::proper(#[trigger] stream[i]) && !irep::is_ret(stream[i])
    &&& forall|i: int|
        0 <= i < stream.len() ==> (#[trigger] stream[i] matches Item::Mark(label) ==> lo <= label
            < hi)
    &&& forall|i: int, label: nat|
        0 <= i < stream.len() && #[trigger] irep::jumps_to(stream[i], label) ==> label == on_true
            || label == on_false || placed_after(stream, i, label)
}

/// A fragment that is followed by another, where both leave to the same two labels.
proof fn lemma_tidy_join(
    a: Seq<Item>,
    b: Seq<Item>,
    a_true: nat,
    on_true: nat,
    on_false: nat,
    lo: nat,
    mid: nat,
    hi: nat,
)
    requires
        tidy(a, a_true, on_false, lo, mid),
        a_true == on_true || a_true == on_false,
        tidy(b, on_true, on_false, mid, hi),
    ensures
        tidy(a + b, on_true, on_false, lo, hi),
{
    let all = a + b;
    assert forall|i: int, label: nat|
        0 <= i < all.len() && #[trigger] irep::jumps_to(all[i], label) implies label == on_true
        || label == on_false || placed_after(all, i, label) by {
        if i < a.len() {
            if placed_after(a, i, label) {
                let j = choose|j: int| i < j < a.len() && #[trigger] a[j] == Item::Mark(label);
                assert(all[j] == Item::Mark(label));
            }
        } else {
            let k = i - a.len();
            if placed_after(b, k, label) {
                let j = choose|j: int| k < j < b.len() && #[trigger] b[j] == Item::Mark(label);
                assert(all[j + a.len()] == Item::Mark(label));
            }
        }
    }
}

/// A fragment, a label, and another fragment, where the first may also leave to that label.
proof fn lemma_tidy_through(
    a: Seq<Item>,
    b: Seq<Item>,
    a_true: nat,
    a_false: nat,
    on_true: nat,
    on_false: nat,
    label: nat,
    mid: nat,
    hi: nat,
)
    requires
        tidy(a, a_true, a_false, label + 1, mid),
        tidy(b, on_true, on_false, mid, hi),
        a_true == on_true || a_true == on_false || a_true == label,
        a_false == on_true || a_false == on_false || a_false == label,
    ensures
        tidy(a + seq![Item::Mark(label)] + b, on_true, on_false, label, hi),
{
    let all = a + seq![Item::Mark(label)] + b;
    let at = a.len() as int;
    assert(all[at] == Item::Mark(label));
    assert forall|i: int| 0 <= i < a.len() implies #[trigger] all[i] == a[i] by {}
    assert forall|i: int| at < i < all.len() implies #[trigger] all[i] == b[i - at - 1] by {}
    assert forall|i: int, l: nat|
        0 <= i < all.len() && #[trigger] irep::jumps_to(all[i], l) implies l == on_true || l
        == on_false || placed_after(all, i, l) by {
        if i < at {
            if placed_after(a, i, l) {
                let j = choose|j: int| i < j < a.len() && #[trigger] a[j] == Item::Mark(l);
                assert(all[j] == Item::Mark(l));
            }
        } else if i > at {
            let k = i - at - 1;
            if placed_after(b, k, l) {
                let j = choose|j: int| k < j < b.len() && #[trigger] b[j] == Item::Mark(l);
                assert(all[j + at + 1] == Item::Mark(l));
            }
        }
    }
}

/// A gate keeps to its label.
proof fn lemma_tidy_gate(load: Op, imm: u32, offset: Range<usize>, on_false: nat, next: nat)
    requires
        load is LdhAbs || load is LdbAbs,
    ensures
        ({
            let code = codegen::gate_code(load, imm, offset, on_false, next);
            tidy(code.stream, on_false, on_false, next, code.labels)
        }),
{
    let stream = codegen::gate_code(load, imm, offset, on_false, next).stream;
}

/// The gates keep to their labels.
proof fn lemma_tidy_gates(
    l3: L3OffsetInfo,
    ethertype: u32,
    ip_proto: Option<u32>,
    offset: Range<usize>,
    on_false: nat,
    next: nat,
)
    ensures
        ({
            let code = codegen::gates_code(l3, ethertype, ip_proto, offset, on_false, next);
            tidy(code.stream, on_false, on_false, next, code.labels)
        }),
{
    let first = codegen::ethertype_code(l3, ethertype, offset, on_false, next);
    let second = codegen::ip_proto_code(l3, ip_proto, offset, on_false, first.labels);
    if let Some(at) = l3.ethertype_offset {
        lemma_tidy_gate(Op::LdhAbs(at), ethertype, offset, on_false, next);
    }
    if let Some(number) = ip_proto {
        lemma_tidy_gate(
            Op::LdbAbs((l3.ip_base + IP_PROTO_OFFSET) as u32),
            number,
            offset,
            on_false,
            first.labels,
        );
    }
    lemma_tidy_join(
        first.stream,
        second.stream,
        on_false,
        on_false,
        on_false,
        next,
        first.labels,
        second.labels,
    );
}

/// A primitive's prologue keeps to its labels.
proof fn lemma_tidy_prologue(p: CompiledPrimitive, l3: L3OffsetInfo, on_false: nat, next: nat)
    ensures
        ({
            let code = codegen::prologue_code(p, l3, on_false, next);
            tidy(code.stream, on_false, on_false, next, code.labels)
        }),
{
    match p.ty {
        PrimType::Host(addr) | PrimType::Net(addr, _) => {
            let gates = codegen::addr_gates_of(p.proto, addr);
            lemma_tidy_gates(l3, gates.ethertype, gates.ip_proto, p.offset, on_false, next);
        },
        PrimType::Port(_) | PrimType::PortRange(_, _) => {
            let proto = semantics::port_proto(p.proto);
            let gates = codegen::gates_code(l3, ETH_TYPE_IP, proto, p.offset, on_false, next);
            let fragment = codegen::not_fragment_code(l3, p.offset, on_false, gates.labels);
            let length = seq![codegen::act(Op::LdxMsh(l3.ip_base), p.offset)];
            lemma_tidy_gates(l3, ETH_TYPE_IP, proto, p.offset, on_false, next);
            lemma_tidy_join(
                gates.stream,
                fragment.stream,
                on_false,
                on_false,
                on_false,
                next,
                gates.labels,
                fragment.labels,
            );
            lemma_tidy_join(
                gates.stream + fragment.stream,
                length,
                on_false,
                on_false,
                on_false,
                next,
                fragment.labels,
                fragment.labels,
            );
        },
    }
}

/// The comparison of one word keeps to its labels.
proof fn lemma_tidy_word(
    at: u32,
    value: u32,
    bits: nat,
    offset: Range<usize>,
    on_true: nat,
    on_false: nat,
    next: nat,
)
    ensures
        tidy(
            codegen::word_code(at, value, bits, offset, on_true, on_false),
            on_true,
            on_false,
            next,
            next,
        ),
{
}

/// The comparison of an IPv6 address keeps to its labels.
proof fn lemma_tidy_words(
    at: u32,
    addr: u128,
    bits: nat,
    i: nat,
    offset: Range<usize>,
    on_true: nat,
    on_false: nat,
    next: nat,
)
    ensures
        ({
            let code = codegen::words_code(at, addr, bits, i, offset, on_true, on_false, next);
            tidy(code.stream, on_true, on_false, next, code.labels)
        }),
    decreases bits + 32 - 32 * i,
{
    let here = (at + 4 * i) as u32;
    let value = semantics::word6(addr, i);
    let in_word = semantics::bits_in_word(bits, i);
    if 32 * i + 32 >= bits {
        lemma_tidy_word(here, value, in_word, offset, on_true, on_false, next);
    } else {
        let rest = codegen::words_code(
            at,
            addr,
            bits,
            i + 1,
            offset,
            on_true,
            on_false,
            next + 1,
        );
        let word = codegen::word_code(here, value, in_word, offset, next, on_false);
        lemma_tidy_word(here, value, in_word, offset, next, on_false, next + 1);
        lemma_tidy_words(at, addr, bits, i + 1, offset, on_true, on_false, next + 1);
        lemma_tidy_through(
            word,
            rest.stream,
            next,
            on_false,
            on_true,
            on_false,
            next,
            next + 1,
            rest.labels,
        );
        assert(word.push(Item::Mark(next)) =~= word + seq![Item::Mark(next)]);
    }
}

/// The check of one direction's field keeps to its labels.
proof fn lemma_tidy_terminal(
    p: CompiledPrimitive,
    dir: DirTag,
    l3: L3OffsetInfo,
    on_true: nat,
    on_false: nat,
    next: nat,
)
    ensures
        ({
            let code = codegen::terminal_code(p, dir, l3, on_true, on_false, next);
            tidy(code.stream, on_true, on_false, next, code.labels)
        }),
{
    match p.ty {
        PrimType::Host(AddrLit::V6(value)) => {
            let at = (l3.ip_base + semantics::gates6().offset(dir)) as u32;
            lemma_tidy_words(at, value, 128, 0, p.offset, on_true, on_false, next);
        },
        PrimType::Net(AddrLit::V6(value), prefix) => {
            let at = (l3.ip_base + semantics::gates6().offset(dir)) as u32;
            let bits = semantics::prefix_bits(AddrLit::V6(value), prefix);
            lemma_tidy_words(at, value, bits, 0, p.offset, on_true, on_false, next);
        },
        _ => {},
    }
}

/// The code of an expression keeps to its labels.
proof fn lemma_tidy_expr(
    e: ExpandedExpr,
    l3: L3OffsetInfo,
    on_true: nat,
    on_false: nat,
    next: nat,
)
    ensures
        ({
            let code = codegen::expr_code(e, l3, on_true, on_false, next);
            tidy(code.stream, on_true, on_false, next, code.labels)
        }),
    decreases e,
{
    match e {
        ExpandedExpr::Leaf(p) => {
            let prologue = codegen::prologue_code(p, l3, on_false, next);
            let terminal = codegen::terminal_code(
                p,
                p.dir,
                l3,
                on_true,
                on_false,
                prologue.labels,
            );
            lemma_tidy_prologue(p, l3, on_false, next);
            lemma_tidy_terminal(p, p.dir, l3, on_true, on_false, prologue.labels);
            lemma_tidy_join(
                prologue.stream,
                terminal.stream,
                on_false,
                on_true,
                on_false,
                next,
                prologue.labels,
                terminal.labels,
            );
        },
        ExpandedExpr::Not(inner) => {
            lemma_tidy_expr(*inner, l3, on_false, on_true, next);
        },
        ExpandedExpr::And(l, r) => {
            let first = codegen::expr_code(*l, l3, next, on_false, next + 1);
            let second = codegen::expr_code(*r, l3, on_true, on_false, first.labels);
            lemma_tidy_expr(*l, l3, next, on_false, next + 1);
            lemma_tidy_expr(*r, l3, on_true, on_false, first.labels);
            lemma_tidy_through(
                first.stream,
                second.stream,
                next,
                on_false,
                on_true,
                on_false,
                next,
                first.labels,
                second.labels,
            );
        },
        ExpandedExpr::Or(l, r) => match (*l, *r) {
            (ExpandedExpr::Leaf(p1), ExpandedExpr::Leaf(p2)) if codegen::is_dir_pair(p1, p2) => {
                let prologue = codegen::prologue_code(p1, l3, on_false, next);
                let mid = prologue.labels;
                let first = codegen::terminal_code(p1, p1.dir, l3, on_true, mid, mid + 1);
                let second = codegen::terminal_code(
                    p1,
                    p2.dir,
                    l3,
                    on_true,
                    on_false,
                    first.labels,
                );
                let rest = first.stream + seq![Item::Mark(mid)] + second.stream;
                lemma_tidy_prologue(p1, l3, on_false, next);
                lemma_tidy_terminal(p1, p1.dir, l3, on_true, mid, mid + 1);
                lemma_tidy_terminal(p1, p2.dir, l3, on_true, on_false, first.labels);
                lemma_tidy_through(
                    first.stream,
                    second.stream,
                    on_true,
                    mid,
                    on_true,
                    on_false,
                    mid,
                    first.labels,
                    second.labels,
                );
                lemma_tidy_join(
                    prologue.stream,
                    rest,
                    on_false,
                    on_true,
                    on_false,
                    next,
                    mid,
                    second.labels,
                );
                assert(prologue.stream + rest =~= codegen::dir_pair_code(
                    p1,
                    p2,
                    l3,
                    on_true,
                    on_false,
                    next,
                ).stream);
            },
            _ => {
                let first = codegen::expr_code(*l, l3, on_true, next, next + 1);
                let second = codegen::expr_code(*r, l3, on_true, on_false, first.labels);
                lemma_tidy_expr(*l, l3, on_true, next, next + 1);
                lemma_tidy_expr(*r, l3, on_true, on_false, first.labels);
                lemma_tidy_through(
                    first.stream,
                    second.stream,
                    on_true,
                    next,
                    on_true,
                    on_false,
                    next,
                    first.labels,
                    second.labels,
                );
            },
        },
    }
}

/// Generated code is ready to assemble: every label that it jumps to is placed, once, after the jump.
pub proof fn generated_code_is_well_formed(e: ExpandedExpr, link_type: LinkType, snaplen: u32)
    ensures
        codegen::program_code(e, link_type, snaplen).well_formed(),
        placed_once(codegen::program_code(e, link_type, snaplen).stream),
        forall|i: int|
            0 <= i < codegen::program_code(e, link_type, snaplen).stream.len() ==> irep::proper(
                #[trigger] codegen::program_code(e, link_type, snaplen).stream[i],
            ),
{
    let body = codegen::expr_code(e, link_type.l3(), 0, 1, 2);
    let code = codegen::program_code(e, link_type, snaplen);
    let stream = code.stream;
    let n = body.stream.len() as int;
    lemma_tidy_expr(e, link_type.l3(), 0, 1, 2);
    assert forall|i: int| 0 <= i < n implies #[trigger] stream[i] == body.stream[i] by {}
    assert(stream[n] == Item::Mark(0));
    assert(stream[n + 2] == Item::Mark(1));
    assert forall|i: int, label: nat|
        0 <= i < stream.len() && #[trigger] irep::jumps_to(stream[i], label) implies {
        &&& label < code.labels
        &&& irep::place_of(stream, label) matches Some(at) && at > i
    } by {
        if label != 0 && label != 1 {
            let j = choose|j: int|
                i < j < body.stream.len() && #[trigger] body.stream[j] == Item::Mark(label);
            assert(stream[j] == Item::Mark(label));
        }
        backpatch::lemma_place_of(stream, label);
    }
}

/// The only `ret`s of generated code are the two at its end.
pub proof fn generated_code_returns_at_the_end(e: ExpandedExpr, link_type: LinkType, snaplen: u32)
    ensures
        ({
            let stream = codegen::program_code(e, link_type, snaplen).stream;
            let nowhere = Range { start: 0usize, end: 0usize };
            &&& stream.len() >= 4
            &&& stream[stream.len() - 4] == Item::Mark(0)
            &&& stream[stream.len() - 3] == codegen::act(Op::Ret(snaplen), nowhere)
            &&& stream[stream.len() - 2] == Item::Mark(1)
            &&& stream[stream.len() - 1] == codegen::act(Op::Ret(0), nowhere)
            &&& forall|i: int|
                0 <= i < stream.len() - 4 ==> !irep::is_ret(#[trigger] stream[i])
        }),
{
    let body = codegen::expr_code(e, link_type.l3(), 0, 1, 2).stream;
    let stream = codegen::program_code(e, link_type, snaplen).stream;
    lemma_tidy_expr(e, link_type.l3(), 0, 1, 2);
    assert forall|i: int| 0 <= i < stream.len() - 4 implies !irep::is_ret(#[trigger] stream[i]) by {
        assert(stream[i] == body[i]);
    }
}

// ---------------------------------------------------------------------------------------------
// Control flow
// ---------------------------------------------------------------------------------------------

/// Whether `fragment` stands in `stream` from item `at` on.
pub open spec fn sits(stream: Seq<Item>, at: nat, fragment: Seq<Item>) -> bool {
    &&& at + fragment.len() <= stream.len()
    &&& forall|i: int| 0 <= i < fragment.len() ==> #[trigger] fragment[i] == stream[at + i]
}

/// The status of a program that ends with `if_true` where an outcome is true, with `if_false` where
/// it is false, and rejects where a field was missing.
pub open spec fn verdict(outcome: Option<bool>, if_true: u32, if_false: u32) -> u32 {
    match outcome {
        Some(true) => if_true,
        Some(false) => if_false,
        None => 0,
    }
}

/// Whether `label` is placed at item `at`, and the code that goes on there, with `x` in the index
/// register, ends with `status`.
pub open spec fn leads_to(
    stream: Seq<Item>,
    label: nat,
    at: nat,
    x: u32,
    packet: Seq<u8>,
    status: u32,
) -> bool {
    &&& at < stream.len()
    &&& stream[at as int] == Item::Mark(label)
    &&& forall|a: u32|
        #[trigger] irep::code_status_from(stream, at, Regs { a, x }, packet) == status
}

/// A fragment that is joined from two holds the second after the first.
proof fn lemma_sits_split(stream: Seq<Item>, at: nat, a: Seq<Item>, b: Seq<Item>)
    requires
        sits(stream, at, a + b),
    ensures
        sits(stream, at, a),
        sits(stream, at + a.len(), b),
{
    assert forall|i: int| 0 <= i < a.len() implies #[trigger] a[i] == stream[at + i] by {
        assert((a + b)[i] == stream[at + i]);
    }
    assert forall|i: int| 0 <= i < b.len() implies #[trigger] b[i] == stream[at + a.len() + i] by {
        assert((a + b)[a.len() + i] == stream[at + (a.len() + i)]);
    }
}

/// A conditional jump goes on where its label is placed.
proof fn lemma_if(
    stream: Seq<Item>,
    at: nat,
    jt_at: nat,
    jf_at: nat,
    regs: Regs,
    packet: Seq<u8>,
)
    requires
        placed_once(stream),
        at < jt_at < stream.len(),
        at < jf_at < stream.len(),
        stream[at as int] matches Item::Real(Action::If { test, imm, jt, jf }, _) && {
            &&& stream[jt_at as int] == Item::Mark(jt)
            &&& stream[jf_at as int] == Item::Mark(jf)
        },
    ensures
        stream[at as int] matches Item::Real(Action::If { test, imm, jt, jf }, _) && {
            irep::code_status_from(stream, at, regs, packet) == irep::code_status_from(
                stream,
                if test.holds(regs.a, imm) {
                    jt_at
                } else {
                    jf_at
                },
                regs,
                packet,
            )
        },
{
    if let Item::Real(Action::If { jt, jf, .. }, _) = stream[at as int] {
        backpatch::lemma_place_of(stream, jt);
        backpatch::lemma_place_of(stream, jf);
    }
}

/// A load goes on with the loaded value, or rejects.
proof fn lemma_load(stream: Seq<Item>, at: nat, regs: Regs, packet: Seq<u8>, field: Option<u32>)
    requires
        at < stream.len(),
        stream[at as int] matches Item::Real(Action::Do(op), _) && vm::straight_effect(
            op,
            regs,
            packet,
        ) == vm::load_a(field, regs),
    ensures
        irep::code_status_from(stream, at, regs, packet) == match field {
            Some(value) => irep::code_status_from(
                stream,
                at + 1,
                Regs { a: value, x: regs.x },
                packet,
            ),
            None => 0,
        },
{
}

/// Control passes a gate if the field has the value, and goes to `on_false` if it has another.
proof fn lemma_gate(
    stream: Seq<Item>,
    at: nat,
    load: Op,
    imm: u32,
    offset: Range<usize>,
    on_false: nat,
    next: nat,
    false_at: nat,
    if_false: u32,
    field: Option<u32>,
    regs: Regs,
    packet: Seq<u8>,
) -> (after: Regs)
    requires
        placed_once(stream),
        sits(stream, at, codegen::gate_code(load, imm, offset, on_false, next).stream),
        at + 3 <= false_at,
        leads_to(stream, on_false, false_at, regs.x, packet, if_false),
        vm::straight_effect(load, regs, packet) == vm::load_a(field, regs),
    ensures
        after.x == regs.x,
        irep::code_status_from(stream, at, regs, packet) == verdict(
            semantics::field_is(field, imm),
            irep::code_status_from(stream, at + 3, after, packet),
            if_false,
        ),
{
    lemma_load(stream, at, regs, packet, field);
    match field {
        Some(value) => {
            let after = Regs { a: value, x: regs.x };
            lemma_if(stream, at + 1, at + 2, false_at, after, packet);
            after
        },
        None => regs,
    }
}

/// Control passes both gates if the packet has the ethertype and the protocol number.
proof fn lemma_gates(
    stream: Seq<Item>,
    at: nat,
    l3: L3OffsetInfo,
    ethertype: u32,
    ip_proto: Option<u32>,
    offset: Range<usize>,
    on_false: nat,
    next: nat,
    false_at: nat,
    if_false: u32,
    regs: Regs,
    packet: Seq<u8>,
) -> (after: Regs)
    requires
        placed_once(stream),
        l3.ip_base <= 0xffff,
        sits(
            stream,
            at,
            codegen::gates_code(l3, ethertype, ip_proto, offset, on_false, next).stream,
        ),
        at + codegen::gates_code(l3, ethertype, ip_proto, offset, on_false, next).stream.len()
            <= false_at,
        leads_to(stream, on_false, false_at, regs.x, packet, if_false),
    ensures
        after.x == regs.x,
        irep::code_status_from(stream, at, regs, packet) == verdict(
            semantics::both(
                semantics::ethertype_is(l3, ethertype, packet),
                semantics::ip_proto_is(l3, ip_proto, packet),
            ),
            irep::code_status_from(
                stream,
                at + codegen::gates_code(
                    l3,
                    ethertype,
                    ip_proto,
                    offset,
                    on_false,
                    next,
                ).stream.len(),
                after,
                packet,
            ),
            if_false,
        ),
{
    let first = codegen::ethertype_code(l3, ethertype, offset, on_false, next);
    let second = codegen::ip_proto_code(l3, ip_proto, offset, on_false, first.labels);
    lemma_sits_split(stream, at, first.stream, second.stream);
    let between = match l3.ethertype_offset {
        Some(field_at) => lemma_gate(
            stream,
            at,
            Op::LdhAbs(field_at),
            ethertype,
            offset,
            on_false,
            next,
            false_at,
            if_false,
            packet::half_at(packet, field_at as int),
            regs,
            packet,
        ),
        None => regs,
    };
    match ip_proto {
        Some(number) => lemma_gate(
            stream,
            at + first.stream.len(),
            Op::LdbAbs((l3.ip_base + IP_PROTO_OFFSET) as u32),
            number,
            offset,
            on_false,
            first.labels,
            false_at,
            if_false,
            packet::byte_at(packet, l3.ip_base + IP_PROTO_OFFSET),
            between,
            packet,
        ),
        None => between,
    }
}

/// Whether the IPv4 header's length can be read.
pub open spec fn has_header_length(l3: L3OffsetInfo, packet: Seq<u8>) -> Option<bool> {
    match packet::byte_at(packet, l3.ip_base as int) {
        Some(_) => Some(true),
        None => None,
    }
}

/// The outcome of what a primitive checks before it looks at a direction's field.
pub open spec fn prologue_outcome(
    p: CompiledPrimitive,
    l3: L3OffsetInfo,
    packet: Seq<u8>,
) -> Option<bool> {
    match p.ty {
        PrimType::Host(addr) | PrimType::Net(addr, _) => {
            let gates = codegen::addr_gates_of(p.proto, addr);
            semantics::both(
                semantics::ethertype_is(l3, gates.ethertype, packet),
                semantics::ip_proto_is(l3, gates.ip_proto, packet),
            )
        },
        PrimType::Port(_) | PrimType::PortRange(_, _) => semantics::both(
            semantics::both(
                semantics::both(
                    semantics::ethertype_is(l3, ETH_TYPE_IP, packet),
                    semantics::ip_proto_is(l3, semantics::port_proto(p.proto), packet),
                ),
                semantics::is_first_fragment(l3, packet),
            ),
            has_header_length(l3, packet),
        ),
    }
}

/// The outcome of the check of the field in direction `dir`.
pub open spec fn terminal_outcome(
    p: CompiledPrimitive,
    dir: DirTag,
    l3: L3OffsetInfo,
    packet: Seq<u8>,
) -> Option<bool> {
    match p.ty {
        PrimType::Host(addr) => address_outcome(
            l3.ip_base + codegen::addr_gates_of(p.proto, addr).offset(dir),
            addr,
            semantics::prefix_bits(addr, None),
            packet,
        ),
        PrimType::Net(addr, prefix) => address_outcome(
            l3.ip_base + codegen::addr_gates_of(p.proto, addr).offset(dir),
            addr,
            semantics::prefix_bits(addr, prefix),
            packet,
        ),
        PrimType::Port(port) => semantics::port_in(l3, dir, port, port, packet),
        PrimType::PortRange(lo, hi) => semantics::port_in(l3, dir, lo, hi, packet),
    }
}

/// Whether the address at offset `at` agrees with `addr` in its first `bits` bits.
pub open spec fn address_outcome(at: int, addr: AddrLit, bits: nat, packet: Seq<u8>) -> Option<
    bool,
> {
    match addr {
        AddrLit::V4(value) => semantics::in_net4(at, value, bits, packet),
        AddrLit::V6(value) => semantics::in_net6_from(at, value, bits, 0, packet),
    }
}

/// A primitive's outcome is that of its prologue and the check of its direction's field.
proof fn lemma_primitive_outcome(p: CompiledPrimitive, l3: L3OffsetInfo, packet: Seq<u8>)
    requires
        codegen::objection(p, l3) is None,
    ensures
        semantics::primitive_outcome(p, l3, packet) == semantics::both(
            prologue_outcome(p, l3, packet),
            terminal_outcome(p, p.dir, l3, packet),
        ),
{
}

/// The index register after a primitive's prologue: a port's field is found by it.
pub open spec fn ready(p: CompiledPrimitive, l3: L3OffsetInfo, packet: Seq<u8>, x: u32) -> bool {
    p.ty is Port || p.ty is PortRange ==> {
        &&& packet::byte_at(packet, l3.ip_base as int) is Some
        &&& x == packet::byte_at(packet, l3.ip_base as int)->0 % 16 * 4
    }
}

/// The 13 low bits of a word are zero exactly if 2^13 divides it.
proof fn lemma_fragment_bits(field: u32)
    ensures
        (field & FRAG_MASK != 0) == (field % 0x2000 != 0),
{
    assert(field & 0x1fff == field % 0x2000) by (bit_vector);
}

/// Control passes a port check's prologue if the packet is a first fragment of that protocol.
proof fn lemma_port_prologue(
    stream: Seq<Item>,
    at: nat,
    p: CompiledPrimitive,
    l3: L3OffsetInfo,
    on_false: nat,
    next: nat,
    false_at: nat,
    if_false: u32,
    regs: Regs,
    packet: Seq<u8>,
) -> (after: Regs)
    requires
        placed_once(stream),
        l3.ip_base <= 0xffff,
        p.ty is Port || p.ty is PortRange,
        sits(stream, at, codegen::port_prologue_code(p, l3, on_false, next).stream),
        at + codegen::port_prologue_code(p, l3, on_false, next).stream.len() <= false_at,
        forall|x: u32| #[trigger] leads_to(stream, on_false, false_at, x, packet, if_false),
    ensures
        prologue_outcome(p, l3, packet) == Some(true) ==> ready(p, l3, packet, after.x),
        irep::code_status_from(stream, at, regs, packet) == verdict(
            prologue_outcome(p, l3, packet),
            irep::code_status_from(
                stream,
                at + codegen::port_prologue_code(p, l3, on_false, next).stream.len(),
                after,
                packet,
            ),
            if_false,
        ),
{
    let proto = semantics::port_proto(p.proto);
    let gates = codegen::gates_code(l3, ETH_TYPE_IP, proto, p.offset, on_false, next);
    let fragment = codegen::not_fragment_code(l3, p.offset, on_false, gates.labels);
    let length = seq![codegen::act(Op::LdxMsh(l3.ip_base), p.offset)];
    lemma_sits_split(stream, at, gates.stream + fragment.stream, length);
    lemma_sits_split(stream, at, gates.stream, fragment.stream);
    assert(leads_to(stream, on_false, false_at, regs.x, packet, if_false));
    let gated = lemma_gates(
        stream,
        at,
        l3,
        ETH_TYPE_IP,
        proto,
        p.offset,
        on_false,
        next,
        false_at,
        if_false,
        regs,
        packet,
    );
    let frag_at = at + gates.stream.len();
    assert(length[0] == stream[frag_at as int + 3 + 0]);
    let field = packet::half_at(packet, l3.ip_base + IP_FLAGS_FRAG_OFFSET);
    lemma_load(stream, frag_at, gated, packet, field);
    match field {
        Some(value) => {
            let loaded = Regs { a: value, x: gated.x };
            lemma_fragment_bits(value);
            lemma_if(stream, frag_at + 1, false_at, frag_at + 2, loaded, packet);
            assert(irep::code_status_from(stream, frag_at + 2, loaded, packet)
                == irep::code_status_from(stream, frag_at + 3, loaded, packet));
            match packet::byte_at(packet, l3.ip_base as int) {
                Some(byte) => Regs { a: value, x: (byte % 16 * 4) as u32 },
                None => loaded,
            }
        },
        None => gated,
    }
}

/// Control passes a primitive's prologue if its outcome is true.
proof fn lemma_prologue(
    stream: Seq<Item>,
    at: nat,
    p: CompiledPrimitive,
    l3: L3OffsetInfo,
    on_false: nat,
    next: nat,
    false_at: nat,
    if_false: u32,
    regs: Regs,
    packet: Seq<u8>,
) -> (after: Regs)
    requires
        placed_once(stream),
        l3.ip_base <= 0xffff,
        sits(stream, at, codegen::prologue_code(p, l3, on_false, next).stream),
        at + codegen::prologue_code(p, l3, on_false, next).stream.len() <= false_at,
        forall|x: u32| #[trigger] leads_to(stream, on_false, false_at, x, packet, if_false),
    ensures
        prologue_outcome(p, l3, packet) == Some(true) ==> ready(p, l3, packet, after.x),
        irep::code_status_from(stream, at, regs, packet) == verdict(
            prologue_outcome(p, l3, packet),
            irep::code_status_from(
                stream,
                at + codegen::prologue_code(p, l3, on_false, next).stream.len(),
                after,
                packet,
            ),
            if_false,
        ),
{
    match p.ty {
        PrimType::Host(addr) | PrimType::Net(addr, _) => {
            let gates = codegen::addr_gates_of(p.proto, addr);
            lemma_gates(
                stream,
                at,
                l3,
                gates.ethertype,
                gates.ip_proto,
                p.offset,
                on_false,
                next,
                false_at,
                if_false,
                regs,
                packet,
            )
        },
        PrimType::Port(_) | PrimType::PortRange(_, _) => lemma_port_prologue(
            stream,
            at,
            p,
            l3,
            on_false,
            next,
            false_at,
            if_false,
            regs,
            packet,
        ),
    }
}

/// Two words agree in their first bits exactly if they agree under the mask of those bits.
proof fn lemma_mask(word: u32, value: u32, bits: nat)
    requires
        bits <= 32,
    ensures
        (word & codegen::mask_of(bits) == value & codegen::mask_of(bits)) == semantics::same_prefix(
            word,
            value,
            bits,
        ),
        codegen::mask_of(bits) == u32::MAX ==> word & codegen::mask_of(bits) == word,
{
    if bits == 0 {
        assert(word & 0 == 0 && value & 0 == 0) by (bit_vector);
    } else {
        let shift = (32 - bits) as u32;
        assert((word & (0xffff_ffffu32 << shift) == value & (0xffff_ffffu32 << shift)) == (word
            >> shift == value >> shift)) by (bit_vector)
            requires
                0 <= shift < 32,
        ;
    }
    assert(word & 0xffff_ffff == word) by (bit_vector);
}

/// Where the comparison of a word leads.
proof fn lemma_word(
    stream: Seq<Item>,
    at: nat,
    field_at: u32,
    value: u32,
    bits: nat,
    offset: Range<usize>,
    on_true: nat,
    on_false: nat,
    true_at: nat,
    false_at: nat,
    if_true: u32,
    if_false: u32,
    regs: Regs,
    packet: Seq<u8>,
)
    requires
        placed_once(stream),
        bits <= 32,
        sits(
            stream,
            at,
            codegen::word_code(field_at, value, bits, offset, on_true, on_false),
        ),
        at + codegen::word_code(field_at, value, bits, offset, on_true, on_false).len() <= true_at,
        at + codegen::word_code(field_at, value, bits, offset, on_true, on_false).len() <= false_at,
        leads_to(stream, on_true, true_at, regs.x, packet, if_true),
        leads_to(stream, on_false, false_at, regs.x, packet, if_false),
    ensures
        irep::code_status_from(stream, at, regs, packet) == verdict(
            semantics::in_net4(field_at as int, value, bits, packet),
            if_true,
            if_false,
        ),
{
    let mask = codegen::mask_of(bits);
    let load = codegen::masked_load_code(field_at, mask, offset);
    let fragment = codegen::word_code(field_at, value, bits, offset, on_true, on_false);
    let field = packet::word_at(packet, field_at as int);
    assert(fragment[0] == stream[at as int + 0]);
    assert(fragment[load.len() as int] == stream[at + load.len() as int]);
    lemma_load(stream, at, regs, packet, field);
    if let Some(word) = field {
        lemma_mask(word, value, bits);
        let masked = Regs { a: word & mask, x: regs.x };
        if mask != u32::MAX {
            assert(fragment[1] == stream[at as int + 1]);
        }
        lemma_if(stream, at + load.len(), true_at, false_at, masked, packet);
    }
}

/// Where the comparison of an IPv6 address leads, from word `i` on.
proof fn lemma_words(
    stream: Seq<Item>,
    at: nat,
    field_at: u32,
    addr: u128,
    bits: nat,
    i: nat,
    offset: Range<usize>,
    on_true: nat,
    on_false: nat,
    next: nat,
    true_at: nat,
    false_at: nat,
    if_true: u32,
    if_false: u32,
    regs: Regs,
    packet: Seq<u8>,
)
    requires
        placed_once(stream),
        32 * i < bits <= 128,
        field_at <= 0x1_ffff,
        sits(
            stream,
            at,
            codegen::words_code(
                field_at,
                addr,
                bits,
                i,
                offset,
                on_true,
                on_false,
                next,
            ).stream,
        ),
        at + codegen::words_code(
            field_at,
            addr,
            bits,
            i,
            offset,
            on_true,
            on_false,
            next,
        ).stream.len() <= true_at,
        at + codegen::words_code(
            field_at,
            addr,
            bits,
            i,
            offset,
            on_true,
            on_false,
            next,
        ).stream.len() <= false_at,
        leads_to(stream, on_true, true_at, regs.x, packet, if_true),
        leads_to(stream, on_false, false_at, regs.x, packet, if_false),
    ensures
        irep::code_status_from(stream, at, regs, packet) == verdict(
            semantics::in_net6_from(field_at as int, addr, bits, i, packet),
            if_true,
            if_false,
        ),
    decreases bits - 32 * i,
{
    let here = (field_at + 4 * i) as u32;
    let value = semantics::word6(addr, i);
    let in_word = semantics::bits_in_word(bits, i);
    if 32 * i + 32 >= bits {
        lemma_word(
            stream,
            at,
            here,
            value,
            in_word,
            offset,
            on_true,
            on_false,
            true_at,
            false_at,
            if_true,
            if_false,
            regs,
            packet,
        );
    } else {
        let word = codegen::word_code(here, value, in_word, offset, next, on_false);
        let rest = codegen::words_code(
            field_at,
            addr,
            bits,
            i + 1,
            offset,
            on_true,
            on_false,
            next + 1,
        ).stream;
        let mark_at = at + word.len();
        lemma_sits_split(stream, at, word.push(Item::Mark(next)), rest);
        assert(word.push(Item::Mark(next)) =~= word + seq![Item::Mark(next)]);
        lemma_sits_split(stream, at, word, seq![Item::Mark(next)]);
        assert(seq![Item::Mark(next)][0] == stream[mark_at as int + 0]);
        let later = semantics::in_net6_from(field_at as int, addr, bits, i + 1, packet);
        assert forall|a: u32| #[trigger]
            irep::code_status_from(stream, mark_at, Regs { a, x: regs.x }, packet) == verdict(
                later,
                if_true,
                if_false,
            ) by {
            lemma_words(
                stream,
                mark_at + 1,
                field_at,
                addr,
                bits,
                i + 1,
                offset,
                on_true,
                on_false,
                next + 1,
                true_at,
                false_at,
                if_true,
                if_false,
                Regs { a, x: regs.x },
                packet,
            );
        }
        lemma_word(
            stream,
            at,
            here,
            value,
            in_word,
            offset,
            next,
            on_false,
            mark_at,
            false_at,
            verdict(later, if_true, if_false),
            if_false,
            regs,
            packet,
        );
    }
}

/// Where the check of a port leads.
proof fn lemma_port_terminal(
    stream: Seq<Item>,
    at: nat,
    l3: L3OffsetInfo,
    dir: DirTag,
    lo: u16,
    hi: u16,
    offset: Range<usize>,
    on_true: nat,
    on_false: nat,
    next: nat,
    true_at: nat,
    false_at: nat,
    if_true: u32,
    if_false: u32,
    regs: Regs,
    packet: Seq<u8>,
)
    requires
        placed_once(stream),
        l3.ip_base <= 0xffff,
        packet::byte_at(packet, l3.ip_base as int) is Some,
        regs.x == packet::byte_at(packet, l3.ip_base as int)->0 % 16 * 4,
        sits(
            stream,
            at,
            codegen::port_terminal_code(
                l3,
                dir,
                lo,
                hi,
                offset,
                on_true,
                on_false,
                next,
            ).stream,
        ),
        at + codegen::port_terminal_code(
            l3,
            dir,
            lo,
            hi,
            offset,
            on_true,
            on_false,
            next,
        ).stream.len() <= true_at,
        at + codegen::port_terminal_code(
            l3,
            dir,
            lo,
            hi,
            offset,
            on_true,
            on_false,
            next,
        ).stream.len() <= false_at,
        leads_to(stream, on_true, true_at, regs.x, packet, if_true),
        leads_to(stream, on_false, false_at, regs.x, packet, if_false),
    ensures
        irep::code_status_from(stream, at, regs, packet) == verdict(
            semantics::port_in(l3, dir, lo, hi, packet),
            if_true,
            if_false,
        ),
{
    let rel = match dir {
        DirTag::Src => semantics::PORT_SRC_REL,
        DirTag::Dst => semantics::PORT_DST_REL,
    };
    let field = packet::half_at(packet, l3.ip_base + regs.x + rel);
    lemma_load(stream, at, regs, packet, field);
    if let Some(port) = field {
        let loaded = Regs { a: port, x: regs.x };
        if lo == hi {
            lemma_if(stream, at + 1, true_at, false_at, loaded, packet);
        } else {
            lemma_if(stream, at + 1, at + 2, false_at, loaded, packet);
            lemma_if(stream, at + 3, false_at, true_at, loaded, packet);
        }
    }
}

/// Where the check of one direction's field leads.
proof fn lemma_terminal(
    stream: Seq<Item>,
    at: nat,
    p: CompiledPrimitive,
    dir: DirTag,
    l3: L3OffsetInfo,
    on_true: nat,
    on_false: nat,
    next: nat,
    true_at: nat,
    false_at: nat,
    if_true: u32,
    if_false: u32,
    regs: Regs,
    packet: Seq<u8>,
)
    requires
        placed_once(stream),
        l3.ip_base <= 0xffff,
        codegen::objection(p, l3) is None,
        p.ty.prefix_fits(),
        ready(p, l3, packet, regs.x),
        sits(stream, at, codegen::terminal_code(p, dir, l3, on_true, on_false, next).stream),
        at + codegen::terminal_code(p, dir, l3, on_true, on_false, next).stream.len() <= true_at,
        at + codegen::terminal_code(p, dir, l3, on_true, on_false, next).stream.len() <= false_at,
        leads_to(stream, on_true, true_at, regs.x, packet, if_true),
        leads_to(stream, on_false, false_at, regs.x, packet, if_false),
    ensures
        irep::code_status_from(stream, at, regs, packet) == verdict(
            terminal_outcome(p, dir, l3, packet),
            if_true,
            if_false,
        ),
{
    match p.ty {
        PrimType::Host(addr) => {
            let field_at = (l3.ip_base + codegen::addr_gates_of(p.proto, addr).offset(dir)) as u32;
            lemma_address(
                stream,
                at,
                field_at,
                addr,
                semantics::prefix_bits(addr, None),
                p.offset,
                on_true,
                on_false,
                next,
                true_at,
                false_at,
                if_true,
                if_false,
                regs,
                packet,
            );
        },
        PrimType::Net(addr, prefix) => {
            let field_at = (l3.ip_base + codegen::addr_gates_of(p.proto, addr).offset(dir)) as u32;
            lemma_address(
                stream,
                at,
                field_at,
                addr,
                semantics::prefix_bits(addr, prefix),
                p.offset,
                on_true,
                on_false,
                next,
                true_at,
                false_at,
                if_true,
                if_false,
                regs,
                packet,
            );
        },
        PrimType::Port(port) => {
            lemma_port_terminal(
                stream,
                at,
                l3,
                dir,
                port,
                port,
                p.offset,
                on_true,
                on_false,
                next,
                true_at,
                false_at,
                if_true,
                if_false,
                regs,
                packet,
            );
        },
        PrimType::PortRange(lo, hi) => {
            lemma_port_terminal(
                stream,
                at,
                l3,
                dir,
                lo,
                hi,
                p.offset,
                on_true,
                on_false,
                next,
                true_at,
                false_at,
                if_true,
                if_false,
                regs,
                packet,
            );
        },
    }
}

/// Where the comparison of an address leads.
proof fn lemma_address(
    stream: Seq<Item>,
    at: nat,
    field_at: u32,
    addr: AddrLit,
    bits: nat,
    offset: Range<usize>,
    on_true: nat,
    on_false: nat,
    next: nat,
    true_at: nat,
    false_at: nat,
    if_true: u32,
    if_false: u32,
    regs: Regs,
    packet: Seq<u8>,
)
    requires
        placed_once(stream),
        bits <= semantics::prefix_bits(addr, None),
        field_at <= 0x1_ffff,
        sits(
            stream,
            at,
            codegen::address_code(
                field_at,
                addr,
                bits,
                offset,
                on_true,
                on_false,
                next,
            ).stream,
        ),
        at + codegen::address_code(
            field_at,
            addr,
            bits,
            offset,
            on_true,
            on_false,
            next,
        ).stream.len() <= true_at,
        at + codegen::address_code(
            field_at,
            addr,
            bits,
            offset,
            on_true,
            on_false,
            next,
        ).stream.len() <= false_at,
        leads_to(stream, on_true, true_at, regs.x, packet, if_true),
        leads_to(stream, on_false, false_at, regs.x, packet, if_false),
    ensures
        irep::code_status_from(stream, at, regs, packet) == verdict(
            address_outcome(field_at as int, addr, bits, packet),
            if_true,
            if_false,
        ),
{
    match addr {
        AddrLit::V4(value) => {
            lemma_word(
                stream,
                at,
                field_at,
                value,
                bits,
                offset,
                on_true,
                on_false,
                true_at,
                false_at,
                if_true,
                if_false,
                regs,
                packet,
            );
        },
        AddrLit::V6(value) => {
            if bits == 0 {
                let fragment = codegen::address_code(
                    field_at,
                    addr,
                    bits,
                    offset,
                    on_true,
                    on_false,
                    next,
                ).stream;
                assert(fragment[0] == stream[at as int + 0]);
                backpatch::lemma_place_of(stream, on_true);
                assert(irep::code_status_from(stream, at, regs, packet) == irep::code_status_from(
                    stream,
                    true_at,
                    Regs { a: regs.a, x: regs.x },
                    packet,
                ));
            } else {
                lemma_words(
                    stream,
                    at,
                    field_at,
                    value,
                    bits,
                    0,
                    offset,
                    on_true,
                    on_false,
                    next,
                    true_at,
                    false_at,
                    if_true,
                    if_false,
                    regs,
                    packet,
                );
            }
        },
    }
}

/// Where a primitive leads.
proof fn lemma_primitive(
    stream: Seq<Item>,
    at: nat,
    p: CompiledPrimitive,
    l3: L3OffsetInfo,
    on_true: nat,
    on_false: nat,
    next: nat,
    true_at: nat,
    false_at: nat,
    if_true: u32,
    if_false: u32,
    regs: Regs,
    packet: Seq<u8>,
)
    requires
        placed_once(stream),
        l3.ip_base <= 0xffff,
        codegen::objection(p, l3) is None,
        p.ty.prefix_fits(),
        sits(stream, at, codegen::primitive_code(p, l3, on_true, on_false, next).stream),
        at + codegen::primitive_code(p, l3, on_true, on_false, next).stream.len() <= true_at,
        at + codegen::primitive_code(p, l3, on_true, on_false, next).stream.len() <= false_at,
        forall|x: u32| #[trigger] leads_to(stream, on_true, true_at, x, packet, if_true),
        forall|x: u32| #[trigger] leads_to(stream, on_false, false_at, x, packet, if_false),
    ensures
        irep::code_status_from(stream, at, regs, packet) == verdict(
            semantics::primitive_outcome(p, l3, packet),
            if_true,
            if_false,
        ),
{
    let prologue = codegen::prologue_code(p, l3, on_false, next);
    let terminal = codegen::terminal_code(p, p.dir, l3, on_true, on_false, prologue.labels);
    lemma_sits_split(stream, at, prologue.stream, terminal.stream);
    let after = lemma_prologue(
        stream,
        at,
        p,
        l3,
        on_false,
        next,
        false_at,
        if_false,
        regs,
        packet,
    );
    lemma_primitive_outcome(p, l3, packet);
    if prologue_outcome(p, l3, packet) == Some(true) {
        lemma_terminal(
            stream,
            at + prologue.stream.len(),
            p,
            p.dir,
            l3,
            on_true,
            on_false,
            prologue.labels,
            true_at,
            false_at,
            if_true,
            if_false,
            after,
            packet,
        );
    }
}

/// Where a pair of primitives that differ in direction only leads.
proof fn lemma_dir_pair(
    stream: Seq<Item>,
    at: nat,
    p1: CompiledPrimitive,
    p2: CompiledPrimitive,
    l3: L3OffsetInfo,
    on_true: nat,
    on_false: nat,
    next: nat,
    true_at: nat,
    false_at: nat,
    if_true: u32,
    if_false: u32,
    regs: Regs,
    packet: Seq<u8>,
)
    requires
        placed_once(stream),
        l3.ip_base <= 0xffff,
        codegen::is_dir_pair(p1, p2),
        codegen::objection(p1, l3) is None,
        p1.ty.prefix_fits(),
        sits(stream, at, codegen::dir_pair_code(p1, p2, l3, on_true, on_false, next).stream),
        at + codegen::dir_pair_code(p1, p2, l3, on_true, on_false, next).stream.len() <= true_at,
        at + codegen::dir_pair_code(p1, p2, l3, on_true, on_false, next).stream.len() <= false_at,
        forall|x: u32| #[trigger] leads_to(stream, on_true, true_at, x, packet, if_true),
        forall|x: u32| #[trigger] leads_to(stream, on_false, false_at, x, packet, if_false),
    ensures
        irep::code_status_from(stream, at, regs, packet) == verdict(
            semantics::either(
                semantics::primitive_outcome(p1, l3, packet),
                semantics::primitive_outcome(p2, l3, packet),
            ),
            if_true,
            if_false,
        ),
{
    let prologue = codegen::prologue_code(p1, l3, on_false, next);
    let mid = prologue.labels;
    let first = codegen::terminal_code(p1, p1.dir, l3, on_true, mid, mid + 1);
    let second = codegen::terminal_code(p1, p2.dir, l3, on_true, on_false, first.labels);
    let mark = seq![Item::Mark(mid)];
    let first_at = at + prologue.stream.len();
    let mark_at = first_at + first.stream.len();
    lemma_sits_split(stream, at, prologue.stream + first.stream + mark, second.stream);
    lemma_sits_split(stream, at, prologue.stream + first.stream, mark);
    lemma_sits_split(stream, at, prologue.stream, first.stream);
    assert(mark[0] == stream[mark_at as int + 0]);
    let after = lemma_prologue(
        stream,
        at,
        p1,
        l3,
        on_false,
        next,
        false_at,
        if_false,
        regs,
        packet,
    );
    lemma_primitive_outcome(p1, l3, packet);
    lemma_primitive_outcome(p2, l3, packet);
    if prologue_outcome(p1, l3, packet) == Some(true) {
        let x = after.x;
        let other = verdict(terminal_outcome(p2, p2.dir, l3, packet), if_true, if_false);
        assert forall|a: u32| #[trigger]
            irep::code_status_from(stream, mark_at, Regs { a, x }, packet) == other by {
            lemma_terminal(
                stream,
                mark_at + 1,
                p1,
                p2.dir,
                l3,
                on_true,
                on_false,
                first.labels,
                true_at,
                false_at,
                if_true,
                if_false,
                Regs { a, x },
                packet,
            );
        }
        lemma_terminal(
            stream,
            first_at,
            p1,
            p1.dir,
            l3,
            on_true,
            mid,
            mid + 1,
            true_at,
            mark_at,
            if_true,
            other,
            after,
            packet,
        );
    }
}

/// Where an expression leads.
proof fn lemma_expr(
    stream: Seq<Item>,
    at: nat,
    e: ExpandedExpr,
    l3: L3OffsetInfo,
    on_true: nat,
    on_false: nat,
    next: nat,
    true_at: nat,
    false_at: nat,
    if_true: u32,
    if_false: u32,
    regs: Regs,
    packet: Seq<u8>,
)
    requires
        placed_once(stream),
        l3.ip_base <= 0xffff,
        codegen::first_failure(e, l3) is None,
        codegen::prefixes_fit(e),
        sits(stream, at, codegen::expr_code(e, l3, on_true, on_false, next).stream),
        at + codegen::expr_code(e, l3, on_true, on_false, next).stream.len() <= true_at,
        at + codegen::expr_code(e, l3, on_true, on_false, next).stream.len() <= false_at,
        forall|x: u32| #[trigger] leads_to(stream, on_true, true_at, x, packet, if_true),
        forall|x: u32| #[trigger] leads_to(stream, on_false, false_at, x, packet, if_false),
    ensures
        irep::code_status_from(stream, at, regs, packet) == verdict(
            semantics::outcome(e, l3, packet),
            if_true,
            if_false,
        ),
    decreases e,
{
    match e {
        ExpandedExpr::Leaf(p) => {
            lemma_primitive(
                stream,
                at,
                p,
                l3,
                on_true,
                on_false,
                next,
                true_at,
                false_at,
                if_true,
                if_false,
                regs,
                packet,
            );
        },
        ExpandedExpr::Not(inner) => {
            lemma_expr(
                stream,
                at,
                *inner,
                l3,
                on_false,
                on_true,
                next,
                false_at,
                true_at,
                if_false,
                if_true,
                regs,
                packet,
            );
        },
        ExpandedExpr::And(l, r) => {
            let first = codegen::expr_code(*l, l3, next, on_false, next + 1);
            let second = codegen::expr_code(*r, l3, on_true, on_false, first.labels);
            let mark = seq![Item::Mark(next)];
            let mark_at = at + first.stream.len();
            let then = verdict(semantics::outcome(*r, l3, packet), if_true, if_false);
            lemma_sits_split(stream, at, first.stream + mark, second.stream);
            lemma_sits_split(stream, at, first.stream, mark);
            assert(mark[0] == stream[mark_at as int + 0]);
            assert forall|x: u32| #[trigger]
                leads_to(stream, next, mark_at, x, packet, then) by {
                assert forall|a: u32| #[trigger]
                    irep::code_status_from(stream, mark_at, Regs { a, x }, packet) == then by {
                    lemma_expr(
                        stream,
                        mark_at + 1,
                        *r,
                        l3,
                        on_true,
                        on_false,
                        first.labels,
                        true_at,
                        false_at,
                        if_true,
                        if_false,
                        Regs { a, x },
                        packet,
                    );
                }
            }
            lemma_expr(
                stream,
                at,
                *l,
                l3,
                next,
                on_false,
                next + 1,
                mark_at,
                false_at,
                then,
                if_false,
                regs,
                packet,
            );
        },
        ExpandedExpr::Or(l, r) => match (*l, *r) {
            (ExpandedExpr::Leaf(p1), ExpandedExpr::Leaf(p2)) if codegen::is_dir_pair(p1, p2) => {
                assert(codegen::prefixes_fit(*l));
                lemma_dir_pair(
                    stream,
                    at,
                    p1,
                    p2,
                    l3,
                    on_true,
                    on_false,
                    next,
                    true_at,
                    false_at,
                    if_true,
                    if_false,
                    regs,
                    packet,
                );
            },
            _ => {
                let first = codegen::expr_code(*l, l3, on_true, next, next + 1);
                let second = codegen::expr_code(*r, l3, on_true, on_false, first.labels);
                let mark = seq![Item::Mark(next)];
                let mark_at = at + first.stream.len();
                let then = verdict(semantics::outcome(*r, l3, packet), if_true, if_false);
                lemma_sits_split(stream, at, first.stream + mark, second.stream);
                lemma_sits_split(stream, at, first.stream, mark);
                assert(mark[0] == stream[mark_at as int + 0]);
                assert forall|x: u32| #[trigger]
                    leads_to(stream, next, mark_at, x, packet, then) by {
                    assert forall|a: u32| #[trigger]
                        irep::code_status_from(stream, mark_at, Regs { a, x }, packet) == then by {
                        lemma_expr(
                            stream,
                            mark_at + 1,
                            *r,
                            l3,
                            on_true,
                            on_false,
                            first.labels,
                            true_at,
                            false_at,
                            if_true,
                            if_false,
                            Regs { a, x },
                            packet,
                        );
                    }
                }
                lemma_expr(
                    stream,
                    at,
                    *l,
                    l3,
                    on_true,
                    next,
                    next + 1,
                    true_at,
                    mark_at,
                    if_true,
                    then,
                    regs,
                    packet,
                );
            },
        },
    }
}

/// Generated code decides its expression: on every packet it ends with the capture length if the
/// expression accepts the packet, and rejects it otherwise.
pub proof fn generated_code_decides(
    e: ExpandedExpr,
    link_type: LinkType,
    snaplen: u32,
    packet: Seq<u8>,
)
    requires
        codegen::prefixes_fit(e),
        codegen::first_failure(e, link_type.l3()) is None,
    ensures
        irep::code_status_from(
            codegen::program_code(e, link_type, snaplen).stream,
            0,
            Regs { a: 0, x: 0 },
            packet,
        ) == if semantics::accepts(e, link_type, packet) {
            snaplen
        } else {
            0
        },
{
    let body = codegen::expr_code(e, link_type.l3(), 0, 1, 2).stream;
    let stream = codegen::program_code(e, link_type, snaplen).stream;
    let n = body.len();
    generated_code_is_well_formed(e, link_type, snaplen);
    assert forall|x: u32| #[trigger] leads_to(stream, 0, n, x, packet, snaplen) by {
        assert forall|a: u32| #[trigger]
            irep::code_status_from(stream, n, Regs { a, x }, packet) == snaplen by {
            assert(irep::code_status_from(stream, n + 1, Regs { a, x }, packet) == snaplen);
        }
    }
    assert forall|x: u32| #[trigger] leads_to(stream, 1, n + 2, x, packet, 0) by {
        assert forall|a: u32| #[trigger]
            irep::code_status_from(stream, n + 2, Regs { a, x }, packet) == 0 by {
            assert(irep::code_status_from(stream, n + 3, Regs { a, x }, packet) == 0);
        }
    }
    lemma_expr(
        stream,
        0,
        e,
        link_type.l3(),
        0,
        1,
        2,
        n,
        n + 2,
        snaplen,
        0,
        Regs { a: 0, x: 0 },
        packet,
    );
}

// ---------------------------------------------------------------------------------------------
// Exits
// ---------------------------------------------------------------------------------------------

/// The label at which control leaves a fragment that goes on at item `at`: the first label that it
/// jumps to without placing it further on. `None` if it stops or runs off its end.
pub open spec fn exit_from(
    fragment: Seq<Item>,
    at: nat,
    regs: Regs,
    packet: Seq<u8>,
) -> Option<nat>
    decreases
            if at < fragment.len() {
                fragment.len() - at
            } else {
                0
            },
{
    if at >= fragment.len() {
        None
    } else {
        match fragment[at as int] {
            Item::Mark(_) => exit_from(fragment, at + 1, regs, packet),
            Item::Real(Action::Do(op), _) => match vm::straight_effect(op, regs, packet) {
                Effect::Next(next) => exit_from(fragment, at + 1, next, packet),
                _ => None,
            },
            Item::Real(Action::If { test, imm, jt, jf }, _) => {
                let label = if test.holds(regs.a, imm) {
                    jt
                } else {
                    jf
                };
                match irep::place_of(fragment, label) {
                    Some(target) if target > at => exit_from(fragment, target, regs, packet),
                    _ => Some(label),
                }
            },
            Item::Real(Action::Goto(label), _) => match irep::place_of(fragment, label) {
                Some(target) if target > at => exit_from(fragment, target, regs, packet),
                _ => Some(label),
            },
        }
    }
}

/// A fragment closed off by its two exits: running off its end rejects, its first exit leads to
/// `ret 1`, its second to `ret 2`.
spec fn closed_off(fragment: Seq<Item>, on_true: nat, on_false: nat) -> Seq<Item> {
    let nowhere = Range { start: 0usize, end: 0usize };
    fragment + seq![
        codegen::act(Op::Ret(0), nowhere),
        Item::Mark(on_true),
        codegen::act(Op::Ret(1), nowhere),
        Item::Mark(on_false),
        codegen::act(Op::Ret(2), nowhere),
    ]
}

/// The status that an exit of a closed-off fragment leads to.
spec fn exit_status(exit: Option<nat>, on_true: nat, on_false: nat) -> u32 {
    match exit {
        Some(label) => if label == on_true {
            1
        } else if label == on_false {
            2
        } else {
            0
        },
        None => 0,
    }
}

/// A closed-off fragment places its labels where it did, and no label twice.
proof fn lemma_closed_off(fragment: Seq<Item>, on_true: nat, on_false: nat, lo: nat, hi: nat)
    requires
        tidy(fragment, on_true, on_false, lo, hi),
        on_true != on_false,
        on_true < lo,
        on_false < lo,
    ensures
        ({
            let stream = closed_off(fragment, on_true, on_false);
            let n = fragment.len() as int;
            &&& placed_once(stream)
            &&& sits(stream, 0, fragment)
            &&& stream.len() == n + 5
            &&& stream[n] matches Item::Real(Action::Do(Op::Ret(k)), _) && k == 0
            &&& stream[n + 1] == Item::Mark(on_true)
            &&& stream[n + 2] matches Item::Real(Action::Do(Op::Ret(k)), _) && k == 1
            &&& stream[n + 3] == Item::Mark(on_false)
            &&& stream[n + 4] matches Item::Real(Action::Do(Op::Ret(k)), _) && k == 2
            &&& forall|label: nat|
                label >= lo ==> #[trigger] irep::place_of(stream, label) == irep::place_of(
                    fragment,
                    label,
                )
            &&& irep::place_of(stream, on_true) == Some((n + 1) as nat)
            &&& irep::place_of(stream, on_false) == Some((n + 3) as nat)
            &&& irep::place_of(fragment, on_true) is None
            &&& irep::place_of(fragment, on_false) is None
        }),
{
    let stream = closed_off(fragment, on_true, on_false);
    let n = fragment.len() as int;
    assert forall|i: int| 0 <= i < n implies #[trigger] stream[i] == fragment[i] by {}
    assert forall|label: nat| label >= lo implies #[trigger] irep::place_of(stream, label)
        == irep::place_of(fragment, label) by {
        backpatch::lemma_place_of(stream, label);
        backpatch::lemma_place_of(fragment, label);
        if let Some(at) = irep::place_of(stream, label) {
            assert(at < n);
            assert(fragment[at as int] == Item::Mark(label));
        }
        if let Some(at) = irep::place_of(fragment, label) {
            assert(stream[at as int] == Item::Mark(label));
        }
    }
    backpatch::lemma_place_of(stream, on_true);
    backpatch::lemma_place_of(stream, on_false);
    backpatch::lemma_place_of(fragment, on_true);
    backpatch::lemma_place_of(fragment, on_false);
}

/// A closed-off fragment ends with the status of its exit.
proof fn lemma_exit_status(
    fragment: Seq<Item>,
    on_true: nat,
    on_false: nat,
    lo: nat,
    hi: nat,
    at: nat,
    regs: Regs,
    packet: Seq<u8>,
)
    requires
        tidy(fragment, on_true, on_false, lo, hi),
        on_true != on_false,
        on_true < lo,
        on_false < lo,
        at <= fragment.len(),
    ensures
        irep::code_status_from(closed_off(fragment, on_true, on_false), at, regs, packet)
            == exit_status(exit_from(fragment, at, regs, packet), on_true, on_false),
        exit_from(fragment, at, regs, packet) matches Some(label) ==> label == on_true || label
            == on_false,
    decreases fragment.len() - at,
{
    let stream = closed_off(fragment, on_true, on_false);
    let n = fragment.len();
    lemma_closed_off(fragment, on_true, on_false, lo, hi);
    assert(irep::code_status_from(stream, n + 2, regs, packet) == 1);
    assert(irep::code_status_from(stream, n + 1, regs, packet) == 1);
    assert(irep::code_status_from(stream, n + 4, regs, packet) == 2);
    assert(irep::code_status_from(stream, n + 3, regs, packet) == 2);
    if at < n {
        let item = fragment[at as int];
        assert(stream[at as int] == item);
        assert(!irep::is_ret(item) && irep::proper(item));
        match item {
            Item::Mark(_) => {
                lemma_exit_status(fragment, on_true, on_false, lo, hi, at + 1, regs, packet);
            },
            Item::Real(Action::Do(op), _) => {
                if let Effect::Next(next) = vm::straight_effect(op, regs, packet) {
                    lemma_exit_status(fragment, on_true, on_false, lo, hi, at + 1, next, packet);
                }
            },
            Item::Real(action, _) => {
                let label = match action {
                    Action::If { test, imm, jt, jf } => if test.holds(regs.a, imm) {
                        jt
                    } else {
                        jf
                    },
                    Action::Goto(target) => target,
                    Action::Do(_) => 0,
                };
                assert(irep::jumps_to(item, label));
                if label != on_true && label != on_false {
                    backpatch::lemma_place_of(fragment, label);
                    let j = choose|j: int|
                        at < j < fragment.len() && #[trigger] fragment[j] == Item::Mark(label);
                    let target = irep::place_of(fragment, label)->0;
                    assert(target > at);
                    lemma_exit_status(fragment, on_true, on_false, lo, hi, target, regs, packet);
                }
            },
        }
    }
}

/// The code of an expression leaves at the label of its outcome, and nowhere if a field is missing.
pub proof fn expression_code_leaves_by_its_outcome(
    e: ExpandedExpr,
    l3: L3OffsetInfo,
    on_true: nat,
    on_false: nat,
    next: nat,
    regs: Regs,
    packet: Seq<u8>,
)
    requires
        l3.ip_base <= 0xffff,
        codegen::first_failure(e, l3) is None,
        codegen::prefixes_fit(e),
        on_true != on_false,
        on_true < next,
        on_false < next,
    ensures
        exit_from(codegen::expr_code(e, l3, on_true, on_false, next).stream, 0, regs, packet)
            == match semantics::outcome(e, l3, packet) {
            Some(true) => Some(on_true),
            Some(false) => Some(on_false),
            None => None,
        },
{
    let code = codegen::expr_code(e, l3, on_true, on_false, next);
    let fragment = code.stream;
    let stream = closed_off(fragment, on_true, on_false);
    let n = fragment.len();
    lemma_tidy_expr(e, l3, on_true, on_false, next);
    lemma_closed_off(fragment, on_true, on_false, next, code.labels);
    assert forall|x: u32| #[trigger] leads_to(stream, on_true, n + 1, x, packet, 1) by {
        assert forall|a: u32| #[trigger]
            irep::code_status_from(stream, n + 1, Regs { a, x }, packet) == 1 by {
            assert(irep::code_status_from(stream, n + 2, Regs { a, x }, packet) == 1);
        }
    }
    assert forall|x: u32| #[trigger] leads_to(stream, on_false, n + 3, x, packet, 2) by {
        assert forall|a: u32| #[trigger]
            irep::code_status_from(stream, n + 3, Regs { a, x }, packet) == 2 by {
            assert(irep::code_status_from(stream, n + 4, Regs { a, x }, packet) == 2);
        }
    }
    lemma_expr(
        stream,
        0,
        e,
        l3,
        on_true,
        on_false,
        next,
        n + 1,
        n + 3,
        1,
        2,
        regs,
        packet,
    );
    lemma_exit_status(fragment, on_true, on_false, next, code.labels, 0, regs, packet);
}

} // verus!
