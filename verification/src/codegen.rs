//! Symbolic code from an expanded expression.
//!
//! Expressions are compiled in continuation-passing style: each one is given the labels to jump to
//! when it holds and when it does not, so `and`, `or` and `not` need no materialized boolean.

use crate::ast::{AddrLit, DirTag, Expr, PrimType, Primitive};
use crate::desugar::{self, CompiledPrimitive, CompiledProto, ExpandedExpr};
use crate::error::{copy_offset, CompileError, ErrorTag, Failure, Offset, Reason};
use crate::insn::Op;
use crate::irep::{Action, Code, IrBuilder, IrOp2, IrProgram, Item, Label};
use crate::linktype::{L3OffsetInfo, LinkType};
use crate::semantics::{
    self, AddrGates, ARP_SENDER_PA_OFFSET, ARP_TARGET_PA_OFFSET, ETH_TYPE_ARP, ETH_TYPE_IP,
    ETH_TYPE_IPV6, ETH_TYPE_RARP, FRAG_MASK, IP6_DST_OFFSET, IP6_SRC_OFFSET, IP_DST_OFFSET,
    IP_FLAGS_FRAG_OFFSET, IP_PROTO_ICMP, IP_PROTO_OFFSET, IP_PROTO_SCTP, IP_PROTO_TCP,
    IP_PROTO_UDP, IP_SRC_OFFSET, PORT_DST_REL, PORT_SRC_REL,
};
use crate::vm::Test;
use core::ops::Range;
use vstd::prelude::*;

verus! {

// ---------------------------------------------------------------------------------------------
// What is generated
// ---------------------------------------------------------------------------------------------

/// An instruction that does not jump.
pub open spec fn act(op: Op, offset: Range<usize>) -> Item {
    Item::Real(Action::Do(op), offset)
}

/// A conditional jump.
pub open spec fn test(test: Test, imm: u32, jt: nat, jf: nat, offset: Range<usize>) -> Item {
    Item::Real(Action::If { test, imm, jt, jf }, offset)
}

/// Code that loads a field and goes to `on_false` unless it equals `imm`.
pub open spec fn gate_code(
    load: Op,
    imm: u32,
    offset: Range<usize>,
    on_false: nat,
    next: nat,
) -> Code {
    Code {
        stream: seq![
            act(load, offset),
            test(Test::Equal, imm, next, on_false, offset),
            Item::Mark(next),
        ],
        labels: next + 1,
    }
}

/// The empty code.
pub open spec fn no_code(next: nat) -> Code {
    Code { stream: seq![], labels: next }
}

/// `first`, then `second`.
pub open spec fn joined(first: Code, second: Code) -> Code {
    Code { stream: first.stream + second.stream, labels: second.labels }
}

/// Code that goes to `on_false` unless the packet has that ethertype. A link type without an
/// ethertype field needs none.
pub open spec fn ethertype_code(
    l3: L3OffsetInfo,
    ethertype: u32,
    offset: Range<usize>,
    on_false: nat,
    next: nat,
) -> Code {
    match l3.ethertype_offset {
        Some(at) => gate_code(Op::LdhAbs(at), ethertype, offset, on_false, next),
        None => no_code(next),
    }
}

/// Code that goes to `on_false` unless the IPv4 header has that protocol number, where one is
/// demanded.
pub open spec fn ip_proto_code(
    l3: L3OffsetInfo,
    ip_proto: Option<u32>,
    offset: Range<usize>,
    on_false: nat,
    next: nat,
) -> Code {
    match ip_proto {
        Some(number) => gate_code(
            Op::LdbAbs((l3.ip_base + IP_PROTO_OFFSET) as u32),
            number,
            offset,
            on_false,
            next,
        ),
        None => no_code(next),
    }
}

/// Both gates, the ethertype first.
pub open spec fn gates_code(
    l3: L3OffsetInfo,
    ethertype: u32,
    ip_proto: Option<u32>,
    offset: Range<usize>,
    on_false: nat,
    next: nat,
) -> Code {
    let first = ethertype_code(l3, ethertype, offset, on_false, next);
    joined(first, ip_proto_code(l3, ip_proto, offset, on_false, first.labels))
}

/// Code that goes to `on_false` if the packet is a later fragment.
pub open spec fn not_fragment_code(
    l3: L3OffsetInfo,
    offset: Range<usize>,
    on_false: nat,
    next: nat,
) -> Code {
    Code {
        stream: seq![
            act(Op::LdhAbs((l3.ip_base + IP_FLAGS_FRAG_OFFSET) as u32), offset),
            test(Test::AnyBitSet, FRAG_MASK, on_false, next, offset),
            Item::Mark(next),
        ],
        labels: next + 1,
    }
}

/// The mask of the `bits` most significant bits of a word.
pub open spec fn mask_of(bits: nat) -> u32 {
    if bits == 0 {
        0
    } else {
        u32::MAX << ((32 - bits) as u32)
    }
}

/// Code that loads the word at offset `at` and keeps what `mask` covers of it.
pub open spec fn masked_load_code(at: u32, mask: u32, offset: Range<usize>) -> Seq<Item> {
    if mask == u32::MAX {
        seq![act(Op::LdwAbs(at), offset)]
    } else {
        seq![act(Op::LdwAbs(at), offset), act(Op::AluAndK(mask), offset)]
    }
}

/// Code that compares the first `bits` bits of the word at offset `at` with those of `value`.
pub open spec fn word_code(
    at: u32,
    value: u32,
    bits: nat,
    offset: Range<usize>,
    on_true: nat,
    on_false: nat,
) -> Seq<Item> {
    masked_load_code(at, mask_of(bits), offset).push(
        test(Test::Equal, value & mask_of(bits), on_true, on_false, offset),
    )
}

/// Code that compares, from word `i` on, the first `bits` bits of the IPv6 address at offset `at`
/// with those of `addr`. A word that agrees leads to the next one, the last to `on_true`.
pub open spec fn words_code(
    at: u32,
    addr: u128,
    bits: nat,
    i: nat,
    offset: Range<usize>,
    on_true: nat,
    on_false: nat,
    next: nat,
) -> Code
    decreases bits + 32 - 32 * i,
{
    if 32 * i + 32 >= bits {
        Code {
            stream: word_code(
                (at + 4 * i) as u32,
                semantics::word6(addr, i),
                semantics::bits_in_word(bits, i),
                offset,
                on_true,
                on_false,
            ),
            labels: next,
        }
    } else {
        joined(
            Code {
                stream: word_code(
                    (at + 4 * i) as u32,
                    semantics::word6(addr, i),
                    semantics::bits_in_word(bits, i),
                    offset,
                    next,
                    on_false,
                ).push(Item::Mark(next)),
                labels: next + 1,
            },
            words_code(at, addr, bits, i + 1, offset, on_true, on_false, next + 1),
        )
    }
}

/// Code that compares the first `bits` bits of the address at offset `at` with those of `addr`.
/// With no bits to compare, an IPv6 check jumps to `on_true` at once.
pub open spec fn address_code(
    at: u32,
    addr: AddrLit,
    bits: nat,
    offset: Range<usize>,
    on_true: nat,
    on_false: nat,
    next: nat,
) -> Code {
    match addr {
        AddrLit::V4(value) => Code {
            stream: word_code(at, value, bits, offset, on_true, on_false),
            labels: next,
        },
        AddrLit::V6(value) => if bits == 0 {
            Code { stream: seq![Item::Real(Action::Goto(on_true), offset)], labels: next }
        } else {
            words_code(at, value, bits, 0, offset, on_true, on_false, next)
        },
    }
}

/// Code that checks the port in direction `dir` against `lo..=hi`, the IPv4 header's length being in
/// `X`. As there is no "less than", "at most `hi`" is "not greater than `hi`".
pub open spec fn port_terminal_code(
    l3: L3OffsetInfo,
    dir: DirTag,
    lo: u16,
    hi: u16,
    offset: Range<usize>,
    on_true: nat,
    on_false: nat,
    next: nat,
) -> Code {
    let load = act(
        Op::LdhInd(
            (l3.ip_base + match dir {
                DirTag::Src => PORT_SRC_REL,
                DirTag::Dst => PORT_DST_REL,
            }) as u32,
        ),
        offset,
    );
    if lo == hi {
        Code {
            stream: seq![load, test(Test::Equal, lo as u32, on_true, on_false, offset)],
            labels: next,
        }
    } else {
        Code {
            stream: seq![
                load,
                test(Test::GreaterOrEqual, lo as u32, next, on_false, offset),
                Item::Mark(next),
                test(Test::Greater, hi as u32, on_false, on_true, offset),
            ],
            labels: next + 1,
        }
    }
}

/// The gates of an address check. (Of a protocol that has no such addresses, nothing of use.)
pub open spec fn addr_gates_of(proto: CompiledProto, addr: AddrLit) -> AddrGates {
    match addr {
        AddrLit::V4(_) => semantics::gates4(proto)->0,
        AddrLit::V6(_) => semantics::gates6(),
    }
}

/// The code that an address check runs before it looks at an address.
pub open spec fn addr_prologue_code(
    p: CompiledPrimitive,
    addr: AddrLit,
    l3: L3OffsetInfo,
    on_false: nat,
    next: nat,
) -> Code {
    let gates = addr_gates_of(p.proto, addr);
    gates_code(l3, gates.ethertype, gates.ip_proto, p.offset, on_false, next)
}

/// The code that a port check runs before it looks at a port. It leaves the IPv4 header's length in
/// `X`.
pub open spec fn port_prologue_code(
    p: CompiledPrimitive,
    l3: L3OffsetInfo,
    on_false: nat,
    next: nat,
) -> Code {
    let gates = gates_code(
        l3,
        ETH_TYPE_IP,
        semantics::port_proto(p.proto),
        p.offset,
        on_false,
        next,
    );
    let fragment = not_fragment_code(l3, p.offset, on_false, gates.labels);
    let length = Code {
        stream: seq![act(Op::LdxMsh(l3.ip_base), p.offset)],
        labels: fragment.labels,
    };
    joined(joined(gates, fragment), length)
}

/// The code that a primitive runs before it looks at a direction's field.
pub open spec fn prologue_code(
    p: CompiledPrimitive,
    l3: L3OffsetInfo,
    on_false: nat,
    next: nat,
) -> Code {
    match p.ty {
        PrimType::Host(addr) | PrimType::Net(addr, _) => addr_prologue_code(
            p,
            addr,
            l3,
            on_false,
            next,
        ),
        PrimType::Port(_) | PrimType::PortRange(_, _) => port_prologue_code(p, l3, on_false, next),
    }
}

/// The code with which `p` checks the field of direction `dir`.
pub open spec fn terminal_code(
    p: CompiledPrimitive,
    dir: DirTag,
    l3: L3OffsetInfo,
    on_true: nat,
    on_false: nat,
    next: nat,
) -> Code {
    match p.ty {
        PrimType::Host(addr) => address_code(
            (l3.ip_base + addr_gates_of(p.proto, addr).offset(dir)) as u32,
            addr,
            semantics::prefix_bits(addr, None),
            p.offset,
            on_true,
            on_false,
            next,
        ),
        PrimType::Net(addr, prefix) => address_code(
            (l3.ip_base + addr_gates_of(p.proto, addr).offset(dir)) as u32,
            addr,
            semantics::prefix_bits(addr, prefix),
            p.offset,
            on_true,
            on_false,
            next,
        ),
        PrimType::Port(port) => port_terminal_code(
            l3,
            dir,
            port,
            port,
            p.offset,
            on_true,
            on_false,
            next,
        ),
        PrimType::PortRange(lo, hi) => port_terminal_code(
            l3,
            dir,
            lo,
            hi,
            p.offset,
            on_true,
            on_false,
            next,
        ),
    }
}

/// The code of one primitive.
pub open spec fn primitive_code(
    p: CompiledPrimitive,
    l3: L3OffsetInfo,
    on_true: nat,
    on_false: nat,
    next: nat,
) -> Code {
    let prologue = prologue_code(p, l3, on_false, next);
    joined(prologue, terminal_code(p, p.dir, l3, on_true, on_false, prologue.labels))
}

/// Whether two primitives are the same but for their directions.
pub open spec fn is_dir_pair(p1: CompiledPrimitive, p2: CompiledPrimitive) -> bool {
    p1.proto == p2.proto && p1.dir != p2.dir && p1.ty == p2.ty
}

/// The code of a disjunction of two primitives that differ in direction only: one prologue, then the
/// field of each direction, that of `p1` first.
pub open spec fn dir_pair_code(
    p1: CompiledPrimitive,
    p2: CompiledPrimitive,
    l3: L3OffsetInfo,
    on_true: nat,
    on_false: nat,
    next: nat,
) -> Code {
    let prologue = prologue_code(p1, l3, on_false, next);
    let mid = prologue.labels;
    let first = terminal_code(p1, p1.dir, l3, on_true, mid, mid + 1);
    let second = terminal_code(p1, p2.dir, l3, on_true, on_false, first.labels);
    joined(joined(joined(prologue, first), marked(mid, first.labels)), second)
}

/// The code that places a label.
pub open spec fn marked(label: nat, next: nat) -> Code {
    Code { stream: seq![Item::Mark(label)], labels: next }
}

/// The code of an expression that goes to `on_true` if it holds and to `on_false` if it does not.
pub open spec fn expr_code(
    e: ExpandedExpr,
    l3: L3OffsetInfo,
    on_true: nat,
    on_false: nat,
    next: nat,
) -> Code
    decreases e,
{
    match e {
        ExpandedExpr::Leaf(p) => primitive_code(p, l3, on_true, on_false, next),
        ExpandedExpr::Not(inner) => expr_code(*inner, l3, on_false, on_true, next),
        ExpandedExpr::And(l, r) => {
            let first = expr_code(*l, l3, next, on_false, next + 1);
            let second = expr_code(*r, l3, on_true, on_false, first.labels);
            joined(joined(first, marked(next, first.labels)), second)
        },
        ExpandedExpr::Or(l, r) => match (*l, *r) {
            (ExpandedExpr::Leaf(p1), ExpandedExpr::Leaf(p2)) if is_dir_pair(p1, p2) =>
                dir_pair_code(p1, p2, l3, on_true, on_false, next),
            _ => {
                let first = expr_code(*l, l3, on_true, next, next + 1);
                let second = expr_code(*r, l3, on_true, on_false, first.labels);
                joined(joined(first, marked(next, first.labels)), second)
            },
        },
    }
}

/// The code of a whole program: that of the expression, then `ret snaplen` where it leads if it
/// holds, and `ret 0` where it leads if it does not.
pub open spec fn program_code(e: ExpandedExpr, link_type: LinkType, snaplen: u32) -> Code {
    let body = expr_code(e, link_type.l3(), 0, 1, 2);
    let nowhere = Range { start: 0usize, end: 0usize };
    joined(
        body,
        Code {
            stream: seq![
                Item::Mark(0),
                act(Op::Ret(snaplen), nowhere),
                Item::Mark(1),
                act(Op::Ret(0), nowhere),
            ],
            labels: body.labels,
        },
    )
}

// ---------------------------------------------------------------------------------------------
// What is refused
// ---------------------------------------------------------------------------------------------

/// Whether every literal's prefix length is at most its address length.
pub open spec fn prefixes_fit(e: ExpandedExpr) -> bool
    decreases e,
{
    match e {
        ExpandedExpr::Leaf(p) => p.ty.prefix_fits(),
        ExpandedExpr::Not(inner) => prefixes_fit(*inner),
        ExpandedExpr::And(l, r) => prefixes_fit(*l) && prefixes_fit(*r),
        ExpandedExpr::Or(l, r) => prefixes_fit(*l) && prefixes_fit(*r),
    }
}

/// What a valid expression stands for has prefix lengths that fit.
pub proof fn expanding_keeps_prefixes(e: Expr)
    requires
        e.valid(),
    ensures
        prefixes_fit(desugar::expanded(e)),
    decreases e,
{
    match e {
        Expr::Primitive(p) => {
            lemma_leaves_fit(p, desugar::protos_of(p).len());
            lemma_any_fits(desugar::leaves_upto(p, desugar::protos_of(p).len()));
        },
        Expr::Not(inner, _) => expanding_keeps_prefixes(*inner),
        Expr::And(l, r, _) | Expr::Or(l, r, _) => {
            expanding_keeps_prefixes(*l);
            expanding_keeps_prefixes(*r);
        },
    }
}

/// The primitives that a primitive stands for have its prefix length.
proof fn lemma_leaves_fit(p: Primitive, n: nat)
    requires
        p.ty.prefix_fits(),
        n <= desugar::protos_of(p).len(),
    ensures
        n > 0 ==> desugar::leaves_upto(p, n).len() > 0,
        forall|i: int|
            0 <= i < desugar::leaves_upto(p, n).len() ==> prefixes_fit(
                #[trigger] desugar::leaves_upto(p, n)[i],
            ),
    decreases n,
{
    if n > 0 {
        lemma_leaves_fit(p, (n - 1) as nat);
        let earlier = desugar::leaves_upto(p, (n - 1) as nat);
        assert forall|i: int| 0 <= i < desugar::leaves_upto(p, n).len() implies prefixes_fit(
            #[trigger] desugar::leaves_upto(p, n)[i],
        ) by {
            if i < earlier.len() {
                assert(desugar::leaves_upto(p, n)[i] == earlier[i]);
            }
        }
    }
}

/// A disjunction of expressions with prefix lengths that fit is one.
proof fn lemma_any_fits(leaves: Seq<ExpandedExpr>)
    requires
        leaves.len() > 0,
        forall|i: int| 0 <= i < leaves.len() ==> prefixes_fit(#[trigger] leaves[i]),
    ensures
        prefixes_fit(desugar::any_of(leaves)),
    decreases leaves.len(),
{
    if leaves.len() > 1 {
        lemma_any_fits(leaves.drop_last());
    }
}

/// Why a protocol cannot be matched against an address on a link type, if it cannot.
pub open spec fn addr_objection(
    proto: CompiledProto,
    addr: AddrLit,
    l3: L3OffsetInfo,
) -> Option<Seq<char>> {
    if addr is V4 && proto == CompiledProto::Ip6 {
        Some("'ip6' needs an IPv6 address, not an IPv4 one"@)
    } else if addr is V4 && proto == CompiledProto::Sctp {
        Some(
            "'sctp' has no host/net addressing; it's a transport protocol, usable only with 'port'/'portrange'"@,
        )
    } else if addr is V6 && proto != CompiledProto::Ip6 {
        Some("an IPv6 address needs 'ip6' (or no protocol)"@)
    } else if l3.ethertype_offset is None && addr_gates_of(proto, addr).ethertype != ETH_TYPE_IP {
        Some(
            "'arp'/'rarp'/'ip6' need a link layer with an ethertype field; this link type has none"@,
        )
    } else {
        None
    }
}

/// Why a primitive means nothing on a link type, if it does not.
pub open spec fn objection(p: CompiledPrimitive, l3: L3OffsetInfo) -> Option<Seq<char>> {
    match p.ty {
        PrimType::Host(addr) | PrimType::Net(addr, _) => addr_objection(p.proto, addr, l3),
        PrimType::Port(_) | PrimType::PortRange(_, _) => if semantics::port_proto(p.proto) is Some {
            None
        } else {
            Some("'port'/'portrange' only apply to tcp, udp, or sctp"@)
        },
    }
}

/// The failure of the leftmost primitive that means nothing on a link type.
pub open spec fn first_failure(e: ExpandedExpr, l3: L3OffsetInfo) -> Option<Failure>
    decreases e,
{
    match e {
        ExpandedExpr::Leaf(p) => match objection(p, l3) {
            Some(message) => Some(
                Failure {
                    offset: p.offset,
                    reason: Reason::InvalidPrimitiveCombination(message),
                },
            ),
            None => None,
        },
        ExpandedExpr::Not(inner) => first_failure(*inner, l3),
        ExpandedExpr::And(l, r) | ExpandedExpr::Or(l, r) => match first_failure(*l, l3) {
            Some(failure) => Some(failure),
            None => first_failure(*r, l3),
        },
    }
}

/// The code of a whole program, or the failure of the leftmost primitive that means nothing.
pub open spec fn generated(e: ExpandedExpr, link_type: LinkType, snaplen: u32) -> Result<
    Code,
    Failure,
> {
    match first_failure(e, link_type.l3()) {
        Some(failure) => Err(failure),
        None => Ok(program_code(e, link_type, snaplen)),
    }
}

// ---------------------------------------------------------------------------------------------
// Generating it
// ---------------------------------------------------------------------------------------------

/// The code so far and the offsets of the link type it is for.
struct Ctx {
    b: IrBuilder,
    ip_base: u32,
    /// The offset of the ethertype field, or `None` for a link type without one, whose packets are
    /// taken to be IPv4.
    eth_field: Option<u32>,
}

impl Ctx {
    /// The offsets of the link type.
    spec fn l3(self) -> L3OffsetInfo {
        L3OffsetInfo { ip_base: self.ip_base, ethertype_offset: self.eth_field }
    }

    /// The next label to be handed out.
    spec fn next(self) -> nat {
        self.b@.labels
    }

    /// Whether `ip_base` is small enough for every offset relative to it.
    spec fn fits(self) -> bool {
        self.ip_base <= 0xffff
    }

    /// Whether this is `before` with `code` appended.
    spec fn extends(self, before: Ctx, code: Code) -> bool {
        &&& self.b@ == joined(before.b@, code)
        &&& self.l3() == before.l3()
    }
}

/// Where control goes if an expression holds and if it does not.
#[derive(Clone, Copy)]
struct Branch {
    on_true: Label,
    on_false: Label,
}

impl Branch {
    fn swapped(self) -> (branch: Branch)
        ensures
            branch.on_true == self.on_false,
            branch.on_false == self.on_true,
    {
        Branch { on_true: self.on_false, on_false: self.on_true }
    }
}

/// Generates the symbolic code of a whole program.
pub fn generate(expr: &ExpandedExpr, link_type: LinkType, snaplen: u32) -> (result: Result<
    IrProgram,
    CompileError,
>)
    requires
        prefixes_fit(*expr),
    ensures
        match result {
            Ok(program) => generated(*expr, link_type, snaplen) == Ok::<Code, Failure>(program@),
            Err(error) => generated(*expr, link_type, snaplen) == Err::<Code, Failure>(error@),
        },
{
    let info: L3OffsetInfo = link_type.l3_offset_info();
    let mut ctx = Ctx {
        b: IrBuilder::new(),
        ip_base: info.ip_base,
        eth_field: info.ethertype_offset,
    };
    let accept: Label = ctx.b.new_label();
    let reject: Label = ctx.b.new_label();
    match compile_expr(expr, &mut ctx, Branch { on_true: accept, on_false: reject }) {
        Ok(_) => {},
        Err(error) => {
            return Err(error);
        },
    }
    let mut builder: IrBuilder = ctx.b;

    // The expression refers to the two labels by name only. Now that it is complete, they go to the
    // two return blocks at the very end.
    builder.place(accept);
    builder.emit(IrOp2::Ret(snaplen), 0..0);
    builder.place(reject);
    builder.emit(IrOp2::Ret(0), 0..0);
    assert(builder@ =~= program_code(*expr, link_type, snaplen));
    Ok(builder.finish())
}

/// Compiles an expression so that control ends up at `branch.on_true` or `branch.on_false`.
///
/// - `not` swaps the two.
/// - `and` sends the left side, where it holds, to a new label placed before the right side.
/// - `or` does so where the left side does not hold, except for a pair of primitives that differ in
///   direction only, which share their gates: see [`compile_dir_pair`].
fn compile_expr(e: &ExpandedExpr, ctx: &mut Ctx, branch: Branch) -> (result: Result<
    (),
    CompileError,
>)
    requires
        prefixes_fit(*e),
        old(ctx).fits(),
    ensures
        match result {
            Ok(_) => {
                &&& first_failure(*e, old(ctx).l3()) is None
                &&& final(ctx).extends(
                    *old(ctx),
                    expr_code(
                        *e,
                        old(ctx).l3(),
                        branch.on_true.0 as nat,
                        branch.on_false.0 as nat,
                        old(ctx).next(),
                    ),
                )
            },
            Err(error) => first_failure(*e, old(ctx).l3()) == Some(error@),
        },
    decreases e,
{
    match e {
        ExpandedExpr::Leaf(p) => compile_primitive(p, ctx, branch),
        ExpandedExpr::Not(inner) => compile_expr(inner, ctx, branch.swapped()),
        ExpandedExpr::And(l, r) => {
            let mid: Label = ctx.b.new_label();
            match compile_expr(l, ctx, Branch { on_true: mid, on_false: branch.on_false }) {
                Ok(_) => {},
                Err(error) => {
                    return Err(error);
                },
            }
            ctx.b.place(mid);
            let result = compile_expr(r, ctx, branch);
            assert(result is Ok ==> ctx.b@ =~= joined(
                old(ctx).b@,
                expr_code(
                    *e,
                    old(ctx).l3(),
                    branch.on_true.0 as nat,
                    branch.on_false.0 as nat,
                    old(ctx).next(),
                ),
            ));
            result
        },
        ExpandedExpr::Or(l, r) => {
            if let (ExpandedExpr::Leaf(p1), ExpandedExpr::Leaf(p2)) = (&**l, &**r) {
                if differs_only_in_dir(p1, p2) {
                    assert(prefixes_fit(ExpandedExpr::Leaf(*p1)));
                    let result = compile_dir_pair(p1, p2, ctx, branch);
                    assert(result is Ok ==> {
                        &&& first_failure(ExpandedExpr::Leaf(*p1), old(ctx).l3()) is None
                        &&& first_failure(ExpandedExpr::Leaf(*p2), old(ctx).l3()) is None
                    });
                    return result;
                }
            }
            let mid: Label = ctx.b.new_label();
            match compile_expr(l, ctx, Branch { on_true: branch.on_true, on_false: mid }) {
                Ok(_) => {},
                Err(error) => {
                    return Err(error);
                },
            }
            ctx.b.place(mid);
            let result = compile_expr(r, ctx, branch);
            assert(result is Ok ==> ctx.b@ =~= joined(
                old(ctx).b@,
                expr_code(
                    *e,
                    old(ctx).l3(),
                    branch.on_true.0 as nat,
                    branch.on_false.0 as nat,
                    old(ctx).next(),
                ),
            ));
            result
        },
    }
}

/// Whether two primitives are the same but for their directions.
fn differs_only_in_dir(p1: &CompiledPrimitive, p2: &CompiledPrimitive) -> (yes: bool)
    ensures
        yes == is_dir_pair(*p1, *p2),
{
    p1.proto == p2.proto && p1.dir != p2.dir && p1.ty == p2.ty
}

/// The prefix length of a `net` literal written without one: the whole address.
fn full_prefix(addr: &AddrLit) -> (bits: u8)
    ensures
        bits == semantics::prefix_bits(*addr, None),
{
    match addr {
        AddrLit::V4(_) => 32,
        AddrLit::V6(_) => 128,
    }
}

/// Compiles a single primitive. A `host` is a `net` of the whole address, and a single port the
/// range from it to itself.
fn compile_primitive(p: &CompiledPrimitive, ctx: &mut Ctx, branch: Branch) -> (result: Result<
    (),
    CompileError,
>)
    requires
        p.ty.prefix_fits(),
        old(ctx).fits(),
    ensures
        match result {
            Ok(_) => {
                &&& objection(*p, old(ctx).l3()) is None
                &&& final(ctx).extends(
                    *old(ctx),
                    primitive_code(
                        *p,
                        old(ctx).l3(),
                        branch.on_true.0 as nat,
                        branch.on_false.0 as nat,
                        old(ctx).next(),
                    ),
                )
            },
            Err(error) => objected(*p, old(ctx).l3(), error@),
        },
{
    match &p.ty {
        PrimType::Host(addr) => compile_addr(p, ctx, addr, full_prefix(addr), branch),
        PrimType::Net(addr, prefix) => {
            let bits: u8 = match prefix {
                Some(n) => *n,
                None => full_prefix(addr),
            };
            compile_addr(p, ctx, addr, bits, branch)
        },
        PrimType::Port(port) => compile_port(p, ctx, *port, *port, branch),
        PrimType::PortRange(lo, hi) => compile_port(p, ctx, *lo, *hi, branch),
    }
}

/// Whether `failure` is the one of a primitive that means nothing.
spec fn objected(p: CompiledPrimitive, l3: L3OffsetInfo, failure: Failure) -> bool {
    &&& objection(p, l3) is Some
    &&& failure == Failure {
        offset: p.offset,
        reason: Reason::InvalidPrimitiveCombination(objection(p, l3)->0),
    }
}

/// Compiles `p1 or p2` where the two differ in direction only: what both check is checked once, then
/// the field of `p1`'s direction and, if it does not match, that of `p2`'s.
fn compile_dir_pair(
    p1: &CompiledPrimitive,
    p2: &CompiledPrimitive,
    ctx: &mut Ctx,
    branch: Branch,
) -> (result: Result<(), CompileError>)
    requires
        is_dir_pair(*p1, *p2),
        p1.ty.prefix_fits(),
        old(ctx).fits(),
    ensures
        match result {
            Ok(_) => {
                &&& objection(*p1, old(ctx).l3()) is None
                &&& final(ctx).extends(
                    *old(ctx),
                    dir_pair_code(
                        *p1,
                        *p2,
                        old(ctx).l3(),
                        branch.on_true.0 as nat,
                        branch.on_false.0 as nat,
                        old(ctx).next(),
                    ),
                )
            },
            Err(error) => objected(*p1, old(ctx).l3(), error@),
        },
{
    match &p1.ty {
        PrimType::Host(addr) => compile_addr_pair(p1, p2, ctx, addr, full_prefix(addr), branch),
        PrimType::Net(addr, prefix) => {
            let bits: u8 = match prefix {
                Some(n) => *n,
                None => full_prefix(addr),
            };
            compile_addr_pair(p1, p2, ctx, addr, bits, branch)
        },
        PrimType::Port(port) => compile_port_pair(p1, p2, ctx, *port, *port, branch),
        PrimType::PortRange(lo, hi) => compile_port_pair(p1, p2, ctx, *lo, *hi, branch),
    }
}

/// The failure `message` at `offset`.
fn meaningless(offset: &Offset, message: &'static str) -> (error: CompileError)
    ensures
        error@ == (Failure {
            offset: *offset,
            reason: Reason::InvalidPrimitiveCombination(message@),
        }),
{
    CompileError::new(copy_offset(offset), ErrorTag::InvalidPrimitiveCombination(message))
}

/// The fields that a `host` or `net` check on an IPv4 address reads under a protocol.
fn addr_gates(proto: CompiledProto, offset: &Offset) -> (result: Result<AddrGates, CompileError>)
    ensures
        match result {
            Ok(gates) => semantics::gates4(proto) == Some(gates),
            Err(error) => {
                &&& semantics::gates4(proto) is None
                &&& error@.offset == *offset
                &&& error@.reason == Reason::InvalidPrimitiveCombination(
                    if proto == CompiledProto::Ip6 {
                        "'ip6' needs an IPv6 address, not an IPv4 one"@
                    } else {
                        "'sctp' has no host/net addressing; it's a transport protocol, usable only with 'port'/'portrange'"@
                    },
                )
            },
        },
{
    match proto {
        CompiledProto::Ip => Ok(
            AddrGates {
                ethertype: ETH_TYPE_IP,
                ip_proto: None,
                src_offset: IP_SRC_OFFSET,
                dst_offset: IP_DST_OFFSET,
            },
        ),
        CompiledProto::Tcp => Ok(
            AddrGates {
                ethertype: ETH_TYPE_IP,
                ip_proto: Some(IP_PROTO_TCP),
                src_offset: IP_SRC_OFFSET,
                dst_offset: IP_DST_OFFSET,
            },
        ),
        CompiledProto::Udp => Ok(
            AddrGates {
                ethertype: ETH_TYPE_IP,
                ip_proto: Some(IP_PROTO_UDP),
                src_offset: IP_SRC_OFFSET,
                dst_offset: IP_DST_OFFSET,
            },
        ),
        CompiledProto::Icmp => Ok(
            AddrGates {
                ethertype: ETH_TYPE_IP,
                ip_proto: Some(IP_PROTO_ICMP),
                src_offset: IP_SRC_OFFSET,
                dst_offset: IP_DST_OFFSET,
            },
        ),
        CompiledProto::Arp => Ok(
            AddrGates {
                ethertype: ETH_TYPE_ARP,
                ip_proto: None,
                src_offset: ARP_SENDER_PA_OFFSET,
                dst_offset: ARP_TARGET_PA_OFFSET,
            },
        ),
        CompiledProto::Rarp => Ok(
            AddrGates {
                ethertype: ETH_TYPE_RARP,
                ip_proto: None,
                src_offset: ARP_SENDER_PA_OFFSET,
                dst_offset: ARP_TARGET_PA_OFFSET,
            },
        ),
        CompiledProto::Ip6 => Err(
            meaningless(offset, "'ip6' needs an IPv6 address, not an IPv4 one"),
        ),
        CompiledProto::Sctp => Err(
            meaningless(
                offset,
                "'sctp' has no host/net addressing; it's a transport protocol, usable only with 'port'/'portrange'",
            ),
        ),
    }
}

/// Compiles a `host` or `net` primitive: the ethertype and IP protocol gates, then the comparison of
/// the first `bits` bits of the address.
fn compile_addr(
    p: &CompiledPrimitive,
    ctx: &mut Ctx,
    addr: &AddrLit,
    bits: u8,
    branch: Branch,
) -> (result: Result<(), CompileError>)
    requires
        bits <= semantics::prefix_bits(*addr, None),
        old(ctx).fits(),
    ensures
        match result {
            Ok(_) => {
                let l3 = old(ctx).l3();
                let prologue = addr_prologue_code(
                    *p,
                    *addr,
                    l3,
                    branch.on_false.0 as nat,
                    old(ctx).next(),
                );
                &&& addr_objection(p.proto, *addr, l3) is None
                &&& final(ctx).extends(
                    *old(ctx),
                    joined(
                        prologue,
                        address_code(
                            (l3.ip_base + addr_gates_of(p.proto, *addr).offset(p.dir)) as u32,
                            *addr,
                            bits as nat,
                            p.offset,
                            branch.on_true.0 as nat,
                            branch.on_false.0 as nat,
                            prologue.labels,
                        ),
                    ),
                )
            },
            Err(error) => {
                &&& addr_objection(p.proto, *addr, old(ctx).l3()) is Some
                &&& error@ == Failure {
                    offset: p.offset,
                    reason: Reason::InvalidPrimitiveCombination(
                        addr_objection(p.proto, *addr, old(ctx).l3())->0,
                    ),
                }
            },
        },
{
    let value: u32 = match addr {
        AddrLit::V4(a) => *a,
        AddrLit::V6(a) => {
            return compile_addr6(p, None, ctx, *a, bits, branch);
        },
    };
    let gates: AddrGates = match addr_gates(p.proto, &p.offset) {
        Ok(gates) => gates,
        Err(error) => {
            return Err(error);
        },
    };
    match ensure_ethertype_available(ctx, &gates, &p.offset) {
        Ok(_) => {},
        Err(error) => {
            return Err(error);
        },
    }
    emit_ethertype_and_proto_gates(ctx, gates.ethertype, gates.ip_proto, &p.offset, branch.on_false);
    let mask: u32 = netmask(bits);
    emit_addr_terminal(ctx, &gates, p.dir, mask, value & mask, &p.offset, branch);
    assert(ctx.b@.stream =~= old(ctx).b@.stream + (addr_prologue_code(
        *p,
        *addr,
        old(ctx).l3(),
        branch.on_false.0 as nat,
        old(ctx).next(),
    ).stream + word_code(
        (ctx.ip_base + gates.offset(p.dir)) as u32,
        value,
        bits as nat,
        p.offset,
        branch.on_true.0 as nat,
        branch.on_false.0 as nat,
    )));
    Ok(())
}

/// Like [`compile_addr`], but for a pair of primitives that differ in direction only.
fn compile_addr_pair(
    p1: &CompiledPrimitive,
    p2: &CompiledPrimitive,
    ctx: &mut Ctx,
    addr: &AddrLit,
    bits: u8,
    branch: Branch,
) -> (result: Result<(), CompileError>)
    requires
        bits <= semantics::prefix_bits(*addr, None),
        old(ctx).fits(),
    ensures
        match result {
            Ok(_) => {
                let l3 = old(ctx).l3();
                &&& addr_objection(p1.proto, *addr, l3) is None
                &&& final(ctx).extends(
                    *old(ctx),
                    addr_pair_code(
                        *p1,
                        p2.dir,
                        *addr,
                        bits as nat,
                        l3,
                        branch.on_true.0 as nat,
                        branch.on_false.0 as nat,
                        old(ctx).next(),
                    ),
                )
            },
            Err(error) => {
                &&& addr_objection(p1.proto, *addr, old(ctx).l3()) is Some
                &&& error@ == Failure {
                    offset: p1.offset,
                    reason: Reason::InvalidPrimitiveCombination(
                        addr_objection(p1.proto, *addr, old(ctx).l3())->0,
                    ),
                }
            },
        },
{
    let value: u32 = match addr {
        AddrLit::V4(a) => *a,
        AddrLit::V6(a) => {
            return compile_addr6(p1, Some(p2), ctx, *a, bits, branch);
        },
    };
    let gates: AddrGates = match addr_gates(p1.proto, &p1.offset) {
        Ok(gates) => gates,
        Err(error) => {
            return Err(error);
        },
    };
    match ensure_ethertype_available(ctx, &gates, &p1.offset) {
        Ok(_) => {},
        Err(error) => {
            return Err(error);
        },
    }
    emit_ethertype_and_proto_gates(
        ctx,
        gates.ethertype,
        gates.ip_proto,
        &p1.offset,
        branch.on_false,
    );
    let mask: u32 = netmask(bits);
    let mid: Label = ctx.b.new_label();
    emit_addr_terminal(
        ctx,
        &gates,
        p1.dir,
        mask,
        value & mask,
        &p1.offset,
        Branch { on_true: branch.on_true, on_false: mid },
    );
    let ghost here = *ctx;
    ctx.b.place(mid);
    let ghost placed = *ctx;
    emit_addr_terminal(ctx, &gates, p2.dir, mask, value & mask, &p1.offset, branch);
    proof {
        let l3 = old(ctx).l3();
        let on_true = branch.on_true.0 as nat;
        let on_false = branch.on_false.0 as nat;
        let prologue = addr_prologue_code(*p1, *addr, l3, on_false, old(ctx).next());
        let at = prologue.labels;
        let first = address_code(
            (l3.ip_base + gates.offset(p1.dir)) as u32,
            *addr,
            bits as nat,
            p1.offset,
            on_true,
            at,
            at + 1,
        );
        let second = address_code(
            (l3.ip_base + gates.offset(p2.dir)) as u32,
            *addr,
            bits as nat,
            p1.offset,
            on_true,
            on_false,
            first.labels,
        );
        assert(placed.b@ =~= joined(here.b@, marked(at, first.labels)));
        lemma_joined(old(ctx).b@, prologue, first, marked(at, first.labels), second);
    }
    Ok(())
}

/// Joining code is associative.
proof fn lemma_joined(before: Code, a: Code, b: Code, c: Code, d: Code)
    ensures
        joined(joined(joined(joined(before, a), b), c), d) == joined(
            before,
            joined(joined(joined(a, b), c), d),
        ),
{
}

/// The code of an address check in `p`'s direction and, if that does not match, in direction
/// `second`.
spec fn addr_pair_code(
    p: CompiledPrimitive,
    second: DirTag,
    addr: AddrLit,
    bits: nat,
    l3: L3OffsetInfo,
    on_true: nat,
    on_false: nat,
    next: nat,
) -> Code {
    let gates = addr_gates_of(p.proto, addr);
    let prologue = addr_prologue_code(p, addr, l3, on_false, next);
    let mid = prologue.labels;
    let here = address_code(
        (l3.ip_base + gates.offset(p.dir)) as u32,
        addr,
        bits,
        p.offset,
        on_true,
        mid,
        mid + 1,
    );
    let there = address_code(
        (l3.ip_base + gates.offset(second)) as u32,
        addr,
        bits,
        p.offset,
        on_true,
        on_false,
        here.labels,
    );
    joined(joined(joined(prologue, here), marked(mid, here.labels)), there)
}

/// Compiles an IPv6 `host` or `net`: the ethertype gate, then the comparison of the first `bits`
/// bits of the address. With `second`, `first`'s direction is tried before `second`'s.
fn compile_addr6(
    first: &CompiledPrimitive,
    second: Option<&CompiledPrimitive>,
    ctx: &mut Ctx,
    addr: u128,
    bits: u8,
    branch: Branch,
) -> (result: Result<(), CompileError>)
    requires
        bits <= 128,
        old(ctx).fits(),
    ensures
        match result {
            Ok(_) => {
                let l3 = old(ctx).l3();
                let prologue = addr_prologue_code(
                    *first,
                    AddrLit::V6(addr),
                    l3,
                    branch.on_false.0 as nat,
                    old(ctx).next(),
                );
                &&& addr_objection(first.proto, AddrLit::V6(addr), l3) is None
                &&& final(ctx).extends(
                    *old(ctx),
                    match second {
                        None => joined(
                            prologue,
                            address_code(
                                (l3.ip_base + semantics::gates6().offset(first.dir)) as u32,
                                AddrLit::V6(addr),
                                bits as nat,
                                first.offset,
                                branch.on_true.0 as nat,
                                branch.on_false.0 as nat,
                                prologue.labels,
                            ),
                        ),
                        Some(second) => addr_pair_code(
                            *first,
                            second.dir,
                            AddrLit::V6(addr),
                            bits as nat,
                            l3,
                            branch.on_true.0 as nat,
                            branch.on_false.0 as nat,
                            old(ctx).next(),
                        ),
                    },
                )
            },
            Err(error) => {
                &&& addr_objection(first.proto, AddrLit::V6(addr), old(ctx).l3()) is Some
                &&& error@ == Failure {
                    offset: first.offset,
                    reason: Reason::InvalidPrimitiveCombination(
                        addr_objection(first.proto, AddrLit::V6(addr), old(ctx).l3())->0,
                    ),
                }
            },
        },
{
    if first.proto != CompiledProto::Ip6 {
        return Err(meaningless(&first.offset, "an IPv6 address needs 'ip6' (or no protocol)"));
    }
    let gates = AddrGates {
        ethertype: ETH_TYPE_IPV6,
        ip_proto: None,
        src_offset: IP6_SRC_OFFSET,
        dst_offset: IP6_DST_OFFSET,
    };
    match ensure_ethertype_available(ctx, &gates, &first.offset) {
        Ok(_) => {},
        Err(error) => {
            return Err(error);
        },
    }
    emit_ethertype_and_proto_gates(ctx, gates.ethertype, None, &first.offset, branch.on_false);
    let ghost gated = *ctx;
    match second {
        None => {
            emit_addr6_terminal(ctx, &gates, first.dir, addr, bits as u32, &first.offset, branch);
            assert(ctx.b@.stream =~= old(ctx).b@.stream + (addr_prologue_code(
                *first,
                AddrLit::V6(addr),
                old(ctx).l3(),
                branch.on_false.0 as nat,
                old(ctx).next(),
            ).stream + address_code(
                (ctx.ip_base + gates.offset(first.dir)) as u32,
                AddrLit::V6(addr),
                bits as nat,
                first.offset,
                branch.on_true.0 as nat,
                branch.on_false.0 as nat,
                gated.next(),
            ).stream));
        },
        Some(second) => {
            let mid: Label = ctx.b.new_label();
            emit_addr6_terminal(
                ctx,
                &gates,
                first.dir,
                addr,
                bits as u32,
                &first.offset,
                Branch { on_true: branch.on_true, on_false: mid },
            );
            ctx.b.place(mid);
            emit_addr6_terminal(ctx, &gates, second.dir, addr, bits as u32, &first.offset, branch);
            assert(ctx.b@ =~= joined(
                old(ctx).b@,
                addr_pair_code(
                    *first,
                    second.dir,
                    AddrLit::V6(addr),
                    bits as nat,
                    old(ctx).l3(),
                    branch.on_true.0 as nat,
                    branch.on_false.0 as nat,
                    old(ctx).next(),
                ),
            ));
        },
    }
    Ok(())
}

/// Emits the comparison of an IPv6 address: for each word that the prefix reaches, a load, a mask
/// where the prefix ends inside the word, and a conditional jump to the next word.
fn emit_addr6_terminal(
    ctx: &mut Ctx,
    gates: &AddrGates,
    dir: DirTag,
    addr: u128,
    prefix: u32,
    offset: &Offset,
    branch: Branch,
)
    requires
        prefix <= 128,
        gates.offset(dir) <= 0xff,
        old(ctx).fits(),
    ensures
        final(ctx).extends(
            *old(ctx),
            address_code(
                (old(ctx).ip_base + gates.offset(dir)) as u32,
                AddrLit::V6(addr),
                prefix as nat,
                *offset,
                branch.on_true.0 as nat,
                branch.on_false.0 as nat,
                old(ctx).next(),
            ),
        ),
{
    let step: u32 = match dir {
        DirTag::Src => gates.src_offset,
        DirTag::Dst => gates.dst_offset,
    };
    let base: u32 = ctx.ip_base + step;
    if prefix == 0 {
        ctx.b.emit(IrOp2::Jmp { target: branch.on_true }, copy_offset(offset));
        assert(ctx.b@.stream =~= old(ctx).b@.stream + seq![
            Item::Real(Action::Goto(branch.on_true.0 as nat), *offset),
        ]);
        return ;
    }
    let mut i: u32 = 0;
    let ghost whole = words_code(
        base,
        addr,
        prefix as nat,
        0,
        *offset,
        branch.on_true.0 as nat,
        branch.on_false.0 as nat,
        old(ctx).next(),
    );
    while 32 * i + 32 < prefix
        invariant
            i <= 3,
            32 * i < prefix <= 128,
            base <= 0x1_00ff,
            ctx.l3() == old(ctx).l3(),
            joined(
                ctx.b@,
                words_code(
                    base,
                    addr,
                    prefix as nat,
                    i as nat,
                    *offset,
                    branch.on_true.0 as nat,
                    branch.on_false.0 as nat,
                    ctx.next(),
                ),
            ) == joined(old(ctx).b@, whole),
        decreases 128 - i,
    {
        let next: Label = ctx.b.new_label();
        emit_word(
            ctx,
            base + 4 * i,
            word_of(addr, i),
            32,
            offset,
            Branch { on_true: next, on_false: branch.on_false },
        );
        ctx.b.place(next);
        i = i + 1;
    }
    emit_word(ctx, base + 4 * i, word_of(addr, i), (prefix - 32 * i) as u8, offset, branch);
}

/// Word `i` of an IPv6 address.
fn word_of(addr: u128, i: u32) -> (word: u32)
    requires
        i <= 3,
    ensures
        word == semantics::word6(addr, i as nat),
{
    #[verifier::truncate]
    ((addr >> (96 - 32 * i)) as u32)
}

/// Emits the comparison of the first `bits` bits of the word at offset `at` with those of `value`.
fn emit_word(ctx: &mut Ctx, at: u32, value: u32, bits: u8, offset: &Offset, branch: Branch)
    requires
        bits <= 32,
    ensures
        final(ctx).extends(
            *old(ctx),
            Code {
                stream: word_code(
                    at,
                    value,
                    bits as nat,
                    *offset,
                    branch.on_true.0 as nat,
                    branch.on_false.0 as nat,
                ),
                labels: old(ctx).next(),
            },
        ),
{
    let mask: u32 = netmask(bits);
    emit_masked(ctx, at, mask, value & mask, offset, branch);
}

/// Emits the comparison of what `mask` covers of the word at offset `at` with `target`. A mask of all
/// ones needs no instruction.
fn emit_masked(ctx: &mut Ctx, at: u32, mask: u32, target: u32, offset: &Offset, branch: Branch)
    ensures
        final(ctx).extends(
            *old(ctx),
            Code {
                stream: masked_load_code(at, mask, *offset).push(
                    test(
                        Test::Equal,
                        target,
                        branch.on_true.0 as nat,
                        branch.on_false.0 as nat,
                        *offset,
                    ),
                ),
                labels: old(ctx).next(),
            },
        ),
{
    ctx.b.emit(IrOp2::LdwAbs(at), copy_offset(offset));
    if mask != u32::MAX {
        ctx.b.emit(IrOp2::AndK(mask), copy_offset(offset));
    }
    ctx.b.emit(
        IrOp2::Jeq { imm: target, jt: branch.on_true, jf: branch.on_false },
        copy_offset(offset),
    );
    assert(ctx.b@.stream =~= old(ctx).b@.stream + masked_load_code(at, mask, *offset).push(
        test(
            Test::Equal,
            target,
            branch.on_true.0 as nat,
            branch.on_false.0 as nat,
            *offset,
        ),
    ));
}

/// Emits the comparison of what `mask` covers of the IPv4 address in direction `dir` with `target`.
fn emit_addr_terminal(
    ctx: &mut Ctx,
    gates: &AddrGates,
    dir: DirTag,
    mask: u32,
    target: u32,
    offset: &Offset,
    branch: Branch,
)
    requires
        gates.offset(dir) <= 0xff,
        old(ctx).fits(),
    ensures
        final(ctx).extends(
            *old(ctx),
            Code {
                stream: masked_load_code(
                    (old(ctx).ip_base + gates.offset(dir)) as u32,
                    mask,
                    *offset,
                ).push(
                    test(
                        Test::Equal,
                        target,
                        branch.on_true.0 as nat,
                        branch.on_false.0 as nat,
                        *offset,
                    ),
                ),
                labels: old(ctx).next(),
            },
        ),
{
    let step: u32 = match dir {
        DirTag::Src => gates.src_offset,
        DirTag::Dst => gates.dst_offset,
    };
    let at: u32 = ctx.ip_base + step;
    emit_masked(ctx, at, mask, target, offset, branch);
}

/// The IP protocol number of a protocol that has ports.
fn port_proto_num(proto: CompiledProto, offset: &Offset) -> (result: Result<u32, CompileError>)
    ensures
        match result {
            Ok(number) => semantics::port_proto(proto) == Some(number),
            Err(error) => {
                &&& semantics::port_proto(proto) is None
                &&& error@ == Failure {
                    offset: *offset,
                    reason: Reason::InvalidPrimitiveCombination(
                        "'port'/'portrange' only apply to tcp, udp, or sctp"@,
                    ),
                }
            },
        },
{
    match proto {
        CompiledProto::Tcp => Ok(IP_PROTO_TCP),
        CompiledProto::Udp => Ok(IP_PROTO_UDP),
        CompiledProto::Sctp => Ok(IP_PROTO_SCTP),
        _ => Err(meaningless(offset, "'port'/'portrange' only apply to tcp, udp, or sctp")),
    }
}

/// Compiles a `port` or `portrange` primitive over `lo..=hi`: the ethertype and IP protocol gates,
/// the fragment gate, the load of the IPv4 header's length, then the comparison of the port.
fn compile_port(p: &CompiledPrimitive, ctx: &mut Ctx, lo: u16, hi: u16, branch: Branch) -> (result:
    Result<(), CompileError>)
    requires
        p.ty is Port || p.ty is PortRange,
        old(ctx).fits(),
    ensures
        match result {
            Ok(_) => {
                let l3 = old(ctx).l3();
                let prologue = port_prologue_code(
                    *p,
                    l3,
                    branch.on_false.0 as nat,
                    old(ctx).next(),
                );
                &&& objection(*p, l3) is None
                &&& final(ctx).extends(
                    *old(ctx),
                    joined(
                        prologue,
                        port_terminal_code(
                            l3,
                            p.dir,
                            lo,
                            hi,
                            p.offset,
                            branch.on_true.0 as nat,
                            branch.on_false.0 as nat,
                            prologue.labels,
                        ),
                    ),
                )
            },
            Err(error) => objected(*p, old(ctx).l3(), error@),
        },
{
    match emit_port_prologue(p, ctx, branch.on_false) {
        Ok(_) => {},
        Err(error) => {
            return Err(error);
        },
    }
    emit_port_terminal(ctx, p.dir, lo, hi, &p.offset, branch);
    assert(ctx.b@.stream =~= old(ctx).b@.stream + (port_prologue_code(
        *p,
        old(ctx).l3(),
        branch.on_false.0 as nat,
        old(ctx).next(),
    ).stream + port_terminal_code(
        ctx.l3(),
        p.dir,
        lo,
        hi,
        p.offset,
        branch.on_true.0 as nat,
        branch.on_false.0 as nat,
        port_prologue_code(
            *p,
            old(ctx).l3(),
            branch.on_false.0 as nat,
            old(ctx).next(),
        ).labels,
    ).stream));
    Ok(())
}

/// Like [`compile_port`], but for a pair of primitives that differ in direction only.
fn compile_port_pair(
    p1: &CompiledPrimitive,
    p2: &CompiledPrimitive,
    ctx: &mut Ctx,
    lo: u16,
    hi: u16,
    branch: Branch,
) -> (result: Result<(), CompileError>)
    requires
        p1.ty is Port || p1.ty is PortRange,
        old(ctx).fits(),
    ensures
        match result {
            Ok(_) => {
                let l3 = old(ctx).l3();
                let on_true = branch.on_true.0 as nat;
                let on_false = branch.on_false.0 as nat;
                let prologue = port_prologue_code(*p1, l3, on_false, old(ctx).next());
                let mid = prologue.labels;
                let first = port_terminal_code(
                    l3,
                    p1.dir,
                    lo,
                    hi,
                    p1.offset,
                    on_true,
                    mid,
                    mid + 1,
                );
                let second = port_terminal_code(
                    l3,
                    p2.dir,
                    lo,
                    hi,
                    p1.offset,
                    on_true,
                    on_false,
                    first.labels,
                );
                &&& objection(*p1, l3) is None
                &&& final(ctx).extends(
                    *old(ctx),
                    joined(joined(joined(prologue, first), marked(mid, first.labels)), second),
                )
            },
            Err(error) => objected(*p1, old(ctx).l3(), error@),
        },
{
    match emit_port_prologue(p1, ctx, branch.on_false) {
        Ok(_) => {},
        Err(error) => {
            return Err(error);
        },
    }
    let ghost gated = *ctx;
    let mid: Label = ctx.b.new_label();
    emit_port_terminal(
        ctx,
        p1.dir,
        lo,
        hi,
        &p1.offset,
        Branch { on_true: branch.on_true, on_false: mid },
    );
    ctx.b.place(mid);
    emit_port_terminal(ctx, p2.dir, lo, hi, &p1.offset, branch);
    proof {
        let l3 = old(ctx).l3();
        let on_true = branch.on_true.0 as nat;
        let on_false = branch.on_false.0 as nat;
        let prologue = port_prologue_code(*p1, l3, on_false, old(ctx).next());
        let at = gated.next();
        let first = port_terminal_code(l3, p1.dir, lo, hi, p1.offset, on_true, at, at + 1);
        let second = port_terminal_code(
            l3,
            p2.dir,
            lo,
            hi,
            p1.offset,
            on_true,
            on_false,
            first.labels,
        );
        assert(ctx.b@ =~= joined(
            old(ctx).b@,
            joined(joined(joined(prologue, first), marked(at, first.labels)), second),
        ));
    }
    Ok(())
}

/// Emits what a port check runs before it looks at a port.
fn emit_port_prologue(p: &CompiledPrimitive, ctx: &mut Ctx, on_false: Label) -> (result: Result<
    (),
    CompileError,
>)
    requires
        p.ty is Port || p.ty is PortRange,
        old(ctx).fits(),
    ensures
        match result {
            Ok(_) => {
                &&& objection(*p, old(ctx).l3()) is None
                &&& final(ctx).extends(
                    *old(ctx),
                    port_prologue_code(*p, old(ctx).l3(), on_false.0 as nat, old(ctx).next()),
                )
            },
            Err(error) => objected(*p, old(ctx).l3(), error@),
        },
{
    let number: u32 = match port_proto_num(p.proto, &p.offset) {
        Ok(number) => number,
        Err(error) => {
            return Err(error);
        },
    };
    emit_ethertype_and_proto_gates(ctx, ETH_TYPE_IP, Some(number), &p.offset, on_false);
    emit_not_fragment_gate(ctx, &p.offset, on_false);
    let ip_base: u32 = ctx.ip_base;
    ctx.b.emit(IrOp2::LdxMsh(ip_base), copy_offset(&p.offset));
    assert(ctx.b@ =~= joined(
        old(ctx).b@,
        port_prologue_code(*p, old(ctx).l3(), on_false.0 as nat, old(ctx).next()),
    ));
    Ok(())
}

/// Emits the fragment gate: a later fragment carries no ports, so no port check holds of it.
fn emit_not_fragment_gate(ctx: &mut Ctx, offset: &Offset, on_false: Label)
    requires
        old(ctx).fits(),
    ensures
        final(ctx).extends(
            *old(ctx),
            not_fragment_code(old(ctx).l3(), *offset, on_false.0 as nat, old(ctx).next()),
        ),
{
    let ip_base: u32 = ctx.ip_base;
    ctx.b.emit(IrOp2::LdhAbs(ip_base + IP_FLAGS_FRAG_OFFSET), copy_offset(offset));
    let not_fragment: Label = ctx.b.new_label();
    ctx.b.emit(
        IrOp2::Jset { imm: FRAG_MASK, jt: on_false, jf: not_fragment },
        copy_offset(offset),
    );
    ctx.b.place(not_fragment);
    assert(ctx.b@ =~= joined(
        old(ctx).b@,
        not_fragment_code(old(ctx).l3(), *offset, on_false.0 as nat, old(ctx).next()),
    ));
}

/// Emits the load of the port in direction `dir` and its comparison. `X` holds the IPv4 header's
/// length alone, so the header's own offset is part of the load's operand.
fn emit_port_terminal(
    ctx: &mut Ctx,
    dir: DirTag,
    lo: u16,
    hi: u16,
    offset: &Offset,
    branch: Branch,
)
    requires
        old(ctx).fits(),
    ensures
        final(ctx).extends(
            *old(ctx),
            port_terminal_code(
                old(ctx).l3(),
                dir,
                lo,
                hi,
                *offset,
                branch.on_true.0 as nat,
                branch.on_false.0 as nat,
                old(ctx).next(),
            ),
        ),
{
    let port_rel: u32 = match dir {
        DirTag::Src => PORT_SRC_REL,
        DirTag::Dst => PORT_DST_REL,
    };
    let ip_base: u32 = ctx.ip_base;
    ctx.b.emit(IrOp2::LdhInd(ip_base + port_rel), copy_offset(offset));
    if lo == hi {
        ctx.b.emit(
            IrOp2::Jeq { imm: lo as u32, jt: branch.on_true, jf: branch.on_false },
            copy_offset(offset),
        );
    } else {
        let after_lo: Label = ctx.b.new_label();
        ctx.b.emit(
            IrOp2::Jge { imm: lo as u32, jt: after_lo, jf: branch.on_false },
            copy_offset(offset),
        );
        ctx.b.place(after_lo);
        ctx.b.emit(
            IrOp2::Jgt { imm: hi as u32, jt: branch.on_false, jf: branch.on_true },
            copy_offset(offset),
        );
    }
    assert(ctx.b@ =~= joined(
        old(ctx).b@,
        port_terminal_code(
            old(ctx).l3(),
            dir,
            lo,
            hi,
            *offset,
            branch.on_true.0 as nat,
            branch.on_false.0 as nat,
            old(ctx).next(),
        ),
    ));
}

/// Refuses gates other than IPv4's on a link type without an ethertype field.
fn ensure_ethertype_available(ctx: &Ctx, gates: &AddrGates, offset: &Offset) -> (result: Result<
    (),
    CompileError,
>)
    ensures
        match result {
            Ok(_) => ctx.eth_field is Some || gates.ethertype == ETH_TYPE_IP,
            Err(error) => {
                &&& ctx.eth_field is None
                &&& gates.ethertype != ETH_TYPE_IP
                &&& error@ == Failure {
                    offset: *offset,
                    reason: Reason::InvalidPrimitiveCombination(
                        "'arp'/'rarp'/'ip6' need a link layer with an ethertype field; this link type has none"@,
                    ),
                }
            },
        },
{
    if ctx.eth_field.is_none() && gates.ethertype != ETH_TYPE_IP {
        return Err(
            meaningless(
                offset,
                "'arp'/'rarp'/'ip6' need a link layer with an ethertype field; this link type has none",
            ),
        );
    }
    Ok(())
}

/// Emits the ethertype check, where the link type has the field, and the IP protocol check, where
/// one is demanded.
fn emit_ethertype_and_proto_gates(
    ctx: &mut Ctx,
    ethertype: u32,
    ip_proto: Option<u32>,
    offset: &Offset,
    on_false: Label,
)
    requires
        old(ctx).fits(),
    ensures
        final(ctx).extends(
            *old(ctx),
            gates_code(
                old(ctx).l3(),
                ethertype,
                ip_proto,
                *offset,
                on_false.0 as nat,
                old(ctx).next(),
            ),
        ),
{
    let ip_base: u32 = ctx.ip_base;
    if let Some(eth_field) = ctx.eth_field {
        gate_ldh_eq(ctx, eth_field, ethertype, offset, on_false);
    }
    if let Some(number) = ip_proto {
        gate_ldb_eq(ctx, ip_base + IP_PROTO_OFFSET, number, offset, on_false);
    }
    assert(ctx.b@ =~= joined(
        old(ctx).b@,
        gates_code(
            old(ctx).l3(),
            ethertype,
            ip_proto,
            *offset,
            on_false.0 as nat,
            old(ctx).next(),
        ),
    ));
}

/// Emits a half-word gate: what follows it is reached only if the field equals `imm`.
fn gate_ldh_eq(ctx: &mut Ctx, at: u32, imm: u32, offset: &Offset, on_false: Label)
    ensures
        final(ctx).extends(
            *old(ctx),
            gate_code(Op::LdhAbs(at), imm, *offset, on_false.0 as nat, old(ctx).next()),
        ),
{
    ctx.b.emit(IrOp2::LdhAbs(at), copy_offset(offset));
    let cont: Label = ctx.b.new_label();
    ctx.b.emit(IrOp2::Jeq { imm, jt: cont, jf: on_false }, copy_offset(offset));
    ctx.b.place(cont);
    assert(ctx.b@ =~= joined(
        old(ctx).b@,
        gate_code(Op::LdhAbs(at), imm, *offset, on_false.0 as nat, old(ctx).next()),
    ));
}

/// Emits a byte gate: what follows it is reached only if the field equals `imm`.
fn gate_ldb_eq(ctx: &mut Ctx, at: u32, imm: u32, offset: &Offset, on_false: Label)
    ensures
        final(ctx).extends(
            *old(ctx),
            gate_code(Op::LdbAbs(at), imm, *offset, on_false.0 as nat, old(ctx).next()),
        ),
{
    ctx.b.emit(IrOp2::LdbAbs(at), copy_offset(offset));
    let cont: Label = ctx.b.new_label();
    ctx.b.emit(IrOp2::Jeq { imm, jt: cont, jf: on_false }, copy_offset(offset));
    ctx.b.place(cont);
    assert(ctx.b@ =~= joined(
        old(ctx).b@,
        gate_code(Op::LdbAbs(at), imm, *offset, on_false.0 as nat, old(ctx).next()),
    ));
}

/// The mask of a prefix length, such as `0xffff_ff00` of `24`.
pub fn netmask(prefix: u8) -> (mask: u32)
    requires
        prefix <= 32,
    ensures
        mask == mask_of(prefix as nat),
{
    if prefix == 0 {
        0
    } else {
        u32::MAX << (32 - prefix as u32)
    }
}

} // verus!
