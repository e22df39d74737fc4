//! What holds of the library as a whole.

use crate::ast::{AddrLit, DirTag, Expr, PrimType, Primitive, ProtoTag};
use crate::backpatch;
use crate::codegen;
use crate::correctness;
use crate::desugar::{self, CompiledPrimitive, CompiledProto, ExpandedExpr};
use crate::error::Failure;
use crate::grammar;
use crate::grouping;
use crate::insn::{self, Insn, Op, RET_K};
use crate::lexer;
use crate::linktype::{L3OffsetInfo, LinkType};
use crate::literal;
use crate::notation;
use crate::packet;
use crate::parser;
use crate::relocation;
use crate::render;
use crate::semantics::{
    self, ETH_TYPE_IP, ETH_TYPE_IPV6, IP_FLAGS_FRAG_OFFSET, IP_PROTO_OFFSET, PORT_DST_REL,
    PORT_SRC_REL,
};
use crate::spans;
use crate::text;
use crate::vm::{self, Effect, Regs};
use crate::wire;
use core::ops::Range;
use vstd::arithmetic::power2::lemma2_to64;
use vstd::prelude::*;

verus! {

/// A compiled program accepts exactly the packets that its filter accepts, and returns the capture
/// length for them.
pub proof fn compiled_programs_decide(src: Seq<char>, link_type: LinkType, snaplen: u32)
    requires
        crate::compiled(src, link_type, snaplen) is Ok,
        crate::compiled(src, link_type, snaplen)->Ok_0.len() <= 0x1_0000_0000,
    ensures
        crate::filter_of(src) is Ok,
        crate::decides(
            crate::compiled(src, link_type, snaplen)->Ok_0,
            crate::filter_of(src)->Ok_0,
            link_type,
            snaplen,
        ),
{
    let filter = crate::filter_of(src)->Ok_0;
    let code = codegen::program_code(filter, link_type, snaplen);
    let insns = crate::compiled(src, link_type, snaplen)->Ok_0;
    let tokens = lexer::lexed(src)->Ok_0;
    let expr = parser::parsed(tokens)->Ok_0;
    parser::parsed_is_valid(tokens);
    codegen::expanding_keeps_prefixes(expr);
    correctness::generated_code_is_well_formed(filter, link_type, snaplen);
    assert forall|packet: Seq<u8>| #[trigger]
        vm::status(insns, packet) == if semantics::accepts(filter, link_type, packet) {
            snaplen
        } else {
            0
        } by {
        backpatch::assembling_keeps_status(code, packet);
        correctness::generated_code_decides(filter, link_type, snaplen, packet);
    }
}

/// A compiled program returns the capture length or nothing, and matches exactly the packets that its
/// filter accepts, unless the capture length is zero.
pub proof fn compiled_programs_match_what_is_accepted(
    src: Seq<char>,
    link_type: LinkType,
    snaplen: u32,
    packet: Seq<u8>,
)
    requires
        crate::compiled(src, link_type, snaplen) is Ok,
        crate::compiled(src, link_type, snaplen)->Ok_0.len() <= 0x1_0000_0000,
    ensures
        ({
            let status = vm::status(crate::compiled(src, link_type, snaplen)->Ok_0, packet);
            &&& status == snaplen || status == 0
            &&& snaplen != 0 ==> (status != 0) == semantics::accepts(
                crate::filter_of(src)->Ok_0,
                link_type,
                packet,
            )
        }),
{
    compiled_programs_decide(src, link_type, snaplen);
}

/// A compiled program is a valid one: every opcode is known, every jump goes ahead to an instruction
/// of the program, and the last instruction is a `ret`.
pub proof fn compiled_programs_are_valid(src: Seq<char>, link_type: LinkType, snaplen: u32)
    requires
        crate::compiled(src, link_type, snaplen) is Ok,
        crate::compiled(src, link_type, snaplen)->Ok_0.len() <= 0x1_0000_0000,
    ensures
        backpatch::valid_program(crate::compiled(src, link_type, snaplen)->Ok_0),
{
    let filter = crate::filter_of(src)->Ok_0;
    correctness::generated_code_is_well_formed(filter, link_type, snaplen);
    backpatch::assembled_programs_are_valid(codegen::program_code(filter, link_type, snaplen));
}

/// A compiled program ends with `ret` of the capture length and `ret 0`, and holds no other `ret`.
pub proof fn compiled_programs_return_at_the_end(src: Seq<char>, link_type: LinkType, snaplen: u32)
    requires
        crate::compiled(src, link_type, snaplen) is Ok,
    ensures
        backpatch::ends_with_both_rets(crate::compiled(src, link_type, snaplen)->Ok_0, snaplen),
{
    let filter = crate::filter_of(src)->Ok_0;
    correctness::generated_code_returns_at_the_end(filter, link_type, snaplen);
    backpatch::assembled_programs_keep_their_rets(
        codegen::program_code(filter, link_type, snaplen),
        snaplen,
    );
}

/// The capture length is the operand of the accepting `ret` and nothing else: two compilations that
/// differ in it fail alike, or give programs that differ only in the second to last instruction.
pub proof fn capture_length_is_one_operand(src: Seq<char>, link_type: LinkType, n1: u32, n2: u32)
    ensures
        match (crate::compiled(src, link_type, n1), crate::compiled(src, link_type, n2)) {
            (Ok(a), Ok(b)) => {
                let accept = a.len() - 2;
                &&& a.len() == b.len() >= 2
                &&& a[accept] == Insn::plain(RET_K, n1)
                &&& b[accept] == Insn::plain(RET_K, n2)
                &&& forall|i: int|
                    0 <= i < a.len() && i != accept ==> #[trigger] a[i] == b[i]
            },
            (Err(a), Err(b)) => a == b,
            _ => false,
        },
{
    if let Ok(filter) = crate::filter_of(src) {
        let c = codegen::program_code(filter, link_type, n1);
        let d = codegen::program_code(filter, link_type, n2);
        let end = c.stream.len();
        correctness::generated_code_returns_at_the_end(filter, link_type, n1);
        correctness::generated_code_returns_at_the_end(filter, link_type, n2);
        assert forall|i: int| 0 <= i < end && i != end - 3 implies #[trigger] c.stream[i]
            == d.stream[i] by {}
        assert forall|i: int| 0 <= i < end implies #[trigger] backpatch::same_but_op(
            c.stream[i],
            d.stream[i],
        ) by {
            if i != end - 3 {
                assert(c.stream[i] == d.stream[i]);
            }
        }
        backpatch::same_shapes_assemble_alike(c, d, end);
        if codegen::first_failure(filter, link_type.l3()) is None {
            if let Ok(a) = backpatch::assembled(c) {
                let b = backpatch::assembled(d)->Ok_0;
                backpatch::assembled_programs_keep_their_rets(c, n1);
                backpatch::assembled_programs_keep_their_rets(d, n2);
                assert forall|i: int| 0 <= i < a.len() && i != a.len() - 2 implies #[trigger] a[i]
                    == b[i] by {
                    let at = backpatch::instructions_come_from_one_item(c, d, i as nat);
                    assert(at != end - 3);
                    assert(c.stream[at as int] == d.stream[at as int]);
                }
            }
        }
    }
}

/// Of several primitives that mean nothing, the failure is that of the leftmost: a conjunction or a
/// disjunction fails as its left part does or, if that has code, as its right part does. A negation fails
/// as what it negates does.
pub proof fn the_leftmost_failure_is_reported(
    l: ExpandedExpr,
    r: ExpandedExpr,
    link_type: LinkType,
    snaplen: u32,
)
    ensures
        ({
            let failure = |e: ExpandedExpr|
                match codegen::generated(e, link_type, snaplen) {
                    Ok(_) => None,
                    Err(failure) => Some(failure),
                };
            let either = match failure(l) {
                Some(first) => Some(first),
                None => failure(r),
            };
            &&& failure(ExpandedExpr::Not(Box::new(l))) == failure(l)
            &&& failure(ExpandedExpr::And(Box::new(l), Box::new(r))) == either
            &&& failure(ExpandedExpr::Or(Box::new(l), Box::new(r))) == either
        }),
{
}

// ---------------------------------------------------------------------------------------------
// Link types
// ---------------------------------------------------------------------------------------------

/// A link type's number leads back to it, and no other number does.
pub proof fn link_type_numbers_round_trip(link_type: LinkType, v: u16)
    ensures
        LinkType::with_number(link_type.number()) == Some(link_type),
        LinkType::with_number(v) == Some(link_type) ==> v == link_type.number(),
{
}

/// The numbers of the link types are those of the registry: 1 for Ethernet, 101 for packets without a
/// link-layer header and 113 for Linux cooked capture. No other number has a link type.
pub proof fn link_type_numbers_are_registered(v: u16)
    ensures
        LinkType::Ethernet.number() == 1,
        LinkType::Raw.number() == 101,
        LinkType::LinuxSll.number() == 113,
        LinkType::with_number(1) == Some(LinkType::Ethernet),
        LinkType::with_number(101) == Some(LinkType::Raw),
        LinkType::with_number(113) == Some(LinkType::LinuxSll),
        v != 1 && v != 101 && v != 113 ==> LinkType::with_number(v) is None,
{
}

/// The network-layer header follows the link-layer one, which is 14 bytes long on Ethernet, 16 in Linux
/// cooked capture and absent otherwise. The ethertype is its last two bytes.
pub proof fn ethertype_ends_the_link_layer_header(link_type: LinkType)
    ensures
        link_type.l3().ip_base == wire::header_len(link_type),
        link_type != LinkType::Raw ==> link_type.l3().ethertype_offset == Some(
            (wire::header_len(link_type) - 2) as u32,
        ),
        link_type == LinkType::Raw ==> link_type.l3().ethertype_offset is None,
{
}

/// Fields of a packet without its first `n` bytes are those of the packet, `n` bytes further on.
proof fn lemma_fields_shift(packet: Seq<u8>, n: nat, at: int)
    requires
        n <= packet.len(),
        at >= 0,
    ensures
        packet::byte_at(packet.skip(n as int), at) == packet::byte_at(packet, at + n),
        packet::half_at(packet.skip(n as int), at) == packet::half_at(packet, at + n),
        packet::word_at(packet.skip(n as int), at) == packet::word_at(packet, at + n),
{
}

/// The IPv6 comparison shifts with its packet.
proof fn lemma_in_net6_shifts(packet: Seq<u8>, n: nat, at: int, addr: u128, bits: nat, i: nat)
    requires
        n <= packet.len(),
        at >= 0,
    ensures
        semantics::in_net6_from(at, addr, bits, i, packet.skip(n as int))
            == semantics::in_net6_from(at + n, addr, bits, i, packet),
    decreases bits + 32 - 32 * i,
{
    if 32 * i < bits {
        lemma_fields_shift(packet, n, at + 4 * i);
        lemma_in_net6_shifts(packet, n, at, addr, bits, i + 1);
    }
}

/// The offsets of a link type whose header is `n` bytes longer.
pub open spec fn later_by(l3: L3OffsetInfo, n: u32) -> L3OffsetInfo {
    L3OffsetInfo {
        ip_base: (l3.ip_base + n) as u32,
        ethertype_offset: match l3.ethertype_offset {
            Some(at) => Some((at + n) as u32),
            None => None,
        },
    }
}

/// The gates shift with their packet.
proof fn lemma_gates_shift(
    l3: L3OffsetInfo,
    n: u32,
    ethertype: u32,
    ip_proto: Option<u32>,
    packet: Seq<u8>,
)
    requires
        n <= packet.len(),
        l3.ip_base + n <= 0xffff,
        l3.ethertype_offset matches Some(at) ==> at + n <= 0xffff,
    ensures
        semantics::ethertype_is(later_by(l3, n), ethertype, packet) == semantics::ethertype_is(
            l3,
            ethertype,
            packet.skip(n as int),
        ),
        semantics::ip_proto_is(later_by(l3, n), ip_proto, packet) == semantics::ip_proto_is(
            l3,
            ip_proto,
            packet.skip(n as int),
        ),
{
    if let Some(at) = l3.ethertype_offset {
        lemma_fields_shift(packet, n as nat, at as int);
    }
    lemma_fields_shift(packet, n as nat, l3.ip_base + IP_PROTO_OFFSET);
}

/// An address check shifts with its packet.
proof fn lemma_addr_shifts(
    proto: CompiledProto,
    dir: DirTag,
    addr: AddrLit,
    bits: nat,
    l3: L3OffsetInfo,
    n: u32,
    packet: Seq<u8>,
)
    requires
        n <= packet.len(),
        l3.ip_base + n <= 0xffff,
        l3.ethertype_offset matches Some(at) ==> at + n <= 0xffff,
    ensures
        semantics::addr_outcome(proto, dir, addr, bits, later_by(l3, n), packet)
            == semantics::addr_outcome(proto, dir, addr, bits, l3, packet.skip(n as int)),
{
    match addr {
        AddrLit::V4(_) => {
            if let Some(gates) = semantics::gates4(proto) {
                lemma_gates_shift(l3, n, gates.ethertype, gates.ip_proto, packet);
                lemma_fields_shift(packet, n as nat, l3.ip_base + gates.offset(dir));
            }
        },
        AddrLit::V6(value) => {
            let at = l3.ip_base + semantics::gates6().offset(dir);
            lemma_gates_shift(l3, n, ETH_TYPE_IPV6, None, packet);
            lemma_in_net6_shifts(packet, n as nat, at, value, bits, 0);
        },
    }
}

/// A port check shifts with its packet.
proof fn lemma_port_shifts(
    proto: CompiledProto,
    dir: DirTag,
    lo: u16,
    hi: u16,
    l3: L3OffsetInfo,
    n: u32,
    packet: Seq<u8>,
)
    requires
        n <= packet.len(),
        l3.ip_base + n <= 0xffff,
        l3.ethertype_offset matches Some(at) ==> at + n <= 0xffff,
    ensures
        semantics::port_outcome(proto, dir, lo, hi, later_by(l3, n), packet)
            == semantics::port_outcome(proto, dir, lo, hi, l3, packet.skip(n as int)),
{
    let number = semantics::port_proto(proto);
    lemma_gates_shift(l3, n, ETH_TYPE_IP, number, packet);
    lemma_fields_shift(packet, n as nat, l3.ip_base + IP_FLAGS_FRAG_OFFSET);
    lemma_fields_shift(packet, n as nat, l3.ip_base as int);
    if let Some(first) = packet::byte_at(packet.skip(n as int), l3.ip_base as int) {
        let rel = match dir {
            DirTag::Src => PORT_SRC_REL,
            DirTag::Dst => PORT_DST_REL,
        };
        lemma_fields_shift(packet, n as nat, l3.ip_base + first % 16 * 4 + rel);
    }
}

/// An expression's outcome shifts with its packet.
proof fn lemma_outcome_shifts(e: ExpandedExpr, l3: L3OffsetInfo, n: u32, packet: Seq<u8>)
    requires
        n <= packet.len(),
        l3.ip_base + n <= 0xffff,
        l3.ethertype_offset matches Some(at) ==> at + n <= 0xffff,
    ensures
        semantics::outcome(e, later_by(l3, n), packet) == semantics::outcome(
            e,
            l3,
            packet.skip(n as int),
        ),
    decreases e,
{
    match e {
        ExpandedExpr::Leaf(p) => match p.ty {
            PrimType::Host(addr) => {
                let bits = semantics::prefix_bits(addr, None);
                lemma_addr_shifts(p.proto, p.dir, addr, bits, l3, n, packet);
            },
            PrimType::Net(addr, prefix) => {
                let bits = semantics::prefix_bits(addr, prefix);
                lemma_addr_shifts(p.proto, p.dir, addr, bits, l3, n, packet);
            },
            PrimType::Port(port) => {
                lemma_port_shifts(p.proto, p.dir, port, port, l3, n, packet);
            },
            PrimType::PortRange(lo, hi) => {
                lemma_port_shifts(p.proto, p.dir, lo, hi, l3, n, packet);
            },
        },
        ExpandedExpr::Not(inner) => lemma_outcome_shifts(*inner, l3, n, packet),
        ExpandedExpr::And(l, r) | ExpandedExpr::Or(l, r) => {
            lemma_outcome_shifts(*l, l3, n, packet);
            lemma_outcome_shifts(*r, l3, n, packet);
        },
    }
}

/// A filter over Linux cooked capture accepts what it accepts over Ethernet once the two extra bytes
/// of the header are gone.
pub proof fn linux_sll_is_ethernet_two_bytes_later(e: ExpandedExpr, packet: Seq<u8>)
    requires
        packet.len() >= 2,
    ensures
        semantics::accepts(e, LinkType::LinuxSll, packet) == semantics::accepts(
            e,
            LinkType::Ethernet,
            packet.skip(2),
        ),
{
    lemma_outcome_shifts(e, LinkType::Ethernet.l3(), 2, packet);
}

/// A program for Linux cooked capture is the one for Ethernet, with the operand of every packet load
/// larger by two. The failures are the same.
pub proof fn linux_sll_programs_load_two_bytes_later(src: Seq<char>, snaplen: u32)
    ensures
        match (
            crate::compiled(src, LinkType::Ethernet, snaplen),
            crate::compiled(src, LinkType::LinuxSll, snaplen),
        ) {
            (Ok(ethernet), Ok(cooked)) => {
                &&& ethernet.len() == cooked.len()
                &&& forall|i: int|
                    0 <= i < ethernet.len() ==> #[trigger] relocation::insn_later(
                        ethernet[i],
                        cooked[i],
                        2,
                    )
            },
            (Err(ethernet), Err(cooked)) => ethernet == cooked,
            _ => false,
        },
{
    if let Ok(filter) = crate::filter_of(src) {
        assert(LinkType::LinuxSll.l3() == later_by(LinkType::Ethernet.l3(), 2));
        lemma_same_failures(filter, LinkType::Ethernet.l3(), 2);
        if codegen::first_failure(filter, LinkType::Ethernet.l3()) is None {
            relocation::cooked_code_is_ethernet_code_later(filter, snaplen);
            relocation::later_code_assembles_to_later_instructions(
                codegen::program_code(filter, LinkType::Ethernet, snaplen),
                codegen::program_code(filter, LinkType::LinuxSll, snaplen),
                2,
            );
        }
    }
}

/// The outcomes of an expression that means something without an ethertype field do not depend on the
/// field, as long as it says IPv4.
proof fn lemma_ethertype_is_ip(e: ExpandedExpr, ip_base: u32, field: u32, packet: Seq<u8>)
    requires
        packet::half_at(packet, field as int) == Some(ETH_TYPE_IP),
        codegen::first_failure(e, (L3OffsetInfo { ip_base, ethertype_offset: None })) is None,
    ensures
        semantics::outcome(e, (L3OffsetInfo { ip_base, ethertype_offset: Some(field) }), packet)
            == semantics::outcome(e, (L3OffsetInfo { ip_base, ethertype_offset: None }), packet),
    decreases e,
{
    match e {
        ExpandedExpr::Leaf(p) => {},
        ExpandedExpr::Not(inner) => lemma_ethertype_is_ip(*inner, ip_base, field, packet),
        ExpandedExpr::And(l, r) | ExpandedExpr::Or(l, r) => {
            lemma_ethertype_is_ip(*l, ip_base, field, packet);
            lemma_ethertype_is_ip(*r, ip_base, field, packet);
        },
    }
}

/// A filter over packets without a link-layer header takes every packet to be IPv4: it accepts what
/// it accepts over Ethernet behind a header with the IPv4 ethertype.
pub proof fn raw_packets_are_ipv4(e: ExpandedExpr, packet: Seq<u8>)
    requires
        packet.len() >= 14,
        packet::half_at(packet, 12) == Some(ETH_TYPE_IP),
        codegen::first_failure(e, LinkType::Raw.l3()) is None,
    ensures
        semantics::accepts(e, LinkType::Raw, packet.skip(14)) == semantics::accepts(
            e,
            LinkType::Ethernet,
            packet,
        ),
{
    lemma_outcome_shifts(e, LinkType::Raw.l3(), 14, packet);
    lemma_same_failures(e, LinkType::Raw.l3(), 14);
    lemma_ethertype_is_ip(e, 14, 12, packet);
}

/// What an expression means nothing for does not depend on where the network-layer header starts.
proof fn lemma_same_failures(e: ExpandedExpr, l3: L3OffsetInfo, n: u32)
    ensures
        codegen::first_failure(e, later_by(l3, n)) == codegen::first_failure(e, l3),
    decreases e,
{
    match e {
        ExpandedExpr::Leaf(p) => {},
        ExpandedExpr::Not(inner) => lemma_same_failures(*inner, l3, n),
        ExpandedExpr::And(l, r) | ExpandedExpr::Or(l, r) => {
            lemma_same_failures(*l, l3, n);
            lemma_same_failures(*r, l3, n);
        },
    }
}

/// A link type without an ethertype field has no `arp`, `rarp` or `ip6` addresses.
pub proof fn only_ipv4_without_an_ethertype(p: CompiledPrimitive, link_type: LinkType)
    requires
        link_type.l3().ethertype_offset is None,
        p.ty is Host || p.ty is Net,
        p.proto == CompiledProto::Arp || p.proto == CompiledProto::Rarp || p.proto
            == CompiledProto::Ip6,
    ensures
        codegen::objection(p, link_type.l3()) is Some,
{
}

// ---------------------------------------------------------------------------------------------
// Default expansion
// ---------------------------------------------------------------------------------------------

/// A keyword stands for the protocol of its name.
pub proof fn keywords_name_their_protocols(p: Primitive, dir: DirTag)
    requires
        p.dir == Some(dir),
    ensures
        ({
            let e = desugar::expanded(Expr::Primitive(p));
            &&& p.proto == Some(ProtoTag::Ip) ==> e == desugar::leaf(p, CompiledProto::Ip, dir)
            &&& p.proto == Some(ProtoTag::Ip6) ==> e == desugar::leaf(p, CompiledProto::Ip6, dir)
            &&& p.proto == Some(ProtoTag::Arp) ==> e == desugar::leaf(p, CompiledProto::Arp, dir)
            &&& p.proto == Some(ProtoTag::Tcp) ==> e == desugar::leaf(p, CompiledProto::Tcp, dir)
            &&& p.proto == Some(ProtoTag::Udp) ==> e == desugar::leaf(p, CompiledProto::Udp, dir)
            &&& p.proto == Some(ProtoTag::Icmp) ==> e == desugar::leaf(p, CompiledProto::Icmp, dir)
        }),
{
    if p.proto is Some {
        lemma_one_proto(p);
    }
}

/// A primitive that names its protocol but no direction is `src or dst`.
pub proof fn direction_defaults_to_src_or_dst(p: Primitive)
    requires
        p.proto is Some,
        p.dir is None,
    ensures
        desugar::expanded(Expr::Primitive(p)) == ExpandedExpr::Or(
            Box::new(
                desugar::expanded(Expr::Primitive((Primitive { dir: Some(DirTag::Src), ..p }))),
            ),
            Box::new(
                desugar::expanded(Expr::Primitive((Primitive { dir: Some(DirTag::Dst), ..p }))),
            ),
        ),
{
    let src = Primitive { dir: Some(DirTag::Src), ..p };
    let dst = Primitive { dir: Some(DirTag::Dst), ..p };
    lemma_one_proto(p);
    lemma_one_proto(src);
    lemma_one_proto(dst);
    reveal_with_fuel(desugar::any_of, 2);
}

/// The leaves of a primitive that names its protocol are those of that protocol.
proof fn lemma_one_proto(p: Primitive)
    requires
        p.proto is Some,
    ensures
        desugar::leaves_upto(p, desugar::protos_of(p).len()) == desugar::leaves_of_proto(
            p,
            desugar::proto_of(p.proto->0),
        ),
{
    reveal_with_fuel(desugar::leaves_upto, 2);
}

/// A primitive that names its direction but no protocol is the disjunction of its default protocols:
/// `ip`, `arp` and `rarp` for an IPv4 address, `ip6` for an IPv6 one, `tcp`, `udp` and `sctp` for a
/// port.
pub proof fn protocols_default_by_type(p: Primitive, dir: DirTag)
    requires
        p.proto is None,
        p.dir == Some(dir),
    ensures
        desugar::expanded(Expr::Primitive(p)) == match p.ty {
            PrimType::Host(AddrLit::V4(_)) | PrimType::Net(AddrLit::V4(_), _) => any_of_three(
                desugar::leaf(p, CompiledProto::Ip, dir),
                desugar::leaf(p, CompiledProto::Arp, dir),
                desugar::leaf(p, CompiledProto::Rarp, dir),
            ),
            PrimType::Host(AddrLit::V6(_)) | PrimType::Net(AddrLit::V6(_), _) => desugar::leaf(
                p,
                CompiledProto::Ip6,
                dir,
            ),
            PrimType::Port(_) | PrimType::PortRange(_, _) => any_of_three(
                desugar::leaf(p, CompiledProto::Tcp, dir),
                desugar::leaf(p, CompiledProto::Udp, dir),
                desugar::leaf(p, CompiledProto::Sctp, dir),
            ),
        },
{
    reveal_with_fuel(desugar::leaves_upto, 4);
    reveal_with_fuel(desugar::any_of, 3);
}

/// The disjunction of three expressions, nested to the left.
pub open spec fn any_of_three(a: ExpandedExpr, b: ExpandedExpr, c: ExpandedExpr) -> ExpandedExpr {
    ExpandedExpr::Or(Box::new(ExpandedExpr::Or(Box::new(a), Box::new(b))), Box::new(c))
}

/// A primitive that names neither stands for every default protocol in both directions, each protocol
/// `src` before `dst`.
pub proof fn bare_primitives_are_the_full_product(p: Primitive)
    requires
        p.proto is None,
        p.dir is None,
    ensures
        ({
            let protos = desugar::default_protos(p.ty);
            let leaves = desugar::leaves_upto(p, protos.len());
            &&& desugar::expanded(Expr::Primitive(p)) == desugar::any_of(leaves)
            &&& leaves.len() == 2 * protos.len()
            &&& forall|i: int|
                0 <= i < protos.len() ==> {
                    &&& leaves[2 * i] == desugar::leaf(p, #[trigger] protos[i], DirTag::Src)
                    &&& leaves[2 * i + 1] == desugar::leaf(p, protos[i], DirTag::Dst)
                }
        }),
{
    lemma_product(p, desugar::protos_of(p).len());
}

/// The leaves of the first `n` protocols in both directions.
proof fn lemma_product(p: Primitive, n: nat)
    requires
        p.dir is None,
        n <= desugar::protos_of(p).len(),
    ensures
        desugar::leaves_upto(p, n).len() == 2 * n,
        forall|i: int|
            0 <= i < n ==> {
                &&& desugar::leaves_upto(p, n)[2 * i] == desugar::leaf(
                    p,
                    #[trigger] desugar::protos_of(p)[i],
                    DirTag::Src,
                )
                &&& desugar::leaves_upto(p, n)[2 * i + 1] == desugar::leaf(
                    p,
                    desugar::protos_of(p)[i],
                    DirTag::Dst,
                )
            },
    decreases n,
{
    if n > 0 {
        lemma_product(p, (n - 1) as nat);
    }
}

/// Negation, conjunction and disjunction pass through default expansion unchanged.
pub proof fn connectives_pass_through(l: Expr, r: Expr, offset: Range<usize>)
    ensures
        desugar::expanded(Expr::Not(Box::new(l), offset)) == ExpandedExpr::Not(
            Box::new(desugar::expanded(l)),
        ),
        desugar::expanded(Expr::And(Box::new(l), Box::new(r), offset)) == ExpandedExpr::And(
            Box::new(desugar::expanded(l)),
            Box::new(desugar::expanded(r)),
        ),
        desugar::expanded(Expr::Or(Box::new(l), Box::new(r), offset)) == ExpandedExpr::Or(
            Box::new(desugar::expanded(l)),
            Box::new(desugar::expanded(r)),
        ),
{
}

// ---------------------------------------------------------------------------------------------
// Primitives
// ---------------------------------------------------------------------------------------------

/// A `net` of the whole address is a `host`: the code is the same.
pub proof fn whole_net_is_host(
    p: CompiledPrimitive,
    addr: AddrLit,
    l3: L3OffsetInfo,
    on_true: nat,
    on_false: nat,
    next: nat,
)
    ensures
        ({
            let host = CompiledPrimitive { ty: PrimType::Host(addr), ..p };
            let net = CompiledPrimitive { ty: PrimType::Net(addr, None), ..p };
            let whole = CompiledPrimitive {
                ty: PrimType::Net(addr, Some(semantics::prefix_bits(addr, None) as u8)),
                ..p
            };
            &&& codegen::primitive_code(net, l3, on_true, on_false, next)
                == codegen::primitive_code(host, l3, on_true, on_false, next)
            &&& codegen::primitive_code(whole, l3, on_true, on_false, next)
                == codegen::primitive_code(host, l3, on_true, on_false, next)
        }),
{
}

/// A `port` is the `portrange` from it to itself: the code is the same.
pub proof fn port_is_a_range_of_one(
    p: CompiledPrimitive,
    port: u16,
    l3: L3OffsetInfo,
    on_true: nat,
    on_false: nat,
    next: nat,
)
    ensures
        ({
            let one = CompiledPrimitive { ty: PrimType::Port(port), ..p };
            let range = CompiledPrimitive { ty: PrimType::PortRange(port, port), ..p };
            codegen::primitive_code(range, l3, on_true, on_false, next) == codegen::primitive_code(
                one,
                l3,
                on_true,
                on_false,
                next,
            )
        }),
{
}

/// A double negation changes nothing: the code is the same.
pub proof fn double_negation_is_free(
    e: ExpandedExpr,
    l3: L3OffsetInfo,
    on_true: nat,
    on_false: nat,
    next: nat,
)
    ensures
        codegen::expr_code(
            ExpandedExpr::Not(Box::new(ExpandedExpr::Not(Box::new(e)))),
            l3,
            on_true,
            on_false,
            next,
        ) == codegen::expr_code(e, l3, on_true, on_false, next),
{
    reveal_with_fuel(codegen::expr_code, 3);
}

/// Whether an expression is made of port checks, joined by conjunction and disjunction.
pub open spec fn only_ports(e: ExpandedExpr) -> bool
    decreases e,
{
    match e {
        ExpandedExpr::Leaf(p) => p.ty is Port || p.ty is PortRange,
        ExpandedExpr::Not(_) => false,
        ExpandedExpr::And(l, r) | ExpandedExpr::Or(l, r) => only_ports(*l) && only_ports(*r),
    }
}

/// A later fragment never matches a port check.
pub proof fn later_fragments_have_no_ports(e: ExpandedExpr, link_type: LinkType, packet: Seq<u8>)
    requires
        only_ports(e),
        packet::half_at(packet, link_type.l3().ip_base + IP_FLAGS_FRAG_OFFSET) matches Some(field)
            && field % 0x2000 != 0,
    ensures
        !semantics::accepts(e, link_type, packet),
    decreases e,
{
    match e {
        ExpandedExpr::And(l, r) | ExpandedExpr::Or(l, r) => {
            later_fragments_have_no_ports(*l, link_type, packet);
            later_fragments_have_no_ports(*r, link_type, packet);
        },
        _ => {},
    }
}

/// A port primitive stands for port checks alone.
pub proof fn port_primitives_are_only_ports(p: Primitive)
    requires
        p.ty is Port || p.ty is PortRange,
    ensures
        only_ports(desugar::expanded(Expr::Primitive(p))),
{
    lemma_leaves_are_ports(p, desugar::protos_of(p).len());
    lemma_any_of_ports(desugar::leaves_upto(p, desugar::protos_of(p).len()));
}

/// The leaves of a port primitive are port checks.
proof fn lemma_leaves_are_ports(p: Primitive, n: nat)
    requires
        p.ty is Port || p.ty is PortRange,
        n <= desugar::protos_of(p).len(),
    ensures
        n > 0 ==> desugar::leaves_upto(p, n).len() > 0,
        forall|i: int|
            0 <= i < desugar::leaves_upto(p, n).len() ==> only_ports(
                #[trigger] desugar::leaves_upto(p, n)[i],
            ),
    decreases n,
{
    if n > 0 {
        lemma_leaves_are_ports(p, (n - 1) as nat);
        let earlier = desugar::leaves_upto(p, (n - 1) as nat);
        assert forall|i: int| 0 <= i < desugar::leaves_upto(p, n).len() implies only_ports(
            #[trigger] desugar::leaves_upto(p, n)[i],
        ) by {
            if i < earlier.len() {
                assert(desugar::leaves_upto(p, n)[i] == earlier[i]);
            }
        }
    }
}

/// A disjunction of port checks is made of port checks.
proof fn lemma_any_of_ports(leaves: Seq<ExpandedExpr>)
    requires
        leaves.len() > 0,
        forall|i: int| 0 <= i < leaves.len() ==> only_ports(#[trigger] leaves[i]),
    ensures
        only_ports(desugar::any_of(leaves)),
    decreases leaves.len(),
{
    if leaves.len() > 1 {
        lemma_any_of_ports(leaves.drop_last());
    }
}

/// An IPv6 network of prefix length zero matches every IPv6 packet, however short.
pub proof fn zero_prefix_matches_every_ipv6_packet(
    p: CompiledPrimitive,
    addr: u128,
    l3: L3OffsetInfo,
    packet: Seq<u8>,
)
    requires
        p.ty == PrimType::Net(AddrLit::V6(addr), Some(0)),
        semantics::ethertype_is(l3, ETH_TYPE_IPV6, packet) == Some(true),
    ensures
        semantics::primitive_outcome(p, l3, packet) == Some(true),
{
}

/// The words of a number, compared one by one, agree exactly if the numbers' leading bits do.
#[verifier::rlimit(30)]
proof fn lemma_words_agree(w0: u32, w1: u32, w2: u32, w3: u32, addr: u128, bits: nat)
    requires
        0 < bits <= 128,
    ensures
        ({
            let value = semantics::joined6(w0, w1, w2, w3);
            let agree = |w: u32, i: nat|
                semantics::same_prefix(
                    w,
                    semantics::word6(addr, i),
                    semantics::bits_in_word(bits, i),
                );
            semantics::same_prefix6(value, addr, bits) == (agree(w0, 0) && agree(w1, 1) && agree(
                w2,
                2,
            ) && agree(w3, 3))
        }),
{
    let shift = (128 - bits) as u32;
    let value = semantics::joined6(w0, w1, w2, w3);
    let a0 = semantics::word6(addr, 0);
    let a1 = semantics::word6(addr, 1);
    let a2 = semantics::word6(addr, 2);
    let a3 = semantics::word6(addr, 3);
    assert(w0 >> 0u32 == w0 && w1 >> 0u32 == w1 && w2 >> 0u32 == w2 && a0 >> 0u32 == a0 && a1
        >> 0u32 == a1 && a2 >> 0u32 == a2) by (bit_vector);
    if bits <= 32 {
        let s = (shift - 96) as u32;
        assert((value >> shift == addr >> shift) == (w0 >> s == a0 >> s)) by (bit_vector)
            requires
                96 <= shift < 128,
                s == shift - 96,
                value == ((w0 as u128) << 96) | ((w1 as u128) << 64) | ((w2 as u128) << 32) | (
                w3 as u128),
                a0 == (addr >> 96u32) as u32,
        ;
    } else if bits <= 64 {
        let s = (shift - 64) as u32;
        assert((value >> shift == addr >> shift) == (w0 == a0 && w1 >> s == a1 >> s))
            by (bit_vector)
            requires
                64 <= shift < 96,
                s == shift - 64,
                value == ((w0 as u128) << 96) | ((w1 as u128) << 64) | ((w2 as u128) << 32) | (
                w3 as u128),
                a0 == (addr >> 96u32) as u32,
                a1 == (addr >> 64u32) as u32,
        ;
    } else if bits <= 96 {
        let s = (shift - 32) as u32;
        assert((value >> shift == addr >> shift) == (w0 == a0 && w1 == a1 && w2 >> s == a2 >> s))
            by (bit_vector)
            requires
                32 <= shift < 64,
                s == shift - 32,
                value == ((w0 as u128) << 96) | ((w1 as u128) << 64) | ((w2 as u128) << 32) | (
                w3 as u128),
                a0 == (addr >> 96u32) as u32,
                a1 == (addr >> 64u32) as u32,
                a2 == (addr >> 32u32) as u32,
        ;
    } else {
        assert((value >> shift == addr >> shift) == (w0 == a0 && w1 == a1 && w2 == a2 && w3 >> shift
            == a3 >> shift)) by (bit_vector)
            requires
                0 <= shift < 32,
                value == ((w0 as u128) << 96) | ((w1 as u128) << 64) | ((w2 as u128) << 32) | (
                w3 as u128),
                a0 == (addr >> 96u32) as u32,
                a1 == (addr >> 64u32) as u32,
                a2 == (addr >> 32u32) as u32,
                a3 == (addr >> 0u32) as u32,
        ;
    }
}

/// An IPv6 network holds the addresses that agree with it in their leading bits.
pub proof fn ipv6_nets_compare_leading_bits(packet: Seq<u8>, at: int, addr: u128, bits: nat)
    requires
        at >= 0,
        at + 16 <= packet.len(),
        bits <= 128,
    ensures
        semantics::in_net6_from(at, addr, bits, 0, packet) == Some(
            semantics::same_prefix6(semantics::addr6_at(packet, at), addr, bits),
        ),
{
    reveal_with_fuel(semantics::in_net6_from, 5);
    if bits > 0 {
        lemma_words_agree(
            packet::word_at(packet, at)->0,
            packet::word_at(packet, at + 4)->0,
            packet::word_at(packet, at + 8)->0,
            packet::word_at(packet, at + 12)->0,
            addr,
            bits,
        );
    }
}

// ---------------------------------------------------------------------------------------------
// Source texts
// ---------------------------------------------------------------------------------------------

/// Parentheses around a source text add nothing: it parses to the same expression, with both ends of
/// every offset larger by one. (No text is longer than its length can say.)
pub proof fn parentheses_only_move_offsets(s: Seq<char>)
    requires
        lexer::lexed(s) is Ok,
        parser::parsed(lexer::lexed(s)->Ok_0) is Ok,
        spans::byte_len(grouping::in_parens(s)) <= usize::MAX,
    ensures
        lexer::lexed(grouping::in_parens(s)) is Ok,
        parser::parsed(lexer::lexed(grouping::in_parens(s))->Ok_0) == Ok::<Expr, Failure>(
            grouping::moved_expr(parser::parsed(lexer::lexed(s)->Ok_0)->Ok_0, 1),
        ),
{
    reveal(grouping::ast_of);
    grouping::parsing_parens(s);
}

/// Whether a source text compiles to a program that is short enough for an unconditional jump's
/// operand.
pub open spec fn compiles(src: Seq<char>, link_type: LinkType, snaplen: u32) -> bool {
    &&& crate::compiled(src, link_type, snaplen) is Ok
    &&& crate::compiled(src, link_type, snaplen)->Ok_0.len() <= 0x1_0000_0000
}

/// Whether nothing but a branch that is too far keeps a source text from being compiled.
pub open spec fn fails_only_by_far_branches(
    src: Seq<char>,
    link_type: LinkType,
    snaplen: u32,
) -> bool {
    crate::compiled(src, link_type, snaplen) matches Err(failure) ==> failure.reason
        is JumpDisplacementOverflow
}

/// Whether the program that a source text compiles to matches a packet.
pub open spec fn matches_packet(
    src: Seq<char>,
    link_type: LinkType,
    snaplen: u32,
    packet: Seq<u8>,
) -> bool {
    vm::status(crate::compiled(src, link_type, snaplen)->Ok_0, packet) != 0
}

/// [`compiles`], under a name that does not unfold.
#[verifier::opaque]
spec fn source_compiles(src: Seq<char>, link_type: LinkType, snaplen: u32) -> bool {
    compiles(src, link_type, snaplen)
}

/// [`matches_packet`], under a name that does not unfold.
#[verifier::opaque]
spec fn source_matches(
    src: Seq<char>,
    link_type: LinkType,
    snaplen: u32,
    packet: Seq<u8>,
) -> bool {
    matches_packet(src, link_type, snaplen, packet)
}

/// Whether a source text is a filter that has code, under a name that does not unfold.
#[verifier::opaque]
spec fn has_code(src: Seq<char>, link_type: LinkType) -> bool {
    &&& crate::filter_of(src) is Ok
    &&& codegen::first_failure(crate::filter_of(src)->Ok_0, link_type.l3()) is None
}

/// What the filter of a source text makes of a packet, under a name that does not unfold.
#[verifier::opaque]
spec fn source_outcome(src: Seq<char>, link_type: LinkType, packet: Seq<u8>) -> Option<bool> {
    semantics::outcome(crate::filter_of(src)->Ok_0, link_type.l3(), packet)
}

/// The program of a source text matches a packet if the text's outcome is true, and on a long packet
/// there is an outcome.
proof fn lemma_source_matches(
    src: Seq<char>,
    link_type: LinkType,
    snaplen: u32,
    packet: Seq<u8>,
)
    requires
        source_compiles(src, link_type, snaplen),
        snaplen != 0,
    ensures
        has_code(src, link_type),
        source_matches(src, link_type, snaplen, packet) == (source_outcome(src, link_type, packet)
            == Some(true)),
        packet.len() >= link_type.l3().ip_base + 64 ==> source_outcome(src, link_type, packet)
            is Some,
{
    reveal(source_compiles);
    reveal(source_matches);
    reveal(has_code);
    reveal(source_outcome);
    compiled_programs_match_what_is_accepted(src, link_type, snaplen, packet);
    if packet.len() >= link_type.l3().ip_base + 64 {
        let tokens = lexer::lexed(src)->Ok_0;
        parser::parsed_is_valid(tokens);
        codegen::expanding_keeps_prefixes(parser::parsed(tokens)->Ok_0);
        long_packets_are_decided(crate::filter_of(src)->Ok_0, link_type, packet);
    }
}

/// Where there is code, only a branch that is too far keeps it from being assembled.
proof fn lemma_source_compiles(src: Seq<char>, link_type: LinkType, snaplen: u32)
    requires
        has_code(src, link_type),
    ensures
        fails_only_by_far_branches(src, link_type, snaplen),
{
    reveal(has_code);
    let code = codegen::program_code(crate::filter_of(src)->Ok_0, link_type, snaplen);
    backpatch::only_far_branches_fail(code, code.stream.len());
}

/// The outcome of a source text is that of its expression, wherever the expression stands.
proof fn lemma_source_outcome(src: Seq<char>, n: nat, link_type: LinkType, packet: Seq<u8>)
    requires
        has_code(src, link_type),
    ensures
        grouping::ast_of(src) is Ok,
        ({
            let filter = desugar::expanded(
                grouping::moved_expr(grouping::ast_of(src)->Ok_0, n),
            );
            &&& codegen::first_failure(filter, link_type.l3()) is None
            &&& semantics::outcome(filter, link_type.l3(), packet) == source_outcome(
                src,
                link_type,
                packet,
            )
        }),
{
    reveal(has_code);
    reveal(source_outcome);
    reveal(grouping::ast_of);
    grouping::moving_keeps_meaning(grouping::ast_of(src)->Ok_0, n, link_type.l3(), packet);
}

/// A source text with a known expression is a filter with that expression's outcome.
proof fn lemma_known_source(src: Seq<char>, e: Expr, link_type: LinkType, packet: Seq<u8>)
    requires
        grouping::ast_of(src) == Ok::<Expr, Failure>(e),
        codegen::first_failure(desugar::expanded(e), link_type.l3()) is None,
    ensures
        has_code(src, link_type),
        source_outcome(src, link_type, packet) == semantics::outcome(
            desugar::expanded(e),
            link_type.l3(),
            packet,
        ),
{
    reveal(has_code);
    reveal(source_outcome);
    reveal(grouping::ast_of);
}

/// The outcome of a source text in parentheses after a `not` is the negated one of the text.
proof fn lemma_negation_outcome(s: Seq<char>, link_type: LinkType, packet: Seq<u8>)
    requires
        has_code(s, link_type),
        spans::byte_len(grouping::negation_of(s)) <= usize::MAX,
    ensures
        has_code(grouping::negation_of(s), link_type),
        source_outcome(grouping::negation_of(s), link_type, packet) == semantics::negated(
            source_outcome(s, link_type, packet),
        ),
{
    let all = grouping::negation_of(s);
    lemma_source_outcome(s, 5, link_type, packet);
    grouping::parsing_a_negation(s);
    lemma_known_source(all, grouping::ast_of(all)->Ok_0, link_type, packet);
}

/// The outcome of two source texts in parentheses around an `and` is that of their conjunction.
proof fn lemma_conjunction_outcome(
    a: Seq<char>,
    b: Seq<char>,
    link_type: LinkType,
    packet: Seq<u8>,
)
    requires
        has_code(a, link_type),
        has_code(b, link_type),
        spans::byte_len(grouping::conjunction_of(a, b)) <= usize::MAX,
    ensures
        has_code(grouping::conjunction_of(a, b), link_type),
        source_outcome(grouping::conjunction_of(a, b), link_type, packet) == semantics::both(
            source_outcome(a, link_type, packet),
            source_outcome(b, link_type, packet),
        ),
{
    let all = grouping::conjunction_of(a, b);
    let n = spans::byte_len("("@ + a + ") and ("@);
    lemma_source_outcome(a, 1, link_type, packet);
    lemma_source_outcome(b, n, link_type, packet);
    grouping::parsing_a_conjunction(a, b);
    lemma_known_source(all, grouping::ast_of(all)->Ok_0, link_type, packet);
}

/// The outcome of two source texts in parentheses around an `or` is that of their disjunction.
proof fn lemma_disjunction_outcome(
    a: Seq<char>,
    b: Seq<char>,
    link_type: LinkType,
    packet: Seq<u8>,
)
    requires
        has_code(a, link_type),
        has_code(b, link_type),
        spans::byte_len(grouping::disjunction_of(a, b)) <= usize::MAX,
    ensures
        has_code(grouping::disjunction_of(a, b), link_type),
        source_outcome(grouping::disjunction_of(a, b), link_type, packet) == semantics::either(
            source_outcome(a, link_type, packet),
            source_outcome(b, link_type, packet),
        ),
{
    let all = grouping::disjunction_of(a, b);
    let n = spans::byte_len("("@ + a + ") or ("@);
    lemma_source_outcome(a, 1, link_type, packet);
    lemma_source_outcome(b, n, link_type, packet);
    grouping::parsing_a_disjunction(a, b);
    lemma_known_source(all, grouping::ast_of(all)->Ok_0, link_type, packet);
}

/// What `not (s)` matches.
proof fn lemma_negated_source(
    s: Seq<char>,
    link_type: LinkType,
    snaplen: u32,
    packet: Seq<u8>,
)
    requires
        source_compiles(s, link_type, snaplen),
        snaplen != 0,
        spans::byte_len(grouping::negation_of(s)) <= usize::MAX,
        packet.len() >= link_type.l3().ip_base + 64,
    ensures
        fails_only_by_far_branches(grouping::negation_of(s), link_type, snaplen),
        source_compiles(grouping::negation_of(s), link_type, snaplen) ==> source_matches(
            grouping::negation_of(s),
            link_type,
            snaplen,
            packet,
        ) == !source_matches(s, link_type, snaplen, packet),
{
    let all = grouping::negation_of(s);
    lemma_source_matches(s, link_type, snaplen, packet);
    lemma_negation_outcome(s, link_type, packet);
    lemma_source_compiles(all, link_type, snaplen);
    if source_compiles(all, link_type, snaplen) {
        lemma_source_matches(all, link_type, snaplen, packet);
    }
}

/// On a long packet, `not (s)` matches exactly if `s` does not. It compiles unless a branch of it is
/// too far.
pub proof fn negated_sources_match_the_rest(
    s: Seq<char>,
    link_type: LinkType,
    snaplen: u32,
    packet: Seq<u8>,
)
    requires
        compiles(s, link_type, snaplen),
        snaplen != 0,
        spans::byte_len(grouping::negation_of(s)) <= usize::MAX,
        packet.len() >= link_type.l3().ip_base + 64,
    ensures
        fails_only_by_far_branches(grouping::negation_of(s), link_type, snaplen),
        compiles(grouping::negation_of(s), link_type, snaplen) ==> matches_packet(
            grouping::negation_of(s),
            link_type,
            snaplen,
            packet,
        ) == !matches_packet(s, link_type, snaplen, packet),
{
    reveal(source_compiles);
    reveal(source_matches);
    lemma_negated_source(s, link_type, snaplen, packet);
}

/// What `(a) and (b)` matches.
proof fn lemma_conjoined_sources(
    a: Seq<char>,
    b: Seq<char>,
    link_type: LinkType,
    snaplen: u32,
    packet: Seq<u8>,
)
    requires
        source_compiles(a, link_type, snaplen),
        source_compiles(b, link_type, snaplen),
        snaplen != 0,
        spans::byte_len(grouping::conjunction_of(a, b)) <= usize::MAX,
    ensures
        fails_only_by_far_branches(grouping::conjunction_of(a, b), link_type, snaplen),
        source_compiles(grouping::conjunction_of(a, b), link_type, snaplen) ==> source_matches(
            grouping::conjunction_of(a, b),
            link_type,
            snaplen,
            packet,
        ) == {
            &&& source_matches(a, link_type, snaplen, packet)
            &&& source_matches(b, link_type, snaplen, packet)
        },
{
    let all = grouping::conjunction_of(a, b);
    lemma_source_matches(a, link_type, snaplen, packet);
    lemma_source_matches(b, link_type, snaplen, packet);
    lemma_conjunction_outcome(a, b, link_type, packet);
    lemma_source_compiles(all, link_type, snaplen);
    if source_compiles(all, link_type, snaplen) {
        lemma_source_matches(all, link_type, snaplen, packet);
    }
}

/// On every packet, `(a) and (b)` matches exactly if both `a` and `b` do. It compiles unless a branch
/// of it is too far.
pub proof fn conjoined_sources_match_what_both_do(
    a: Seq<char>,
    b: Seq<char>,
    link_type: LinkType,
    snaplen: u32,
    packet: Seq<u8>,
)
    requires
        compiles(a, link_type, snaplen),
        compiles(b, link_type, snaplen),
        snaplen != 0,
        spans::byte_len(grouping::conjunction_of(a, b)) <= usize::MAX,
    ensures
        fails_only_by_far_branches(grouping::conjunction_of(a, b), link_type, snaplen),
        compiles(grouping::conjunction_of(a, b), link_type, snaplen) ==> matches_packet(
            grouping::conjunction_of(a, b),
            link_type,
            snaplen,
            packet,
        ) == {
            &&& matches_packet(a, link_type, snaplen, packet)
            &&& matches_packet(b, link_type, snaplen, packet)
        },
{
    reveal(source_compiles);
    reveal(source_matches);
    lemma_conjoined_sources(a, b, link_type, snaplen, packet);
}

/// What `(a) or (b)` matches.
proof fn lemma_disjoined_sources(
    a: Seq<char>,
    b: Seq<char>,
    link_type: LinkType,
    snaplen: u32,
    packet: Seq<u8>,
)
    requires
        source_compiles(a, link_type, snaplen),
        source_compiles(b, link_type, snaplen),
        snaplen != 0,
        spans::byte_len(grouping::disjunction_of(a, b)) <= usize::MAX,
        packet.len() >= link_type.l3().ip_base + 64,
    ensures
        fails_only_by_far_branches(grouping::disjunction_of(a, b), link_type, snaplen),
        source_compiles(grouping::disjunction_of(a, b), link_type, snaplen) ==> source_matches(
            grouping::disjunction_of(a, b),
            link_type,
            snaplen,
            packet,
        ) == {
            ||| source_matches(a, link_type, snaplen, packet)
            ||| source_matches(b, link_type, snaplen, packet)
        },
{
    let all = grouping::disjunction_of(a, b);
    lemma_source_matches(a, link_type, snaplen, packet);
    lemma_source_matches(b, link_type, snaplen, packet);
    lemma_disjunction_outcome(a, b, link_type, packet);
    lemma_source_compiles(all, link_type, snaplen);
    if source_compiles(all, link_type, snaplen) {
        lemma_source_matches(all, link_type, snaplen, packet);
        let l = source_outcome(a, link_type, packet)->Some_0;
        let r = source_outcome(b, link_type, packet)->Some_0;
        assert(semantics::either(Some(l), Some(r)) == Some(l || r));
    }
}

/// On a long packet, `(a) or (b)` matches exactly if `a` or `b` does. It compiles unless a branch of
/// it is too far.
pub proof fn disjoined_sources_match_what_either_does(
    a: Seq<char>,
    b: Seq<char>,
    link_type: LinkType,
    snaplen: u32,
    packet: Seq<u8>,
)
    requires
        compiles(a, link_type, snaplen),
        compiles(b, link_type, snaplen),
        snaplen != 0,
        spans::byte_len(grouping::disjunction_of(a, b)) <= usize::MAX,
        packet.len() >= link_type.l3().ip_base + 64,
    ensures
        fails_only_by_far_branches(grouping::disjunction_of(a, b), link_type, snaplen),
        compiles(grouping::disjunction_of(a, b), link_type, snaplen) ==> matches_packet(
            grouping::disjunction_of(a, b),
            link_type,
            snaplen,
            packet,
        ) == {
            ||| matches_packet(a, link_type, snaplen, packet)
            ||| matches_packet(b, link_type, snaplen, packet)
        },
{
    reveal(source_compiles);
    reveal(source_matches);
    lemma_disjoined_sources(a, b, link_type, snaplen, packet);
}

// ---------------------------------------------------------------------------------------------
// Primitives, from source text to packets
// ---------------------------------------------------------------------------------------------

/// A source text that is one primitive compiles, to a short program, exactly if the primitive means
/// something on the link type; if not, the failure covers the primitive.
pub proof fn primitive_sources_compile(
    src: Seq<char>,
    p: Primitive,
    link_type: LinkType,
    snaplen: u32,
)
    requires
        grouping::ast_of(src) == Ok::<Expr, Failure>(Expr::Primitive(p)),
    ensures
        p.ty.prefix_fits(),
        wire::means_something(p, link_type) ==> compiles(src, link_type, snaplen)
            && crate::compiled(src, link_type, snaplen)->Ok_0.len() <= 178,
        !wire::means_something(p, link_type) ==> (crate::compiled(src, link_type, snaplen) matches Err(
            failure,
        ) && failure.reason is InvalidPrimitiveCombination && failure.offset == p.offset),
{
    reveal(grouping::ast_of);
    parser::parsed_is_valid(lexer::lexed(src)->Ok_0);
    wire::primitives_compile_where_they_mean_something(p, link_type);
    wire::primitives_assemble(p, link_type, snaplen);
    wire::primitive_failures_cover_the_primitive(p, link_type);
}

/// A source text that is one primitive matches exactly the packets that the primitive describes.
pub proof fn primitive_sources_match_what_they_describe(
    src: Seq<char>,
    p: Primitive,
    link_type: LinkType,
    snaplen: u32,
    packet: Seq<u8>,
)
    requires
        grouping::ast_of(src) == Ok::<Expr, Failure>(Expr::Primitive(p)),
        wire::means_something(p, link_type),
        snaplen != 0,
    ensures
        matches_packet(src, link_type, snaplen, packet) == wire::matches(p, link_type, packet),
{
    primitive_sources_compile(src, p, link_type, snaplen);
    wire::primitives_accept_what_they_describe(p, link_type, packet);
    assert(crate::filter_of(src)->Ok_0 == desugar::expanded(Expr::Primitive(p))) by {
        reveal(grouping::ast_of);
    }
    compiled_programs_match_what_is_accepted(src, link_type, snaplen, packet);
}

/// A primitive that is written down compiles to a program for the packets that it describes, or fails
/// if it means nothing on the link type.
pub proof fn written_primitives_match_what_they_describe(
    p: Primitive,
    link_type: LinkType,
    snaplen: u32,
    packet: Seq<u8>,
)
    requires
        p.ty.prefix_fits(),
        p.ty.bounds_ordered(),
        snaplen != 0,
    ensures
        compiles(notation::written(p), link_type, snaplen) <==> wire::means_something(p, link_type),
        wire::means_something(p, link_type) ==> matches_packet(
            notation::written(p),
            link_type,
            snaplen,
            packet,
        ) == wire::matches(p, link_type, packet),
{
    let src = notation::written(p);
    notation::primitives_read_back(p);
    let q = grouping::ast_of(src)->Ok_0->Primitive_0;
    primitive_sources_compile(src, q, link_type, snaplen);
    if wire::means_something(p, link_type) {
        primitive_sources_match_what_they_describe(src, q, link_type, snaplen, packet);
    }
}

/// A `host` or `net` of an IPv4 address compiles after `ip`, `tcp`, `udp` or `icmp` on every link type,
/// and after `arp` or no keyword where packets have an ethertype; after `ip6` it never does.
pub proof fn ipv4_address_filters_compile(
    src: Seq<char>,
    p: Primitive,
    addr: u32,
    prefix: Option<u8>,
    link_type: LinkType,
    snaplen: u32,
)
    requires
        grouping::ast_of(src) == Ok::<Expr, Failure>(Expr::Primitive(p)),
        p.ty == PrimType::Host(AddrLit::V4(addr)) || p.ty == PrimType::Net(
            AddrLit::V4(addr),
            prefix,
        ),
    ensures
        p.proto == Some(ProtoTag::Ip) || p.proto == Some(ProtoTag::Tcp) || p.proto == Some(
            ProtoTag::Udp,
        ) || p.proto == Some(ProtoTag::Icmp) ==> compiles(src, link_type, snaplen),
        p.proto == Some(ProtoTag::Arp) || p.proto is None ==> compiles(
            src,
            LinkType::Ethernet,
            snaplen,
        ) && compiles(src, LinkType::LinuxSll, snaplen) && crate::compiled(
            src,
            LinkType::Raw,
            snaplen,
        ) is Err,
        p.proto == Some(ProtoTag::Ip6) ==> crate::compiled(src, link_type, snaplen) is Err,
{
    primitive_sources_compile(src, p, link_type, snaplen);
    primitive_sources_compile(src, p, LinkType::Ethernet, snaplen);
    primitive_sources_compile(src, p, LinkType::LinuxSll, snaplen);
    primitive_sources_compile(src, p, LinkType::Raw, snaplen);
}

/// The big-endian number in the four bytes from offset `at` on.
pub open spec fn quad(packet: Seq<u8>, at: int) -> int {
    packet[at] * 0x100_0000 + packet[at + 1] * 0x1_0000 + packet[at + 2] * 0x100 + packet[at + 3]
}

/// On Ethernet, `tcp host A`, `udp host A` and `icmp host A` match the packets with the IPv4 ethertype
/// 0x0800 at byte 12, the protocol number 6, 17 or 1 at byte 23, and `A` at byte 26 or byte 30.
pub proof fn transport_hosts_compare_the_protocol_number(
    src: Seq<char>,
    p: Primitive,
    addr: u32,
    snaplen: u32,
    packet: Seq<u8>,
)
    requires
        grouping::ast_of(src) == Ok::<Expr, Failure>(Expr::Primitive(p)),
        p.ty == PrimType::Host(AddrLit::V4(addr)),
        p.proto == Some(ProtoTag::Tcp) || p.proto == Some(ProtoTag::Udp) || p.proto == Some(
            ProtoTag::Icmp,
        ),
        snaplen != 0,
    ensures
        compiles(src, LinkType::Ethernet, snaplen),
        matches_packet(src, LinkType::Ethernet, snaplen, packet) <==> {
            let source = packet.len() >= 30 && quad(packet, 26) == addr;
            let target = packet.len() >= 34 && quad(packet, 30) == addr;
            &&& packet.len() >= 24
            &&& packet[12] == 0x08 && packet[13] == 0x00
            &&& p.proto == Some(ProtoTag::Tcp) ==> packet[23] == 6
            &&& p.proto == Some(ProtoTag::Udp) ==> packet[23] == 17
            &&& p.proto == Some(ProtoTag::Icmp) ==> packet[23] == 1
            &&& p.dir == Some(DirTag::Src) ==> source
            &&& p.dir == Some(DirTag::Dst) ==> target
            &&& p.dir is None ==> source || target
        },
{
    primitive_sources_compile(src, p, LinkType::Ethernet, snaplen);
    primitive_sources_match_what_they_describe(src, p, LinkType::Ethernet, snaplen, packet);
    lemma_host_bytes(packet, 12, addr);
    lemma_host_bytes(packet, 26, addr);
    lemma_host_bytes(packet, 30, addr);
}

/// On Ethernet, `arp host A` matches the frames with the ethertype 0x0806 at byte 12 and `A` as the
/// sender's protocol address at byte 28 or as the target's at byte 38, and `ip host A` those with the
/// ethertype 0x0800 and `A` at byte 26 or byte 30.
pub proof fn ethertypes_tell_arp_from_ip(
    src: Seq<char>,
    p: Primitive,
    addr: u32,
    snaplen: u32,
    packet: Seq<u8>,
)
    requires
        grouping::ast_of(src) == Ok::<Expr, Failure>(Expr::Primitive(p)),
        p.ty == PrimType::Host(AddrLit::V4(addr)),
        p.proto == Some(ProtoTag::Arp) || p.proto == Some(ProtoTag::Ip),
        snaplen != 0,
    ensures
        compiles(src, LinkType::Ethernet, snaplen),
        matches_packet(src, LinkType::Ethernet, snaplen, packet) <==> {
            let arp = p.proto == Some(ProtoTag::Arp);
            let sender = if arp {
                28int
            } else {
                26int
            };
            let receiver = if arp {
                38int
            } else {
                30int
            };
            let source = packet.len() >= sender + 4 && quad(packet, sender) == addr;
            let target = packet.len() >= receiver + 4 && quad(packet, receiver) == addr;
            &&& packet.len() >= 14
            &&& packet[12] == 0x08
            &&& arp ==> packet[13] == 0x06
            &&& !arp ==> packet[13] == 0x00
            &&& p.dir == Some(DirTag::Src) ==> source
            &&& p.dir == Some(DirTag::Dst) ==> target
            &&& p.dir is None ==> source || target
        },
{
    primitive_sources_compile(src, p, LinkType::Ethernet, snaplen);
    primitive_sources_match_what_they_describe(src, p, LinkType::Ethernet, snaplen, packet);
    lemma_host_bytes(packet, 12, addr);
    lemma_host_bytes(packet, 26, addr);
    lemma_host_bytes(packet, 30, addr);
    lemma_host_bytes(packet, 28, addr);
    lemma_host_bytes(packet, 38, addr);
}

/// Fields, byte by byte.
proof fn lemma_host_bytes(packet: Seq<u8>, at: int, addr: u32)
    ensures
        wire::number(packet, at, 2) == packet[at] * 0x100 + packet[at + 1],
        wire::holds_address(packet, at, AddrLit::V4(addr), 32) <==> at + 4 <= packet.len() && quad(
            packet,
            at,
        ) == addr,
{
    reveal_with_fuel(wire::number, 5);
    lemma2_to64();
    let n = wire::number(packet, at, 4);
    assert(n as nat / 1 == n && addr as nat / 1 == addr);
}

// ---------------------------------------------------------------------------------------------
// Decided packets
// ---------------------------------------------------------------------------------------------

/// The IPv6 comparison of an address that lies within the packet has an outcome.
proof fn lemma_in_net6_decided(packet: Seq<u8>, at: int, addr: u128, bits: nat, i: nat)
    requires
        at >= 0,
        bits <= 128,
        at + 16 <= packet.len(),
    ensures
        semantics::in_net6_from(at, addr, bits, i, packet) is Some,
    decreases bits + 32 - 32 * i,
{
    if 32 * i < bits {
        lemma_in_net6_decided(packet, at, addr, bits, i + 1);
    }
}

/// On a packet that reaches 64 bytes past the start of its network-layer header, no field is ever
/// missing: every expression is true or false.
pub proof fn long_packets_are_decided(e: ExpandedExpr, link_type: LinkType, packet: Seq<u8>)
    requires
        codegen::prefixes_fit(e),
        packet.len() >= link_type.l3().ip_base + 64,
    ensures
        semantics::outcome(e, link_type.l3(), packet) is Some,
    decreases e,
{
    let l3 = link_type.l3();
    match e {
        ExpandedExpr::Leaf(p) => match p.ty {
            PrimType::Host(AddrLit::V6(addr)) => {
                let at = l3.ip_base + semantics::gates6().offset(p.dir);
                lemma_in_net6_decided(packet, at, addr, 128, 0);
            },
            PrimType::Net(AddrLit::V6(addr), prefix) => {
                let at = l3.ip_base + semantics::gates6().offset(p.dir);
                let bits = semantics::prefix_bits(AddrLit::V6(addr), prefix);
                lemma_in_net6_decided(packet, at, addr, bits, 0);
            },
            _ => {},
        },
        ExpandedExpr::Not(inner) => long_packets_are_decided(*inner, link_type, packet),
        ExpandedExpr::And(l, r) | ExpandedExpr::Or(l, r) => {
            long_packets_are_decided(*l, link_type, packet);
            long_packets_are_decided(*r, link_type, packet);
        },
    }
}

/// Where no field is missing, the connectives are those of logic.
pub proof fn connectives_are_logical(
    l: ExpandedExpr,
    r: ExpandedExpr,
    link_type: LinkType,
    packet: Seq<u8>,
)
    requires
        semantics::outcome(l, link_type.l3(), packet) is Some,
        semantics::outcome(r, link_type.l3(), packet) is Some,
    ensures
        semantics::accepts(ExpandedExpr::Not(Box::new(l)), link_type, packet)
            == !semantics::accepts(l, link_type, packet),
        semantics::accepts(ExpandedExpr::And(Box::new(l), Box::new(r)), link_type, packet) == (
        semantics::accepts(l, link_type, packet) && semantics::accepts(r, link_type, packet)),
        semantics::accepts(ExpandedExpr::Or(Box::new(l), Box::new(r)), link_type, packet) == (
        semantics::accepts(l, link_type, packet) || semantics::accepts(r, link_type, packet)),
{
}

/// Whether an expression holds by the rules of logic, where a primitive holds if its own code alone
/// leaves at the label for that.
pub open spec fn holds(e: ExpandedExpr, link_type: LinkType, packet: Seq<u8>) -> bool
    decreases e,
{
    match e {
        ExpandedExpr::Leaf(p) => correctness::exit_from(
            codegen::primitive_code(p, link_type.l3(), 0, 1, 2).stream,
            0,
            Regs { a: 0, x: 0 },
            packet,
        ) == Some(0nat),
        ExpandedExpr::Not(inner) => !holds(*inner, link_type, packet),
        ExpandedExpr::And(l, r) => holds(*l, link_type, packet) && holds(*r, link_type, packet),
        ExpandedExpr::Or(l, r) => holds(*l, link_type, packet) || holds(*r, link_type, packet),
    }
}

/// Where no field is missing, an expression is accepted if it holds.
proof fn lemma_holds(e: ExpandedExpr, link_type: LinkType, packet: Seq<u8>)
    requires
        codegen::prefixes_fit(e),
        codegen::first_failure(e, link_type.l3()) is None,
        packet.len() >= link_type.l3().ip_base + 64,
    ensures
        semantics::outcome(e, link_type.l3(), packet) == Some(holds(e, link_type, packet)),
    decreases e,
{
    match e {
        ExpandedExpr::Leaf(p) => {
            long_packets_are_decided(e, link_type, packet);
            correctness::expression_code_leaves_by_its_outcome(
                e,
                link_type.l3(),
                0,
                1,
                2,
                Regs { a: 0, x: 0 },
                packet,
            );
        },
        ExpandedExpr::Not(inner) => lemma_holds(*inner, link_type, packet),
        ExpandedExpr::And(l, r) | ExpandedExpr::Or(l, r) => {
            lemma_holds(*l, link_type, packet);
            lemma_holds(*r, link_type, packet);
        },
    }
}

/// On a long packet, the code of an expression leaves at one of its two labels, as logic says:
/// whatever the registers hold, at `on_true` if the expression holds and at `on_false` if not.
pub proof fn expression_code_leaves_as_logic_says(
    e: ExpandedExpr,
    link_type: LinkType,
    on_true: nat,
    on_false: nat,
    next: nat,
    regs: Regs,
    packet: Seq<u8>,
)
    requires
        codegen::prefixes_fit(e),
        codegen::first_failure(e, link_type.l3()) is None,
        on_true != on_false,
        on_true < next,
        on_false < next,
        packet.len() >= link_type.l3().ip_base + 64,
    ensures
        correctness::exit_from(
            codegen::expr_code(e, link_type.l3(), on_true, on_false, next).stream,
            0,
            regs,
            packet,
        ) == Some(
            if holds(e, link_type, packet) {
                on_true
            } else {
                on_false
            },
        ),
{
    lemma_holds(e, link_type, packet);
    correctness::expression_code_leaves_by_its_outcome(
        e,
        link_type.l3(),
        on_true,
        on_false,
        next,
        regs,
        packet,
    );
}

/// Whether every primitive of an expression means something on a link type.
pub open spec fn all_mean_something(e: Expr, link_type: LinkType) -> bool
    decreases e,
{
    match e {
        Expr::Primitive(p) => wire::means_something(p, link_type),
        Expr::Not(inner, _) => all_mean_something(*inner, link_type),
        Expr::And(l, r, _) | Expr::Or(l, r, _) => all_mean_something(*l, link_type)
            && all_mean_something(*r, link_type),
    }
}

/// Whether an expression describes a packet, by the rules of logic and the bytes that each primitive
/// describes.
pub open spec fn describes(e: Expr, link_type: LinkType, packet: Seq<u8>) -> bool
    decreases e,
{
    match e {
        Expr::Primitive(p) => wire::matches(p, link_type, packet),
        Expr::Not(inner, _) => !describes(*inner, link_type, packet),
        Expr::And(l, r, _) => describes(*l, link_type, packet) && describes(*r, link_type, packet),
        Expr::Or(l, r, _) => describes(*l, link_type, packet) || describes(*r, link_type, packet),
    }
}

/// On a long packet, an expression has the outcome that it describes, wherever its parts stand.
proof fn lemma_described(e: Expr, f: Expr, link_type: LinkType, packet: Seq<u8>)
    requires
        grammar::same(e, f),
        e.valid(),
        f.valid(),
        all_mean_something(e, link_type),
        packet.len() >= link_type.l3().ip_base + 64,
    ensures
        codegen::first_failure(desugar::expanded(f), link_type.l3()) is None,
        semantics::outcome(desugar::expanded(f), link_type.l3(), packet) == Some(
            describes(e, link_type, packet),
        ),
    decreases e,
{
    match (e, f) {
        (Expr::Primitive(p), Expr::Primitive(q)) => {
            codegen::expanding_keeps_prefixes(f);
            long_packets_are_decided(desugar::expanded(f), link_type, packet);
            wire::primitives_compile_where_they_mean_something(q, link_type);
            wire::primitives_accept_what_they_describe(q, link_type, packet);
        },
        (Expr::Not(e1, _), Expr::Not(f1, _)) => lemma_described(*e1, *f1, link_type, packet),
        (Expr::And(e1, e2, _), Expr::And(f1, f2, _)) | (
            Expr::Or(e1, e2, _),
            Expr::Or(f1, f2, _),
        ) => {
            lemma_described(*e1, *f1, link_type, packet);
            lemma_described(*e2, *f2, link_type, packet);
        },
        _ => {},
    }
}

/// An expression that is written down and means something compiles, unless a branch of it is too far, to
/// a program that matches exactly the long packets that it describes.
pub proof fn written_expressions_match_what_they_describe(
    e: Expr,
    link_type: LinkType,
    snaplen: u32,
    packet: Seq<u8>,
)
    requires
        e.valid(),
        all_mean_something(e, link_type),
        snaplen != 0,
        packet.len() >= link_type.l3().ip_base + 64,
    ensures
        fails_only_by_far_branches(grammar::written(e), link_type, snaplen),
        compiles(grammar::written(e), link_type, snaplen) ==> matches_packet(
            grammar::written(e),
            link_type,
            snaplen,
            packet,
        ) == describes(e, link_type, packet),
{
    let src = grammar::written(e);
    grammar::expressions_read_back(e);
    let f = grouping::ast_of(src)->Ok_0;
    assert(crate::filter_of(src) == Ok::<ExpandedExpr, Failure>(desugar::expanded(f)) && f.valid())
        by {
        reveal(grouping::ast_of);
        parser::parsed_is_valid(lexer::lexed(src)->Ok_0);
    }
    lemma_described(e, f, link_type, packet);
    let code = codegen::program_code(desugar::expanded(f), link_type, snaplen);
    backpatch::only_far_branches_fail(code, code.stream.len());
    if compiles(src, link_type, snaplen) {
        compiled_programs_match_what_is_accepted(src, link_type, snaplen, packet);
    }
}

// ---------------------------------------------------------------------------------------------
// The machine
// ---------------------------------------------------------------------------------------------

/// The opcodes are those of the kernel's `struct sock_filter`.
pub proof fn opcodes_are_the_kernels()
    ensures
        insn::LDW_ABS == 0x20,
        insn::LDH_ABS == 0x28,
        insn::LDB_ABS == 0x30,
        insn::LDH_IND == 0x48,
        insn::LDX_MSH == 0xb1,
        insn::AND_K == 0x54,
        insn::JA == 0x05,
        insn::JEQ_K == 0x15,
        insn::JGT_K == 0x25,
        insn::JGE_K == 0x35,
        insn::JSET_K == 0x45,
        insn::RET_K == 0x06,
        insn::KEEP_WHOLE_PACKET == 0xffff_ffff,
{
}

/// The effect of putting the big-endian number in `n` bytes from offset `at` on into the accumulator.
pub open spec fn loaded(packet: Seq<u8>, at: int, n: nat, regs: Regs) -> Effect {
    if at + n <= packet.len() {
        Effect::Next(Regs { a: wire::number(packet, at, n) as u32, x: regs.x })
    } else {
        Effect::Stop(0)
    }
}

/// What each instruction does, by its opcode: loads are big-endian and end the program beyond the end of
/// the packet, `0xb1` makes a header length of a nibble, branches compare the accumulator with the
/// operand as unsigned numbers, `0x06` ends the program with its operand, and any other opcode ends it
/// with nothing.
pub proof fn instructions_do_what_their_opcodes_say(insn: Insn, regs: Regs, packet: Seq<u8>)
    ensures
        ({
            let k = insn.k as int;
            let branch = |taken: bool|
                Effect::Skip(
                    if taken {
                        insn.jt as nat
                    } else {
                        insn.jf as nat
                    },
                    regs,
                );
            vm::effect(insn, regs, packet) == if insn.code == 0x20 {
                loaded(packet, k, 4, regs)
            } else if insn.code == 0x28 {
                loaded(packet, k, 2, regs)
            } else if insn.code == 0x30 {
                loaded(packet, k, 1, regs)
            } else if insn.code == 0x48 {
                loaded(packet, regs.x + k, 2, regs)
            } else if insn.code == 0xb1 {
                if k < packet.len() {
                    Effect::Next(Regs { a: regs.a, x: (packet[k] as int % 16 * 4) as u32 })
                } else {
                    Effect::Stop(0)
                }
            } else if insn.code == 0x54 {
                Effect::Next(Regs { a: regs.a & insn.k, x: regs.x })
            } else if insn.code == 0x05 {
                Effect::Skip(k as nat, regs)
            } else if insn.code == 0x15 {
                branch(regs.a == insn.k)
            } else if insn.code == 0x25 {
                branch(regs.a > insn.k)
            } else if insn.code == 0x35 {
                branch(regs.a >= insn.k)
            } else if insn.code == 0x45 {
                branch(regs.a & insn.k != 0)
            } else if insn.code == 0x06 {
                Effect::Stop(insn.k)
            } else {
                Effect::Stop(0)
            }
        }),
{
    wire::loads_are_big_endian(packet, insn.k as int);
    wire::loads_are_big_endian(packet, regs.x + insn.k);
}

/// A program starts at its first instruction with both registers zero, goes on with the next instruction
/// or, after a jump, as many instructions further on, and ends with nothing when it runs off its end.
pub proof fn programs_run_step_by_step(insns: Seq<Insn>, pc: nat, regs: Regs, packet: Seq<u8>)
    ensures
        vm::status(insns, packet) == vm::status_from(insns, 0, Regs { a: 0, x: 0 }, packet),
        pc >= insns.len() ==> vm::status_from(insns, pc, regs, packet) == 0,
        pc < insns.len() ==> match vm::effect(insns[pc as int], regs, packet) {
            Effect::Next(after) => vm::status_from(insns, pc, regs, packet) == vm::status_from(
                insns,
                pc + 1,
                after,
                packet,
            ),
            Effect::Skip(n, after) => vm::status_from(insns, pc, regs, packet) == vm::status_from(
                insns,
                pc + 1 + n,
                after,
                packet,
            ),
            Effect::Stop(status) => vm::status_from(insns, pc, regs, packet) == status,
        },
{
}

/// A `ret` returns its operand as it is, whatever the packet's length.
pub proof fn ret_returns_its_operand(insns: Seq<Insn>, pc: nat, regs: Regs, packet: Seq<u8>, k: u32)
    requires
        pc < insns.len(),
        insns[pc as int].op() == Op::Ret(k),
    ensures
        vm::status_from(insns, pc, regs, packet) == k,
{
}

/// A load beyond the end of the packet rejects it.
pub proof fn loads_beyond_the_packet_reject(
    insns: Seq<Insn>,
    pc: nat,
    regs: Regs,
    packet: Seq<u8>,
)
    requires
        pc < insns.len(),
        match insns[pc as int].op() {
            Op::LdbAbs(k) | Op::LdxMsh(k) => k + 1 > packet.len(),
            Op::LdhAbs(k) => k + 2 > packet.len(),
            Op::LdwAbs(k) => k + 4 > packet.len(),
            Op::LdhInd(k) => regs.x + k + 2 > packet.len(),
            _ => false,
        },
    ensures
        vm::status_from(insns, pc, regs, packet) == 0,
{
}

/// Running off the end of a program rejects, and so does a jump beyond it.
pub proof fn leaving_the_program_rejects(insns: Seq<Insn>, pc: nat, regs: Regs, packet: Seq<u8>)
    requires
        pc >= insns.len() || (vm::effect(insns[pc as int], regs, packet) matches Effect::Skip(
            skip,
            _,
        ) && pc + 1 + skip >= insns.len()),
    ensures
        vm::status_from(insns, pc, regs, packet) == 0,
{
    reveal_with_fuel(vm::status_from, 2);
}

/// An unknown opcode rejects.
pub proof fn unknown_opcodes_reject(insns: Seq<Insn>, pc: nat, regs: Regs, packet: Seq<u8>)
    requires
        pc < insns.len(),
        insns[pc as int].op() is Unknown,
    ensures
        vm::status_from(insns, pc, regs, packet) == 0,
{
}

// ---------------------------------------------------------------------------------------------
// Text
// ---------------------------------------------------------------------------------------------

/// How a listing shows an instruction, by its opcode: the mnemonic and the operand, which is an offset
/// in brackets for a load, an immediate in hexadecimal for the others, and the target's index for `ja`.
pub proof fn listings_show_opcodes_and_operands(insn: Insn, index: nat)
    ensures
        ({
            let name = insn::mnemonic_of(insn.op());
            let operand = insn::operand_of(insn, index);
            let offset = render::decimal(insn.k as nat);
            let immediate = "#0x"@ + render::hexadecimal(insn.k as nat);
            &&& insn.code == 0x20 ==> name == "ld"@ && operand == "["@ + offset + "]"@
            &&& insn.code == 0x28 ==> name == "ldh"@ && operand == "["@ + offset + "]"@
            &&& insn.code == 0x30 ==> name == "ldb"@ && operand == "["@ + offset + "]"@
            &&& insn.code == 0x48 ==> name == "ldh"@ && operand == "[x + "@ + offset + "]"@
            &&& insn.code == 0xb1 ==> name == "ldxb"@ && operand == "4*(["@ + offset + "]&0xf)"@
            &&& insn.code == 0x54 ==> name == "and"@ && operand == immediate
            &&& insn.code == 0x05 ==> name == "ja"@ && operand == render::decimal(
                index + 1 + insn.k as nat,
            )
            &&& insn.code == 0x15 ==> name == "jeq"@ && operand == immediate
            &&& insn.code == 0x25 ==> name == "jgt"@ && operand == immediate
            &&& insn.code == 0x35 ==> name == "jge"@ && operand == immediate
            &&& insn.code == 0x45 ==> name == "jset"@ && operand == immediate
            &&& insn.code == 0x06 ==> name == "ret"@ && operand == immediate
            &&& insn.branches() <==> insn.code == 0x15 || insn.code == 0x25 || insn.code == 0x35
                || insn.code == 0x45
        }),
{
}

/// Where a listing shows the operand of an instruction: after the index, of at least three digits, and
/// the mnemonic, of at least eight characters. The operand of a branch has at least sixteen, and the
/// indices that the branch goes to follow it, the one where the comparison holds first.
pub proof fn listing_lines_have_columns(insn: Insn, index: nat)
    requires
        index < 1000,
    ensures
        ({
            let line = insn::line(insn, index);
            let name = insn::mnemonic_of(insn.op());
            let operand = insn::operand_of(insn, index);
            &&& line.len() >= 15
            &&& line[0] == '('
            &&& literal::digits_value(line.subrange(1, 4)) == index
            &&& line[4] == ')' && line[5] == ' '
            &&& line.subrange(6, 14) == render::left_aligned(name, 8)
            &&& line[14] == ' '
            &&& line.len() >= 15 + operand.len()
            &&& line.subrange(15, 15 + operand.len() as int) == operand
            &&& !insn.branches() ==> line.len() == 15 + operand.len()
            &&& insn.branches() ==> line.skip(
                15 + if operand.len() < 16 {
                    16
                } else {
                    operand.len() as int
                },
            ) == " jt "@ + render::decimal(index + 1 + insn.jt as nat) + "\tjf "@ + render::decimal(
                index + 1 + insn.jf as nat,
            )
        }),
{
    lemma_line_start(insn, index);
    let line = insn::line(insn, index);
    let start = line_start(insn, index);
    let operand = insn::operand_of(insn, index);
    let rest = line.skip(15);
    let jumps = " jt "@ + render::decimal(index + 1 + insn.jt as nat) + "\tjf "@ + render::decimal(
        index + 1 + insn.jf as nat,
    );
    let shown = if insn.branches() {
        render::left_aligned(operand, 16)
    } else {
        operand
    };
    render::padding_only_adds_fill(operand, 0, 16);
    assert(line =~= start + (shown + if insn.branches() {
        jumps
    } else {
        seq![]
    }));
    assert(line.subrange(1, 4) =~= start.subrange(1, 4));
    assert(line.subrange(6, 14) =~= start.subrange(6, 14));
    assert(line[0] == start[0] && line[4] == start[4] && line[5] == start[5] && line[14]
        == start[14]);
    assert(line.subrange(15, 15 + operand.len() as int) =~= shown.take(operand.len() as int));
    assert(shown.take(operand.len() as int) =~= operand);
    if insn.branches() {
        assert(line.skip(15 + shown.len() as int) =~= jumps);
    }
}

/// The part of a line before the operand.
spec fn line_start(insn: Insn, index: nat) -> Seq<char> {
    "("@ + render::zero_filled(index, 3) + ") "@ + render::left_aligned(
        insn::mnemonic_of(insn.op()),
        8,
    ) + " "@
}

/// The columns before the operand.
proof fn lemma_line_start(insn: Insn, index: nat)
    requires
        index < 1000,
    ensures
        ({
            let start = line_start(insn, index);
            &&& start.len() == 15
            &&& start[0] == '('
            &&& literal::digits_value(start.subrange(1, 4)) == index
            &&& start[4] == ')' && start[5] == ' '
            &&& start.subrange(6, 14) == render::left_aligned(insn::mnemonic_of(insn.op()), 8)
            &&& start[14] == ' '
        }),
{
    reveal_strlit("(");
    reveal_strlit(") ");
    reveal_strlit(" ");
    let name = insn::mnemonic_of(insn.op());
    let start = line_start(insn, index);
    let number = render::zero_filled(index, 3);
    lemma_mnemonics_are_short(insn.op());
    render::padding_only_adds_fill(name, index, 8);
    render::padding_only_adds_fill(name, index, 3);
    assert(render::decimal(index).len() <= 3) by {
        reveal_with_fuel(render::decimal, 4);
    }
    assert(start.subrange(1, 4) =~= number);
    assert(start.subrange(6, 14) =~= render::left_aligned(name, 8));
}

/// No mnemonic is longer than its column.
proof fn lemma_mnemonics_are_short(op: Op)
    ensures
        insn::mnemonic_of(op).len() <= 8,
{
    reveal_strlit("ldh");
    reveal_strlit("ldb");
    reveal_strlit("ld");
    reveal_strlit("ldxb");
    reveal_strlit("and");
    reveal_strlit("ja");
    reveal_strlit("jeq");
    reveal_strlit("jgt");
    reveal_strlit("jge");
    reveal_strlit("jset");
    reveal_strlit("ret");
    reveal_strlit("unimp");
}

/// A port written in decimal is that port.
pub proof fn ports_read_back(port: u16, offset: Range<usize>)
    ensures
        literal::port_literal(render::decimal(port as nat), offset) == Ok::<u16, Failure>(port),
{
    render::decimal_reads_back(port as nat);
}

} // verus!
