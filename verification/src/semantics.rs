//! What a filter expression means: which packets it accepts.
//!
//! An expression is evaluated from left to right, and no further than its outcome needs. Reading a
//! field that lies beyond the end of the packet ends the evaluation of the whole expression, even
//! under a `not`: such a packet is not accepted. So an outcome is `Some(true)`, `Some(false)`, or
//! `None` where a field was missing.

use crate::ast::{AddrLit, DirTag, PrimType};
use crate::desugar::{CompiledPrimitive, CompiledProto, ExpandedExpr};
use crate::linktype::{L3OffsetInfo, LinkType};
use crate::packet;
use vstd::prelude::*;

verus! {

pub const ETH_TYPE_IP: u32 = 0x0800;

pub const ETH_TYPE_ARP: u32 = 0x0806;

pub const ETH_TYPE_RARP: u32 = 0x8035;

pub const ETH_TYPE_IPV6: u32 = 0x86dd;

pub const IP_PROTO_ICMP: u32 = 1;

pub const IP_PROTO_TCP: u32 = 6;

pub const IP_PROTO_UDP: u32 = 17;

pub const IP_PROTO_SCTP: u32 = 132;

// IPv4 header field offsets, relative to the start of the header.
pub const IP_FLAGS_FRAG_OFFSET: u32 = 6;

pub const IP_PROTO_OFFSET: u32 = 9;

pub const IP_SRC_OFFSET: u32 = 12;

pub const IP_DST_OFFSET: u32 = 16;

/// The 13-bit fragment-offset field below the 3 flag bits: nonzero means "not the first fragment".
pub const FRAG_MASK: u32 = 0x1fff;

// IPv6 header field offsets: 4 version, class and flow + 2 length + 1 next header + 1 hop limit,
// then the two 16-byte addresses.
pub const IP6_SRC_OFFSET: u32 = 8;

pub const IP6_DST_OFFSET: u32 = 24;

// ARP packet field offsets: 2 hardware type + 2 protocol type + 1 + 1 lengths + 2 opcode + 6 sender
// hardware address, then the sender's protocol address; 6 more for the target's.
pub const ARP_SENDER_PA_OFFSET: u32 = 14;

pub const ARP_TARGET_PA_OFFSET: u32 = 24;

// Port offsets, relative to the end of the IPv4 header.
pub const PORT_SRC_REL: u32 = 0;

pub const PORT_DST_REL: u32 = 2;

/// Where a `host` or `net` check finds its fields: the ethertype it demands, the IP protocol number
/// it demands if any, and the offsets of the two addresses.
pub struct AddrGates {
    pub ethertype: u32,
    pub ip_proto: Option<u32>,
    pub src_offset: u32,
    pub dst_offset: u32,
}

impl AddrGates {
    /// The offset of the address in direction `dir`.
    pub open spec fn offset(self, dir: DirTag) -> u32 {
        match dir {
            DirTag::Src => self.src_offset,
            DirTag::Dst => self.dst_offset,
        }
    }
}

/// The outcome of a conjunction: its second part counts only if the first holds.
pub open spec fn both(first: Option<bool>, second: Option<bool>) -> Option<bool> {
    if first == Some(true) {
        second
    } else {
        first
    }
}

/// The outcome of a disjunction: its second part counts only if the first does not hold.
pub open spec fn either(first: Option<bool>, second: Option<bool>) -> Option<bool> {
    if first == Some(false) {
        second
    } else {
        first
    }
}

/// The outcome of a negation.
pub open spec fn negated(inner: Option<bool>) -> Option<bool> {
    match inner {
        Some(holds) => Some(!holds),
        None => None,
    }
}

/// Whether a field has a value.
pub open spec fn field_is(field: Option<u32>, value: u32) -> Option<bool> {
    match field {
        Some(v) => Some(v == value),
        None => None,
    }
}

/// Whether the packet carries that ethertype. On a link type without an ethertype field, every
/// packet does.
pub open spec fn ethertype_is(l3: L3OffsetInfo, ethertype: u32, packet: Seq<u8>) -> Option<bool> {
    match l3.ethertype_offset {
        Some(at) => field_is(packet::half_at(packet, at as int), ethertype),
        None => Some(true),
    }
}

/// Whether the IPv4 header carries that protocol number, where one is demanded.
pub open spec fn ip_proto_is(l3: L3OffsetInfo, proto: Option<u32>, packet: Seq<u8>) -> Option<
    bool,
> {
    match proto {
        Some(number) => field_is(packet::byte_at(packet, l3.ip_base + IP_PROTO_OFFSET), number),
        None => Some(true),
    }
}

/// Whether the IPv4 packet is unfragmented or a first fragment: its fragment offset is zero.
pub open spec fn is_first_fragment(l3: L3OffsetInfo, packet: Seq<u8>) -> Option<bool> {
    match packet::half_at(packet, l3.ip_base + IP_FLAGS_FRAG_OFFSET) {
        Some(field) => Some(field % 0x2000 == 0),
        None => None,
    }
}

/// Whether two words agree in their `bits` most significant bits.
pub open spec fn same_prefix(a: u32, b: u32, bits: nat) -> bool {
    bits == 0 || a >> ((32 - bits) as u32) == b >> ((32 - bits) as u32)
}

/// Whether the IPv4 address at offset `at` agrees with `addr` in its first `bits` bits.
pub open spec fn in_net4(at: int, addr: u32, bits: nat, packet: Seq<u8>) -> Option<bool> {
    match packet::word_at(packet, at) {
        Some(word) => Some(same_prefix(word, addr, bits)),
        None => None,
    }
}

/// The `i`-th of the four words of an IPv6 address, the most significant first.
pub open spec fn word6(addr: u128, i: nat) -> u32 {
    (addr >> ((96 - 32 * i) as u32)) as u32
}

/// How many of the first `bits` bits of an IPv6 address lie in its `i`-th word.
pub open spec fn bits_in_word(bits: nat, i: nat) -> nat {
    if bits >= 32 * i + 32 {
        32
    } else if bits >= 32 * i {
        (bits - 32 * i) as nat
    } else {
        0
    }
}

/// Whether the IPv6 address at offset `at` agrees with `addr` in those of its first `bits` bits
/// that lie in word `i` or later. Words that hold none of those bits are not read.
pub open spec fn in_net6_from(at: int, addr: u128, bits: nat, i: nat, packet: Seq<u8>) -> Option<
    bool,
>
    decreases bits + 32 - 32 * i,
{
    if 32 * i >= bits {
        Some(true)
    } else {
        both(
            in_net4(at + 4 * i, word6(addr, i), bits_in_word(bits, i), packet),
            in_net6_from(at, addr, bits, i + 1, packet),
        )
    }
}

/// The IPv6 address at offset `at`: its four words as one number.
pub open spec fn addr6_at(packet: Seq<u8>, at: int) -> u128 {
    joined6(
        packet::word_at(packet, at)->0,
        packet::word_at(packet, at + 4)->0,
        packet::word_at(packet, at + 8)->0,
        packet::word_at(packet, at + 12)->0,
    )
}

/// The number that four words make, the most significant first.
pub open spec fn joined6(w0: u32, w1: u32, w2: u32, w3: u32) -> u128 {
    ((w0 as u128) << 96) | ((w1 as u128) << 64) | ((w2 as u128) << 32) | (w3 as u128)
}

/// Whether two IPv6 addresses agree in their `bits` most significant bits.
pub open spec fn same_prefix6(a: u128, b: u128, bits: nat) -> bool {
    bits == 0 || a >> ((128 - bits) as u32) == b >> ((128 - bits) as u32)
}

/// Whether the port in direction `dir`, right after the IPv4 header, is in `lo..=hi`. The header's
/// length is four times the low nibble of its first byte.
pub open spec fn port_in(
    l3: L3OffsetInfo,
    dir: DirTag,
    lo: u16,
    hi: u16,
    packet: Seq<u8>,
) -> Option<bool> {
    match packet::byte_at(packet, l3.ip_base as int) {
        Some(first) => match packet::half_at(
            packet,
            l3.ip_base + first % 16 * 4 + match dir {
                DirTag::Src => PORT_SRC_REL,
                DirTag::Dst => PORT_DST_REL,
            },
        ) {
            Some(port) => Some(lo <= port <= hi),
            None => None,
        },
        None => None,
    }
}

/// The fields that a `host` or `net` check on an IPv4 address reads under a protocol, if the
/// protocol has IPv4 addresses.
pub open spec fn gates4(proto: CompiledProto) -> Option<AddrGates> {
    let ip = AddrGates {
        ethertype: ETH_TYPE_IP,
        ip_proto: None,
        src_offset: IP_SRC_OFFSET,
        dst_offset: IP_DST_OFFSET,
    };
    let arp = AddrGates {
        ethertype: ETH_TYPE_ARP,
        ip_proto: None,
        src_offset: ARP_SENDER_PA_OFFSET,
        dst_offset: ARP_TARGET_PA_OFFSET,
    };
    match proto {
        CompiledProto::Ip => Some(ip),
        CompiledProto::Tcp => Some(AddrGates { ip_proto: Some(IP_PROTO_TCP), ..ip }),
        CompiledProto::Udp => Some(AddrGates { ip_proto: Some(IP_PROTO_UDP), ..ip }),
        CompiledProto::Icmp => Some(AddrGates { ip_proto: Some(IP_PROTO_ICMP), ..ip }),
        CompiledProto::Arp => Some(arp),
        CompiledProto::Rarp => Some(AddrGates { ethertype: ETH_TYPE_RARP, ..arp }),
        CompiledProto::Ip6 => None,
        CompiledProto::Sctp => None,
    }
}

/// The fields that a `host` or `net` check on an IPv6 address reads.
pub open spec fn gates6() -> AddrGates {
    AddrGates {
        ethertype: ETH_TYPE_IPV6,
        ip_proto: None,
        src_offset: IP6_SRC_OFFSET,
        dst_offset: IP6_DST_OFFSET,
    }
}

/// The IP protocol number of a protocol that has ports.
pub open spec fn port_proto(proto: CompiledProto) -> Option<u32> {
    match proto {
        CompiledProto::Tcp => Some(IP_PROTO_TCP),
        CompiledProto::Udp => Some(IP_PROTO_UDP),
        CompiledProto::Sctp => Some(IP_PROTO_SCTP),
        _ => None,
    }
}

/// The number of bits that a `net` literal compares: the prefix it gives, or the whole address.
pub open spec fn prefix_bits(addr: AddrLit, prefix: Option<u8>) -> nat {
    match prefix {
        Some(n) => n as nat,
        None => match addr {
            AddrLit::V4(_) => 32,
            AddrLit::V6(_) => 128,
        },
    }
}

/// The outcome of a check on the first `bits` bits of an address.
pub open spec fn addr_outcome(
    proto: CompiledProto,
    dir: DirTag,
    addr: AddrLit,
    bits: nat,
    l3: L3OffsetInfo,
    packet: Seq<u8>,
) -> Option<bool> {
    match addr {
        AddrLit::V4(value) => match gates4(proto) {
            Some(gates) => both(
                ethertype_is(l3, gates.ethertype, packet),
                both(
                    ip_proto_is(l3, gates.ip_proto, packet),
                    in_net4(l3.ip_base + gates.offset(dir), value, bits, packet),
                ),
            ),
            None => Some(false),
        },
        AddrLit::V6(value) => both(
            ethertype_is(l3, ETH_TYPE_IPV6, packet),
            in_net6_from(l3.ip_base + gates6().offset(dir), value, bits, 0, packet),
        ),
    }
}

/// The outcome of a check on a port.
pub open spec fn port_outcome(
    proto: CompiledProto,
    dir: DirTag,
    lo: u16,
    hi: u16,
    l3: L3OffsetInfo,
    packet: Seq<u8>,
) -> Option<bool> {
    match port_proto(proto) {
        Some(number) => both(
            ethertype_is(l3, ETH_TYPE_IP, packet),
            both(
                ip_proto_is(l3, Some(number), packet),
                both(is_first_fragment(l3, packet), port_in(l3, dir, lo, hi, packet)),
            ),
        ),
        None => Some(false),
    }
}

/// The outcome of one primitive.
pub open spec fn primitive_outcome(
    p: CompiledPrimitive,
    l3: L3OffsetInfo,
    packet: Seq<u8>,
) -> Option<bool> {
    match p.ty {
        PrimType::Host(addr) => addr_outcome(
            p.proto,
            p.dir,
            addr,
            prefix_bits(addr, None),
            l3,
            packet,
        ),
        PrimType::Net(addr, prefix) => addr_outcome(
            p.proto,
            p.dir,
            addr,
            prefix_bits(addr, prefix),
            l3,
            packet,
        ),
        PrimType::Port(port) => port_outcome(p.proto, p.dir, port, port, l3, packet),
        PrimType::PortRange(lo, hi) => port_outcome(p.proto, p.dir, lo, hi, l3, packet),
    }
}

/// The outcome of an expression.
pub open spec fn outcome(e: ExpandedExpr, l3: L3OffsetInfo, packet: Seq<u8>) -> Option<bool>
    decreases e,
{
    match e {
        ExpandedExpr::Leaf(p) => primitive_outcome(p, l3, packet),
        ExpandedExpr::Not(inner) => negated(outcome(*inner, l3, packet)),
        ExpandedExpr::And(l, r) => both(outcome(*l, l3, packet), outcome(*r, l3, packet)),
        ExpandedExpr::Or(l, r) => either(outcome(*l, l3, packet), outcome(*r, l3, packet)),
    }
}

/// Whether an expression accepts a packet of a link type.
pub open spec fn accepts(e: ExpandedExpr, link_type: LinkType, packet: Seq<u8>) -> bool {
    outcome(e, link_type.l3(), packet) == Some(true)
}

} // verus!
