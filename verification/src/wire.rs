//! What each primitive matches, byte by byte.
//!
//! The offsets and numbers here are those of the protocols themselves: Ethernet and the Linux cooked
//! header, IPv4, IPv6, ARP, TCP, UDP and SCTP.

use crate::ast::{AddrLit, DirTag, Expr, PrimType, Primitive, ProtoTag};
use crate::backpatch;
use crate::codegen;
use crate::correctness;
use crate::desugar::{self, CompiledPrimitive, CompiledProto, ExpandedExpr};
use crate::linktype::{L3OffsetInfo, LinkType};
use crate::packet;
use crate::semantics;
use core::ops::Range;
use vstd::arithmetic::div_mod::{lemma_div_denominator, lemma_fundamental_div_mod_converse};
use vstd::arithmetic::power2::{lemma2_to64, lemma_pow2_adds, lemma_pow2_pos, pow2};
use vstd::bits::{lemma_u128_shr_is_div, lemma_u32_shr_is_div};
use vstd::prelude::*;

verus! {

// ---------------------------------------------------------------------------------------------
// Fields
// ---------------------------------------------------------------------------------------------

/// The big-endian number in the `n` bytes from offset `at` on.
pub open spec fn number(packet: Seq<u8>, at: int, n: nat) -> nat
    decreases n,
{
    if n == 0 {
        0
    } else {
        number(packet, at, (n - 1) as nat) * 256 + packet[at + n - 1] as nat
    }
}

/// How long the link-layer header is.
pub open spec fn header_len(link_type: LinkType) -> int {
    match link_type {
        LinkType::Ethernet => 14,
        LinkType::LinuxSll => 16,
        LinkType::Raw => 0,
    }
}

/// Whether the last two bytes of the link-layer header say that ethertype. Without a link-layer
/// header, every packet is IPv4.
pub open spec fn carries(link_type: LinkType, packet: Seq<u8>, ethertype: nat) -> bool {
    match link_type {
        LinkType::Ethernet => packet.len() >= 14 && number(packet, 12, 2) == ethertype,
        LinkType::LinuxSll => packet.len() >= 16 && number(packet, 14, 2) == ethertype,
        LinkType::Raw => ethertype == 0x0800,
    }
}

/// Whether the packet is IPv4 and its header's tenth byte is that protocol number.
pub open spec fn carries_over_ip(link_type: LinkType, packet: Seq<u8>, protocol: u8) -> bool {
    let at = header_len(link_type) + 9;
    carries(link_type, packet, 0x0800) && at < packet.len() && packet[at] == protocol
}

/// Whether the packet holds an address at offset `at` that agrees with `addr` in its first `bits`
/// bits. Of an IPv6 address only the words that hold any of those bits need to be there.
pub open spec fn holds_address(packet: Seq<u8>, at: int, addr: AddrLit, bits: nat) -> bool {
    match addr {
        AddrLit::V4(value) => {
            &&& at + 4 <= packet.len()
            &&& number(packet, at, 4) / pow2((32 - bits) as nat) == value as nat / pow2(
                (32 - bits) as nat,
            )
        },
        AddrLit::V6(value) => {
            let n = ((bits + 31) / 32 * 4) as nat;
            &&& bits > 0 ==> at + n <= packet.len()
            &&& number(packet, at, n) / pow2((8 * n - bits) as nat) == value as nat / pow2(
                (128 - bits) as nat,
            )
        },
    }
}

// ---------------------------------------------------------------------------------------------
// Primitives
// ---------------------------------------------------------------------------------------------

/// Whether the address in direction `dir` of a packet agrees with `addr` in its first `bits` bits,
/// the packet being of the protocol with that keyword. Without a keyword, the packet may be IPv4, ARP
/// or RARP for an IPv4 address, and has to be IPv6 for an IPv6 one.
pub open spec fn address_matches(
    keyword: Option<ProtoTag>,
    dir: DirTag,
    addr: AddrLit,
    bits: nat,
    link_type: LinkType,
    packet: Seq<u8>,
) -> bool {
    let base = header_len(link_type);
    let ip_address = holds_address(
        packet,
        base + match dir {
            DirTag::Src => 12int,
            DirTag::Dst => 16int,
        },
        addr,
        bits,
    );
    let arp_address = holds_address(
        packet,
        base + match dir {
            DirTag::Src => 14int,
            DirTag::Dst => 24int,
        },
        addr,
        bits,
    );
    let ip6_address = holds_address(
        packet,
        base + match dir {
            DirTag::Src => 8int,
            DirTag::Dst => 24int,
        },
        addr,
        bits,
    );
    match (addr, keyword) {
        (AddrLit::V4(_), None) => {
            ||| carries(link_type, packet, 0x0800) && ip_address
            ||| carries(link_type, packet, 0x0806) && arp_address
            ||| carries(link_type, packet, 0x8035) && arp_address
        },
        (AddrLit::V4(_), Some(ProtoTag::Ip)) => carries(link_type, packet, 0x0800) && ip_address,
        (AddrLit::V4(_), Some(ProtoTag::Tcp)) => carries_over_ip(link_type, packet, 6)
            && ip_address,
        (AddrLit::V4(_), Some(ProtoTag::Udp)) => carries_over_ip(link_type, packet, 17)
            && ip_address,
        (AddrLit::V4(_), Some(ProtoTag::Icmp)) => carries_over_ip(link_type, packet, 1)
            && ip_address,
        (AddrLit::V4(_), Some(ProtoTag::Arp)) => carries(link_type, packet, 0x0806) && arp_address,
        (AddrLit::V4(_), Some(ProtoTag::Ip6)) => false,
        (AddrLit::V6(_), _) => carries(link_type, packet, 0x86dd) && ip6_address,
    }
}

/// Whether the port in direction `dir` of a packet is in `lo..=hi`, the packet being IPv4, of the
/// transport protocol with that keyword and no later fragment. Without a keyword, the packet may be
/// TCP, UDP or SCTP. The ports follow the IPv4 header, whose length in words is in its first byte's
/// low half.
pub open spec fn port_matches(
    keyword: Option<ProtoTag>,
    dir: DirTag,
    lo: u16,
    hi: u16,
    link_type: LinkType,
    packet: Seq<u8>,
) -> bool {
    let base = header_len(link_type);
    let at = base + packet[base] as int % 16 * 4 + match dir {
        DirTag::Src => 0int,
        DirTag::Dst => 2int,
    };
    &&& match keyword {
        None => {
            ||| carries_over_ip(link_type, packet, 6)
            ||| carries_over_ip(link_type, packet, 17)
            ||| carries_over_ip(link_type, packet, 132)
        },
        Some(ProtoTag::Tcp) => carries_over_ip(link_type, packet, 6),
        Some(ProtoTag::Udp) => carries_over_ip(link_type, packet, 17),
        _ => false,
    }
    &&& packet[base + 6] % 32 == 0
    &&& packet[base + 7] == 0
    &&& at + 2 <= packet.len()
    &&& lo <= number(packet, at, 2) <= hi
}

/// Whether a packet matches a primitive in direction `dir`.
pub open spec fn matches_in(
    p: Primitive,
    dir: DirTag,
    link_type: LinkType,
    packet: Seq<u8>,
) -> bool {
    match p.ty {
        PrimType::Host(addr) => address_matches(
            p.proto,
            dir,
            addr,
            match addr {
                AddrLit::V4(_) => 32,
                AddrLit::V6(_) => 128,
            },
            link_type,
            packet,
        ),
        PrimType::Net(addr, prefix) => address_matches(
            p.proto,
            dir,
            addr,
            match (prefix, addr) {
                (Some(bits), _) => bits as nat,
                (None, AddrLit::V4(_)) => 32,
                (None, AddrLit::V6(_)) => 128,
            },
            link_type,
            packet,
        ),
        PrimType::Port(port) => port_matches(p.proto, dir, port, port, link_type, packet),
        PrimType::PortRange(lo, hi) => port_matches(p.proto, dir, lo, hi, link_type, packet),
    }
}

/// Whether a packet matches a primitive: in the direction it names or, if it names none, in either.
pub open spec fn matches(p: Primitive, link_type: LinkType, packet: Seq<u8>) -> bool {
    match p.dir {
        Some(dir) => matches_in(p, dir, link_type, packet),
        None => {
            ||| matches_in(p, DirTag::Src, link_type, packet)
            ||| matches_in(p, DirTag::Dst, link_type, packet)
        },
    }
}

/// Whether a primitive means something on a link type: an IPv4 address goes with every keyword but
/// `ip6`, an IPv6 address with `ip6` or none, a port with `tcp`, `udp` or none. Packets without a
/// link-layer header are neither ARP nor IPv6.
pub open spec fn means_something(p: Primitive, link_type: LinkType) -> bool {
    match p.ty {
        PrimType::Host(AddrLit::V4(_)) | PrimType::Net(AddrLit::V4(_), _) => match p.proto {
            Some(ProtoTag::Ip) | Some(ProtoTag::Tcp) | Some(ProtoTag::Udp) | Some(
                ProtoTag::Icmp,
            ) => true,
            Some(ProtoTag::Arp) | None => link_type != LinkType::Raw,
            Some(ProtoTag::Ip6) => false,
        },
        PrimType::Host(AddrLit::V6(_)) | PrimType::Net(AddrLit::V6(_), _) => match p.proto {
            Some(ProtoTag::Ip6) | None => link_type != LinkType::Raw,
            _ => false,
        },
        PrimType::Port(_) | PrimType::PortRange(_, _) => match p.proto {
            Some(ProtoTag::Tcp) | Some(ProtoTag::Udp) | None => true,
            _ => false,
        },
    }
}

// ---------------------------------------------------------------------------------------------
// Fields, as they are loaded
// ---------------------------------------------------------------------------------------------

/// Loaded fields are big-endian numbers.
pub proof fn loads_are_big_endian(packet: Seq<u8>, at: int)
    requires
        at >= 0,
    ensures
        packet::byte_at(packet, at) == if at < packet.len() {
            Some(number(packet, at, 1) as u32)
        } else {
            None
        },
        packet::half_at(packet, at) == if at + 2 <= packet.len() {
            Some(number(packet, at, 2) as u32)
        } else {
            None
        },
        packet::word_at(packet, at) == if at + 4 <= packet.len() {
            Some(number(packet, at, 4) as u32)
        } else {
            None
        },
        number(packet, at, 1) == packet[at],
        number(packet, at, 2) < 0x1_0000,
        number(packet, at, 4) < 0x1_0000_0000,
{
    reveal_with_fuel(number, 5);
}

/// Two words agree in their leading bits if they are equal once the other bits are gone.
proof fn lemma_same_prefix(a: u32, b: u32, bits: nat)
    requires
        bits <= 32,
    ensures
        semantics::same_prefix(a, b, bits) == (a as nat / pow2((32 - bits) as nat) == b as nat
            / pow2((32 - bits) as nat)),
{
    lemma2_to64();
    if bits == 0 {
        assert(a as nat / 0x1_0000_0000 == 0);
        assert(b as nat / 0x1_0000_0000 == 0);
    } else {
        lemma_u32_shr_is_div(a, (32 - bits) as u32);
        lemma_u32_shr_is_div(b, (32 - bits) as u32);
    }
}

/// The bytes of an address, read as four words or as one number.
proof fn lemma_words(packet: Seq<u8>, at: int)
    ensures
        number(packet, at, 8) == number(packet, at, 4) * 0x1_0000_0000 + number(packet, at + 4, 4),
        number(packet, at, 12) == number(packet, at, 8) * 0x1_0000_0000 + number(packet, at + 8, 4),
        number(packet, at, 16) == number(packet, at, 12) * 0x1_0000_0000 + number(
            packet,
            at + 12,
            4,
        ),
{
    reveal_with_fuel(number, 5);
    assert(number(packet, at, 8) == number(packet, at, 4) * 0x1_0000_0000 + number(
        packet,
        at + 4,
        4,
    ));
    assert(number(packet, at, 12) == number(packet, at, 8) * 0x1_0000_0000 + number(
        packet,
        at + 8,
        4,
    ));
    assert(number(packet, at, 16) == number(packet, at, 12) * 0x1_0000_0000 + number(
        packet,
        at + 12,
        4,
    ));
}

/// Two numbers with a low word below other digits agree without their last `s` bits if what is above
/// the low words agrees and the low words do.
proof fn lemma_low_word(a: nat, x: nat, b: nat, y: nat, s: nat)
    requires
        x < 0x1_0000_0000,
        y < 0x1_0000_0000,
        s < 32,
    ensures
        ((a * 0x1_0000_0000 + x) / pow2(s) == (b * 0x1_0000_0000 + y) / pow2(s)) == (a == b && x
            / pow2(s) == y / pow2(s)),
{
    let d = pow2(s);
    let u = pow2((32 - s) as nat);
    lemma_pow2_pos(s);
    lemma_pow2_pos((32 - s) as nat);
    lemma_pow2_adds((32 - s) as nat, s);
    lemma2_to64();
    assert(u * d == 0x1_0000_0000);
    lemma_high_part(a, x, d, u);
    lemma_high_part(b, y, d, u);
    let q = x / d;
    let r = y / d;
    assert(a * u + q == b * u + r ==> a == b) by (nonlinear_arith)
        requires
            0 <= q < u,
            0 <= r < u,
    ;
}

/// Division by a divisor of a word's size leaves what is above the word alone.
proof fn lemma_high_part(a: nat, x: nat, d: nat, u: nat)
    requires
        d > 0,
        u * d == 0x1_0000_0000,
        x < 0x1_0000_0000,
    ensures
        (a * 0x1_0000_0000 + x) / d == a * u + x / d,
        x / d < u,
{
    let q = x / d;
    let r = x % d;
    assert(x == q * d + r && 0 <= r < d) by (nonlinear_arith)
        requires
            d > 0,
            q == x / d,
            r == x % d,
    ;
    assert(a * 0x1_0000_0000 + x == (a * u + q) * d + r) by (nonlinear_arith)
        requires
            u * d == 0x1_0000_0000,
            x == q * d + r,
    ;
    lemma_fundamental_div_mod_converse(
        (a * 0x1_0000_0000 + x) as int,
        d as int,
        (a * u + q) as int,
        r as int,
    );
    assert(q < u) by (nonlinear_arith)
        requires
            x == q * d + r,
            r >= 0,
            x < u * d,
            d > 0,
    ;
}

/// The words of an IPv6 address are the digits of its number.
proof fn lemma_address_words(addr: u128)
    ensures
        addr as nat / pow2(96) == semantics::word6(addr, 0),
        addr as nat / pow2(64) == addr as nat / pow2(96) * 0x1_0000_0000 + semantics::word6(addr, 1),
        addr as nat / pow2(32) == addr as nat / pow2(64) * 0x1_0000_0000 + semantics::word6(addr, 2),
        addr as nat / pow2(0) == addr as nat / pow2(32) * 0x1_0000_0000 + semantics::word6(addr, 3),
{
    lemma_u128_shr_is_div(addr, 96);
    lemma_u128_shr_is_div(addr, 64);
    lemma_u128_shr_is_div(addr, 32);
    lemma_u128_shr_is_div(addr, 0);
    assert({
        &&& addr >> 96u128 == ((addr >> 96u32) as u32) as u128
        &&& addr >> 64u128 == (addr >> 96u128) * 0x1_0000_0000 + ((addr >> 64u32) as u32) as u128
        &&& addr >> 32u128 == (addr >> 64u128) * 0x1_0000_0000 + ((addr >> 32u32) as u32) as u128
        &&& addr >> 0u128 == (addr >> 32u128) * 0x1_0000_0000 + ((addr >> 0u32) as u32) as u128
    }) by (bit_vector);
}

/// Division by a power of two, in two steps.
proof fn lemma_divided_twice(x: nat, m: nat, n: nat)
    ensures
        x / pow2(m + n) == (x / pow2(m)) / pow2(n),
{
    lemma_pow2_pos(m);
    lemma_pow2_pos(n);
    lemma_pow2_adds(m, n);
    lemma_div_denominator(x as int, pow2(m) as int, pow2(n) as int);
}

/// The IPv4 comparison, in terms of bytes.
proof fn lemma_in_net4(packet: Seq<u8>, at: int, value: u32, bits: nat)
    requires
        at >= 0,
        bits <= 32,
    ensures
        semantics::in_net4(at, value, bits, packet) == if at + 4 <= packet.len() {
            Some(holds_address(packet, at, AddrLit::V4(value), bits))
        } else {
            None
        },
{
    loads_are_big_endian(packet, at);
    lemma_same_prefix(number(packet, at, 4) as u32, value, bits);
}

/// The comparison of one word of an IPv6 address, in terms of bytes.
spec fn word_agrees(packet: Seq<u8>, at: int, value: u128, bits: nat, i: nat) -> bool {
    let s = (32 - semantics::bits_in_word(bits, i)) as nat;
    &&& at + 4 * i + 4 <= packet.len()
    &&& number(packet, at + 4 * i, 4) / pow2(s) == semantics::word6(value, i) as nat / pow2(s)
}

/// One word of an IPv6 address is compared.
proof fn lemma_word_agrees(packet: Seq<u8>, at: int, value: u128, bits: nat, i: nat)
    requires
        at >= 0,
    ensures
        ({
            let outcome = semantics::in_net4(
                at + 4 * i,
                semantics::word6(value, i),
                semantics::bits_in_word(bits, i),
                packet,
            );
            &&& outcome == Some(true) <==> word_agrees(packet, at, value, bits, i)
            &&& at + 4 * i + 4 <= packet.len() ==> outcome is Some
        }),
{
    lemma_in_net4(
        packet,
        at + 4 * i,
        semantics::word6(value, i),
        semantics::bits_in_word(bits, i),
    );
}

/// The IPv6 comparison is that of the words that hold any of the bits.
proof fn lemma_words_compared(packet: Seq<u8>, at: int, value: u128, bits: nat)
    requires
        at >= 0,
        bits <= 128,
    ensures
        semantics::in_net6_from(at, value, bits, 0, packet) == Some(true) <==> {
            &&& bits > 0 ==> word_agrees(packet, at, value, bits, 0)
            &&& bits > 32 ==> word_agrees(packet, at, value, bits, 1)
            &&& bits > 64 ==> word_agrees(packet, at, value, bits, 2)
            &&& bits > 96 ==> word_agrees(packet, at, value, bits, 3)
        },
        bits == 0 || at + (bits + 31) / 32 * 4 <= packet.len() ==> semantics::in_net6_from(
            at,
            value,
            bits,
            0,
            packet,
        ) is Some,
{
    reveal_with_fuel(semantics::in_net6_from, 5);
    lemma_word_agrees(packet, at, value, bits, 0);
    lemma_word_agrees(packet, at, value, bits, 1);
    lemma_word_agrees(packet, at, value, bits, 2);
    lemma_word_agrees(packet, at, value, bits, 3);
}

/// Whether a word that is compared as a whole agrees.
proof fn lemma_whole_word(packet: Seq<u8>, at: int, value: u128, bits: nat, i: nat)
    requires
        bits >= 32 * i + 32,
    ensures
        word_agrees(packet, at, value, bits, i) <==> at + 4 * i + 4 <= packet.len() && number(
            packet,
            at + 4 * i,
            4,
        ) == semantics::word6(value, i),
{
    lemma2_to64();
    let n = number(packet, at + 4 * i, 4);
    let w = semantics::word6(value, i) as nat;
    assert(n / 1 == n && w / 1 == w);
}

/// The comparison of at most 32 bits.
proof fn lemma_net6_one_word(packet: Seq<u8>, at: int, value: u128, bits: nat)
    requires
        0 < bits <= 32,
    ensures
        holds_address(packet, at, AddrLit::V6(value), bits) <==> word_agrees(
            packet,
            at,
            value,
            bits,
            0,
        ),
{
    assert((bits + 31) / 32 == 1);
    lemma_address_words(value);
    lemma_divided_twice(value as nat, 96, (32 - bits) as nat);
}

/// The comparison of 33 to 64 bits.
proof fn lemma_net6_two_words(packet: Seq<u8>, at: int, value: u128, bits: nat)
    requires
        at >= 0,
        32 < bits <= 64,
    ensures
        holds_address(packet, at, AddrLit::V6(value), bits) <==> word_agrees(
            packet,
            at,
            value,
            bits,
            0,
        ) && word_agrees(packet, at, value, bits, 1),
{
    let s = (64 - bits) as nat;
    assert((bits + 31) / 32 == 2);
    loads_are_big_endian(packet, at + 4);
    lemma_words(packet, at);
    lemma_address_words(value);
    lemma_whole_word(packet, at, value, bits, 0);
    lemma_divided_twice(value as nat, 64, s);
    lemma_low_word(
        number(packet, at, 4),
        number(packet, at + 4, 4),
        value as nat / pow2(96),
        semantics::word6(value, 1) as nat,
        s,
    );
}

/// The comparison of 65 to 96 bits.
proof fn lemma_net6_three_words(packet: Seq<u8>, at: int, value: u128, bits: nat)
    requires
        at >= 0,
        64 < bits <= 96,
    ensures
        holds_address(packet, at, AddrLit::V6(value), bits) <==> word_agrees(
            packet,
            at,
            value,
            bits,
            0,
        ) && word_agrees(packet, at, value, bits, 1) && word_agrees(packet, at, value, bits, 2),
{
    let s = (96 - bits) as nat;
    assert((bits + 31) / 32 == 3);
    loads_are_big_endian(packet, at + 4);
    loads_are_big_endian(packet, at + 8);
    lemma_words(packet, at);
    lemma_address_words(value);
    lemma_whole_word(packet, at, value, bits, 0);
    lemma_whole_word(packet, at, value, bits, 1);
    lemma_divided_twice(value as nat, 32, s);
    lemma_low_word(
        number(packet, at, 8),
        number(packet, at + 8, 4),
        value as nat / pow2(64),
        semantics::word6(value, 2) as nat,
        s,
    );
}

/// The comparison of 97 to 128 bits.
proof fn lemma_net6_four_words(packet: Seq<u8>, at: int, value: u128, bits: nat)
    requires
        at >= 0,
        96 < bits <= 128,
    ensures
        holds_address(packet, at, AddrLit::V6(value), bits) <==> word_agrees(
            packet,
            at,
            value,
            bits,
            0,
        ) && word_agrees(packet, at, value, bits, 1) && word_agrees(packet, at, value, bits, 2)
            && word_agrees(packet, at, value, bits, 3),
{
    let s = (128 - bits) as nat;
    assert((bits + 31) / 32 == 4);
    loads_are_big_endian(packet, at + 4);
    loads_are_big_endian(packet, at + 8);
    loads_are_big_endian(packet, at + 12);
    lemma_words(packet, at);
    lemma_address_words(value);
    lemma_whole_word(packet, at, value, bits, 0);
    lemma_whole_word(packet, at, value, bits, 1);
    lemma_whole_word(packet, at, value, bits, 2);
    lemma_divided_twice(value as nat, 0, s);
    lemma_low_word(
        number(packet, at, 12),
        number(packet, at + 12, 4),
        value as nat / pow2(32),
        semantics::word6(value, 3) as nat,
        s,
    );
}

/// An empty IPv6 prefix agrees with everything.
proof fn lemma_net6_no_word(packet: Seq<u8>, at: int, value: u128)
    ensures
        holds_address(packet, at, AddrLit::V6(value), 0),
{
    lemma2_to64();
    lemma_address_words(value);
    lemma_divided_twice(value as nat, 96, 32);
    let w = semantics::word6(value, 0) as nat;
    assert(w / 0x1_0000_0000 == 0);
    assert(number(packet, at, 0) / 1 == 0);
}

/// The IPv6 comparison, in terms of bytes.
proof fn lemma_in_net6(packet: Seq<u8>, at: int, value: u128, bits: nat)
    requires
        at >= 0,
        bits <= 128,
    ensures
        semantics::in_net6_from(at, value, bits, 0, packet) == Some(true) <==> holds_address(
            packet,
            at,
            AddrLit::V6(value),
            bits,
        ),
        bits == 0 || at + (bits + 31) / 32 * 4 <= packet.len() ==> semantics::in_net6_from(
            at,
            value,
            bits,
            0,
            packet,
        ) is Some,
{
    lemma_words_compared(packet, at, value, bits);
    if bits == 0 {
        lemma_net6_no_word(packet, at, value);
    } else if bits <= 32 {
        lemma_net6_one_word(packet, at, value, bits);
    } else if bits <= 64 {
        lemma_net6_two_words(packet, at, value, bits);
    } else if bits <= 96 {
        lemma_net6_three_words(packet, at, value, bits);
    } else {
        lemma_net6_four_words(packet, at, value, bits);
    }
}

// ---------------------------------------------------------------------------------------------
// Resolved primitives
// ---------------------------------------------------------------------------------------------

/// The ethertype of a protocol's packets.
spec fn ethertype_of(proto: CompiledProto) -> nat {
    match proto {
        CompiledProto::Arp => 0x0806,
        CompiledProto::Rarp => 0x8035,
        CompiledProto::Ip6 => 0x86dd,
        _ => 0x0800,
    }
}

/// The number of a protocol that IPv4 carries.
spec fn number_of(proto: CompiledProto) -> Option<u8> {
    match proto {
        CompiledProto::Icmp => Some(1),
        CompiledProto::Tcp => Some(6),
        CompiledProto::Udp => Some(17),
        CompiledProto::Sctp => Some(132),
        _ => None,
    }
}

/// Where the address of a direction is, counted from the end of the link-layer header.
spec fn place_of(proto: CompiledProto, dir: DirTag) -> int {
    match (proto, dir) {
        (CompiledProto::Arp, DirTag::Src) | (CompiledProto::Rarp, DirTag::Src) => 14,
        (CompiledProto::Arp, DirTag::Dst) | (CompiledProto::Rarp, DirTag::Dst) => 24,
        (CompiledProto::Ip6, DirTag::Src) => 8,
        (CompiledProto::Ip6, DirTag::Dst) => 24,
        (_, DirTag::Src) => 12,
        (_, DirTag::Dst) => 16,
    }
}

/// Whether the packet has all that comes before the field that a primitive compares, and it is of the
/// primitive's protocol.
spec fn passes(proto: CompiledProto, link_type: LinkType, packet: Seq<u8>) -> bool {
    &&& carries(link_type, packet, ethertype_of(proto))
    &&& number_of(proto) matches Some(n) ==> carries_over_ip(link_type, packet, n)
}

/// The gates of a protocol let through what is of that protocol, and know if it is not, unless a field
/// is missing; then the packet is of no protocol with another ethertype or, where a field of the IPv4
/// header is missing, of none that IPv4 carries.
proof fn lemma_gates(proto: CompiledProto, link_type: LinkType, packet: Seq<u8>)
    requires
        link_type == LinkType::Raw ==> ethertype_of(proto) == 0x0800,
    ensures
        ({
            let gates = semantics::both(
                semantics::ethertype_is(link_type.l3(), ethertype_of(proto) as u32, packet),
                semantics::ip_proto_is(
                    link_type.l3(),
                    match number_of(proto) {
                        Some(n) => Some(n as u32),
                        None => None,
                    },
                    packet,
                ),
            );
            &&& gates == Some(true) <==> passes(proto, link_type, packet)
            &&& gates is None ==> forall|q: CompiledProto|
                (ethertype_of(q) == ethertype_of(proto) ==> number_of(q) is Some) ==> !passes(
                    q,
                    link_type,
                    packet,
                )
        }),
{
    let base = header_len(link_type);
    loads_are_big_endian(packet, base + 9);
    if link_type != LinkType::Raw {
        loads_are_big_endian(packet, base - 2);
    }
}

/// Whether a packet holds the address that a resolved primitive looks for.
spec fn leaf_address(
    proto: CompiledProto,
    dir: DirTag,
    addr: AddrLit,
    bits: nat,
    link_type: LinkType,
    packet: Seq<u8>,
) -> bool {
    &&& passes(proto, link_type, packet)
    &&& holds_address(packet, header_len(link_type) + place_of(proto, dir), addr, bits)
}

/// Whether a packet holds the port that a resolved primitive looks for.
spec fn leaf_port(
    proto: CompiledProto,
    dir: DirTag,
    lo: u16,
    hi: u16,
    link_type: LinkType,
    packet: Seq<u8>,
) -> bool {
    let base = header_len(link_type);
    let at = base + packet[base] as int % 16 * 4 + match dir {
        DirTag::Src => 0int,
        DirTag::Dst => 2int,
    };
    &&& passes(proto, link_type, packet)
    &&& packet[base + 6] % 32 == 0
    &&& packet[base + 7] == 0
    &&& at + 2 <= packet.len()
    &&& lo <= number(packet, at, 2) <= hi
}

/// Whether two protocols are told apart by the ethertype or by the number of a protocol that IPv4
/// carries.
spec fn apart(p: CompiledProto, q: CompiledProto) -> bool {
    ||| ethertype_of(p) != ethertype_of(q)
    ||| number_of(p) is Some && number_of(q) is Some && number_of(p) != number_of(q)
}

/// A resolved address check, in terms of bytes. Where a field is missing, neither the other direction
/// nor another protocol could match.
proof fn lemma_leaf_address(
    proto: CompiledProto,
    dir: DirTag,
    addr: AddrLit,
    bits: nat,
    link_type: LinkType,
    packet: Seq<u8>,
)
    requires
        codegen::addr_objection(proto, addr, link_type.l3()) is None,
        match addr {
            AddrLit::V4(_) => bits <= 32,
            AddrLit::V6(_) => bits <= 128,
        },
    ensures
        ({
            let outcome = semantics::addr_outcome(proto, dir, addr, bits, link_type.l3(), packet);
            &&& outcome == Some(true) <==> leaf_address(proto, dir, addr, bits, link_type, packet)
            &&& outcome is None && dir == DirTag::Src ==> !leaf_address(
                proto,
                DirTag::Dst,
                addr,
                bits,
                link_type,
                packet,
            )
            &&& outcome is None ==> forall|q: CompiledProto|
                apart(proto, q) ==> !passes(q, link_type, packet)
        }),
{
    lemma_gates(proto, link_type, packet);
    let at = header_len(link_type) + place_of(proto, dir);
    match addr {
        AddrLit::V4(value) => lemma_in_net4(packet, at, value, bits),
        AddrLit::V6(value) => lemma_in_net6(packet, at, value, bits),
    }
}

/// The fragment check, in terms of bytes.
proof fn lemma_first_fragment(link_type: LinkType, packet: Seq<u8>)
    ensures
        ({
            let base = header_len(link_type);
            semantics::is_first_fragment(link_type.l3(), packet) == if base + 8 <= packet.len() {
                Some(packet[base + 6] % 32 == 0 && packet[base + 7] == 0)
            } else {
                None
            }
        }),
{
}

/// The comparison of a port, in terms of bytes.
proof fn lemma_port_in(link_type: LinkType, dir: DirTag, lo: u16, hi: u16, packet: Seq<u8>)
    ensures
        ({
            let base = header_len(link_type);
            let at = base + packet[base] as int % 16 * 4 + match dir {
                DirTag::Src => 0int,
                DirTag::Dst => 2int,
            };
            semantics::port_in(link_type.l3(), dir, lo, hi, packet) == if base < packet.len() && at
                + 2 <= packet.len() {
                Some(lo <= number(packet, at, 2) <= hi)
            } else {
                None
            }
        }),
{
    let base = header_len(link_type);
    let at = base + packet[base] as int % 16 * 4;
    loads_are_big_endian(packet, at);
    loads_are_big_endian(packet, at + 2);
}

/// A resolved port check, in terms of bytes. Where a field is missing, neither the other direction nor
/// another protocol could match.
proof fn lemma_leaf_port(
    proto: CompiledProto,
    dir: DirTag,
    lo: u16,
    hi: u16,
    link_type: LinkType,
    packet: Seq<u8>,
)
    requires
        semantics::port_proto(proto) is Some,
    ensures
        ({
            let outcome = semantics::port_outcome(proto, dir, lo, hi, link_type.l3(), packet);
            &&& outcome == Some(true) <==> leaf_port(proto, dir, lo, hi, link_type, packet)
            &&& outcome is None && dir == DirTag::Src ==> !leaf_port(
                proto,
                DirTag::Dst,
                lo,
                hi,
                link_type,
                packet,
            )
            &&& outcome is None ==> forall|q: CompiledProto|
                apart(proto, q) ==> !passes(q, link_type, packet)
        }),
{
    lemma_gates(proto, link_type, packet);
    lemma_first_fragment(link_type, packet);
    lemma_port_in(link_type, dir, lo, hi, packet);
}

/// How many bits of an address a primitive compares.
spec fn bits_of(addr: AddrLit, prefix: Option<u8>) -> nat {
    match (prefix, addr) {
        (Some(bits), _) => bits as nat,
        (None, AddrLit::V4(_)) => 32,
        (None, AddrLit::V6(_)) => 128,
    }
}

/// Whether a packet matches a resolved primitive.
#[verifier::opaque]
spec fn leaf_matches(
    ty: PrimType,
    proto: CompiledProto,
    dir: DirTag,
    link_type: LinkType,
    packet: Seq<u8>,
) -> bool {
    match ty {
        PrimType::Host(addr) => leaf_address(
            proto,
            dir,
            addr,
            bits_of(addr, None),
            link_type,
            packet,
        ),
        PrimType::Net(addr, prefix) => leaf_address(
            proto,
            dir,
            addr,
            bits_of(addr, prefix),
            link_type,
            packet,
        ),
        PrimType::Port(port) => leaf_port(proto, dir, port, port, link_type, packet),
        PrimType::PortRange(lo, hi) => leaf_port(proto, dir, lo, hi, link_type, packet),
    }
}

/// What a resolved primitive makes of a packet.
#[verifier::opaque]
spec fn leaf_outcome(
    p: Primitive,
    proto: CompiledProto,
    dir: DirTag,
    link_type: LinkType,
    packet: Seq<u8>,
) -> Option<bool> {
    semantics::outcome(desugar::leaf(p, proto, dir), link_type.l3(), packet)
}

/// Whether a resolved primitive has code.
#[verifier::opaque]
spec fn leaf_has_code(p: Primitive, proto: CompiledProto, link_type: LinkType) -> bool {
    codegen::first_failure(desugar::leaf(p, proto, DirTag::Src), link_type.l3()) is None
}

/// A resolved primitive's outcome, in terms of bytes.
proof fn lemma_leaf(
    p: Primitive,
    proto: CompiledProto,
    dir: DirTag,
    link_type: LinkType,
    packet: Seq<u8>,
)
    requires
        leaf_has_code(p, proto, link_type),
        p.ty.prefix_fits(),
    ensures
        leaf_outcome(p, proto, dir, link_type, packet) == Some(true) <==> leaf_matches(
            p.ty,
            proto,
            dir,
            link_type,
            packet,
        ),
        leaf_outcome(p, proto, dir, link_type, packet) is None ==> {
            &&& dir == DirTag::Src ==> !leaf_matches(p.ty, proto, DirTag::Dst, link_type, packet)
            &&& forall|q: CompiledProto, d: DirTag|
                apart(proto, q) ==> !#[trigger] leaf_matches(p.ty, q, d, link_type, packet)
        },
{
    reveal(leaf_matches);
    reveal(leaf_outcome);
    reveal(leaf_has_code);
    match p.ty {
        PrimType::Host(addr) => {
            lemma_leaf_address(proto, dir, addr, bits_of(addr, None), link_type, packet);
        },
        PrimType::Net(addr, prefix) => {
            lemma_leaf_address(proto, dir, addr, bits_of(addr, prefix), link_type, packet);
        },
        PrimType::Port(port) => lemma_leaf_port(proto, dir, port, port, link_type, packet),
        PrimType::PortRange(lo, hi) => lemma_leaf_port(proto, dir, lo, hi, link_type, packet),
    }
}

// ---------------------------------------------------------------------------------------------
// Disjunctions of them
// ---------------------------------------------------------------------------------------------

/// A disjunction accepts what one of its parts accepts, if a part with a field missing leaves nothing
/// for later ones to accept.
proof fn lemma_any_of_accepts(leaves: Seq<ExpandedExpr>, l3: L3OffsetInfo, packet: Seq<u8>)
    requires
        leaves.len() > 0,
        forall|i: int, j: int|
            #![trigger leaves[i], leaves[j]]
            0 <= i < j < leaves.len() && semantics::outcome(leaves[i], l3, packet) is None
                ==> semantics::outcome(leaves[j], l3, packet) != Some(true),
    ensures
        semantics::outcome(desugar::any_of(leaves), l3, packet) == Some(true) ==> exists|i: int|
            0 <= i < leaves.len() && semantics::outcome(#[trigger] leaves[i], l3, packet)
                == Some(true),
        forall|i: int|
            0 <= i < leaves.len() && semantics::outcome(#[trigger] leaves[i], l3, packet) == Some(
                true,
            ) ==> semantics::outcome(desugar::any_of(leaves), l3, packet) == Some(true),
        semantics::outcome(desugar::any_of(leaves), l3, packet) is None ==> exists|i: int|
            0 <= i < leaves.len() && semantics::outcome(#[trigger] leaves[i], l3, packet) is None,
    decreases leaves.len(),
{
    let n = leaves.len() - 1;
    let first = leaves.drop_last();
    if n > 0 {
        assert forall|i: int, j: int|
            #![trigger first[i], first[j]]
            0 <= i < j < first.len() && semantics::outcome(first[i], l3, packet)
                is None implies semantics::outcome(first[j], l3, packet) != Some(true) by {
            assert(first[i] == leaves[i]);
            assert(first[j] == leaves[j]);
        }
        lemma_any_of_accepts(first, l3, packet);
        let before = semantics::outcome(desugar::any_of(first), l3, packet);
        let last = semantics::outcome(leaves[n], l3, packet);
        assert(semantics::outcome(desugar::any_of(leaves), l3, packet) == semantics::either(
            before,
            last,
        ));
        if before == Some(true) {
            let i = choose|i: int|
                0 <= i < first.len() && semantics::outcome(#[trigger] first[i], l3, packet)
                    == Some(true);
            assert(semantics::outcome(leaves[i], l3, packet) == Some(true));
        } else {
            assert forall|i: int| 0 <= i < n implies semantics::outcome(
                #[trigger] leaves[i],
                l3,
                packet,
            ) != Some(true) by {
                assert(first[i] == leaves[i]);
            }
            if before is None {
                let i = choose|i: int|
                    0 <= i < first.len() && semantics::outcome(#[trigger] first[i], l3, packet)
                        is None;
                assert(semantics::outcome(leaves[i], l3, packet) is None);
                assert(last != Some(true));
            }
        }
    } else {
        assert(leaves[0] == desugar::any_of(leaves));
    }
}

/// A disjunction has code if every part has.
proof fn lemma_any_of_has_code(leaves: Seq<ExpandedExpr>, l3: L3OffsetInfo)
    requires
        leaves.len() > 0,
    ensures
        codegen::first_failure(desugar::any_of(leaves), l3) is None <==> forall|i: int|
            0 <= i < leaves.len() ==> codegen::first_failure(#[trigger] leaves[i], l3) is None,
    decreases leaves.len(),
{
    let n = leaves.len() - 1;
    assert(leaves[n] == leaves.last());
    if n > 0 {
        let first = leaves.drop_last();
        lemma_any_of_has_code(first, l3);
        assert forall|i: int| 0 <= i < n implies first[i] == #[trigger] leaves[i] by {}
        if codegen::first_failure(desugar::any_of(leaves), l3) is None {
            assert forall|i: int| 0 <= i < leaves.len() implies codegen::first_failure(
                #[trigger] leaves[i],
                l3,
            ) is None by {
                if i < n {
                    assert(first[i] == leaves[i]);
                }
            }
        } else if codegen::first_failure(desugar::any_of(first), l3) is Some {
            let i = choose|i: int|
                0 <= i < first.len() && codegen::first_failure(#[trigger] first[i], l3) is Some;
            assert(leaves[i] == first[i]);
        }
    }
}

/// The protocols that a primitive stands for: the one with its keyword, or the defaults.
spec fn candidates(p: Primitive) -> Seq<CompiledProto> {
    match p.proto {
        Some(ProtoTag::Ip) => seq![CompiledProto::Ip],
        Some(ProtoTag::Ip6) => seq![CompiledProto::Ip6],
        Some(ProtoTag::Arp) => seq![CompiledProto::Arp],
        Some(ProtoTag::Tcp) => seq![CompiledProto::Tcp],
        Some(ProtoTag::Udp) => seq![CompiledProto::Udp],
        Some(ProtoTag::Icmp) => seq![CompiledProto::Icmp],
        None => match p.ty {
            PrimType::Host(AddrLit::V4(_)) | PrimType::Net(AddrLit::V4(_), _) => seq![
                CompiledProto::Ip,
                CompiledProto::Arp,
                CompiledProto::Rarp,
            ],
            PrimType::Host(AddrLit::V6(_)) | PrimType::Net(AddrLit::V6(_), _) => seq![
                CompiledProto::Ip6,
            ],
            PrimType::Port(_) | PrimType::PortRange(_, _) => seq![
                CompiledProto::Tcp,
                CompiledProto::Udp,
                CompiledProto::Sctp,
            ],
        },
    }
}

/// What a primitive stands for, as an explicit list.
proof fn lemma_leaves(p: Primitive)
    ensures
        desugar::leaves_upto(p, desugar::protos_of(p).len()) == {
            let q = candidates(p);
            match (q.len() == 1, p.dir) {
                (true, Some(d)) => seq![desugar::leaf(p, q[0], d)],
                (true, None) => seq![
                    desugar::leaf(p, q[0], DirTag::Src),
                    desugar::leaf(p, q[0], DirTag::Dst),
                ],
                (false, Some(d)) => seq![
                    desugar::leaf(p, q[0], d),
                    desugar::leaf(p, q[1], d),
                    desugar::leaf(p, q[2], d),
                ],
                (false, None) => seq![
                    desugar::leaf(p, q[0], DirTag::Src),
                    desugar::leaf(p, q[0], DirTag::Dst),
                    desugar::leaf(p, q[1], DirTag::Src),
                    desugar::leaf(p, q[1], DirTag::Dst),
                    desugar::leaf(p, q[2], DirTag::Src),
                    desugar::leaf(p, q[2], DirTag::Dst),
                ],
            }
        },
{
    reveal_with_fuel(desugar::leaves_upto, 4);
    assert(desugar::protos_of(p) =~= candidates(p));
}

/// The outcome of a primitive that has code is true if one of what it stands for matches.
proof fn lemma_primitive_accepts(p: Primitive, link_type: LinkType, packet: Seq<u8>)
    requires
        p.ty.prefix_fits(),
        forall|i: int|
            0 <= i < candidates(p).len() ==> leaf_has_code(
                p,
                #[trigger] candidates(p)[i],
                link_type,
            ),
    ensures
        semantics::accepts(desugar::expanded(Expr::Primitive(p)), link_type, packet) == match p.dir {
            Some(d) => any_matches(p, d, link_type, packet),
            None => any_matches(p, DirTag::Src, link_type, packet) || any_matches(
                p,
                DirTag::Dst,
                link_type,
                packet,
            ),
        },
{
    let q = candidates(p);
    let l3 = link_type.l3();
    let leaves = desugar::leaves_upto(p, desugar::protos_of(p).len());
    lemma_leaves(p);
    reveal(leaf_outcome);
    assert(q.len() == 1 || q.len() == 3);
    lemma_leaf(p, q[0], DirTag::Src, link_type, packet);
    lemma_leaf(p, q[0], DirTag::Dst, link_type, packet);
    if q.len() == 3 {
        lemma_leaf(p, q[1], DirTag::Src, link_type, packet);
        lemma_leaf(p, q[1], DirTag::Dst, link_type, packet);
        lemma_leaf(p, q[2], DirTag::Src, link_type, packet);
        lemma_leaf(p, q[2], DirTag::Dst, link_type, packet);
        assert(apart(q[0], q[1]) && apart(q[0], q[2]) && apart(q[1], q[2]));
        assert(apart(q[1], q[0]) && apart(q[2], q[0]) && apart(q[2], q[1]));
    }
    lemma_any_of_accepts(leaves, l3, packet);
    if q.len() == 1 {
        if p.dir is Some {
            assert(leaves[0] == desugar::leaf(p, q[0], p.dir->0));
        } else {
            assert(leaves[0] == desugar::leaf(p, q[0], DirTag::Src));
            assert(leaves[1] == desugar::leaf(p, q[0], DirTag::Dst));
        }
    } else if p.dir is Some {
        assert(leaves[0] == desugar::leaf(p, q[0], p.dir->0));
        assert(leaves[1] == desugar::leaf(p, q[1], p.dir->0));
        assert(leaves[2] == desugar::leaf(p, q[2], p.dir->0));
    } else {
        assert(leaves[0] == desugar::leaf(p, q[0], DirTag::Src));
        assert(leaves[1] == desugar::leaf(p, q[0], DirTag::Dst));
        assert(leaves[2] == desugar::leaf(p, q[1], DirTag::Src));
        assert(leaves[3] == desugar::leaf(p, q[1], DirTag::Dst));
        assert(leaves[4] == desugar::leaf(p, q[2], DirTag::Src));
        assert(leaves[5] == desugar::leaf(p, q[2], DirTag::Dst));
    }
}

/// Whether a packet matches one of what a primitive stands for, in a direction.
spec fn any_matches(p: Primitive, d: DirTag, link_type: LinkType, packet: Seq<u8>) -> bool {
    let q = candidates(p);
    ||| leaf_matches(p.ty, q[0], d, link_type, packet)
    ||| q.len() == 3 && leaf_matches(p.ty, q[1], d, link_type, packet)
    ||| q.len() == 3 && leaf_matches(p.ty, q[2], d, link_type, packet)
}

/// What a packet matches of what a primitive stands for, in terms of its keyword.
proof fn lemma_any_matches(p: Primitive, d: DirTag, link_type: LinkType, packet: Seq<u8>)
    requires
        means_something(p, link_type),
    ensures
        any_matches(p, d, link_type, packet) == matches_in(p, d, link_type, packet),
{
    reveal(leaf_matches);
}

/// A primitive has code on a link type exactly if it means something there.
pub proof fn primitives_compile_where_they_mean_something(p: Primitive, link_type: LinkType)
    ensures
        codegen::first_failure(desugar::expanded(Expr::Primitive(p)), link_type.l3()) is None
            <==> means_something(p, link_type),
{
    let q = candidates(p);
    let leaves = desugar::leaves_upto(p, desugar::protos_of(p).len());
    lemma_leaves(p);
    lemma_any_of_has_code(leaves, link_type.l3());
    let d = match p.dir {
        Some(d) => d,
        None => DirTag::Src,
    };
    let step = if p.dir is None {
        2int
    } else {
        1int
    };
    assert(leaves[0] == desugar::leaf(p, q[0], d));
    if q.len() == 3 {
        assert(leaves[step] == desugar::leaf(p, q[1], d));
        assert(leaves[2 * step] == desugar::leaf(p, q[2], d));
    }
}

/// A primitive that means nothing fails as such, and the failure covers all of it.
pub proof fn primitive_failures_cover_the_primitive(p: Primitive, link_type: LinkType)
    ensures
        codegen::first_failure(
            desugar::expanded(Expr::Primitive(p)),
            link_type.l3(),
        ) matches Some(failure) ==> failure.reason is InvalidPrimitiveCombination
            && failure.offset == p.offset,
{
    lemma_leaves(p);
    lemma_any_of_fails(
        desugar::leaves_upto(p, desugar::protos_of(p).len()),
        link_type.l3(),
        p.offset,
    );
}

/// The failure of a disjunction is that of one of its parts.
proof fn lemma_any_of_fails(leaves: Seq<ExpandedExpr>, l3: L3OffsetInfo, offset: Range<usize>)
    requires
        leaves.len() > 0,
        forall|i: int|
            0 <= i < leaves.len() ==> (#[trigger] leaves[i]) is Leaf && leaves[i]->Leaf_0.offset
                == offset,
    ensures
        codegen::first_failure(desugar::any_of(leaves), l3) matches Some(failure)
            ==> failure.reason is InvalidPrimitiveCombination && failure.offset == offset,
    decreases leaves.len(),
{
    reveal_with_fuel(codegen::first_failure, 2);
    assert(leaves[leaves.len() - 1] == leaves.last());
    if leaves.len() > 1 {
        let first = leaves.drop_last();
        assert forall|i: int| 0 <= i < first.len() implies (#[trigger] first[i]) is Leaf
            && first[i]->Leaf_0.offset == offset by {
            assert(first[i] == leaves[i]);
        }
        lemma_any_of_fails(first, l3, offset);
    }
}

/// A primitive that means something accepts the packets that match it, and no others.
pub proof fn primitives_accept_what_they_describe(
    p: Primitive,
    link_type: LinkType,
    packet: Seq<u8>,
)
    requires
        means_something(p, link_type),
        p.ty.prefix_fits(),
    ensures
        semantics::accepts(desugar::expanded(Expr::Primitive(p)), link_type, packet) == matches(
            p,
            link_type,
            packet,
        ),
{
    assert forall|i: int| 0 <= i < candidates(p).len() implies leaf_has_code(
        p,
        #[trigger] candidates(p)[i],
        link_type,
    ) by {
        reveal(leaf_has_code);
    }
    lemma_primitive_accepts(p, link_type, packet);
    lemma_any_matches(p, DirTag::Src, link_type, packet);
    lemma_any_matches(p, DirTag::Dst, link_type, packet);
}

// ---------------------------------------------------------------------------------------------
// Short code
// ---------------------------------------------------------------------------------------------

/// The code of a resolved primitive is short.
proof fn lemma_short_primitive(
    p: CompiledPrimitive,
    l3: L3OffsetInfo,
    dir: DirTag,
    on_true: nat,
    on_false: nat,
    next: nat,
)
    requires
        p.ty.prefix_fits(),
    ensures
        codegen::prologue_code(p, l3, on_false, next).stream.len() <= 12,
        codegen::terminal_code(p, dir, l3, on_true, on_false, next).stream.len() <= 16,
{
    reveal_with_fuel(codegen::words_code, 5);
}

/// The code of a disjunction of resolved primitives is short if there are few.
proof fn lemma_short_disjunction(
    leaves: Seq<ExpandedExpr>,
    l3: L3OffsetInfo,
    on_true: nat,
    on_false: nat,
    next: nat,
)
    requires
        leaves.len() > 0,
        forall|i: int|
            0 <= i < leaves.len() ==> (#[trigger] leaves[i]) is Leaf
                && leaves[i]->Leaf_0.ty.prefix_fits(),
    ensures
        codegen::expr_code(
            desugar::any_of(leaves),
            l3,
            on_true,
            on_false,
            next,
        ).stream.len() <= 29 * leaves.len(),
    decreases leaves.len(),
{
    let n = leaves.len() - 1;
    let last = leaves[n];
    assert(last == leaves.last());
    if n == 0 {
        let p = last->Leaf_0;
        let prologue = codegen::prologue_code(p, l3, on_false, next);
        lemma_short_primitive(p, l3, p.dir, on_true, on_false, next);
        lemma_short_primitive(p, l3, p.dir, on_true, on_false, prologue.labels);
    } else {
        let first = leaves.drop_last();
        let l = desugar::any_of(first);
        let whole = codegen::expr_code(desugar::any_of(leaves), l3, on_true, on_false, next);
        assert forall|i: int| 0 <= i < n implies (#[trigger] first[i]) is Leaf
            && first[i]->Leaf_0.ty.prefix_fits() by {
            assert(first[i] == leaves[i]);
        }
        let p2 = last->Leaf_0;
        if l is Leaf && codegen::is_dir_pair(l->Leaf_0, p2) {
            let p1 = l->Leaf_0;
            assert(p1.ty == p2.ty);
            let prologue = codegen::prologue_code(p1, l3, on_false, next);
            let mid = prologue.labels;
            let head = codegen::terminal_code(p1, p1.dir, l3, on_true, mid, mid + 1);
            lemma_short_primitive(p1, l3, p1.dir, on_true, on_false, next);
            lemma_short_primitive(p1, l3, p1.dir, on_true, mid, mid + 1);
            lemma_short_primitive(p1, l3, p2.dir, on_true, on_false, head.labels);
            assert(whole == codegen::dir_pair_code(p1, p2, l3, on_true, on_false, next));
            assert(n >= 1);
        } else {
            lemma_short_disjunction(first, l3, on_true, next, next + 1);
            let head = codegen::expr_code(l, l3, on_true, next, next + 1);
            let at = head.labels;
            let prologue = codegen::prologue_code(p2, l3, on_false, at);
            lemma_short_primitive(p2, l3, p2.dir, on_true, on_false, at);
            lemma_short_primitive(p2, l3, p2.dir, on_true, on_false, prologue.labels);
            assert(codegen::expr_code(last, l3, on_true, on_false, at)
                == codegen::primitive_code(p2, l3, on_true, on_false, at));
        }
    }
}

/// A primitive that means something compiles: its code is short, so no branch is too far.
pub proof fn primitives_assemble(p: Primitive, link_type: LinkType, snaplen: u32)
    requires
        p.ty.prefix_fits(),
    ensures
        ({
            let code = codegen::program_code(
                desugar::expanded(Expr::Primitive(p)),
                link_type,
                snaplen,
            );
            &&& backpatch::assembled(code) is Ok
            &&& backpatch::assembled(code)->Ok_0.len() <= 178
        }),
{
    let filter = desugar::expanded(Expr::Primitive(p));
    let code = codegen::program_code(filter, link_type, snaplen);
    lemma_leaves(p);
    lemma_short_disjunction(
        desugar::leaves_upto(p, desugar::protos_of(p).len()),
        link_type.l3(),
        0,
        1,
        2,
    );
    correctness::generated_code_is_well_formed(filter, link_type, snaplen);
    backpatch::short_code_assembles(code, code.stream.len());
}

} // verus!
