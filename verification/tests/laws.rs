//! The library's laws, on concrete values.

use cbpf_rs::ast::Expr;
use cbpf_rs::lexer::{lex, TokenTag};
use cbpf_rs::parser::parse;
use cbpf_rs::{compile, ErrorTag, Insn, LinkType, Program, KEEP_WHOLE_PACKET};

fn program(src: &str, link_type: LinkType) -> Program {
    compile(src, link_type, KEEP_WHOLE_PACKET).unwrap()
}

fn listing(src: &str) -> String {
    program(src, LinkType::Ethernet).to_string()
}

/// An Ethernet frame with an IPv4 header of `ihl` words, from 10.0.0.1 to 192.168.1.2, and ports.
fn frame(ip_proto: u8, ihl: u8, src_port: u16, dst_port: u16) -> Vec<u8> {
    let mut packet = vec![0u8; 14 + 4 * ihl as usize + 8];
    packet[12] = 0x08;
    packet[14] = 0x40 + ihl;
    packet[23] = ip_proto;
    packet[26..30].copy_from_slice(&[10, 0, 0, 1]);
    packet[30..34].copy_from_slice(&[192, 168, 1, 2]);
    let ports = 14 + 4 * ihl as usize;
    packet[ports..ports + 2].copy_from_slice(&src_port.to_be_bytes());
    packet[ports + 2..ports + 4].copy_from_slice(&dst_port.to_be_bytes());
    packet
}

const FILTERS: [&str; 10] = [
    "tcp port 80",
    "udp port 53",
    "port 80",
    "not tcp port 80",
    "host 10.0.0.1",
    "ip src net 10.0.0.0/8 and not dst port 443",
    "tcp portrange 80-90 or udp portrange 50-60",
    "icmp host 192.168.1.2",
    "net 192.168.0.0/16",
    "not (arp host 10.0.0.1 or tcp src port 1024)",
];

#[test]
fn an_accepted_packet_gets_the_capture_length() {
    let packet = frame(6, 5, 1024, 80);
    for snaplen in [1, 96, KEEP_WHOLE_PACKET] {
        let program = compile("tcp dst port 80", LinkType::Ethernet, snaplen).unwrap();
        assert_eq!(program.run(&packet), snaplen);
        assert!(program.matches(&packet));
        assert_eq!(program.run(&frame(6, 5, 80, 1024)), 0);
    }
    let program = compile("tcp dst port 80", LinkType::Ethernet, 0).unwrap();
    assert_eq!(program.run(&packet), 0);
    assert!(!program.matches(&packet));
}

#[test]
fn compiled_programs_end_with_ret_and_jump_inside() {
    for src in FILTERS {
        let program = program(src, LinkType::Ethernet);
        let insns = program.instructions();
        for (index, insn) in insns.iter().enumerate() {
            if insn.is_conditional_jump() {
                assert!(index + 1 + (insn.jt as usize) < insns.len());
                assert!(index + 1 + (insn.jf as usize) < insns.len());
            }
        }
        assert_eq!(insns[insns.len() - 2], Insn::ret(KEEP_WHOLE_PACKET));
        assert_eq!(insns[insns.len() - 1], Insn::ret(0));
    }
}

#[test]
fn linux_sll_shifts_by_two_bytes() {
    for src in FILTERS {
        for packet in [frame(6, 5, 1024, 80), frame(17, 6, 53, 9), frame(1, 5, 0, 0)] {
            let mut cooked = vec![0u8; 2];
            cooked.extend_from_slice(&packet);
            assert_eq!(
                program(src, LinkType::LinuxSll).matches(&cooked),
                program(src, LinkType::Ethernet).matches(&packet),
                "{src}"
            );
        }
    }
}

#[test]
fn raw_packets_are_ipv4() {
    for src in ["tcp port 80", "udp src port 53", "ip host 10.0.0.1", "not ip net 10.0.0.0/8"] {
        for packet in [frame(6, 5, 1024, 80), frame(17, 15, 53, 9), frame(1, 5, 0, 0)] {
            assert_eq!(
                program(src, LinkType::Raw).matches(&packet[14..]),
                program(src, LinkType::Ethernet).matches(&packet),
                "{src}"
            );
        }
    }
}

#[test]
fn defaults_are_written_out() {
    assert_eq!(
        listing("tcp port 80"),
        listing("tcp src port 80 or tcp dst port 80")
    );
    assert_eq!(
        listing("ip6 host ::1"),
        listing("host ::1")
    );
    assert_eq!(
        listing("not tcp src port 1 and (udp src port 2 or udp src port 3)"),
        listing("! tcp src port 1 && ((udp src port 2) || udp src port 3)")
    );
}

#[test]
fn whole_nets_are_hosts_and_single_ports_are_ranges() {
    assert_eq!(listing("ip src net 1.2.3.4"), listing("ip src host 1.2.3.4"));
    assert_eq!(listing("net 1.2.3.4/32"), listing("host 1.2.3.4"));
    assert_eq!(listing("net ::1"), listing("host ::1"));
    assert_eq!(listing("portrange 80-80"), listing("port 80"));
    assert_eq!(listing("not not tcp port 80"), listing("tcp port 80"));
}

#[test]
fn later_fragments_match_no_port_in_any_range() {
    let program = program("portrange 0-65535", LinkType::Ethernet);
    let mut packet = frame(6, 5, 1024, 80);
    assert!(program.matches(&packet));
    packet[20] = 0x20; // more fragments follow: still the first
    assert!(program.matches(&packet));
    packet[20] = 0xe0; // all flags, offset zero
    assert!(program.matches(&packet));
    packet[20] = 0x10;
    assert!(!program.matches(&packet));
    packet[20] = 0;
    packet[21] = 1;
    assert!(!program.matches(&packet));
}

#[test]
fn the_header_length_finds_the_ports() {
    for ihl in 5..=15 {
        let packet = frame(6, ihl, 1024, 80);
        assert!(program("tcp dst port 80", LinkType::Ethernet).matches(&packet));
        assert!(!program("tcp src port 80", LinkType::Ethernet).matches(&packet));
    }
}

#[test]
fn ipv6_prefixes_compare_leading_bits() {
    let addr: u128 = 0x2001_0db8_89ab_cdef_0123_4567_7654_3210;
    let text = "2001:db8:89ab:cdef:123:4567:7654:3210";
    for bits in 0..=128u32 {
        let filter = format!("ip6 src net {text}/{bits}");
        let program = program(&filter, LinkType::Ethernet);
        for flipped in 0..128u32 {
            let mut packet = vec![0u8; 54];
            packet[12] = 0x86;
            packet[13] = 0xdd;
            let other = addr ^ (1u128 << (127 - flipped));
            packet[22..38].copy_from_slice(&other.to_be_bytes());
            assert_eq!(program.matches(&packet), flipped >= bits, "/{bits}, bit {flipped}");
        }
    }
    // With no bits to compare, the ethertype alone decides.
    let short = [0, 0, 0, 0, 0, 0, 0, 0, 0, 0, 0, 0, 0x86, 0xdd];
    assert!(program("ip6 src net ::/0", LinkType::Ethernet).matches(&short));
    assert!(!program("ip6 src net ::/1", LinkType::Ethernet).matches(&short));
}

#[test]
fn ipv4_prefixes_compare_leading_bits() {
    let addr: u32 = 0x89ab_cdef;
    for bits in 0..=32u32 {
        let program = program(&format!("ip dst net 137.171.205.239/{bits}"), LinkType::Ethernet);
        for flipped in 0..32u32 {
            let mut packet = frame(6, 5, 1, 2);
            let other = addr ^ (1u32 << (31 - flipped));
            packet[30..34].copy_from_slice(&other.to_be_bytes());
            assert_eq!(program.matches(&packet), flipped >= bits, "/{bits}, bit {flipped}");
        }
    }
}

/// A missing field rejects the packet, even under a `not`.
#[test]
fn short_packets_are_rejected() {
    let packet = frame(6, 5, 1024, 80);
    for src in ["tcp port 443", "not tcp port 443", "not ip host 1.1.1.1"] {
        assert!(!program(src, LinkType::Ethernet).matches(&packet[..13]), "{src}");
        assert!(!program(src, LinkType::Ethernet).matches(&[]), "{src}");
    }
    assert!(program("not tcp port 443", LinkType::Ethernet).matches(&packet));
    assert!(!program("not tcp port 443", LinkType::Ethernet).matches(&packet[..34]));
}

#[test]
fn arp_and_rarp_hosts_match_by_default() {
    let program = program("host 10.0.0.1", LinkType::Ethernet);
    for ethertype in [[0x08, 0x06], [0x80, 0x35]] {
        let mut packet = vec![0u8; 42];
        packet[12..14].copy_from_slice(&ethertype);
        assert!(!program.matches(&packet));
        packet[28..32].copy_from_slice(&[10, 0, 0, 1]);
        assert!(program.matches(&packet), "sender");
        packet[28..32].copy_from_slice(&[0; 4]);
        packet[38..42].copy_from_slice(&[10, 0, 0, 1]);
        assert!(program.matches(&packet), "target");
    }
}

#[test]
fn sctp_ports_match_by_default() {
    let program = program("port 80", LinkType::Ethernet);
    for ip_proto in [6, 17, 132] {
        assert!(program.matches(&frame(ip_proto, 5, 80, 1)));
        assert!(program.matches(&frame(ip_proto, 5, 1, 80)));
    }
    assert!(!program.matches(&frame(1, 5, 80, 80)));
}

#[test]
fn tokens_cover_their_text() {
    let src = "\u{2003}(tcp  port 80-\u{85}90) && !udp||x";
    let tokens = lex(src).unwrap();
    for token in &tokens {
        let there = &src[token.offset.clone()];
        match &token.tag {
            TokenTag::Word(word) => assert!(
                there == word
                    || (there == "!" && word == "not")
                    || (there == "&&" && word == "and")
                    || (there == "||" && word == "or")
            ),
            TokenTag::Dash => assert_eq!(there, "-"),
            TokenTag::LParen => assert_eq!(there, "("),
            TokenTag::RParen => assert_eq!(there, ")"),
            TokenTag::Eof => assert_eq!(token.offset, src.len()..src.len()),
        }
    }
    assert_eq!(tokens.last().unwrap().tag, TokenTag::Eof);
    assert_eq!(tokens.len(), 13);
}

/// `and` binds tighter than `or`, both nest to the left, and every node knows its part of the source.
#[test]
fn expressions_cover_their_text() {
    let src = " port 1 or port 2 and not port 3 or (port 4)";
    let expr = parse(&lex(src).unwrap()).unwrap();
    let Expr::Or(left, last, whole) = expr else {
        panic!("{expr:?}");
    };
    assert_eq!(&src[whole], "port 1 or port 2 and not port 3 or (port 4");
    assert!(matches!(*last, Expr::Primitive(ref p) if &src[p.offset.clone()] == "port 4"));
    let Expr::Or(first, rest, offset) = *left else {
        panic!("{left:?}");
    };
    assert_eq!(&src[offset], "port 1 or port 2 and not port 3");
    assert!(matches!(*first, Expr::Primitive(ref p) if &src[p.offset.clone()] == "port 1"));
    let Expr::And(second, negated, offset) = *rest else {
        panic!("{rest:?}");
    };
    assert_eq!(&src[offset], "port 2 and not port 3");
    assert!(matches!(*second, Expr::Primitive(ref p) if &src[p.offset.clone()] == "port 2"));
    assert!(matches!(*negated, Expr::Not(_, ref offset) if &src[offset.clone()] == "not port 3"));
}

#[test]
fn a_program_too_long_for_the_kernel_has_no_filter_len() {
    let program = Program::from_validated(vec![Insn::ret(0); 65535]);
    assert_eq!(program.filter_len(), Some(65535));
    let program = Program::from_validated(vec![Insn::ret(0); 65536]);
    assert_eq!(program.filter_len(), None);
}

#[test]
fn listings_show_targets_and_unknown_opcodes() {
    let program = Program::from_validated(vec![
        Insn::jmp(4),
        Insn::jge(16, 0, 1),
        Insn::jgt(0x1_0000, 2, 3),
        Insn { code: 0xffff, jt: 1, jf: 2, k: 3 },
    ]);
    assert_eq!(
        program.to_string(),
        "(000) ja       5\n\
         (001) jge      #0x10            jt 2\tjf 3\n\
         (002) jgt      #0x10000         jt 5\tjf 6\n\
         (003) unimp    0xffff"
    );
    assert_eq!(Program::from_validated(vec![]).to_string(), "");
    let long = Program::from_validated(vec![Insn::ret(1); 1001]).to_string();
    assert!(long.ends_with("(999) ret      #0x1\n(1000) ret      #0x1"));
}

/// The packets that the laws on connectives are tried on: each long enough to be decided.
fn long_packets() -> Vec<Vec<u8>> {
    let mut packets = vec![
        frame(6, 5, 1024, 80),
        frame(6, 5, 80, 443),
        frame(17, 6, 53, 9),
        frame(17, 15, 9, 55),
        frame(1, 5, 0, 0),
        vec![0u8; 14],
    ];
    for packet in packets.iter_mut() {
        packet.resize(14 + 68, 0);
    }
    packets
}

/// Whether two expressions are equal once both ends of every offset of the first are one larger.
fn one_further_on(inner: &Expr, outer: &Expr) -> bool {
    let next = |offset: &std::ops::Range<usize>| offset.start + 1..offset.end + 1;
    match (inner, outer) {
        (Expr::Primitive(p), Expr::Primitive(q)) => {
            p.proto == q.proto && p.dir == q.dir && p.ty == q.ty && next(&p.offset) == q.offset
        }
        (Expr::Not(e, at), Expr::Not(f, there)) => one_further_on(e, f) && next(at) == *there,
        (Expr::And(l, r, at), Expr::And(m, s, there))
        | (Expr::Or(l, r, at), Expr::Or(m, s, there)) => {
            one_further_on(l, m) && one_further_on(r, s) && next(at) == *there
        }
        _ => false,
    }
}

#[test]
fn parentheses_only_move_offsets() {
    for src in FILTERS {
        let inner = parse(&lex(src).unwrap()).unwrap();
        let outer = parse(&lex(&format!("({src})")).unwrap()).unwrap();
        assert!(one_further_on(&inner, &outer), "{src}");
    }
    let Expr::Primitive(p) = parse(&lex("((tcp port 80))").unwrap()).unwrap() else {
        panic!("not a primitive");
    };
    assert_eq!(p.offset, 2..13);
}

#[test]
fn the_capture_length_is_one_operand() {
    for src in FILTERS {
        let short = compile(src, LinkType::Ethernet, 96).unwrap();
        let whole = compile(src, LinkType::Ethernet, KEEP_WHOLE_PACKET).unwrap();
        let mut insns = short.instructions().to_vec();
        let at = insns.len() - 2;
        assert_eq!(insns[at], Insn::ret(96));
        insns[at] = Insn::ret(KEEP_WHOLE_PACKET);
        assert_eq!(insns, whole.instructions());
    }
    for src in ["tcp port", "arp port 80", "port 99999", "(host 1.2.3.4"] {
        let short = compile(src, LinkType::Ethernet, 96).unwrap_err();
        assert_eq!(short, compile(src, LinkType::Ethernet, 0).unwrap_err());
    }
}

#[test]
fn linux_sll_programs_load_two_bytes_later() {
    for src in FILTERS {
        let ethernet = program(src, LinkType::Ethernet);
        let later: Vec<Insn> = ethernet
            .instructions()
            .iter()
            .map(|insn| match insn.code {
                0x20 | 0x28 | 0x30 | 0x48 | 0xb1 => Insn { k: insn.k + 2, ..*insn },
                _ => *insn,
            })
            .collect();
        assert_eq!(program(src, LinkType::LinuxSll).instructions(), later, "{src}");
    }
    for src in ["tcp port", "arp port 80", "port 99999", "(host 1.2.3.4"] {
        let cooked = compile(src, LinkType::LinuxSll, 1).unwrap_err();
        assert_eq!(cooked, compile(src, LinkType::Ethernet, 1).unwrap_err());
    }
}

#[test]
fn programs_return_only_at_the_end() {
    for src in FILTERS {
        let program = compile(src, LinkType::LinuxSll, 96).unwrap();
        let insns = program.instructions();
        let (body, rets) = insns.split_at(insns.len() - 2);
        assert_eq!(rets, [Insn::ret(96), Insn::ret(0)]);
        assert!(body.iter().all(|insn| insn.code != 0x06), "{src}");
    }
}

#[test]
fn negated_sources_match_the_rest() {
    for src in FILTERS {
        let negated = program(&format!("not ({src})"), LinkType::Ethernet);
        for packet in long_packets() {
            assert_ne!(
                negated.matches(&packet),
                program(src, LinkType::Ethernet).matches(&packet),
                "{src}"
            );
        }
    }
    assert!(!program("tcp port 80", LinkType::Ethernet).matches(&[0; 13]));
    assert!(!program("not (tcp port 80)", LinkType::Ethernet).matches(&[0; 13]));
}

#[test]
fn conjoined_and_disjoined_sources_are_logical() {
    for a in FILTERS {
        for b in FILTERS {
            let both = program(&format!("({a}) and ({b})"), LinkType::Ethernet);
            let either = program(&format!("({a}) or ({b})"), LinkType::Ethernet);
            let first = program(a, LinkType::Ethernet);
            let second = program(b, LinkType::Ethernet);
            for packet in long_packets() {
                let (l, r) = (first.matches(&packet), second.matches(&packet));
                assert_eq!(both.matches(&packet), l && r, "{a} {b}");
                assert_eq!(either.matches(&packet), l || r, "{a} {b}");
                let cut = &packet[..20];
                assert_eq!(both.matches(cut), first.matches(cut) && second.matches(cut));
            }
        }
    }
}

/// The first branch of this filter goes as far as a branch can; in each of the others it or another goes
/// farther.
#[test]
fn connectives_can_make_a_branch_too_far() {
    let mut parts = vec!["ip src host 10.0.0.1"; 61];
    parts.extend(vec!["ip src net 10.0.0.0/8"; 3]);
    let far = parts.join(" or ");
    assert!(compile(&far, LinkType::Ethernet, 1).is_ok());
    assert!(compile(&format!("({far})"), LinkType::Ethernet, 1).is_ok());
    for src in [
        format!("not ({far})"),
        format!("(ip src host 10.0.0.1) and ({far})"),
        format!("({far}) or (ip src host 10.0.0.1)"),
    ] {
        let error = compile(&src, LinkType::Ethernet, 1).unwrap_err();
        assert!(matches!(
            error.tag,
            ErrorTag::JumpDisplacementOverflow { displacement: 256.., .. }
        ));
    }
}
