//! Generated code, as listings with resolved labels.

use cbpf_rs::codegen::generate;
use cbpf_rs::desugar::{expand, ExpandedExpr};
use cbpf_rs::irep::{IrInsn, IrOp, IrOp2, IrProgram, Label};
use cbpf_rs::lexer::lex;
use cbpf_rs::parser::parse;
use cbpf_rs::{ErrorTag, LinkType};

const SNAPLEN: u32 = 0xFFFF_FFFF;

fn get_expanded(src: &str) -> ExpandedExpr {
    let tokens = lex(src).unwrap();
    let expr = parse(&tokens).unwrap();
    expand(&expr)
}

fn get_gen(src: &str) -> IrProgram {
    generate(&get_expanded(src), LinkType::Ethernet, SNAPLEN).expect("codegen")
}

/// Real instructions only, `Mark`s are zero-width and hold no index of their own.
fn ops(p: &IrProgram) -> Vec<IrOp2> {
    p.stream
        .iter()
        .filter_map(|it| match it {
            IrOp::Real(IrInsn { op, .. }) => Some(*op),
            IrOp::Mark(_) => None,
        })
        .collect()
}

fn label_positions(p: &IrProgram) -> Vec<Option<usize>> {
    let mut pos = vec![None; p.num_labels];
    let mut emitted = 0usize;
    for it in &p.stream {
        match it {
            IrOp::Real(_) => emitted += 1,
            IrOp::Mark(l) => {
                assert!(pos[l.index()].is_none(), "label {} placed twice", l.index());
                pos[l.index()] = Some(emitted);
            }
        }
    }
    pos
}

/// Renders the program with labels resolved to instruction indices, in `tcpdump -d` style.
fn render(p: &IrProgram) -> String {
    let pos = label_positions(p);
    let at = |l: Label| pos[l.index()].expect("label placed");
    let mut out = String::new();
    for (i, op) in ops(p).iter().enumerate() {
        let line = match *op {
            IrOp2::LdhAbs(k) => format!("ldh      [{k}]"),
            IrOp2::LdbAbs(k) => format!("ldb      [{k}]"),
            IrOp2::LdwAbs(k) => format!("ld       [{k}]"),
            IrOp2::LdxMsh(k) => format!("ldxb     4*([{k}]&0xf)"),
            IrOp2::LdhInd(k) => format!("ldh      [x + {k}]"),
            IrOp2::AndK(k) => format!("and      #{k:#x}"),
            IrOp2::Jeq { imm, jt, jf } => {
                format!("jeq      #{imm:#x}  jt {} jf {}", at(jt), at(jf))
            }
            IrOp2::Jgt { imm, jt, jf } => {
                format!("jgt      #{imm:#x}  jt {} jf {}", at(jt), at(jf))
            }
            IrOp2::Jge { imm, jt, jf } => {
                format!("jge      #{imm:#x}  jt {} jf {}", at(jt), at(jf))
            }
            IrOp2::Jset { imm, jt, jf } => {
                format!("jset     #{imm:#x}  jt {} jf {}", at(jt), at(jf))
            }
            IrOp2::Jmp { target } => format!("ja       {}", at(target)),
            IrOp2::Ret(k) => format!("ret      #{k}"),
        };
        out.push_str(&format!("({i:03}) {line}\n"));
    }
    out
}

/// The canonical filter, pinned instruction for instruction. Any change to lowering,
/// gate order or sharing shows up here as a readable diff instead of a silent behaviour
/// change and this listing is ~comparable to `tcpdump -d 'tcp port 80'` (if IPv4 only).
#[test]
fn tcp_port_80() {
    let expected = "\
(000) ldh      [12]
(001) jeq      #0x800  jt 2 jf 12
(002) ldb      [23]
(003) jeq      #0x6  jt 4 jf 12
(004) ldh      [20]
(005) jset     #0x1fff  jt 12 jf 6
(006) ldxb     4*([14]&0xf)
(007) ldh      [x + 14]
(008) jeq      #0x50  jt 11 jf 9
(009) ldh      [x + 16]
(010) jeq      #0x50  jt 11 jf 12
(011) ret      #4294967295
(012) ret      #0
";
    assert_eq!(render(&get_gen("tcp port 80")), expected);
}

/// Same filter over Linux cooked capture: everything shifts by the 2 extra header bytes (ethertype at 14, `ip_base` 16).
#[test]
fn tcp_port_80_linux_sll() {
    let program =
        generate(&get_expanded("tcp port 80"), LinkType::LinuxSll, SNAPLEN).expect("codegen");
    let expected = "\
(000) ldh      [14]
(001) jeq      #0x800  jt 2 jf 12
(002) ldb      [25]
(003) jeq      #0x6  jt 4 jf 12
(004) ldh      [22]
(005) jset     #0x1fff  jt 12 jf 6
(006) ldxb     4*([16]&0xf)
(007) ldh      [x + 16]
(008) jeq      #0x50  jt 11 jf 9
(009) ldh      [x + 18]
(010) jeq      #0x50  jt 11 jf 12
(011) ret      #4294967295
(012) ret      #0
";
    assert_eq!(render(&program), expected);
}

/// Raw has no link-layer header: no ethertype gate, and every offset is relative to byte 0.
#[test]
fn tcp_port_80_raw() {
    let program =
        generate(&get_expanded("tcp port 80"), LinkType::Raw, SNAPLEN).expect("codegen");
    let expected = "\
(000) ldb      [9]
(001) jeq      #0x6  jt 2 jf 10
(002) ldh      [6]
(003) jset     #0x1fff  jt 10 jf 4
(004) ldxb     4*([0]&0xf)
(005) ldh      [x + 0]
(006) jeq      #0x50  jt 9 jf 7
(007) ldh      [x + 2]
(008) jeq      #0x50  jt 9 jf 10
(009) ret      #4294967295
(010) ret      #0
";
    assert_eq!(render(&program), expected);
}

/// `arp` is defined by its ethertype, which Raw doesn't have.
#[test]
fn arp_host_is_rejected_on_raw() {
    let exp = get_expanded("arp host 10.0.0.1");
    assert!(matches!(
        generate(&exp, LinkType::Raw, SNAPLEN).unwrap_err().tag,
        ErrorTag::InvalidPrimitiveCombination(_)
    ));
}

#[test]
fn ip6_src_host() {
    // Same listing as `tcpdump -d 'ip6 src host 2001:db8::1'`, up to the `ret` value (snaplen).
    let expected = "\
(000) ldh      [12]
(001) jeq      #0x86dd  jt 2 jf 11
(002) ld       [22]
(003) jeq      #0x20010db8  jt 4 jf 11
(004) ld       [26]
(005) jeq      #0x0  jt 6 jf 11
(006) ld       [30]
(007) jeq      #0x0  jt 8 jf 11
(008) ld       [34]
(009) jeq      #0x1  jt 10 jf 11
(010) ret      #4294967295
(011) ret      #0
";
    assert_eq!(render(&get_gen("ip6 src host 2001:db8::1")), expected);
}

/// A prefix ending inside a word masks only that word, and the words after it are not compared at all.
/// A /33 needs two words: all of the first, and the top bit of the second (dst words are at 14 + 24 = 38 and 42).
#[test]
fn ip6_net_prefix_ending_inside_a_word() {
    let expected = "\
(000) ldh      [12]
(001) jeq      #0x86dd  jt 2 jf 8
(002) ld       [38]
(003) jeq      #0x20010db8  jt 4 jf 8
(004) ld       [42]
(005) and      #0x80000000
(006) jeq      #0x0  jt 7 jf 8
(007) ret      #4294967295
(008) ret      #0
";
    assert_eq!(render(&get_gen("ip6 dst net 2001:db8::/33")), expected);
}

#[test]
fn ip6_net_prefix_on_a_word_boundary_needs_no_mask() {
    let listing = render(&get_gen("ip6 src net 2001:db8::/32"));
    assert!(
        !listing.contains("and"),
        "a /32 is exactly one whole word:\n{listing}"
    );
    assert!(listing.contains("ld       [22]"));
    assert!(!listing.contains("[26]"));
}

/// `/0` matches every IPv6 packet: only the ethertype gate remains, then an unconditional jump to accept.
#[test]
fn ip6_net_zero_prefix_matches_every_ipv6_packet() {
    let expected = "\
(000) ldh      [12]
(001) jeq      #0x86dd  jt 2 jf 4
(002) ja       3
(003) ret      #4294967295
(004) ret      #0
";
    assert_eq!(render(&get_gen("ip6 src net ::/0")), expected);
}

#[test]
fn ip6_net_full_prefix_equals_host() {
    assert_eq!(
        render(&get_gen("ip6 dst net ::1/128")),
        render(&get_gen("ip6 dst host ::1"))
    );
}

/// The bare `host` form expands to `ip6 src or ip6 dst`, which must share one ethertype gate.
#[test]
fn bare_ip6_host_shares_the_ethertype_gate() {
    let listing = render(&get_gen("host ::1"));
    assert_eq!(listing.matches("ldh      [12]").count(), 1, "{listing}");
    assert_eq!(listing.matches("#0x86dd").count(), 1, "{listing}");
    assert!(listing.contains("ld       [22]"), "src words:\n{listing}");
    assert!(listing.contains("ld       [38]"), "dst words:\n{listing}");
}

#[test]
fn ip6_host_on_linux_sll_shifts_by_two_bytes() {
    let program = generate(
        &get_expanded("ip6 src host ::1"),
        LinkType::LinuxSll,
        SNAPLEN,
    )
    .expect("codegen");
    let listing = render(&program);
    assert!(listing.starts_with("(000) ldh      [14]\n(001) jeq      #0x86dd"));
    assert!(listing.contains("ld       [24]")); // ip_base 16 + 8
}

#[test]
fn ipv6_address_needs_the_ip6_protocol() {
    for src in ["ip host ::1", "arp host ::1", "ip src net ::1/64"] {
        let exp = get_expanded(src);
        assert!(
            matches!(
                generate(&exp, LinkType::Ethernet, SNAPLEN).unwrap_err().tag,
                ErrorTag::InvalidPrimitiveCombination(_)
            ),
            "{src}"
        );
    }
}

#[test]
fn ip6_rejects_an_ipv4_address() {
    let exp = get_expanded("ip6 host 1.2.3.4");
    assert!(matches!(
        generate(&exp, LinkType::Ethernet, SNAPLEN).unwrap_err().tag,
        ErrorTag::InvalidPrimitiveCombination(_)
    ));
}

/// Raw has no ethertype to tell IPv6 from IPv4 with, so an `ip6` primitive can't be compiled for it yet.
#[test]
fn ip6_is_rejected_on_raw() {
    let exp = get_expanded("ip6 host ::1");
    assert!(matches!(
        generate(&exp, LinkType::Raw, SNAPLEN).unwrap_err().tag,
        ErrorTag::InvalidPrimitiveCombination(_)
    ));
}
