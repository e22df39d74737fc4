//! Default expansion.

use cbpf_rs::ast::{AddrLit, DirTag, PrimType};
use cbpf_rs::desugar::{expand, CompiledProto, ExpandedExpr};
use cbpf_rs::lexer::lex;
use cbpf_rs::parser::parse;

/// Renders an `ExpandedExpr` compactly for test assertions - spans aren't compared (a leaf's
/// offset always equals the source `Primitive`'s offset at this stage, so comparing it adds nothing
/// but noise to a hand-written expected string).
fn render(e: &ExpandedExpr) -> String {
    match e {
        ExpandedExpr::Leaf(p) => {
            let proto = match p.proto {
                CompiledProto::Ip => "ip",
                CompiledProto::Ip6 => "ip6",
                CompiledProto::Arp => "arp",
                CompiledProto::Rarp => "rarp",
                CompiledProto::Tcp => "tcp",
                CompiledProto::Udp => "udp",
                CompiledProto::Icmp => "icmp",
                CompiledProto::Sctp => "sctp",
            };
            let dir = match p.dir {
                DirTag::Src => "src",
                DirTag::Dst => "dst",
            };
            let ty = match &p.ty {
                PrimType::Host(AddrLit::V4(a)) => format!("host={a:#x}"),
                PrimType::Host(AddrLit::V6(_)) => String::from("host=v6"),
                PrimType::Net(AddrLit::V4(a), pfx) => format!("net={a:#x}/{pfx:?}"),
                PrimType::Net(AddrLit::V6(_), _) => String::from("net=v6"),
                PrimType::Port(n) => format!("port={n}"),
                PrimType::PortRange(lo, hi) => format!("portrange={lo}-{hi}"),
            };
            format!("{proto}&{dir} {ty}")
        }
        ExpandedExpr::Not(inner) => format!("!{}", render(inner)),
        ExpandedExpr::And(l, r) => format!("({} & {})", render(l), render(r)),
        ExpandedExpr::Or(l, r) => format!("({} | {})", render(l), render(r)),
    }
}

fn expand_src(src: &str) -> String {
    let tokens = lex(src).unwrap();
    let ast = parse(&tokens).unwrap();
    render(&expand(&ast))
}

#[test]
fn proto_and_dir_both_given_expands_to_nothing() {
    assert_eq!(expand_src("tcp src port 80"), "tcp&src port=80");
}

#[test]
fn proto_given_dir_missing_expands_to_dir_or() {
    // The canonical "tcp port 80" shape: a single OR over dir, proto held fixed, whose two sides
    // share their gates in generated code.
    assert_eq!(
        expand_src("tcp port 80"),
        "(tcp&src port=80 | tcp&dst port=80)"
    );
}

#[test]
fn dir_given_proto_missing_host_expands_to_ip_arp_rarp() {
    assert_eq!(
        expand_src("src host 1.2.3.4"),
        "((ip&src host=0x1020304 | arp&src host=0x1020304) | rarp&src host=0x1020304)"
    );
}

#[test]
fn dir_given_proto_missing_port_expands_to_tcp_udp_sctp() {
    assert_eq!(
        expand_src("src port 80"),
        "((tcp&src port=80 | udp&src port=80) | sctp&src port=80)"
    );
}

#[test]
fn both_missing_is_the_full_cartesian_product() {
    let rendered = expand_src("host 1.2.3.4");
    // 3 protos x 2 dirs = 6 leaves, folded left-to-right.
    assert_eq!(rendered.matches("host=0x1020304").count(), 6);
    assert!(rendered.starts_with("(((((ip&src"));
}

#[test]
fn not_and_or_pass_through_structurally() {
    assert_eq!(
        expand_src("tcp src port 80 and not udp dst port 53"),
        "(tcp&src port=80 & !udp&dst port=53)"
    );
}
