//! Syntax trees of source texts.

use cbpf_rs::ast::{AddrLit, DirTag, Expr, PrimType, ProtoTag};
use cbpf_rs::lexer::lex;
use cbpf_rs::parser::parse;
use cbpf_rs::ErrorTag;

fn render(src: &str) -> String {
    fn go(e: &Expr, out: &mut String) {
        match e {
            Expr::Primitive(p) => {
                out.push_str(match p.proto {
                    Some(ProtoTag::Ip) => "ip",
                    Some(ProtoTag::Ip6) => "ip6",
                    Some(ProtoTag::Arp) => "arp",
                    Some(ProtoTag::Tcp) => "tcp",
                    Some(ProtoTag::Udp) => "udp",
                    Some(ProtoTag::Icmp) => "icmp",
                    None => "*",
                });
                out.push('&');
                out.push_str(match p.dir {
                    Some(DirTag::Src) => "src",
                    Some(DirTag::Dst) => "dst",
                    None => "*",
                });
                match &p.ty {
                    PrimType::Host(AddrLit::V4(a)) => out.push_str(&format!(" host={a:#x}")),
                    PrimType::Host(AddrLit::V6(_)) => out.push_str(" host=v6"),
                    PrimType::Net(AddrLit::V4(a), pfx) => {
                        out.push_str(&format!(" net={a:#x}/{pfx:?}"))
                    }
                    PrimType::Net(AddrLit::V6(_), _) => out.push_str(" net=v6"),
                    PrimType::Port(p) => out.push_str(&format!(" port={p}")),
                    PrimType::PortRange(lo, hi) => {
                        out.push_str(&format!(" portrange={lo}-{hi}"))
                    }
                }
            }
            Expr::Not(inner, _) => {
                out.push('!');
                go(inner, out);
            }
            Expr::And(l, r, _) => {
                out.push('(');
                go(l, out);
                out.push_str(" & ");
                go(r, out);
                out.push(')');
            }
            Expr::Or(l, r, _) => {
                out.push('(');
                go(l, out);
                out.push_str(" | ");
                go(r, out);
                out.push(')');
            }
        }
    }
    let tokens = lex(src).unwrap();
    let expr = parse(&tokens).unwrap();
    let mut out = String::new();
    go(&expr, &mut out);
    out
}

#[test]
fn proto_and_type_only() {
    assert_eq!(render("tcp port 80"), "tcp&* port=80");
}

#[test]
fn full_primitive() {
    assert_eq!(render("ip src host 1.2.3.4"), "ip&src host=0x1020304");
}

#[test]
fn precedence_not_and_or() {
    // not binds tighter than and, and binds tighter than or.
    assert_eq!(
        render("tcp port 80 or udp port 53 and not icmp port 1"),
        "(tcp&* port=80 | (udp&* port=53 & !icmp&* port=1))"
    );
}

#[test]
fn parens_override_precedence() {
    assert_eq!(
        render("(tcp port 80 or udp port 53) and not icmp port 1"),
        "((tcp&* port=80 | udp&* port=53) & !icmp&* port=1)"
    );
}

#[test]
fn portrange_parses() {
    assert_eq!(render("portrange 8000-8008"), "*&* portrange=8000-8008");
}

#[test]
fn cidr_net() {
    assert_eq!(render("net 10.0.0.0/8"), "*&* net=0xa000000/Some(8)");
}

#[test]
fn portrange_lo_gt_hi_is_an_error() {
    let tokens = lex("portrange 90-80").unwrap();
    let err = parse(&tokens).unwrap_err();
    assert_eq!(err.tag, ErrorTag::InvalidPortRange { lo: 90, hi: 80 });
}

#[test]
fn unbalanced_parens_is_an_error() {
    let tokens = lex("(tcp port 80").unwrap();
    assert_eq!(parse(&tokens).unwrap_err().tag, ErrorTag::UnbalancedParens);

    let tokens = lex("tcp port 80)").unwrap();
    assert!(matches!(
        parse(&tokens).unwrap_err().tag,
        ErrorTag::UnexpectedToken { .. }
    ));
}

#[test]
fn empty_expression_is_an_error() {
    let tokens = lex("").unwrap();
    assert_eq!(parse(&tokens).unwrap_err().tag, ErrorTag::EmptyExpression);
}

#[test]
fn space_empty_expression_is_an_error() {
    let tokens = lex("   ").unwrap();
    assert_eq!(parse(&tokens).unwrap_err().tag, ErrorTag::EmptyExpression);
}

#[test]
fn host_rejects_explicit_prefix() {
    let tokens = lex("host 1.2.3.4/24").unwrap();
    assert!(matches!(
        parse(&tokens).unwrap_err().tag,
        ErrorTag::InvalidIPv4Literal(_)
    ));
}

#[test]
fn rarp_and_sctp_are_not_directly_typable() {
    let tokens = lex("rarp host 1.2.3.4").unwrap();
    assert!(
        matches!(parse(&tokens).unwrap_err().tag, ErrorTag::UnknownKeyword(w) if w == "rarp")
    );

    let tokens = lex("sctp port 80").unwrap();
    assert!(
        matches!(parse(&tokens).unwrap_err().tag, ErrorTag::UnknownKeyword(w) if w == "sctp")
    );
}

#[test]
fn missing_type_qualifier_is_an_error() {
    let tokens = lex("tcp and udp").unwrap();
    let err = parse(&tokens).unwrap_err();
    assert!(
        matches!(err.tag, ErrorTag::UnexpectedToken { expected, .. } if expected.contains("host"))
    );
}
