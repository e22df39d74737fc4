//! What each failure is, where it points and how it reads.

use cbpf_rs::{compile, CompileError, ErrorTag, LinkType, KEEP_WHOLE_PACKET};

fn failure(src: &str) -> CompileError {
    compile(src, LinkType::Ethernet, KEEP_WHOLE_PACKET).unwrap_err()
}

fn check(src: &str, start: usize, end: usize, message: &str) {
    let err = failure(src);
    assert_eq!((err.offset.start, err.offset.end), (start, end), "{src}");
    assert_eq!(err.tag.to_string(), message, "{src}");
    assert_eq!(err.to_string(), format!("{message} (at {start}..{end})"), "{src}");
    assert!(err.offset.end <= src.len());
}

#[test]
fn every_failure_reads_and_points_right() {
    check("tcp port 80 # web", 12, 13, "unexpected character '#'");
    check("tcp | udp", 4, 5, "unexpected character '|'");
    check(
        "tcp and udp",
        4,
        7,
        "expected 'host', 'net', 'port', or 'portrange', found 'and'",
    );
    check("host (", 5, 6, "expected an address, found '('");
    check("net -", 4, 5, "expected a network address, found '-'");
    check("port )", 5, 6, "expected a port number, found ')'");
    check("portrange 1 2", 12, 13, "expected '-' in a port range, found '2'");
    check("-", 0, 1, "expected an expression, found '-'");
    check(
        "port 1 port 2",
        7,
        11,
        "expected 'and', 'or', or end of input, found 'port'",
    );
    check(
        "tcp",
        3,
        3,
        "expected 'host', 'net', 'port', or 'portrange', found end of input",
    );
    check("host", 4, 4, "expected an address, found end of input");
    check("portrange 1", 11, 11, "expected '-' in a port range, found end of input");
    check("portrange 1-", 12, 12, "expected a port number, found end of input");
    check("not", 3, 3, "expected an expression, found end of input");
    check("port 1 and", 10, 10, "expected an expression, found end of input");
    check("rarp host 1.2.3.4", 0, 4, "unknown keyword 'rarp'");
    check("src sctp port 1", 4, 8, "unknown keyword 'sctp'");
    check(
        "host 1.2.3",
        5,
        10,
        "'1.2.3' is not a valid IPv4 address or network",
    );
    check("port 65536", 5, 10, "'65536' is not a valid port number");
    check(
        "tcp portrange 90-80",
        0,
        19,
        "invalid port range 90-80: lower bound exceeds upper bound",
    );
    check("(port 80", 8, 8, "unbalanced parentheses");
    check(")", 0, 1, "unbalanced parentheses");
    check("(port 1 port 2)", 8, 12, "unbalanced parentheses");
    check("", 0, 0, "empty filter expression");
    check(" \t\n", 3, 3, "empty filter expression");
    check(
        "host 1::2::3",
        5,
        12,
        "this form of IPv6 address literal is not implemented yet",
    );
    check(
        "port 1 or arp port 80",
        10,
        21,
        "'port'/'portrange' only apply to tcp, udp, or sctp",
    );
    check(
        "ip6 host 1.2.3.4",
        0,
        16,
        "'ip6' needs an IPv6 address, not an IPv4 one",
    );
    check(
        "tcp host ::1",
        0,
        12,
        "an IPv6 address needs 'ip6' (or no protocol)",
    );
}

#[test]
fn a_link_type_without_an_ethertype_says_so() {
    for src in ["host 10.0.0.1", "arp src host 10.0.0.1", "ip6 net ::/0"] {
        let err = compile(src, LinkType::Raw, KEEP_WHOLE_PACKET).unwrap_err();
        assert_eq!(
            err.tag.to_string(),
            "'arp'/'rarp'/'ip6' need a link layer with an ethertype field; this link type has none"
        );
    }
}

#[test]
fn a_jump_that_is_too_far_says_so() {
    let ports: Vec<String> = (0..200).map(|i| format!("port {}", 1000 + i)).collect();
    let src = ports.join(" or ");
    let err = failure(&src);
    assert_eq!(err.offset, 0..9);
    match err.tag {
        ErrorTag::JumpDisplacementOverflow { inst_index, displacement } => {
            assert!(displacement > 255);
            assert_eq!(
                err.tag.to_string(),
                format!(
                    "jump at instruction {inst_index} has displacement {displacement}, which \
                     exceeds the 8-bit cBPF jt/jf limit of 255; split the expression into a \
                     smaller one"
                )
            );
        }
        other => panic!("{other:?}"),
    }
}

#[test]
fn an_unsupported_link_type_says_so() {
    assert_eq!(
        ErrorTag::UnsupportedLinkType.to_string(),
        "this link type has no support yet"
    );
}

/// Offsets count bytes, not characters, and a wide character's failure covers its first byte.
#[test]
fn offsets_count_bytes() {
    let err = failure("\u{3000}port \u{e9}");
    assert_eq!(err.tag, ErrorTag::UnexpectedChar('\u{e9}'));
    assert_eq!(err.offset, 8..9);
    assert_eq!(err.tag.to_string(), "unexpected character '\u{e9}'");
}

#[test]
fn failures_are_underlined() {
    assert_eq!(failure("host 1.2.3").underline(), "     ^^^^^");
    assert_eq!(failure("host").underline(), "    ^");
    assert_eq!(failure("").underline(), "^");
}

#[test]
fn clones_are_equal() {
    for src in ["&", "tcp x", "host", "rarp host 1.2.3.4", "host 1", "port x", "portrange 2-1"] {
        let err = failure(src);
        assert_eq!(err.clone(), err);
    }
    for src in ["(port 1", "", "host :", "arp port 1"] {
        let err = failure(src);
        assert_eq!(err.clone(), err);
    }
}
