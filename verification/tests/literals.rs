//! Characters, numbers and addresses.

use cbpf_rs::ast::AddrLit;
use cbpf_rs::codegen::netmask;
use cbpf_rs::lexer::is_word_char;
use cbpf_rs::literal::{parse_addr_literal, parse_ipv4_octets, parse_port};
use cbpf_rs::text::{is_alphanumeric, is_digit, is_whitespace, same_text, to_chars, utf8_width};
use cbpf_rs::ErrorTag;

/// Every character, against the standard library's classification.
#[test]
fn characters_are_classified_as_in_std() {
    for c in '\0'..=char::MAX {
        assert_eq!(is_whitespace(c), c.is_whitespace(), "{c:?}");
        assert_eq!(is_digit(c), c.is_ascii_digit(), "{c:?}");
        assert_eq!(is_alphanumeric(c), c.is_ascii_alphanumeric(), "{c:?}");
        assert_eq!(utf8_width(c), c.len_utf8(), "{c:?}");
    }
}

#[test]
fn word_characters() {
    for c in ['a', 'Z', '0', '9', '.', ':', '/'] {
        assert!(is_word_char(c), "{c}");
    }
    for c in ['-', '_', '+', '(', ' ', '\u{e9}', '\u{661}'] {
        assert!(!is_word_char(c), "{c}");
    }
}

#[test]
fn texts_compare_by_their_characters() {
    assert!(same_text("", ""));
    assert!(same_text("port", "port"));
    assert!(!same_text("port", "ports"));
    assert!(!same_text("ports", "port"));
    assert!(!same_text("port", "Port"));
    assert_eq!(to_chars("a\u{20ac}b"), vec!['a', '\u{20ac}', 'b']);
}

/// Port numbers, against the standard library's parser.
#[test]
fn ports_parse_as_in_std() {
    for port in 0..=u16::MAX {
        assert_eq!(parse_port(&port.to_string(), 0..1), Ok(port));
    }
    let others = [
        "", "+", "-", "-0", "-1", "+80", "++80", "0080", "00000000000000000080", "65536", "65535",
        "99999999999999999999999", "8o", "80 ", " 80", "0x50", "8.0", "\u{661}",
    ];
    for text in others {
        match text.parse::<u16>() {
            Ok(port) => assert_eq!(parse_port(text, 3..7), Ok(port), "{text:?}"),
            Err(_) => {
                let err = parse_port(text, 3..7).unwrap_err();
                assert_eq!(err.tag, ErrorTag::InvalidPortNumber(String::from(text)));
                assert_eq!(err.offset, 3..7);
            }
        }
    }
}

#[test]
fn ipv4_addresses() {
    assert_eq!(parse_ipv4_octets("1.2.3.4"), Some(0x0102_0304));
    assert_eq!(parse_ipv4_octets("255.255.255.255"), Some(0xffff_ffff));
    assert_eq!(parse_ipv4_octets("0.0.0.0"), Some(0));
    assert_eq!(parse_ipv4_octets("010.000.0.001"), Some(0x0a00_0001));
    for text in [
        "", ".", "...", "1", "1.2.3", "1.2.3.", ".1.2.3", "1.2.3.4.5", "1.2.3.4.", "256.1.1.1",
        "1.2.3.x", "1..3.4", "1.2.3.4/8",
    ] {
        assert_eq!(parse_ipv4_octets(text), None, "{text:?}");
    }
}

#[test]
fn ipv4_literals_with_prefixes() {
    assert_eq!(
        parse_addr_literal("10.0.0.0/8", 0..10, true),
        Ok((AddrLit::V4(0x0a00_0000), Some(8)))
    );
    assert_eq!(
        parse_addr_literal("10.0.0.0/0", 0..10, true),
        Ok((AddrLit::V4(0x0a00_0000), Some(0)))
    );
    assert_eq!(
        parse_addr_literal("10.0.0.0/32", 0..10, true),
        Ok((AddrLit::V4(0x0a00_0000), Some(32)))
    );
    assert_eq!(
        parse_addr_literal("10.0.0.0", 0..10, true),
        Ok((AddrLit::V4(0x0a00_0000), None))
    );
    for text in ["10.0.0.0/33", "10.0.0.0/", "10.0.0.0/8/8", "10.0.0.0/x", "/8", "10/8"] {
        let err = parse_addr_literal(text, 2..5, true).unwrap_err();
        assert_eq!(err.tag, ErrorTag::InvalidIPv4Literal(String::from(text)));
        assert_eq!(err.offset, 2..5);
    }
    let err = parse_addr_literal("10.0.0.0/8", 2..5, false).unwrap_err();
    assert_eq!(err.tag, ErrorTag::InvalidIPv4Literal(String::from("10.0.0.0/8")));
}

#[test]
fn ipv6_literals() {
    let cases: [(&str, u128); 14] = [
        ("::", 0),
        ("::1", 1),
        ("1::", 1 << 112),
        ("2001:db8::1", 0x2001_0db8_0000_0000_0000_0000_0000_0001),
        ("2001:DB8::1", 0x2001_0db8_0000_0000_0000_0000_0000_0001),
        ("1:2:3:4:5:6:7:8", 0x0001_0002_0003_0004_0005_0006_0007_0008),
        ("1:2:3:4:5:6:7::", 0x0001_0002_0003_0004_0005_0006_0007_0000),
        ("::2:3:4:5:6:7:8", 0x0000_0002_0003_0004_0005_0006_0007_0008),
        ("1::8", 0x0001_0000_0000_0000_0000_0000_0000_0008),
        ("fe80::a:b", 0xfe80_0000_0000_0000_0000_0000_000a_000b),
        (
            "ffff:ffff:ffff:ffff:ffff:ffff:ffff:ffff",
            u128::MAX,
        ),
        ("::ffff:1.2.3.4", 0xffff_0102_0304),
        ("::1.2.3.4", 0x0102_0304),
        (
            "1:2:3:4:5:6:7.8.9.10",
            0x0001_0002_0003_0004_0005_0006_0708_090a,
        ),
    ];
    for (text, value) in cases {
        assert_eq!(
            parse_addr_literal(text, 0..1, false),
            Ok((AddrLit::V6(value), None)),
            "{text}"
        );
        assert_eq!(
            parse_addr_literal(&format!("{text}/128"), 0..1, true),
            Ok((AddrLit::V6(value), Some(128))),
            "{text}"
        );
    }
}

#[test]
fn malformed_ipv6_literals() {
    for text in [
        ":", ":::", "1:", ":1", "1:2", "1:2:3:4:5:6:7", "1:2:3:4:5:6:7:8:9", "1::2::3", "12345::",
        "g::", "1:2:3:4:5:6:7:8::", "::1:2:3:4:5:6:7:8", "1.2.3.4::", "::1.2.3", "::1.2.3.4:5",
        "::/129", "::/", "::/x", "1:2:3:4:5:6:7:1.2.3.4",
    ] {
        let err = parse_addr_literal(text, 4..9, true).unwrap_err();
        assert_eq!(
            err.tag,
            ErrorTag::Unimplemented("this form of IPv6 address literal"),
            "{text}"
        );
        assert_eq!(err.offset, 4..9);
    }
    let err = parse_addr_literal("::1/64", 4..9, false).unwrap_err();
    assert!(matches!(err.tag, ErrorTag::Unimplemented(_)));
}

#[test]
fn netmasks() {
    assert_eq!(netmask(0), 0);
    assert_eq!(netmask(1), 0x8000_0000);
    assert_eq!(netmask(8), 0xff00_0000);
    assert_eq!(netmask(24), 0xffff_ff00);
    assert_eq!(netmask(31), 0xffff_fffe);
    assert_eq!(netmask(32), 0xffff_ffff);
}
