//! Tokens of source texts.

use cbpf_rs::lexer::{lex, TokenTag};
use cbpf_rs::ErrorTag;

fn words(src: &str) -> Vec<TokenTag> {
    lex(src).unwrap().into_iter().map(|t| t.tag).collect()
}

#[test]
fn keywords_separated() {
    assert_eq!(
        words("tcp port 80"),
        vec![
            TokenTag::Word(String::from("tcp")),
            TokenTag::Word(String::from("port")),
            TokenTag::Word(String::from("80")),
            TokenTag::Eof,
        ]
    );
}

#[test]
fn lex_token_separated() {
    let expr: &str = "tcp port 80";

    let tokens = lex(expr).unwrap();

    assert_eq!(TokenTag::Word(String::from("tcp")), tokens[0].tag);
    assert_eq!(TokenTag::Word(String::from("port")), tokens[1].tag);
    assert_eq!(TokenTag::Word(String::from("80")), tokens[2].tag);
}

#[test]
fn portrange_splits_on_dash() {
    assert_eq!(
        words("portrange 8000-8008"),
        vec![
            TokenTag::Word(String::from("portrange")),
            TokenTag::Word(String::from("8000")),
            TokenTag::Dash,
            TokenTag::Word(String::from("8008")),
            TokenTag::Eof,
        ]
    );
}

/// Make sure that CIDR block parsed as one word.
#[test]
fn cidr() {
    assert_eq!(
        words("1.2.3.0/24"),
        vec![TokenTag::Word(String::from("1.2.3.0/24")), TokenTag::Eof]
    );
}

/// Test that symbolic connectives are canonicalized to their word forms.
#[test]
fn symbolic_connectives() {
    assert_eq!(
        words("tcp && !udp || arp"),
        vec![
            TokenTag::Word(String::from("tcp")),
            TokenTag::Word(String::from("and")),
            TokenTag::Word(String::from("not")),
            TokenTag::Word(String::from("udp")),
            TokenTag::Word(String::from("or")),
            TokenTag::Word(String::from("arp")),
            TokenTag::Eof,
        ]
    );
}

/// Test that token offsets point to the correct ranges in the source text.
#[test]
fn offsets_cover_the_source_text() {
    let tokens = lex("  tcp  port").unwrap();
    assert_eq!(tokens[0].offset, 2..5); // "tcp"
    assert_eq!(tokens[1].offset, 7..11); // "port"
}

/// Test that a single `&` is rejected as an unexpected character.
#[test]
fn single_ampersand_is_an_error() {
    let err = lex("tcp & udp").unwrap_err();
    assert_eq!(err.tag, ErrorTag::UnexpectedChar('&'));
    assert_eq!(err.offset, 4..5);
}

/// Test that parentheses are tokenized as separate tokens.
#[test]
fn parens_are_tokenized() {
    assert_eq!(
        words("(tcp)"),
        vec![
            TokenTag::LParen,
            TokenTag::Word(String::from("tcp")),
            TokenTag::RParen,
            TokenTag::Eof,
        ]
    );
}
