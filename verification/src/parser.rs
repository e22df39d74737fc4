//! Recursive-descent parser: from [`Token`]s to an [`Expr`].
//!
//! Precedence from tightest to loosest: `not`, `and`, `or`. Parentheses override it.
//!
//! A primitive is `[proto] [dir] type value`. The type keyword (`host`, `net`, `port` or `portrange`)
//! is required, so a bare `tcp` does not parse: every primitive has to say what it matches on.

use crate::ast::{DirTag, Expr, PrimType, Primitive, ProtoTag};
use crate::error::{copy_offset, CompileError, ErrorTag, Failure, Offset, Reason};
use crate::lexer::{self, Lexed, Lexeme, Token, TokenTag};
use crate::literal::{self, parse_addr_literal, parse_port};
use crate::text::same_text;
use core::ops::Range;
use vstd::prelude::*;
use vstd::string::*;

verus! {

// ---------------------------------------------------------------------------------------------
// The grammar
// ---------------------------------------------------------------------------------------------

/// The token at a position; `Eof` beyond the end.
pub open spec fn tag_at(tokens: Seq<Lexed>, at: nat) -> Lexeme {
    if at < tokens.len() {
        tokens[at as int].tag
    } else {
        Lexeme::Eof
    }
}

/// Where the token at a position stands in the source.
pub open spec fn offset_at(tokens: Seq<Lexed>, at: nat) -> Range<usize> {
    tokens[at as int].offset
}

/// How a message quotes a token.
pub open spec fn quoted(tag: Lexeme) -> Seq<char> {
    match tag {
        Lexeme::Word(word) => word,
        Lexeme::Dash => "-"@,
        Lexeme::LParen => "("@,
        Lexeme::RParen => ")"@,
        Lexeme::Eof => "end of input"@,
    }
}

/// The failure to find what was expected at a position.
pub open spec fn missing(tokens: Seq<Lexed>, at: nat, expected: Seq<char>) -> Failure {
    Failure {
        offset: offset_at(tokens, at),
        reason: if tag_at(tokens, at) is Eof {
            Reason::UnexpectedEof { expected }
        } else {
            Reason::UnexpectedToken { expected, found: quoted(tag_at(tokens, at)) }
        },
    }
}

/// The word at a position, where one is expected.
pub open spec fn word_at(tokens: Seq<Lexed>, at: nat, expected: Seq<char>) -> Result<
    Seq<char>,
    Failure,
> {
    match tag_at(tokens, at) {
        Lexeme::Word(word) => Ok(word),
        _ => Err(missing(tokens, at, expected)),
    }
}

/// The protocol that a keyword names.
pub open spec fn proto_keyword(word: Seq<char>) -> Option<ProtoTag> {
    if word == "ip"@ {
        Some(ProtoTag::Ip)
    } else if word == "ip6"@ {
        Some(ProtoTag::Ip6)
    } else if word == "arp"@ {
        Some(ProtoTag::Arp)
    } else if word == "tcp"@ {
        Some(ProtoTag::Tcp)
    } else if word == "udp"@ {
        Some(ProtoTag::Udp)
    } else if word == "icmp"@ {
        Some(ProtoTag::Icmp)
    } else {
        None
    }
}

/// The direction that a keyword names.
pub open spec fn dir_keyword(word: Seq<char>) -> Option<DirTag> {
    if word == "src"@ {
        Some(DirTag::Src)
    } else if word == "dst"@ {
        Some(DirTag::Dst)
    } else {
        None
    }
}

/// The protocol named at a position, if one is.
pub open spec fn proto_at(tokens: Seq<Lexed>, at: nat) -> Option<ProtoTag> {
    match tag_at(tokens, at) {
        Lexeme::Word(word) => proto_keyword(word),
        _ => None,
    }
}

/// The direction named at a position, if one is.
pub open spec fn dir_at(tokens: Seq<Lexed>, at: nat) -> Option<DirTag> {
    match tag_at(tokens, at) {
        Lexeme::Word(word) => dir_keyword(word),
        _ => None,
    }
}

/// The position after an optional keyword.
pub open spec fn after(at: nat, present: bool) -> nat {
    if present {
        at + 1
    } else {
        at
    }
}

/// What the type keyword at a position and the value after it match on, and the position after them.
/// `start` is where the primitive starts in the source.
pub open spec fn type_at(tokens: Seq<Lexed>, at: nat, start: usize) -> Result<
    (PrimType, nat),
    Failure,
> {
    match word_at(tokens, at, "'host', 'net', 'port', or 'portrange'"@) {
        Err(failure) => Err(failure),
        Ok(word) => if word == "host"@ {
            match word_at(tokens, at + 1, "an address"@) {
                Err(failure) => Err(failure),
                Ok(text) => match literal::addr_literal(text, offset_at(tokens, at + 1), false) {
                    Err(failure) => Err(failure),
                    Ok((addr, _)) => Ok((PrimType::Host(addr), at + 2)),
                },
            }
        } else if word == "net"@ {
            match word_at(tokens, at + 1, "a network address"@) {
                Err(failure) => Err(failure),
                Ok(text) => match literal::addr_literal(text, offset_at(tokens, at + 1), true) {
                    Err(failure) => Err(failure),
                    Ok((addr, prefix)) => Ok((PrimType::Net(addr, prefix), at + 2)),
                },
            }
        } else if word == "port"@ {
            match port_at(tokens, at + 1) {
                Err(failure) => Err(failure),
                Ok(port) => Ok((PrimType::Port(port), at + 2)),
            }
        } else if word == "portrange"@ {
            range_at(tokens, at + 1, start)
        } else {
            Err(
                Failure {
                    offset: offset_at(tokens, at),
                    reason: if word == "rarp"@ || word == "sctp"@ {
                        Reason::UnknownKeyword(word)
                    } else {
                        Reason::UnexpectedToken {
                            expected: "'host', 'net', 'port', or 'portrange'"@,
                            found: word,
                        }
                    },
                },
            )
        },
    }
}

/// The port range at a position and the position after it: two port numbers, the lower first, around
/// a dash. `start` is where the primitive starts in the source.
pub open spec fn range_at(tokens: Seq<Lexed>, at: nat, start: usize) -> Result<
    (PrimType, nat),
    Failure,
> {
    match port_at(tokens, at) {
        Err(failure) => Err(failure),
        Ok(lo) => if tag_at(tokens, at + 1) !is Dash {
            Err(missing(tokens, at + 1, "'-' in a port range"@))
        } else {
            match port_at(tokens, at + 2) {
                Err(failure) => Err(failure),
                Ok(hi) => if lo > hi {
                    Err(
                        Failure {
                            offset: Range { start, end: offset_at(tokens, at + 2).end },
                            reason: Reason::InvalidPortRange { lo: lo as u32, hi: hi as u32 },
                        },
                    )
                } else {
                    Ok((PrimType::PortRange(lo, hi), at + 3))
                },
            }
        },
    }
}

/// The port number at a position.
pub open spec fn port_at(tokens: Seq<Lexed>, at: nat) -> Result<u16, Failure> {
    match word_at(tokens, at, "a port number"@) {
        Err(failure) => Err(failure),
        Ok(text) => literal::port_literal(text, offset_at(tokens, at)),
    }
}

/// The primitive at a position, and the position after it.
pub open spec fn primitive_at(tokens: Seq<Lexed>, at: nat) -> Result<(Primitive, nat), Failure> {
    let start = offset_at(tokens, at).start;
    let proto = proto_at(tokens, at);
    let dir_pos = after(at, proto is Some);
    let dir = dir_at(tokens, dir_pos);
    match type_at(tokens, after(dir_pos, dir is Some), start) {
        Err(failure) => Err(failure),
        Ok((ty, end)) => Ok(
            (
                Primitive {
                    proto,
                    dir,
                    ty,
                    offset: Range { start, end: offset_at(tokens, (end - 1) as nat).end },
                },
                end,
            ),
        ),
    }
}

/// The part of the source that an expression was parsed from.
pub open spec fn span(e: Expr) -> Range<usize> {
    match e {
        Expr::Primitive(p) => p.offset,
        Expr::Not(_, offset) | Expr::And(_, _, offset) | Expr::Or(_, _, offset) => offset,
    }
}

/// The part of the source from the start of `l` to the end of `r`.
pub open spec fn span_of_both(l: Expr, r: Expr) -> Range<usize> {
    Range { start: span(l).start, end: span(r).end }
}

/// How many tokens are left at a position.
pub open spec fn left(tokens: Seq<Lexed>, at: nat) -> nat {
    if at < tokens.len() {
        (tokens.len() - at) as nat
    } else {
        0
    }
}

/// Whether parsing has moved on. It always has: an expression is at least one token long.
pub open spec fn moved(tokens: Seq<Lexed>, from: nat, to: nat) -> bool {
    from < to && from < tokens.len()
}

/// A parenthesized expression or a primitive at a position, and the position after it.
pub open spec fn primary_at(tokens: Seq<Lexed>, at: nat) -> Result<(Expr, nat), Failure>
    decreases left(tokens, at), 0nat,
{
    match tag_at(tokens, at) {
        Lexeme::LParen => match or_at(tokens, at + 1) {
            Err(failure) => Err(failure),
            Ok((inner, end)) => if tag_at(tokens, end) is RParen {
                Ok((inner, end + 1))
            } else {
                Err(Failure { offset: offset_at(tokens, end), reason: Reason::UnbalancedParens })
            },
        },
        Lexeme::RParen => Err(
            Failure { offset: offset_at(tokens, at), reason: Reason::UnbalancedParens },
        ),
        Lexeme::Word(_) => match primitive_at(tokens, at) {
            Err(failure) => Err(failure),
            Ok((p, end)) => Ok((Expr::Primitive(p), end)),
        },
        _ => Err(missing(tokens, at, "an expression"@)),
    }
}

/// Any number of `not`s and a primary expression.
pub open spec fn unary_at(tokens: Seq<Lexed>, at: nat) -> Result<(Expr, nat), Failure>
    decreases left(tokens, at), 1nat,
{
    if tag_at(tokens, at) == Lexeme::Word("not"@) {
        match unary_at(tokens, at + 1) {
            Err(failure) => Err(failure),
            Ok((inner, end)) => Ok(
                (
                    Expr::Not(
                        Box::new(inner),
                        Range { start: offset_at(tokens, at).start, end: span(inner).end },
                    ),
                    end,
                ),
            ),
        }
    } else {
        primary_at(tokens, at)
    }
}

/// A conjunction, nested to the left: `lhs` and what follows it.
pub open spec fn and_rest(tokens: Seq<Lexed>, lhs: Expr, at: nat) -> Result<(Expr, nat), Failure>
    decreases left(tokens, at), 2nat,
{
    if tag_at(tokens, at) == Lexeme::Word("and"@) {
        match unary_at(tokens, at + 1) {
            Err(failure) => Err(failure),
            Ok((rhs, end)) => {
                let both = Expr::And(Box::new(lhs), Box::new(rhs), span_of_both(lhs, rhs));
                if moved(tokens, at, end) {
                    and_rest(tokens, both, end)
                } else {
                    Ok((both, end))
                }
            },
        }
    } else {
        Ok((lhs, at))
    }
}

/// A conjunction at a position, and the position after it.
pub open spec fn and_at(tokens: Seq<Lexed>, at: nat) -> Result<(Expr, nat), Failure>
    decreases left(tokens, at), 3nat,
{
    match unary_at(tokens, at) {
        Err(failure) => Err(failure),
        Ok((lhs, end)) => if moved(tokens, at, end) {
            and_rest(tokens, lhs, end)
        } else {
            Ok((lhs, end))
        },
    }
}

/// A disjunction, nested to the left: `lhs` and what follows it.
pub open spec fn or_rest(tokens: Seq<Lexed>, lhs: Expr, at: nat) -> Result<(Expr, nat), Failure>
    decreases left(tokens, at), 4nat,
{
    if tag_at(tokens, at) == Lexeme::Word("or"@) {
        match and_at(tokens, at + 1) {
            Err(failure) => Err(failure),
            Ok((rhs, end)) => {
                let either = Expr::Or(Box::new(lhs), Box::new(rhs), span_of_both(lhs, rhs));
                if moved(tokens, at, end) {
                    or_rest(tokens, either, end)
                } else {
                    Ok((either, end))
                }
            },
        }
    } else {
        Ok((lhs, at))
    }
}

/// A disjunction at a position, and the position after it.
pub open spec fn or_at(tokens: Seq<Lexed>, at: nat) -> Result<(Expr, nat), Failure>
    decreases left(tokens, at), 5nat,
{
    match and_at(tokens, at) {
        Err(failure) => Err(failure),
        Ok((lhs, end)) => if moved(tokens, at, end) {
            or_rest(tokens, lhs, end)
        } else {
            Ok((lhs, end))
        },
    }
}

/// The expression that a whole token stream stands for.
pub open spec fn parsed(tokens: Seq<Lexed>) -> Result<Expr, Failure> {
    if tag_at(tokens, 0) is Eof {
        Err(Failure { offset: offset_at(tokens, 0), reason: Reason::EmptyExpression })
    } else {
        match or_at(tokens, 0) {
            Err(failure) => Err(failure),
            Ok((e, end)) => if tag_at(tokens, end) is Eof {
                Ok(e)
            } else {
                Err(missing(tokens, end, "'and', 'or', or end of input"@))
            },
        }
    }
}

/// A parsed primitive is valid.
proof fn lemma_primitive_valid(tokens: Seq<Lexed>, at: nat)
    ensures
        primitive_at(tokens, at) matches Ok((p, _)) ==> Expr::Primitive(p).valid(),
{
}

/// A parsed primary expression is valid.
proof fn lemma_primary_valid(tokens: Seq<Lexed>, at: nat)
    ensures
        primary_at(tokens, at) matches Ok((e, _)) ==> e.valid(),
    decreases left(tokens, at), 0nat,
{
    match tag_at(tokens, at) {
        Lexeme::LParen => lemma_or_valid(tokens, at + 1),
        Lexeme::Word(_) => lemma_primitive_valid(tokens, at),
        _ => {},
    }
}

/// A parsed unary expression is valid.
proof fn lemma_unary_valid(tokens: Seq<Lexed>, at: nat)
    ensures
        unary_at(tokens, at) matches Ok((e, _)) ==> e.valid(),
    decreases left(tokens, at), 1nat,
{
    if tag_at(tokens, at) == Lexeme::Word("not"@) {
        lemma_unary_valid(tokens, at + 1);
    } else {
        lemma_primary_valid(tokens, at);
    }
}

/// A conjunction that goes on after a valid part is valid.
proof fn lemma_and_rest_valid(tokens: Seq<Lexed>, lhs: Expr, at: nat)
    requires
        lhs.valid(),
    ensures
        and_rest(tokens, lhs, at) matches Ok((e, _)) ==> e.valid(),
    decreases left(tokens, at), 2nat,
{
    if tag_at(tokens, at) == Lexeme::Word("and"@) {
        lemma_unary_valid(tokens, at + 1);
        if let Ok((rhs, end)) = unary_at(tokens, at + 1) {
            let both = Expr::And(Box::new(lhs), Box::new(rhs), span_of_both(lhs, rhs));
            if moved(tokens, at, end) {
                lemma_and_rest_valid(tokens, both, end);
            }
        }
    }
}

/// A parsed conjunction is valid.
proof fn lemma_and_valid(tokens: Seq<Lexed>, at: nat)
    ensures
        and_at(tokens, at) matches Ok((e, _)) ==> e.valid(),
    decreases left(tokens, at), 3nat,
{
    lemma_unary_valid(tokens, at);
    if let Ok((lhs, end)) = unary_at(tokens, at) {
        if moved(tokens, at, end) {
            lemma_and_rest_valid(tokens, lhs, end);
        }
    }
}

/// A disjunction that goes on after a valid part is valid.
proof fn lemma_or_rest_valid(tokens: Seq<Lexed>, lhs: Expr, at: nat)
    requires
        lhs.valid(),
    ensures
        or_rest(tokens, lhs, at) matches Ok((e, _)) ==> e.valid(),
    decreases left(tokens, at), 4nat,
{
    if tag_at(tokens, at) == Lexeme::Word("or"@) {
        lemma_and_valid(tokens, at + 1);
        if let Ok((rhs, end)) = and_at(tokens, at + 1) {
            let either = Expr::Or(Box::new(lhs), Box::new(rhs), span_of_both(lhs, rhs));
            if moved(tokens, at, end) {
                lemma_or_rest_valid(tokens, either, end);
            }
        }
    }
}

/// A parsed disjunction is valid.
proof fn lemma_or_valid(tokens: Seq<Lexed>, at: nat)
    ensures
        or_at(tokens, at) matches Ok((e, _)) ==> e.valid(),
    decreases left(tokens, at), 5nat,
{
    lemma_and_valid(tokens, at);
    if let Ok((lhs, end)) = and_at(tokens, at) {
        if moved(tokens, at, end) {
            lemma_or_rest_valid(tokens, lhs, end);
        }
    }
}

/// Whatever parses is valid: no prefix is longer than its address, and no port range is backwards.
pub proof fn parsed_is_valid(tokens: Seq<Lexed>)
    ensures
        parsed(tokens) matches Ok(e) ==> e.valid(),
{
    lemma_or_valid(tokens, 0);
}

// ---------------------------------------------------------------------------------------------
// The parser
// ---------------------------------------------------------------------------------------------

/// Parses a token stream that ends with `Eof`, as the lexer's do.
pub fn parse(tokens: &[Token]) -> (result: Result<Expr, CompileError>)
    requires
        lexer::ends_with_eof(lexer::values(tokens@)),
    ensures
        match result {
            Ok(expr) => {
                &&& parsed(lexer::values(tokens@)) == Ok::<Expr, Failure>(expr)
                &&& expr.valid()
            },
            Err(error) => parsed(lexer::values(tokens@)) == Err::<Expr, Failure>(error@),
        },
{
    let mut parser = Parser { tokens, pos: 0 };
    if let TokenTag::Eof = parser.peek().tag {
        return Err(
            CompileError::new(copy_offset(&parser.peek().offset), ErrorTag::EmptyExpression),
        );
    }
    let expr: Expr = match parser.parse_or() {
        Ok(expr) => expr,
        Err(error) => {
            return Err(error);
        },
    };
    match parser.expect_eof() {
        Ok(_) => {
            proof {
                parsed_is_valid(lexer::values(tokens@));
            }
            Ok(expr)
        },
        Err(error) => Err(error),
    }
}

/// A position in a token stream.
struct Parser<'tok> {
    tokens: &'tok [Token],
    pos: usize,
}

/// The part of the source that an expression was parsed from.
fn offset_from_expr(e: &Expr) -> (offset: Offset)
    ensures
        offset == span(*e),
{
    match e {
        Expr::Primitive(p) => copy_offset(&p.offset),
        Expr::Not(_, s) => copy_offset(s),
        Expr::And(_, _, s) => copy_offset(s),
        Expr::Or(_, _, s) => copy_offset(s),
    }
}

/// How a message quotes a token.
fn token_text(t: &Token) -> (text: String)
    ensures
        text@ == quoted(t@.tag),
{
    match &t.tag {
        TokenTag::Word(w) => w.clone(),
        TokenTag::Dash => "-".to_owned(),
        TokenTag::LParen => "(".to_owned(),
        TokenTag::RParen => ")".to_owned(),
        TokenTag::Eof => "end of input".to_owned(),
    }
}

/// The protocol that a keyword names.
fn proto_of_keyword(word: &str) -> (proto: Option<ProtoTag>)
    ensures
        proto == proto_keyword(word@),
{
    if same_text(word, "ip") {
        Some(ProtoTag::Ip)
    } else if same_text(word, "ip6") {
        Some(ProtoTag::Ip6)
    } else if same_text(word, "arp") {
        Some(ProtoTag::Arp)
    } else if same_text(word, "tcp") {
        Some(ProtoTag::Tcp)
    } else if same_text(word, "udp") {
        Some(ProtoTag::Udp)
    } else if same_text(word, "icmp") {
        Some(ProtoTag::Icmp)
    } else {
        None
    }
}

impl<'tok> Parser<'tok> {
    /// The values of the tokens.
    spec fn values(self) -> Seq<Lexed> {
        lexer::values(self.tokens@)
    }

    /// Whether the stream ends with `Eof` and the position is within it.
    spec fn inv(self) -> bool {
        lexer::ends_with_eof(self.values()) && self.pos < self.tokens@.len()
    }

    /// Whether this is `before` at a later position.
    spec fn advanced(self, before: Parser<'tok>) -> bool {
        &&& self.tokens == before.tokens
        &&& self.inv()
        &&& self.pos > before.pos
    }

    /// The token at the current position.
    fn peek(&self) -> (token: &Token)
        requires
            self.inv(),
        ensures
            token@.tag == tag_at(self.values(), self.pos as nat),
            token@.offset == offset_at(self.values(), self.pos as nat),
            *token == self.tokens@[self.pos as int],
    {
        &self.tokens[self.pos]
    }

    /// Steps past the current token, which is not the last.
    fn advance(&mut self)
        requires
            old(self).inv(),
            tag_at(old(self).values(), old(self).pos as nat) !is Eof,
        ensures
            final(self).advanced(*old(self)),
            final(self).pos == old(self).pos + 1,
    {
        let last: usize = self.tokens.len() - 1;
        if self.pos < last {
            self.pos = self.pos + 1;
        }
    }

    /// Whether the current token is the word `keyword`.
    fn at_word(&self, keyword: &str) -> (yes: bool)
        requires
            self.inv(),
        ensures
            yes == (tag_at(self.values(), self.pos as nat) == Lexeme::Word(keyword@)),
    {
        match self.word() {
            Some(word) => same_text(word, keyword),
            None => false,
        }
    }

    /// The current token's text, if it is a word.
    fn word(&self) -> (word: Option<&str>)
        requires
            self.inv(),
        ensures
            match word {
                Some(text) => tag_at(self.values(), self.pos as nat) == Lexeme::Word(text@),
                None => tag_at(self.values(), self.pos as nat) !is Word,
            },
    {
        match &self.peek().tag {
            TokenTag::Word(w) => Some(w.as_str()),
            _ => None,
        }
    }

    /// The failure to find what was expected at the current position.
    fn unmet(&self, expected: &'static str) -> (error: CompileError)
        requires
            self.inv(),
        ensures
            error@ == missing(self.values(), self.pos as nat, expected@),
    {
        let token: &Token = self.peek();
        let tag: ErrorTag = match &token.tag {
            TokenTag::Eof => ErrorTag::UnexpectedEof { expected },
            _ => ErrorTag::UnexpectedToken { expected, found: token_text(token) },
        };
        CompileError::new(copy_offset(&token.offset), tag)
    }

    /// Requires that the whole input is parsed.
    fn expect_eof(&self) -> (result: Result<(), CompileError>)
        requires
            self.inv(),
        ensures
            match result {
                Ok(_) => tag_at(self.values(), self.pos as nat) is Eof,
                Err(error) => {
                    &&& tag_at(self.values(), self.pos as nat) !is Eof
                    &&& error@ == missing(
                        self.values(),
                        self.pos as nat,
                        "'and', 'or', or end of input"@,
                    )
                },
            },
    {
        match &self.peek().tag {
            TokenTag::Eof => Ok(()),
            _ => Err(self.unmet("'and', 'or', or end of input")),
        }
    }

    /// Steps past a word and returns its text and its place in the source.
    fn expect_word(&mut self, expected: &'static str) -> (result: Result<
        (String, Offset),
        CompileError,
    >)
        requires
            old(self).inv(),
        ensures
            final(self).tokens == old(self).tokens,
            match result {
                Ok((text, offset)) => {
                    &&& word_at(old(self).values(), old(self).pos as nat, expected@) == Ok::<
                        Seq<char>,
                        Failure,
                    >(text@)
                    &&& offset == offset_at(old(self).values(), old(self).pos as nat)
                    &&& final(self).advanced(*old(self))
                    &&& final(self).pos == old(self).pos + 1
                },
                Err(error) => {
                    &&& word_at(old(self).values(), old(self).pos as nat, expected@) == Err::<
                        Seq<char>,
                        Failure,
                    >(error@)
                    &&& final(self).pos == old(self).pos
                },
            },
    {
        match &self.peek().tag {
            TokenTag::Word(w) => {
                let text: String = w.clone();
                let offset: Offset = copy_offset(&self.peek().offset);
                self.advance();
                Ok((text, offset))
            },
            _ => Err(self.unmet(expected)),
        }
    }

    /// Steps past the `-` of a port range.
    fn expect_dash(&mut self) -> (result: Result<(), CompileError>)
        requires
            old(self).inv(),
        ensures
            final(self).tokens == old(self).tokens,
            match result {
                Ok(_) => {
                    &&& tag_at(old(self).values(), old(self).pos as nat) is Dash
                    &&& final(self).advanced(*old(self))
                    &&& final(self).pos == old(self).pos + 1
                },
                Err(error) => {
                    &&& tag_at(old(self).values(), old(self).pos as nat) !is Dash
                    &&& error@ == missing(
                        old(self).values(),
                        old(self).pos as nat,
                        "'-' in a port range"@,
                    )
                    &&& final(self).pos == old(self).pos
                },
            },
    {
        match &self.peek().tag {
            TokenTag::Dash => {
                self.advance();
                Ok(())
            },
            _ => Err(self.unmet("'-' in a port range")),
        }
    }

    /// Parses `A or B or C`, nested to the left.
    fn parse_or(&mut self) -> (result: Result<Expr, CompileError>)
        requires
            old(self).inv(),
        ensures
            final(self).tokens == old(self).tokens,
            match result {
                Ok(expr) => {
                    &&& or_at(old(self).values(), old(self).pos as nat) == Ok::<
                        (Expr, nat),
                        Failure,
                    >((expr, final(self).pos as nat))
                    &&& final(self).advanced(*old(self))
                },
                Err(error) => or_at(old(self).values(), old(self).pos as nat) == Err::<
                    (Expr, nat),
                    Failure,
                >(error@),
            },
        decreases left(old(self).values(), old(self).pos as nat), 5nat,
    {
        let mut lhs: Expr = match self.parse_and() {
            Ok(expr) => expr,
            Err(error) => {
                return Err(error);
            },
        };
        while self.at_word("or")
            invariant
                self.advanced(*old(self)),
                or_at(old(self).values(), old(self).pos as nat) == or_rest(
                    self.values(),
                    lhs,
                    self.pos as nat,
                ),
            decreases left(self.values(), self.pos as nat),
        {
            self.advance();
            let rhs: Expr = match self.parse_and() {
                Ok(expr) => expr,
                Err(error) => {
                    return Err(error);
                },
            };
            let offset: Offset = offset_from_expr(&lhs).start..offset_from_expr(&rhs).end;
            lhs = Expr::Or(Box::new(lhs), Box::new(rhs), offset);
        }
        Ok(lhs)
    }

    /// Parses `A and B and C`, nested to the left.
    fn parse_and(&mut self) -> (result: Result<Expr, CompileError>)
        requires
            old(self).inv(),
        ensures
            final(self).tokens == old(self).tokens,
            match result {
                Ok(expr) => {
                    &&& and_at(old(self).values(), old(self).pos as nat) == Ok::<
                        (Expr, nat),
                        Failure,
                    >((expr, final(self).pos as nat))
                    &&& final(self).advanced(*old(self))
                },
                Err(error) => and_at(old(self).values(), old(self).pos as nat) == Err::<
                    (Expr, nat),
                    Failure,
                >(error@),
            },
        decreases left(old(self).values(), old(self).pos as nat), 3nat,
    {
        let mut lhs: Expr = match self.parse_unary() {
            Ok(expr) => expr,
            Err(error) => {
                return Err(error);
            },
        };
        while self.at_word("and")
            invariant
                self.advanced(*old(self)),
                and_at(old(self).values(), old(self).pos as nat) == and_rest(
                    self.values(),
                    lhs,
                    self.pos as nat,
                ),
            decreases left(self.values(), self.pos as nat),
        {
            self.advance();
            let rhs: Expr = match self.parse_unary() {
                Ok(expr) => expr,
                Err(error) => {
                    return Err(error);
                },
            };
            let offset: Offset = offset_from_expr(&lhs).start..offset_from_expr(&rhs).end;
            lhs = Expr::And(Box::new(lhs), Box::new(rhs), offset);
        }
        Ok(lhs)
    }

    /// Parses any number of `not`s, nested, and a primary expression.
    fn parse_unary(&mut self) -> (result: Result<Expr, CompileError>)
        requires
            old(self).inv(),
        ensures
            final(self).tokens == old(self).tokens,
            match result {
                Ok(expr) => {
                    &&& unary_at(old(self).values(), old(self).pos as nat) == Ok::<
                        (Expr, nat),
                        Failure,
                    >((expr, final(self).pos as nat))
                    &&& final(self).advanced(*old(self))
                },
                Err(error) => unary_at(old(self).values(), old(self).pos as nat) == Err::<
                    (Expr, nat),
                    Failure,
                >(error@),
            },
        decreases left(old(self).values(), old(self).pos as nat), 1nat,
    {
        if self.at_word("not") {
            let start: usize = self.peek().offset.start;
            self.advance();
            match self.parse_unary() {
                Ok(inner) => {
                    let end: usize = offset_from_expr(&inner).end;
                    Ok(Expr::Not(Box::new(inner), start..end))
                },
                Err(error) => Err(error),
            }
        } else {
            self.parse_primary()
        }
    }

    /// Parses a parenthesized expression or a primitive.
    fn parse_primary(&mut self) -> (result: Result<Expr, CompileError>)
        requires
            old(self).inv(),
        ensures
            final(self).tokens == old(self).tokens,
            match result {
                Ok(expr) => {
                    &&& primary_at(old(self).values(), old(self).pos as nat) == Ok::<
                        (Expr, nat),
                        Failure,
                    >((expr, final(self).pos as nat))
                    &&& final(self).advanced(*old(self))
                },
                Err(error) => {
                    let tag = tag_at(old(self).values(), old(self).pos as nat);
                    &&& primary_at(old(self).values(), old(self).pos as nat) == Err::<
                        (Expr, nat),
                        Failure,
                    >(error@)
                    &&& tag !is LParen && tag !is Word ==> final(self).pos == old(self).pos
                },
            },
        decreases left(old(self).values(), old(self).pos as nat), 0nat,
    {
        match &self.peek().tag {
            TokenTag::LParen => {
                self.advance();
                let inner: Expr = match self.parse_or() {
                    Ok(expr) => expr,
                    Err(error) => {
                        return Err(error);
                    },
                };
                match &self.peek().tag {
                    TokenTag::RParen => {
                        self.advance();
                        Ok(inner)
                    },
                    _ => Err(
                        CompileError::new(
                            copy_offset(&self.peek().offset),
                            ErrorTag::UnbalancedParens,
                        ),
                    ),
                }
            },
            TokenTag::RParen => Err(
                CompileError::new(copy_offset(&self.peek().offset), ErrorTag::UnbalancedParens),
            ),
            TokenTag::Word(_) => match self.parse_primitive() {
                Ok(p) => Ok(Expr::Primitive(p)),
                Err(error) => Err(error),
            },
            _ => Err(self.unmet("an expression")),
        }
    }

    /// Steps past a protocol keyword, if there is one.
    fn try_parse_proto(&mut self) -> (proto: Option<ProtoTag>)
        requires
            old(self).inv(),
        ensures
            proto == proto_at(old(self).values(), old(self).pos as nat),
            final(self).tokens == old(self).tokens,
            final(self).inv(),
            final(self).pos == after(old(self).pos as nat, proto is Some),
    {
        let proto: ProtoTag = match self.word() {
            Some(word) => match proto_of_keyword(word) {
                Some(proto) => proto,
                None => {
                    return None;
                },
            },
            None => {
                return None;
            },
        };
        self.advance();
        Some(proto)
    }

    /// Steps past a direction keyword, if there is one.
    fn try_parse_dir(&mut self) -> (dir: Option<DirTag>)
        requires
            old(self).inv(),
        ensures
            dir == dir_at(old(self).values(), old(self).pos as nat),
            final(self).tokens == old(self).tokens,
            final(self).inv(),
            final(self).pos == after(old(self).pos as nat, dir is Some),
    {
        let dir: DirTag = match self.word() {
            Some(word) => {
                if same_text(word, "src") {
                    DirTag::Src
                } else if same_text(word, "dst") {
                    DirTag::Dst
                } else {
                    return None;
                }
            },
            None => {
                return None;
            },
        };
        self.advance();
        Some(dir)
    }

    /// Parses a port number.
    fn expect_port(&mut self) -> (result: Result<u16, CompileError>)
        requires
            old(self).inv(),
        ensures
            final(self).tokens == old(self).tokens,
            match result {
                Ok(port) => {
                    &&& port_at(old(self).values(), old(self).pos as nat) == Ok::<u16, Failure>(
                        port,
                    )
                    &&& final(self).advanced(*old(self))
                    &&& final(self).pos == old(self).pos + 1
                },
                Err(error) => port_at(old(self).values(), old(self).pos as nat) == Err::<
                    u16,
                    Failure,
                >(error@),
            },
    {
        match self.expect_word("a port number") {
            Ok((text, offset)) => parse_port(text.as_str(), offset),
            Err(error) => Err(error),
        }
    }

    /// Parses one `[proto] [dir] type value` primitive.
    fn parse_primitive(&mut self) -> (result: Result<Primitive, CompileError>)
        requires
            old(self).inv(),
        ensures
            final(self).tokens == old(self).tokens,
            match result {
                Ok(p) => {
                    &&& primitive_at(old(self).values(), old(self).pos as nat) == Ok::<
                        (Primitive, nat),
                        Failure,
                    >((p, final(self).pos as nat))
                    &&& final(self).advanced(*old(self))
                },
                Err(error) => primitive_at(old(self).values(), old(self).pos as nat) == Err::<
                    (Primitive, nat),
                    Failure,
                >(error@),
            },
    {
        let start: usize = self.peek().offset.start;
        let proto: Option<ProtoTag> = self.try_parse_proto();
        let dir: Option<DirTag> = self.try_parse_dir();
        let ty: PrimType = match self.parse_type(start) {
            Ok(ty) => ty,
            Err(error) => {
                return Err(error);
            },
        };
        let end: usize = self.tokens[self.pos - 1].offset.end;
        Ok(Primitive { proto, dir, ty, offset: start..end })
    }

    /// Parses a type keyword and the value after it. `start` is where the primitive starts.
    fn parse_type(&mut self, start: usize) -> (result: Result<PrimType, CompileError>)
        requires
            old(self).inv(),
        ensures
            final(self).tokens == old(self).tokens,
            match result {
                Ok(ty) => {
                    &&& type_at(old(self).values(), old(self).pos as nat, start) == Ok::<
                        (PrimType, nat),
                        Failure,
                    >((ty, final(self).pos as nat))
                    &&& final(self).advanced(*old(self))
                },
                Err(error) => type_at(old(self).values(), old(self).pos as nat, start) == Err::<
                    (PrimType, nat),
                    Failure,
                >(error@),
            },
    {
        let (ty_word, ty_offset): (String, Offset) = match self.expect_word(
            "'host', 'net', 'port', or 'portrange'",
        ) {
            Ok(found) => found,
            Err(error) => {
                return Err(error);
            },
        };
        let keyword: &str = ty_word.as_str();
        if same_text(keyword, "host") {
            match self.expect_word("an address") {
                Ok((text, offset)) => match parse_addr_literal(text.as_str(), offset, false) {
                    Ok((addr, _)) => Ok(PrimType::Host(addr)),
                    Err(error) => Err(error),
                },
                Err(error) => Err(error),
            }
        } else if same_text(keyword, "net") {
            match self.expect_word("a network address") {
                Ok((text, offset)) => match parse_addr_literal(text.as_str(), offset, true) {
                    Ok((addr, prefix)) => Ok(PrimType::Net(addr, prefix)),
                    Err(error) => Err(error),
                },
                Err(error) => Err(error),
            }
        } else if same_text(keyword, "port") {
            match self.expect_port() {
                Ok(port) => Ok(PrimType::Port(port)),
                Err(error) => Err(error),
            }
        } else if same_text(keyword, "portrange") {
            self.parse_range(start)
        } else if same_text(keyword, "rarp") || same_text(keyword, "sctp") {
            // These protocols exist, but only default expansion reaches them.
            Err(CompileError::new(ty_offset, ErrorTag::UnknownKeyword(ty_word)))
        } else {
            Err(
                CompileError::new(
                    ty_offset,
                    ErrorTag::UnexpectedToken {
                        expected: "'host', 'net', 'port', or 'portrange'",
                        found: ty_word,
                    },
                ),
            )
        }
    }

    /// Parses the two bounds of a port range. `start` is where the primitive starts.
    fn parse_range(&mut self, start: usize) -> (result: Result<PrimType, CompileError>)
        requires
            old(self).inv(),
        ensures
            final(self).tokens == old(self).tokens,
            match result {
                Ok(ty) => {
                    &&& range_at(old(self).values(), old(self).pos as nat, start) == Ok::<
                        (PrimType, nat),
                        Failure,
                    >((ty, final(self).pos as nat))
                    &&& final(self).advanced(*old(self))
                },
                Err(error) => range_at(old(self).values(), old(self).pos as nat, start) == Err::<
                    (PrimType, nat),
                    Failure,
                >(error@),
            },
    {
        let lo: u16 = match self.expect_port() {
            Ok(port) => port,
            Err(error) => {
                return Err(error);
            },
        };
        match self.expect_dash() {
            Ok(_) => {},
            Err(error) => {
                return Err(error);
            },
        }
        let end: usize = self.peek().offset.end;
        let hi: u16 = match self.expect_port() {
            Ok(port) => port,
            Err(error) => {
                return Err(error);
            },
        };
        if lo > hi {
            return Err(
                CompileError::new(
                    start..end,
                    ErrorTag::InvalidPortRange { lo: lo as u32, hi: hi as u32 },
                ),
            );
        }
        Ok(PrimType::PortRange(lo, hi))
    }
}

} // verus!
