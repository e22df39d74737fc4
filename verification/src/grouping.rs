//! A source text that stands in parentheses inside another parses there as it does alone.

use crate::ast::{Expr, PrimType, Primitive};
use crate::codegen;
use crate::desugar::{self, ExpandedExpr};
use crate::error::Failure;
use crate::lexer::{self, Lexed, Lexeme};
use crate::linktype::L3OffsetInfo;
use crate::literal;
use crate::parser;
use crate::semantics;
use crate::spans;
use crate::text;
use core::ops::Range;
use vstd::prelude::*;

verus! {

// ---------------------------------------------------------------------------------------------
// Moving
// ---------------------------------------------------------------------------------------------

/// A byte range, `n` bytes further on.
pub open spec fn moved_range(offset: Range<usize>, n: nat) -> Range<usize> {
    Range { start: (offset.start + n) as usize, end: (offset.end + n) as usize }
}

/// A token, `n` bytes further on.
pub open spec fn moved_token(token: Lexed, n: nat) -> Lexed {
    Lexed { tag: token.tag, offset: moved_range(token.offset, n) }
}

/// Tokens, `n` bytes further on.
pub open spec fn moved_tokens(tokens: Seq<Lexed>, n: nat) -> Seq<Lexed> {
    tokens.map_values(|token: Lexed| moved_token(token, n))
}

/// A primitive, `n` bytes further on.
pub open spec fn moved_primitive(p: Primitive, n: nat) -> Primitive {
    Primitive { offset: moved_range(p.offset, n), ..p }
}

/// An expression, `n` bytes further on: both ends of every offset in it are larger by `n`, and nothing
/// else is changed.
pub open spec fn moved_expr(e: Expr, n: nat) -> Expr
    decreases e,
{
    match e {
        Expr::Primitive(p) => Expr::Primitive(moved_primitive(p, n)),
        Expr::Not(inner, offset) => Expr::Not(
            Box::new(moved_expr(*inner, n)),
            moved_range(offset, n),
        ),
        Expr::And(l, r, offset) => Expr::And(
            Box::new(moved_expr(*l, n)),
            Box::new(moved_expr(*r, n)),
            moved_range(offset, n),
        ),
        Expr::Or(l, r, offset) => Expr::Or(
            Box::new(moved_expr(*l, n)),
            Box::new(moved_expr(*r, n)),
            moved_range(offset, n),
        ),
    }
}

// ---------------------------------------------------------------------------------------------
// Tokens
// ---------------------------------------------------------------------------------------------

/// A character's byte offset depends only on what comes before it.
proof fn lemma_offset_prefix(a: Seq<char>, b: Seq<char>, i: nat)
    requires
        i <= a.len(),
    ensures
        text::offset_of(a + b, i) == text::offset_of(a, i),
    decreases i,
{
    if i > 0 {
        lemma_offset_prefix(a, b, (i - 1) as nat);
    }
}

/// The byte offset of a character of the middle part of a text.
proof fn lemma_offset_inside(pre: Seq<char>, s: Seq<char>, post: Seq<char>, i: nat)
    requires
        i <= s.len(),
    ensures
        text::offset_of(pre + s + post, pre.len() + i) == spans::byte_len(pre) + text::offset_of(
            s,
            i,
        ),
    decreases i,
{
    let all = pre + s + post;
    if i == 0 {
        assert(all =~= pre + (s + post));
        lemma_offset_prefix(pre, s + post, pre.len());
    } else {
        lemma_offset_inside(pre, s, post, (i - 1) as nat);
        assert(all[pre.len() + i - 1] == s[i - 1]);
    }
}

/// A word of the middle part of a text ends where it does alone, if what follows the part starts with
/// no word character.
proof fn lemma_word_end_inside(pre: Seq<char>, s: Seq<char>, post: Seq<char>, i: nat)
    requires
        i <= s.len(),
        post.len() > 0,
        !lexer::word_char(post[0]),
    ensures
        lexer::word_end(pre + s + post, pre.len() + i) == pre.len() + lexer::word_end(s, i),
    decreases s.len() - i,
{
    let all = pre + s + post;
    if i < s.len() {
        assert(all[pre.len() + i as int] == s[i as int]);
        if lexer::word_char(s[i as int]) {
            lemma_word_end_inside(pre, s, post, i + 1);
        }
    } else {
        assert(all[pre.len() + i as int] == post[0]);
    }
}

/// A token of the middle part of a text is the one that it is alone.
proof fn lemma_token_inside(pre: Seq<char>, s: Seq<char>, post: Seq<char>, i: nat)
    requires
        i < s.len(),
        post.len() > 0,
        !lexer::word_char(post[0]),
        lexer::token_at(s, i) is Ok,
    ensures
        lexer::token_at(pre + s + post, pre.len() + i) == Ok::<(Lexeme, nat), Failure>(
            (lexer::token_at(s, i)->Ok_0.0, pre.len() + lexer::token_at(s, i)->Ok_0.1),
        ),
{
    let all = pre + s + post;
    let at = pre.len() + i;
    let end = lexer::word_end(s, i);
    lemma_word_end_inside(pre, s, post, i);
    lexer::lemma_word_end(s, i);
    assert(all[at as int] == s[i as int]);
    if i + 1 < s.len() {
        assert(all[at as int + 1] == s[i as int + 1]);
    }
    assert(all.subrange(at as int, (pre.len() + end) as int) =~= s.subrange(i as int, end as int));
}

/// The middle part of a text gives the tokens that it gives alone, moved by what comes before it.
pub proof fn lexing_inside(pre: Seq<char>, s: Seq<char>, post: Seq<char>, i: nat)
    requires
        i <= s.len(),
        post.len() > 0,
        !lexer::word_char(post[0]),
        lexer::lexed_from(s, i) is Ok,
        spans::byte_len(pre + s + post) <= usize::MAX,
    ensures
        lexer::lexed_from(pre + s + post, pre.len() + i) == lexer::followed_by(
            moved_tokens(lexer::lexed_from(s, i)->Ok_0.drop_last(), spans::byte_len(pre)),
            lexer::lexed_from(pre + s + post, pre.len() + s.len()),
        ),
    decreases s.len() - i,
{
    let all = pre + s + post;
    let n = spans::byte_len(pre);
    let rest = lexer::lexed_from(all, pre.len() + s.len());
    let tokens = lexer::lexed_from(s, i)->Ok_0;
    if i == s.len() {
        assert(moved_tokens(tokens.drop_last(), n) =~= seq![]);
        if let Ok(more) = rest {
            assert(Seq::<Lexed>::empty() + more =~= more);
        }
    } else {
        let at = pre.len() + i;
        assert(all[at as int] == s[i as int]);
        if text::whitespace(s[i as int]) {
            lexing_inside(pre, s, post, i + 1);
        } else {
            let (tag, end) = lexer::token_at(s, i)->Ok_0;
            lemma_token_inside(pre, s, post, i);
            lexer::lemma_word_end(s, i);
            lexing_inside(pre, s, post, end);
            lemma_offset_inside(pre, s, post, i);
            lemma_offset_inside(pre, s, post, end);
            text::offsets_grow(all, pre.len() + i, pre.len() + end);
            text::offsets_grow(all, pre.len() + end, all.len());
            lexer::lexed_is_complete(s, end);
            let later = lexer::lexed_from(s, end)->Ok_0;
            let token = Lexed { tag, offset: lexer::bytes_of(s, i, end) };
            let there = Lexed { tag, offset: lexer::bytes_of(all, at, pre.len() + end) };
            assert(tokens =~= seq![token] + later);
            assert(there == moved_token(token, n));
            assert(moved_tokens(tokens.drop_last(), n) =~= seq![there] + moved_tokens(
                later.drop_last(),
                n,
            ));
            if let Ok(more) = rest {
                assert(seq![there] + (moved_tokens(later.drop_last(), n) + more) =~= seq![there]
                    + moved_tokens(later.drop_last(), n) + more);
            }
        }
    }
}

/// A word that stands alone is one token.
pub proof fn lexing_a_word(src: Seq<char>, at: nat, word: Seq<char>)
    requires
        word.len() > 0,
        at + word.len() < src.len(),
        src.subrange(at as int, (at + word.len()) as int) == word,
        forall|i: int| 0 <= i < word.len() ==> lexer::word_char(#[trigger] word[i]),
        !lexer::word_char(src[(at + word.len()) as int]),
    ensures
        lexer::token_at(src, at) == Ok::<(Lexeme, nat), Failure>(
            (Lexeme::Word(word), at + word.len()),
        ),
        !text::whitespace(src[at as int]),
{
    let end = lexer::word_end(src, at);
    lexer::lemma_word_end(src, at);
    assert forall|i: int| 0 <= i < word.len() implies src[at + i] == #[trigger] word[i] by {
        assert(src.subrange(at as int, (at + word.len()) as int)[i] == src[at + i]);
    }
    assert(lexer::word_char(word[0]));
    if end < at + word.len() {
        assert(lexer::word_char(word[end - at]));
    }
}

// ---------------------------------------------------------------------------------------------
// Expressions
// ---------------------------------------------------------------------------------------------

/// Whether the tokens of one stream, but for its `Eof`, stand in another from position `d` on, `n`
/// bytes further on and with a `)` after them.
#[verifier::opaque]
pub open spec fn embeds(inner: Seq<Lexed>, outer: Seq<Lexed>, d: nat, n: nat) -> bool {
    &&& lexer::ends_with_eof(inner)
    &&& d + inner.len() <= outer.len()
    &&& forall|i: int|
        0 <= i < inner.len() - 1 ==> outer[d + i] == moved_token(#[trigger] inner[i], n)
    &&& outer[d + inner.len() - 1].tag is RParen
}

/// A token other than `Eof` is the same in both streams, and where there is an `Eof` in the inner one,
/// there is no word, dash or `(` in the outer one.
proof fn lemma_tag_moved(inner: Seq<Lexed>, outer: Seq<Lexed>, d: nat, n: nat, at: nat)
    requires
        embeds(inner, outer, d, n),
        at < inner.len(),
    ensures
        d + at < outer.len(),
        parser::tag_at(inner, at) !is Eof ==> {
            &&& at < inner.len() - 1
            &&& parser::tag_at(outer, d + at) == parser::tag_at(inner, at)
            &&& parser::offset_at(outer, d + at) == moved_range(parser::offset_at(inner, at), n)
        },
        parser::tag_at(inner, at) is Eof ==> {
            let tag = parser::tag_at(outer, d + at);
            tag is Eof || tag is RParen
        },
{
    reveal(embeds);
    if at < inner.len() - 1 {
        assert(outer[d + at as int] == moved_token(inner[at as int], n));
    }
}

/// A word.
proof fn lemma_word_moved(
    inner: Seq<Lexed>,
    outer: Seq<Lexed>,
    d: nat,
    n: nat,
    at: nat,
    expected: Seq<char>,
)
    requires
        embeds(inner, outer, d, n),
    ensures
        parser::word_at(inner, at, expected) matches Ok(word) ==> {
            &&& at < inner.len() - 1
            &&& parser::word_at(outer, d + at, expected) == Ok::<Seq<char>, Failure>(word)
        },
{
    if at < inner.len() {
        lemma_tag_moved(inner, outer, d, n, at);
    }
}

/// An address literal stands for the same address wherever it stands.
proof fn lemma_address_anywhere(
    literal: Seq<char>,
    offset: Range<usize>,
    other: Range<usize>,
    allow_prefix: bool,
)
    ensures
        literal::addr_literal(literal, offset, allow_prefix) is Ok ==> literal::addr_literal(
            literal,
            other,
            allow_prefix,
        ) == literal::addr_literal(literal, offset, allow_prefix),
{
}

/// A port number.
proof fn lemma_port_moved(inner: Seq<Lexed>, outer: Seq<Lexed>, d: nat, n: nat, at: nat)
    requires
        embeds(inner, outer, d, n),
    ensures
        parser::port_at(inner, at) matches Ok(port) ==> {
            &&& at < inner.len() - 1
            &&& parser::port_at(outer, d + at) == Ok::<u16, Failure>(port)
        },
{
    lemma_word_moved(inner, outer, d, n, at, "a port number"@);
}

/// A port range.
proof fn lemma_range_moved(
    inner: Seq<Lexed>,
    outer: Seq<Lexed>,
    d: nat,
    n: nat,
    at: nat,
    start: usize,
    outer_start: usize,
)
    requires
        embeds(inner, outer, d, n),
    ensures
        parser::range_at(inner, at, start) matches Ok((ty, end)) ==> {
            &&& at < end < inner.len()
            &&& parser::tag_at(inner, (end - 1) as nat) !is Eof
            &&& parser::range_at(outer, d + at, outer_start) == Ok::<(PrimType, nat), Failure>(
                (ty, d + end),
            )
        },
{
    lemma_port_moved(inner, outer, d, n, at);
    if at + 1 < inner.len() {
        lemma_tag_moved(inner, outer, d, n, at + 1);
    }
    lemma_port_moved(inner, outer, d, n, at + 2);
    assert(d + at + 1 == d + (at + 1) && d + at + 2 == d + (at + 2));
}

/// A type and its value.
proof fn lemma_type_moved(
    inner: Seq<Lexed>,
    outer: Seq<Lexed>,
    d: nat,
    n: nat,
    at: nat,
    start: usize,
    outer_start: usize,
)
    requires
        embeds(inner, outer, d, n),
    ensures
        parser::type_at(inner, at, start) matches Ok((ty, end)) ==> {
            &&& at < end < inner.len()
            &&& parser::tag_at(inner, (end - 1) as nat) !is Eof
            &&& parser::type_at(outer, d + at, outer_start) == Ok::<(PrimType, nat), Failure>(
                (ty, d + end),
            )
        },
{
    let o = parser::offset_at(inner, at + 1);
    let p = parser::offset_at(outer, d + at + 1);
    lemma_word_moved(inner, outer, d, n, at, "'host', 'net', 'port', or 'portrange'"@);
    if let Ok(word) = parser::word_at(inner, at, "'host', 'net', 'port', or 'portrange'"@) {
        if word == "host"@ {
            lemma_word_moved(inner, outer, d, n, at + 1, "an address"@);
            if let Ok(literal) = parser::word_at(inner, at + 1, "an address"@) {
                lemma_address_anywhere(literal, o, p, false);
            }
        } else if word == "net"@ {
            lemma_word_moved(inner, outer, d, n, at + 1, "a network address"@);
            if let Ok(literal) = parser::word_at(inner, at + 1, "a network address"@) {
                lemma_address_anywhere(literal, o, p, true);
            }
        } else if word == "port"@ {
            lemma_port_moved(inner, outer, d, n, at + 1);
        } else if word == "portrange"@ {
            lemma_range_moved(inner, outer, d, n, at + 1, start, outer_start);
        }
    }
}

/// The primitive at a position, given what its type keyword and value match on.
spec fn primitive_of(
    tokens: Seq<Lexed>,
    at: nat,
    ty: Result<(PrimType, nat), Failure>,
) -> Result<(Primitive, nat), Failure> {
    let dir_pos = parser::after(at, parser::proto_at(tokens, at) is Some);
    match ty {
        Err(failure) => Err(failure),
        Ok((ty, end)) => Ok(
            (
                Primitive {
                    proto: parser::proto_at(tokens, at),
                    dir: parser::dir_at(tokens, dir_pos),
                    ty,
                    offset: Range {
                        start: parser::offset_at(tokens, at).start,
                        end: parser::offset_at(tokens, (end - 1) as nat).end,
                    },
                },
                end,
            ),
        ),
    }
}

/// Where a primitive's type keyword is.
spec fn type_pos(tokens: Seq<Lexed>, at: nat) -> nat {
    let dir_pos = parser::after(at, parser::proto_at(tokens, at) is Some);
    parser::after(dir_pos, parser::dir_at(tokens, dir_pos) is Some)
}

/// A primitive is what its type keyword and value make it.
proof fn lemma_primitive_of(tokens: Seq<Lexed>, at: nat)
    ensures
        parser::primitive_at(tokens, at) == primitive_of(
            tokens,
            at,
            parser::type_at(tokens, type_pos(tokens, at), parser::offset_at(tokens, at).start),
        ),
{
}

/// A primitive, given what its type keyword and value match on.
proof fn lemma_primitive_of_moved(
    inner: Seq<Lexed>,
    outer: Seq<Lexed>,
    d: nat,
    n: nat,
    at: nat,
    ty: PrimType,
    end: nat,
)
    requires
        embeds(inner, outer, d, n),
        at < end < inner.len(),
        parser::tag_at(inner, at) is Word,
        parser::tag_at(inner, (end - 1) as nat) !is Eof,
    ensures
        primitive_of(outer, d + at, Ok((ty, d + end))) == Ok::<(Primitive, nat), Failure>(
            (
                moved_primitive(primitive_of(inner, at, Ok((ty, end)))->Ok_0.0, n),
                d + end,
            ),
        ),
{
    lemma_tag_moved(inner, outer, d, n, at);
    lemma_tag_moved(
        inner,
        outer,
        d,
        n,
        parser::after(at, parser::proto_at(inner, at) is Some),
    );
    lemma_tag_moved(inner, outer, d, n, (end - 1) as nat);
}

/// Where a primitive's type keyword is, in both streams.
proof fn lemma_type_pos_moved(inner: Seq<Lexed>, outer: Seq<Lexed>, d: nat, n: nat, at: nat)
    requires
        embeds(inner, outer, d, n),
        at < inner.len(),
        parser::tag_at(inner, at) is Word,
    ensures
        type_pos(outer, d + at) == d + type_pos(inner, at),
        at <= type_pos(inner, at),
{
    lemma_tag_moved(inner, outer, d, n, at);
    lemma_tag_moved(
        inner,
        outer,
        d,
        n,
        parser::after(at, parser::proto_at(inner, at) is Some),
    );
}

/// A primitive.
proof fn lemma_primitive_moved(inner: Seq<Lexed>, outer: Seq<Lexed>, d: nat, n: nat, at: nat)
    requires
        embeds(inner, outer, d, n),
        at < inner.len(),
        parser::tag_at(inner, at) is Word,
    ensures
        parser::primitive_at(inner, at) matches Ok((p, end)) ==> {
            &&& at < end < inner.len()
            &&& parser::primitive_at(outer, d + at) == Ok::<(Primitive, nat), Failure>(
                (moved_primitive(p, n), d + end),
            )
        },
{
    let here = type_pos(inner, at);
    let start = parser::offset_at(inner, at).start;
    lemma_primitive_of(inner, at);
    lemma_primitive_of(outer, d + at);
    lemma_type_pos_moved(inner, outer, d, n, at);
    lemma_type_moved(
        inner,
        outer,
        d,
        n,
        here,
        start,
        parser::offset_at(outer, d + at).start,
    );
    if let Ok((ty, end)) = parser::type_at(inner, here, start) {
        lemma_primitive_of_moved(inner, outer, d, n, at, ty, end);
    }
}

// Each of the parser's functions under a name that does not unfold, and one step of each.

#[verifier::opaque]
pub open spec fn prim_of(tokens: Seq<Lexed>, at: nat) -> Result<(Primitive, nat), Failure> {
    parser::primitive_at(tokens, at)
}

#[verifier::opaque]
pub open spec fn primary_of(tokens: Seq<Lexed>, at: nat) -> Result<(Expr, nat), Failure> {
    parser::primary_at(tokens, at)
}

#[verifier::opaque]
pub open spec fn unary_of(tokens: Seq<Lexed>, at: nat) -> Result<(Expr, nat), Failure> {
    parser::unary_at(tokens, at)
}

#[verifier::opaque]
pub open spec fn and_rest_of(tokens: Seq<Lexed>, lhs: Expr, at: nat) -> Result<(Expr, nat), Failure> {
    parser::and_rest(tokens, lhs, at)
}

#[verifier::opaque]
pub open spec fn and_of(tokens: Seq<Lexed>, at: nat) -> Result<(Expr, nat), Failure> {
    parser::and_at(tokens, at)
}

#[verifier::opaque]
pub open spec fn or_rest_of(tokens: Seq<Lexed>, lhs: Expr, at: nat) -> Result<(Expr, nat), Failure> {
    parser::or_rest(tokens, lhs, at)
}

#[verifier::opaque]
pub open spec fn or_of(tokens: Seq<Lexed>, at: nat) -> Result<(Expr, nat), Failure> {
    parser::or_at(tokens, at)
}

#[verifier::opaque]
pub open spec fn whole_of(tokens: Seq<Lexed>) -> Result<Expr, Failure> {
    parser::parsed(tokens)
}

/// One step of a primary expression.
pub proof fn lemma_primary_step(tokens: Seq<Lexed>, at: nat)
    ensures
        parser::tag_at(tokens, at) is LParen ==> (or_of(tokens, at + 1) matches Ok((inner, end))
            ==> parser::tag_at(tokens, end) is RParen ==> primary_of(tokens, at) == Ok::<
            (Expr, nat),
            Failure,
        >((inner, end + 1))),
        primary_of(tokens, at) matches Ok((e, end)) ==> {
            ||| {
                &&& parser::tag_at(tokens, at) is LParen
                &&& end > 0
                &&& or_of(tokens, at + 1) == Ok::<(Expr, nat), Failure>((e, (end - 1) as nat))
                &&& parser::tag_at(tokens, (end - 1) as nat) is RParen
            }
            ||| {
                &&& parser::tag_at(tokens, at) is Word
                &&& e is Primitive
                &&& prim_of(tokens, at) == Ok::<(Primitive, nat), Failure>((e->Primitive_0, end))
            }
        },
        parser::tag_at(tokens, at) is Word ==> (prim_of(tokens, at) matches Ok((p, end))
            ==> primary_of(tokens, at) == Ok::<(Expr, nat), Failure>((Expr::Primitive(p), end))),
{
    reveal(prim_of);
    reveal(primary_of);
    reveal(or_of);
}

/// One step of a unary expression.
pub proof fn lemma_unary_step(tokens: Seq<Lexed>, at: nat)
    ensures
        unary_of(tokens, at) == if parser::tag_at(tokens, at) == Lexeme::Word("not"@) {
            match unary_of(tokens, at + 1) {
                Err(failure) => Err(failure),
                Ok((inner, end)) => Ok(
                    (
                        Expr::Not(
                            Box::new(inner),
                            Range {
                                start: parser::offset_at(tokens, at).start,
                                end: parser::span(inner).end,
                            },
                        ),
                        end,
                    ),
                ),
            }
        } else {
            primary_of(tokens, at)
        },
{
    reveal(unary_of);
    reveal(primary_of);
}

/// One step of a conjunction that goes on.
pub proof fn lemma_and_rest_step(tokens: Seq<Lexed>, lhs: Expr, at: nat)
    requires
        at < tokens.len(),
    ensures
        and_rest_of(tokens, lhs, at) == if parser::tag_at(tokens, at) == Lexeme::Word("and"@) {
            match unary_of(tokens, at + 1) {
                Err(failure) => Err(failure),
                Ok((rhs, end)) => {
                    let both = Expr::And(
                        Box::new(lhs),
                        Box::new(rhs),
                        parser::span_of_both(lhs, rhs),
                    );
                    if at < end {
                        and_rest_of(tokens, both, end)
                    } else {
                        Ok((both, end))
                    }
                },
            }
        } else {
            Ok((lhs, at))
        },
{
    reveal(and_rest_of);
    reveal(unary_of);
}

/// One step of a conjunction.
pub proof fn lemma_and_step(tokens: Seq<Lexed>, at: nat)
    requires
        at < tokens.len(),
    ensures
        and_of(tokens, at) == match unary_of(tokens, at) {
            Err(failure) => Err(failure),
            Ok((lhs, end)) => if at < end {
                and_rest_of(tokens, lhs, end)
            } else {
                Ok((lhs, end))
            },
        },
{
    reveal(and_of);
    reveal(and_rest_of);
    reveal(unary_of);
}

/// One step of a disjunction that goes on.
pub proof fn lemma_or_rest_step(tokens: Seq<Lexed>, lhs: Expr, at: nat)
    requires
        at < tokens.len(),
    ensures
        or_rest_of(tokens, lhs, at) == if parser::tag_at(tokens, at) == Lexeme::Word("or"@) {
            match and_of(tokens, at + 1) {
                Err(failure) => Err(failure),
                Ok((rhs, end)) => {
                    let either = Expr::Or(
                        Box::new(lhs),
                        Box::new(rhs),
                        parser::span_of_both(lhs, rhs),
                    );
                    if at < end {
                        or_rest_of(tokens, either, end)
                    } else {
                        Ok((either, end))
                    }
                },
            }
        } else {
            Ok((lhs, at))
        },
{
    reveal(or_rest_of);
    reveal(and_of);
}

/// One step of a disjunction.
pub proof fn lemma_or_step(tokens: Seq<Lexed>, at: nat)
    requires
        at < tokens.len(),
    ensures
        or_of(tokens, at) == match and_of(tokens, at) {
            Err(failure) => Err(failure),
            Ok((lhs, end)) => if at < end {
                or_rest_of(tokens, lhs, end)
            } else {
                Ok((lhs, end))
            },
        },
{
    reveal(or_of);
    reveal(or_rest_of);
    reveal(and_of);
}

/// One step of a whole stream.
pub proof fn lemma_whole_step(tokens: Seq<Lexed>)
    ensures
        whole_of(tokens) matches Ok(e) ==> {
            &&& or_of(tokens, 0) matches Ok((same, end))
            &&& same == e
            &&& parser::tag_at(tokens, end) is Eof
        },
        parser::tag_at(tokens, 0) !is Eof ==> (or_of(tokens, 0) matches Ok((e, end))
            ==> parser::tag_at(tokens, end) is Eof ==> whole_of(tokens) == Ok::<Expr, Failure>(e)),
{
    reveal(whole_of);
    reveal(or_of);
}

/// Whether parsing the outer stream gives what parsing the inner one gives, moved.
spec fn carries(
    inner: Result<(Expr, nat), Failure>,
    outer: Result<(Expr, nat), Failure>,
    at: nat,
    d: nat,
    n: nat,
    limit: nat,
) -> bool {
    inner matches Ok((e, end)) ==> {
        &&& at <= end < limit
        &&& outer == Ok::<(Expr, nat), Failure>((moved_expr(e, n), d + end))
    }
}

/// A primitive, under the names that do not unfold.
proof fn lemma_prim_moved(inner: Seq<Lexed>, outer: Seq<Lexed>, d: nat, n: nat, at: nat)
    requires
        embeds(inner, outer, d, n),
        at < inner.len(),
        parser::tag_at(inner, at) is Word,
    ensures
        prim_of(inner, at) matches Ok((p, end)) ==> {
            &&& at < end < inner.len()
            &&& prim_of(outer, d + at) == Ok::<(Primitive, nat), Failure>(
                (moved_primitive(p, n), d + end),
            )
        },
{
    reveal(prim_of);
    lemma_primitive_moved(inner, outer, d, n, at);
}

/// A primary expression.
proof fn lemma_primary_moved(inner: Seq<Lexed>, outer: Seq<Lexed>, d: nat, n: nat, at: nat)
    requires
        embeds(inner, outer, d, n),
        at < inner.len(),
    ensures
        carries(primary_of(inner, at), primary_of(outer, d + at), at + 1, d, n, inner.len()),
    decreases parser::left(inner, at), 0nat,
{
    lemma_tag_moved(inner, outer, d, n, at);
    lemma_primary_step(inner, at);
    lemma_primary_step(outer, d + at);
    match parser::tag_at(inner, at) {
        Lexeme::LParen => {
            lemma_or_moved(inner, outer, d, n, at + 1);
            if let Ok((_, end)) = or_of(inner, at + 1) {
                lemma_tag_moved(inner, outer, d, n, end);
            }
        },
        Lexeme::Word(_) => lemma_prim_moved(inner, outer, d, n, at),
        _ => {},
    }
}

/// A unary expression.
proof fn lemma_unary_moved(inner: Seq<Lexed>, outer: Seq<Lexed>, d: nat, n: nat, at: nat)
    requires
        embeds(inner, outer, d, n),
        at < inner.len(),
    ensures
        carries(unary_of(inner, at), unary_of(outer, d + at), at + 1, d, n, inner.len()),
    decreases parser::left(inner, at), 1nat,
{
    lemma_tag_moved(inner, outer, d, n, at);
    lemma_unary_step(inner, at);
    lemma_unary_step(outer, d + at);
    if parser::tag_at(inner, at) == Lexeme::Word("not"@) {
        lemma_unary_moved(inner, outer, d, n, at + 1);
    } else {
        lemma_primary_moved(inner, outer, d, n, at);
    }
}

/// A conjunction that goes on.
proof fn lemma_and_rest_moved(
    inner: Seq<Lexed>,
    outer: Seq<Lexed>,
    d: nat,
    n: nat,
    lhs: Expr,
    at: nat,
)
    requires
        embeds(inner, outer, d, n),
        at < inner.len(),
    ensures
        carries(
            and_rest_of(inner, lhs, at),
            and_rest_of(outer, moved_expr(lhs, n), d + at),
            at,
            d,
            n,
            inner.len(),
        ),
    decreases parser::left(inner, at), 2nat,
{
    lemma_tag_moved(inner, outer, d, n, at);
    lemma_and_rest_step(inner, lhs, at);
    lemma_and_rest_step(outer, moved_expr(lhs, n), d + at);
    if parser::tag_at(inner, at) == Lexeme::Word("and"@) {
        lemma_unary_moved(inner, outer, d, n, at + 1);
        if let Ok((rhs, end)) = unary_of(inner, at + 1) {
            let both = Expr::And(Box::new(lhs), Box::new(rhs), parser::span_of_both(lhs, rhs));
            lemma_and_rest_moved(inner, outer, d, n, both, end);
        }
    }
}

/// A conjunction.
proof fn lemma_and_moved(inner: Seq<Lexed>, outer: Seq<Lexed>, d: nat, n: nat, at: nat)
    requires
        embeds(inner, outer, d, n),
        at < inner.len(),
    ensures
        carries(and_of(inner, at), and_of(outer, d + at), at + 1, d, n, inner.len()),
    decreases parser::left(inner, at), 3nat,
{
    lemma_tag_moved(inner, outer, d, n, at);
    lemma_and_step(inner, at);
    lemma_and_step(outer, d + at);
    lemma_unary_moved(inner, outer, d, n, at);
    if let Ok((lhs, end)) = unary_of(inner, at) {
        lemma_and_rest_moved(inner, outer, d, n, lhs, end);
    }
}

/// A disjunction that goes on.
proof fn lemma_or_rest_moved(
    inner: Seq<Lexed>,
    outer: Seq<Lexed>,
    d: nat,
    n: nat,
    lhs: Expr,
    at: nat,
)
    requires
        embeds(inner, outer, d, n),
        at < inner.len(),
    ensures
        carries(
            or_rest_of(inner, lhs, at),
            or_rest_of(outer, moved_expr(lhs, n), d + at),
            at,
            d,
            n,
            inner.len(),
        ),
    decreases parser::left(inner, at), 4nat,
{
    lemma_tag_moved(inner, outer, d, n, at);
    lemma_or_rest_step(inner, lhs, at);
    lemma_or_rest_step(outer, moved_expr(lhs, n), d + at);
    if parser::tag_at(inner, at) == Lexeme::Word("or"@) {
        lemma_and_moved(inner, outer, d, n, at + 1);
        if let Ok((rhs, end)) = and_of(inner, at + 1) {
            let either = Expr::Or(Box::new(lhs), Box::new(rhs), parser::span_of_both(lhs, rhs));
            lemma_or_rest_moved(inner, outer, d, n, either, end);
        }
    }
}

/// A disjunction.
proof fn lemma_or_moved(inner: Seq<Lexed>, outer: Seq<Lexed>, d: nat, n: nat, at: nat)
    requires
        embeds(inner, outer, d, n),
        at < inner.len(),
    ensures
        carries(or_of(inner, at), or_of(outer, d + at), at + 1, d, n, inner.len()),
    decreases parser::left(inner, at), 5nat,
{
    lemma_tag_moved(inner, outer, d, n, at);
    lemma_or_step(inner, at);
    lemma_or_step(outer, d + at);
    lemma_and_moved(inner, outer, d, n, at);
    if let Ok((lhs, end)) = and_of(inner, at) {
        lemma_or_rest_moved(inner, outer, d, n, lhs, end);
    }
}

/// A token stream that parses alone parses in parentheses inside another to the same expression,
/// moved.
proof fn lemma_group(inner: Seq<Lexed>, outer: Seq<Lexed>, d: nat, n: nat)
    requires
        lexer::complete(inner),
        whole_of(inner) is Ok,
        embeds(inner, outer, d, n),
        d > 0,
        outer[d - 1].tag is LParen,
    ensures
        unary_of(outer, (d - 1) as nat) == Ok::<(Expr, nat), Failure>(
            (moved_expr(whole_of(inner)->Ok_0, n), d + inner.len()),
        ),
{
    reveal(embeds);
    lemma_whole_step(inner);
    lemma_or_moved(inner, outer, d, n, 0);
    let (_, end) = or_of(inner, 0)->Ok_0;
    if end < inner.len() - 1 {
        assert(inner[end as int].tag !is Eof);
    }
    lemma_primary_step(outer, (d - 1) as nat);
    lemma_unary_step(outer, (d - 1) as nat);
}

/// A unary expression that reaches up to the last token is the whole.
proof fn lemma_whole(tokens: Seq<Lexed>, e: Expr, end: nat)
    requires
        unary_of(tokens, 0) == Ok::<(Expr, nat), Failure>((e, end)),
        0 < end < tokens.len(),
        tokens[0].tag !is Eof,
        tokens[end as int].tag is Eof,
    ensures
        whole_of(tokens) == Ok::<Expr, Failure>(e),
{
    lemma_and_step(tokens, 0);
    lemma_and_rest_step(tokens, e, end);
    lemma_or_step(tokens, 0);
    lemma_or_rest_step(tokens, e, end);
    lemma_whole_step(tokens);
}

/// A primitive that reaches up to the last token is the whole.
pub proof fn parsing_a_primitive(tokens: Seq<Lexed>, p: Primitive, end: nat)
    requires
        parser::primitive_at(tokens, 0) == Ok::<(Primitive, nat), Failure>((p, end)),
        0 < end < tokens.len(),
        tokens[0].tag is Word,
        tokens[0].tag != Lexeme::Word("not"@),
        tokens[end as int].tag is Eof,
    ensures
        parser::parsed(tokens) == Ok::<Expr, Failure>(Expr::Primitive(p)),
{
    assert(prim_of(tokens, 0) == Ok::<(Primitive, nat), Failure>((p, end))) by {
        reveal(prim_of);
    }
    lemma_primary_step(tokens, 0);
    lemma_unary_step(tokens, 0);
    lemma_whole(tokens, Expr::Primitive(p), end);
    assert(parser::parsed(tokens) == whole_of(tokens)) by {
        reveal(whole_of);
    }
}

/// Two unary expressions around an `and` that reach up to the last token are the whole.
proof fn lemma_conjunction(tokens: Seq<Lexed>, l: Expr, r: Expr, mid: nat, end: nat)
    requires
        tokens[0].tag !is Eof,
        0 < mid < end < tokens.len(),
        unary_of(tokens, 0) == Ok::<(Expr, nat), Failure>((l, mid)),
        tokens[mid as int].tag == Lexeme::Word("and"@),
        unary_of(tokens, mid + 1) == Ok::<(Expr, nat), Failure>((r, end)),
        tokens[end as int].tag is Eof,
    ensures
        whole_of(tokens) == Ok::<Expr, Failure>(
            Expr::And(Box::new(l), Box::new(r), parser::span_of_both(l, r)),
        ),
{
    let e = Expr::And(Box::new(l), Box::new(r), parser::span_of_both(l, r));
    lemma_and_step(tokens, 0);
    lemma_and_rest_step(tokens, l, mid);
    lemma_and_rest_step(tokens, e, end);
    lemma_or_step(tokens, 0);
    lemma_or_rest_step(tokens, e, end);
    lemma_whole_step(tokens);
}

/// Two unary expressions around an `or` that reach up to the last token are the whole.
proof fn lemma_disjunction(tokens: Seq<Lexed>, l: Expr, r: Expr, mid: nat, end: nat)
    requires
        tokens[0].tag !is Eof,
        0 < mid,
        mid + 1 < end < tokens.len(),
        unary_of(tokens, 0) == Ok::<(Expr, nat), Failure>((l, mid)),
        tokens[mid as int].tag == Lexeme::Word("or"@),
        unary_of(tokens, mid + 1) == Ok::<(Expr, nat), Failure>((r, end)),
        tokens[end as int].tag is Eof,
    ensures
        whole_of(tokens) == Ok::<Expr, Failure>(
            Expr::Or(Box::new(l), Box::new(r), parser::span_of_both(l, r)),
        ),
{
    reveal_strlit("or");
    reveal_strlit("and");
    assert("or"@.len() != "and"@.len());
    let e = Expr::Or(Box::new(l), Box::new(r), parser::span_of_both(l, r));
    lemma_and_step(tokens, 0);
    lemma_and_rest_step(tokens, l, mid);
    lemma_or_step(tokens, 0);
    lemma_or_rest_step(tokens, l, mid);
    lemma_and_step(tokens, mid + 1);
    lemma_and_rest_step(tokens, r, end);
    lemma_or_rest_step(tokens, e, end);
    lemma_whole_step(tokens);
}

// ---------------------------------------------------------------------------------------------
// Source texts
// ---------------------------------------------------------------------------------------------

/// A source text in parentheses.
pub open spec fn in_parens(s: Seq<char>) -> Seq<char> {
    "("@ + s + ")"@
}

/// A source text in parentheses after a `not`.
pub open spec fn negation_of(s: Seq<char>) -> Seq<char> {
    "not ("@ + s + ")"@
}

/// Two source texts in parentheses around an `and`.
pub open spec fn conjunction_of(a: Seq<char>, b: Seq<char>) -> Seq<char> {
    "("@ + a + ") and ("@ + b + ")"@
}

/// Two source texts in parentheses around an `or`.
pub open spec fn disjunction_of(a: Seq<char>, b: Seq<char>) -> Seq<char> {
    "("@ + a + ") or ("@ + b + ")"@
}

/// Two source texts in parentheses with a word between them.
spec fn connected(a: Seq<char>, word: Seq<char>, b: Seq<char>) -> Seq<char> {
    "("@ + a + (") "@ + word + " ("@) + b + ")"@
}

/// The tokens of a text and the `)` after it, wherever they stand.
proof fn lemma_group_tokens(pre: Seq<char>, s: Seq<char>, post: Seq<char>)
    requires
        post.len() > 0,
        post[0] == ')',
        lexer::lexed(s) is Ok,
        spans::byte_len(pre + s + post) <= usize::MAX,
    ensures
        ({
            let all = pre + s + post;
            let end = pre.len() + s.len();
            lexer::lexed_from(all, pre.len()) == lexer::followed_by(
                moved_tokens(lexer::lexed(s)->Ok_0.drop_last(), spans::byte_len(pre)).push(
                    Lexed { tag: Lexeme::RParen, offset: lexer::bytes_of(all, end, end + 1) },
                ),
                lexer::lexed_from(all, end + 1),
            )
        }),
{
    let all = pre + s + post;
    let end = pre.len() + s.len();
    let paren = Lexed { tag: Lexeme::RParen, offset: lexer::bytes_of(all, end, end + 1) };
    let moved = moved_tokens(lexer::lexed(s)->Ok_0.drop_last(), spans::byte_len(pre));
    lexing_inside(pre, s, post, 0);
    assert(all[end as int] == ')');
    assert(lexer::lexed_from(all, end) == lexer::followed_by(
        seq![paren],
        lexer::lexed_from(all, end + 1),
    ));
    if let Ok(more) = lexer::lexed_from(all, end + 1) {
        assert(moved + (seq![paren] + more) =~= moved.push(paren) + more);
    }
}

/// A stream made of some tokens, those of a complete one but for its `Eof`, moved, and a `)`.
proof fn lemma_embeds(front: Seq<Lexed>, inner: Seq<Lexed>, n: nat, paren: Lexed, more: Seq<Lexed>)
    requires
        lexer::complete(inner),
        paren.tag is RParen,
    ensures
        embeds(
            inner,
            front + (moved_tokens(inner.drop_last(), n).push(paren) + more),
            front.len(),
            n,
        ),
{
    reveal(embeds);
    let outer = front + (moved_tokens(inner.drop_last(), n).push(paren) + more);
    assert forall|i: int| 0 <= i < inner.len() - 1 implies outer[front.len() + i] == moved_token(
        #[trigger] inner[i],
        n,
    ) by {
        assert(inner.drop_last()[i] == inner[i]);
    }
}

/// The tokens of a text in parentheses after some others: `front` are the tokens of what comes before
/// the text, the last of them a `(`.
proof fn lemma_last_group(pre: Seq<char>, s: Seq<char>, front: Seq<Lexed>) -> (outer: Seq<Lexed>)
    requires
        lexer::lexed(s) is Ok,
        spans::byte_len(pre + s + ")"@) <= usize::MAX,
    ensures
        lexer::followed_by(front, lexer::lexed_from(pre + s + ")"@, pre.len())) == Ok::<
            Seq<Lexed>,
            Failure,
        >(outer),
        embeds(lexer::lexed(s)->Ok_0, outer, front.len(), spans::byte_len(pre)),
        outer.len() == front.len() + lexer::lexed(s)->Ok_0.len() + 1,
        outer.last().tag is Eof,
        forall|i: int| 0 <= i < front.len() ==> #[trigger] outer[i] == front[i],
{
    reveal_strlit(")");
    let all = pre + s + ")"@;
    let end = pre.len() + s.len();
    let inner = lexer::lexed(s)->Ok_0;
    let n = spans::byte_len(pre);
    let paren = Lexed { tag: Lexeme::RParen, offset: lexer::bytes_of(all, end, end + 1) };
    let more = lexer::lexed_from(all, end + 1)->Ok_0;
    lexer::lexed_is_complete(s, 0);
    lemma_group_tokens(pre, s, ")"@);
    lemma_embeds(front, inner, n, paren, more);
    front + (moved_tokens(inner.drop_last(), n).push(paren) + more)
}

/// What a source text parses to.
#[verifier::opaque]
pub open spec fn ast_of(src: Seq<char>) -> Result<Expr, Failure> {
    match lexer::lexed(src) {
        Ok(tokens) => parser::parsed(tokens),
        Err(failure) => Err(failure),
    }
}

/// The tokens of a source text, under a name that does not unfold.
#[verifier::opaque]
spec fn tokens_of(src: Seq<char>) -> Result<Seq<Lexed>, Failure> {
    lexer::lexed(src)
}

/// What a source text parses to, in terms of its tokens.
proof fn lemma_ast(src: Seq<char>)
    ensures
        ast_of(src) is Ok ==> {
            &&& tokens_of(src) is Ok
            &&& whole_of(tokens_of(src)->Ok_0) == ast_of(src)
            &&& lexer::complete(tokens_of(src)->Ok_0)
        },
        tokens_of(src) is Ok ==> ast_of(src) == whole_of(tokens_of(src)->Ok_0),
{
    reveal(ast_of);
    reveal(tokens_of);
    reveal(whole_of);
    if lexer::lexed(src) is Ok {
        lexer::lexed_is_complete(src, 0);
    }
}

/// The tokens of a text in parentheses.
proof fn lemma_paren_tokens(s: Seq<char>) -> (outer: Seq<Lexed>)
    requires
        tokens_of(s) is Ok,
        spans::byte_len(in_parens(s)) <= usize::MAX,
    ensures
        tokens_of(in_parens(s)) == Ok::<Seq<Lexed>, Failure>(outer),
        embeds(tokens_of(s)->Ok_0, outer, 1, 1),
        outer.len() == tokens_of(s)->Ok_0.len() + 2,
        outer[0].tag is LParen,
        outer.last().tag is Eof,
{
    reveal(tokens_of);
    reveal_strlit("(");
    reveal_strlit(")");
    let all = in_parens(s);
    let open = Lexed { tag: Lexeme::LParen, offset: lexer::bytes_of(all, 0, 1) };
    assert(all[0] == '(');
    let outer = lemma_last_group("("@, s, seq![open]);
    assert(spans::byte_len("("@) == 1) by {
        reveal_with_fuel(text::offset_of, 2);
    }
    assert(lexer::lexed(all) == Ok::<Seq<Lexed>, Failure>(outer));
    assert(outer[0] == open);
    outer
}

/// A text that parses, parses in parentheses to the same expression, one byte further on.
pub proof fn parsing_parens(s: Seq<char>)
    requires
        ast_of(s) is Ok,
        spans::byte_len(in_parens(s)) <= usize::MAX,
    ensures
        ast_of(in_parens(s)) == Ok::<Expr, Failure>(moved_expr(ast_of(s)->Ok_0, 1)),
{
    lemma_ast(s);
    lemma_ast(in_parens(s));
    let outer = lemma_paren_tokens(s);
    let inner = tokens_of(s)->Ok_0;
    lemma_group(inner, outer, 1, 1);
    lemma_whole(outer, moved_expr(whole_of(inner)->Ok_0, 1), 1 + inner.len());
}

/// The tokens of a text in parentheses after a `not`.
proof fn lemma_negation_tokens(s: Seq<char>) -> (outer: Seq<Lexed>)
    requires
        tokens_of(s) is Ok,
        spans::byte_len(negation_of(s)) <= usize::MAX,
    ensures
        tokens_of(negation_of(s)) == Ok::<Seq<Lexed>, Failure>(outer),
        embeds(tokens_of(s)->Ok_0, outer, 2, 5),
        outer.len() == tokens_of(s)->Ok_0.len() + 3,
        outer[0].tag == Lexeme::Word("not"@),
        outer[1].tag is LParen,
        outer.last().tag is Eof,
{
    reveal(tokens_of);
    reveal_strlit("not (");
    reveal_strlit("not");
    reveal_strlit(")");
    let all = negation_of(s);
    let pre = "not ("@;
    let not = Lexed { tag: Lexeme::Word("not"@), offset: lexer::bytes_of(all, 0, 3) };
    let open = Lexed { tag: Lexeme::LParen, offset: lexer::bytes_of(all, 4, 5) };
    assert(all[3] == ' ' && all[4] == '(');
    assert(all.subrange(0, 3) =~= "not"@);
    lexing_a_word(all, 0, "not"@);
    let outer = lemma_last_group(pre, s, seq![not, open]);
    assert(spans::byte_len(pre) == 5) by {
        reveal_with_fuel(text::offset_of, 6);
    }
    let rest = lexer::lexed_from(all, 5);
    assert(lexer::lexed_from(all, 4) == lexer::followed_by(seq![open], rest));
    assert(lexer::lexed_from(all, 3) == lexer::followed_by(seq![open], rest));
    assert(lexer::lexed(all) == lexer::followed_by(
        seq![not],
        lexer::followed_by(seq![open], rest),
    ));
    assert(seq![not] + (seq![open] + rest->Ok_0) =~= seq![not, open] + rest->Ok_0);
    assert(outer[0] == not);
    assert(outer[1] == open);
    outer
}

/// A text that parses, parses in parentheses after a `not` to the negation of the same expression,
/// five bytes further on.
pub proof fn parsing_a_negation(s: Seq<char>)
    requires
        ast_of(s) is Ok,
        spans::byte_len(negation_of(s)) <= usize::MAX,
    ensures
        ast_of(negation_of(s)) matches Ok(Expr::Not(inner, _)) && *inner == moved_expr(
            ast_of(s)->Ok_0,
            5,
        ),
{
    lemma_ast(s);
    lemma_ast(negation_of(s));
    let outer = lemma_negation_tokens(s);
    let inner = tokens_of(s)->Ok_0;
    lemma_group(inner, outer, 2, 5);
    let e = moved_expr(whole_of(inner)->Ok_0, 5);
    let offset = Range {
        start: parser::offset_at(outer, 0).start,
        end: parser::span(e).end,
    };
    lemma_unary_step(outer, 0);
    lemma_whole(outer, Expr::Not(Box::new(e), offset), 2 + inner.len());
}

/// The connectives are made of word characters.
proof fn lemma_keyword(word: Seq<char>)
    requires
        word == "and"@ || word == "or"@,
    ensures
        word.len() > 0,
        forall|i: int| 0 <= i < word.len() ==> lexer::word_char(#[trigger] word[i]),
{
    reveal_strlit("and");
    reveal_strlit("or");
}

/// The tokens of two texts in parentheses with a word between them.
proof fn lemma_connected_tokens(a: Seq<char>, word: Seq<char>, b: Seq<char>) -> (outer: Seq<Lexed>)
    requires
        tokens_of(a) is Ok,
        tokens_of(b) is Ok,
        spans::byte_len(connected(a, word, b)) <= usize::MAX,
        word.len() > 0,
        forall|i: int| 0 <= i < word.len() ==> lexer::word_char(#[trigger] word[i]),
    ensures
        ({
            let left = tokens_of(a)->Ok_0;
            let right = tokens_of(b)->Ok_0;
            let n = spans::byte_len("("@ + a + (") "@ + word + " ("@));
            &&& tokens_of(connected(a, word, b)) == Ok::<Seq<Lexed>, Failure>(outer)
            &&& outer.len() == left.len() + right.len() + 4
            &&& outer[0].tag is LParen
            &&& embeds(left, outer, 1, 1)
            &&& outer[left.len() as int + 1].tag == Lexeme::Word(word)
            &&& outer[left.len() as int + 2].tag is LParen
            &&& embeds(right, outer, left.len() + 3, n)
            &&& outer.last().tag is Eof
        }),
{
    reveal(tokens_of);
    reveal_strlit("(");
    reveal_strlit(")");
    reveal_strlit(") ");
    reveal_strlit(" (");
    let all = connected(a, word, b);
    let glue = ") "@ + word + " ("@;
    let pre = "("@ + a + glue;
    let left = lexer::lexed(a)->Ok_0;
    let right = lexer::lexed(b)->Ok_0;
    let post = glue + b + ")"@;
    let mid = 1 + a.len();
    let at = mid + 2;
    let end = at + word.len();
    assert(all =~= "("@ + a + post);
    assert(spans::byte_len("("@) == 1) by {
        reveal_with_fuel(text::offset_of, 2);
    }
    lexer::lexed_is_complete(a, 0);
    lexer::lexed_is_complete(b, 0);
    // The first group, and what stands between the two.
    let open = Lexed { tag: Lexeme::LParen, offset: lexer::bytes_of(all, 0, 1) };
    let close = Lexed { tag: Lexeme::RParen, offset: lexer::bytes_of(all, mid, mid + 1) };
    let between = Lexed { tag: Lexeme::Word(word), offset: lexer::bytes_of(all, at, end) };
    let second = Lexed { tag: Lexeme::LParen, offset: lexer::bytes_of(all, end + 1, end + 2) };
    assert(post[0] == ')');
    assert(all[0] == '(');
    assert(all[mid as int + 1] == ' ');
    assert(all[end as int] == ' ');
    assert(all[end as int + 1] == '(');
    assert(all.subrange(at as int, end as int) =~= word);
    lemma_group_tokens("("@, a, post);
    lexing_a_word(all, at, word);
    let first = moved_tokens(left.drop_last(), 1).push(close);
    let front = seq![open] + first + seq![between, second];
    assert(pre.len() == end + 2);
    let outer = lemma_last_group(pre, b, front);
    let rest = lexer::lexed_from(all, pre.len());
    let more = rest->Ok_0;
    assert(lexer::lexed_from(all, end + 1) == lexer::followed_by(seq![second], rest));
    assert(lexer::lexed_from(all, end) == Ok::<Seq<Lexed>, Failure>(seq![second] + more));
    assert(lexer::lexed_from(all, at) == Ok::<Seq<Lexed>, Failure>(
        seq![between] + (seq![second] + more),
    ));
    assert(lexer::lexed_from(all, mid + 1) == lexer::lexed_from(all, at));
    let after = seq![between] + (seq![second] + more);
    assert(lexer::lexed_from(all, 1) == Ok::<Seq<Lexed>, Failure>(first + after));
    assert(lexer::lexed(all) == Ok::<Seq<Lexed>, Failure>(seq![open] + (first + after)));
    assert(outer =~= seq![open] + (first + after));
    lemma_embeds(seq![open], left, 1, close, after);
    assert(outer[0] == front[0]);
    assert(front[left.len() as int + 1] == between);
    assert(front[left.len() as int + 2] == second);
    assert(outer[left.len() as int + 1] == front[left.len() as int + 1]);
    assert(outer[left.len() as int + 2] == front[left.len() as int + 2]);
    outer
}

/// Two texts that parse, parse in parentheses around an `and` to the conjunction of the same
/// expressions, moved.
pub proof fn parsing_a_conjunction(a: Seq<char>, b: Seq<char>)
    requires
        ast_of(a) is Ok,
        ast_of(b) is Ok,
        spans::byte_len(conjunction_of(a, b)) <= usize::MAX,
    ensures
        ast_of(conjunction_of(a, b)) matches Ok(Expr::And(l, r, _)) && {
            &&& *l == moved_expr(ast_of(a)->Ok_0, 1)
            &&& *r == moved_expr(ast_of(b)->Ok_0, spans::byte_len("("@ + a + ") and ("@))
        },
{
    assert(") and ("@ =~= ") "@ + "and"@ + " ("@) by {
        reveal_strlit(") and (");
        reveal_strlit(") ");
        reveal_strlit("and");
        reveal_strlit(" (");
    }
    lemma_keyword("and"@);
    lemma_ast(a);
    lemma_ast(b);
    lemma_ast(conjunction_of(a, b));
    let outer = lemma_connected_tokens(a, "and"@, b);
    let left = tokens_of(a)->Ok_0;
    let right = tokens_of(b)->Ok_0;
    let n = spans::byte_len("("@ + a + ") and ("@);
    lemma_group(left, outer, 1, 1);
    lemma_group(right, outer, left.len() + 3, n);
    lemma_conjunction(
        outer,
        moved_expr(whole_of(left)->Ok_0, 1),
        moved_expr(whole_of(right)->Ok_0, n),
        1 + left.len(),
        left.len() + 3 + right.len(),
    );
}

/// Two texts that parse, parse in parentheses around an `or` to the disjunction of the same
/// expressions, moved.
pub proof fn parsing_a_disjunction(a: Seq<char>, b: Seq<char>)
    requires
        ast_of(a) is Ok,
        ast_of(b) is Ok,
        spans::byte_len(disjunction_of(a, b)) <= usize::MAX,
    ensures
        ast_of(disjunction_of(a, b)) matches Ok(Expr::Or(l, r, _)) && {
            &&& *l == moved_expr(ast_of(a)->Ok_0, 1)
            &&& *r == moved_expr(ast_of(b)->Ok_0, spans::byte_len("("@ + a + ") or ("@))
        },
{
    assert(") or ("@ =~= ") "@ + "or"@ + " ("@) by {
        reveal_strlit(") or (");
        reveal_strlit(") ");
        reveal_strlit("or");
        reveal_strlit(" (");
    }
    lemma_keyword("or"@);
    lemma_ast(a);
    lemma_ast(b);
    lemma_ast(disjunction_of(a, b));
    let outer = lemma_connected_tokens(a, "or"@, b);
    let left = tokens_of(a)->Ok_0;
    let right = tokens_of(b)->Ok_0;
    let n = spans::byte_len("("@ + a + ") or ("@);
    lemma_group(left, outer, 1, 1);
    lemma_group(right, outer, left.len() + 3, n);
    lemma_disjunction(
        outer,
        moved_expr(whole_of(left)->Ok_0, 1),
        moved_expr(whole_of(right)->Ok_0, n),
        1 + left.len(),
        left.len() + 3 + right.len(),
    );
}

// ---------------------------------------------------------------------------------------------
// Meaning
// ---------------------------------------------------------------------------------------------

/// Whether two expressions have the same outcome, and both have code or neither has.
spec fn alike(a: ExpandedExpr, b: ExpandedExpr, l3: L3OffsetInfo, packet: Seq<u8>) -> bool {
    &&& semantics::outcome(a, l3, packet) == semantics::outcome(b, l3, packet)
    &&& codegen::first_failure(a, l3) is None <==> codegen::first_failure(b, l3) is None
}

/// Disjunctions of alike expressions are alike.
proof fn lemma_any_of_alike(
    a: Seq<ExpandedExpr>,
    b: Seq<ExpandedExpr>,
    l3: L3OffsetInfo,
    packet: Seq<u8>,
)
    requires
        0 < a.len() == b.len(),
        forall|i: int| 0 <= i < a.len() ==> alike(#[trigger] a[i], b[i], l3, packet),
    ensures
        alike(desugar::any_of(a), desugar::any_of(b), l3, packet),
    decreases a.len(),
{
    assert(alike(a[a.len() - 1], b[a.len() - 1], l3, packet));
    if a.len() > 1 {
        assert forall|i: int| 0 <= i < a.len() - 1 implies alike(
            #[trigger] a.drop_last()[i],
            b.drop_last()[i],
            l3,
            packet,
        ) by {
            assert(a.drop_last()[i] == a[i]);
        }
        lemma_any_of_alike(a.drop_last(), b.drop_last(), l3, packet);
    }
}

/// The primitives that a moved primitive stands for are like those that it stood for.
proof fn lemma_leaves_alike(p: Primitive, n: nat, k: nat, l3: L3OffsetInfo, packet: Seq<u8>)
    requires
        k <= desugar::protos_of(p).len(),
    ensures
        ({
            let a = desugar::leaves_upto(p, k);
            let b = desugar::leaves_upto(moved_primitive(p, n), k);
            &&& a.len() == b.len()
            &&& k > 0 ==> a.len() > 0
            &&& forall|i: int| 0 <= i < a.len() ==> alike(#[trigger] a[i], b[i], l3, packet)
        }),
    decreases k,
{
    if k > 0 {
        let q = moved_primitive(p, n);
        let j = (k - 1) as nat;
        lemma_leaves_alike(p, n, j, l3, packet);
        let a = desugar::leaves_upto(p, k);
        let b = desugar::leaves_upto(q, k);
        let earlier = desugar::leaves_upto(p, j);
        assert forall|i: int| 0 <= i < a.len() implies alike(#[trigger] a[i], b[i], l3, packet) by {
            if i < earlier.len() {
                assert(a[i] == earlier[i]);
                assert(b[i] == desugar::leaves_upto(q, j)[i]);
            }
        }
    }
}

/// What an expression means, and whether it has code, does not depend on where it stands in the
/// source.
pub proof fn moving_keeps_meaning(e: Expr, n: nat, l3: L3OffsetInfo, packet: Seq<u8>)
    ensures
        semantics::outcome(desugar::expanded(moved_expr(e, n)), l3, packet) == semantics::outcome(
            desugar::expanded(e),
            l3,
            packet,
        ),
        codegen::first_failure(desugar::expanded(moved_expr(e, n)), l3) is None
            <==> codegen::first_failure(desugar::expanded(e), l3) is None,
    decreases e,
{
    match e {
        Expr::Primitive(p) => {
            let k = desugar::protos_of(p).len();
            lemma_leaves_alike(p, n, k, l3, packet);
            lemma_any_of_alike(
                desugar::leaves_upto(p, k),
                desugar::leaves_upto(moved_primitive(p, n), k),
                l3,
                packet,
            );
        },
        Expr::Not(inner, _) => moving_keeps_meaning(*inner, n, l3, packet),
        Expr::And(l, r, _) | Expr::Or(l, r, _) => {
            moving_keeps_meaning(*l, n, l3, packet);
            moving_keeps_meaning(*r, n, l3, packet);
        },
    }
}

} // verus!
