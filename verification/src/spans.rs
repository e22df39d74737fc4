//! Every token, primitive, instruction and failure lies within the source text.

use crate::ast::{AddrLit, DirTag, Expr, PrimType, Primitive};
use crate::backpatch;
use crate::codegen;
use crate::desugar::{self, CompiledPrimitive, ExpandedExpr};
use crate::error::Failure;
use crate::irep::{Code, Item};
use crate::lexer::{self, Lexed, Lexeme};
use crate::linktype::{L3OffsetInfo, LinkType};
use crate::parser;
use crate::semantics;
use crate::text;
use core::ops::Range;
use vstd::prelude::*;

verus! {

/// Whether a byte range lies within the first `limit` bytes.
pub open spec fn inside(offset: Range<usize>, limit: nat) -> bool {
    offset.start <= offset.end <= limit
}

/// How many bytes a source text has.
pub open spec fn byte_len(src: Seq<char>) -> nat {
    text::offset_of(src, src.len())
}

// ---------------------------------------------------------------------------------------------
// Tokens
// ---------------------------------------------------------------------------------------------

/// Whether tokens lie within the source, one after the other.
pub open spec fn tokens_in(tokens: Seq<Lexed>, limit: nat) -> bool {
    &&& forall|i: int| 0 <= i < tokens.len() ==> inside((#[trigger] tokens[i]).offset, limit)
    &&& forall|i: int, j: int|
        0 <= i < j < tokens.len() ==> (#[trigger] tokens[i]).offset.end <= (
        #[trigger] tokens[j]).offset.start
}

/// The tokens from a character on lie after it, within the source.
proof fn lemma_tokens_in(src: Seq<char>, i: nat)
    requires
        i <= src.len(),
        byte_len(src) <= usize::MAX,
    ensures
        match lexer::lexed_from(src, i) {
            Ok(tokens) => {
                &&& tokens_in(tokens, byte_len(src))
                &&& forall|k: int|
                    0 <= k < tokens.len() ==> text::offset_of(src, i) <= (
                    #[trigger] tokens[k]).offset.start
            },
            Err(failure) => inside(failure.offset, byte_len(src)),
        },
    decreases src.len() - i,
{
    if i < src.len() {
        text::offsets_grow(src, i, i + 1);
        text::offsets_grow(src, i + 1, src.len());
        if text::whitespace(src[i as int]) {
            lemma_tokens_in(src, i + 1);
        } else {
            lexer::lemma_word_end(src, i);
            if let Ok((tag, end)) = lexer::token_at(src, i) {
                text::offsets_grow(src, i, end);
                text::offsets_grow(src, end, src.len());
                lemma_tokens_in(src, end);
                if let Ok(rest) = lexer::lexed_from(src, end) {
                    let tokens = lexer::lexed_from(src, i)->Ok_0;
                    assert forall|k: int| 1 <= k < tokens.len() implies #[trigger] tokens[k]
                        == rest[k - 1] by {}
                }
            }
        }
    }
}

/// Whether a token's text is the source's at its place, but for the connectives that have a second
/// spelling.
pub open spec fn covers(token: Lexed, src: Seq<char>, i: nat, j: nat) -> bool {
    let there = src.subrange(i as int, j as int);
    &&& i <= j <= src.len()
    &&& token.offset == lexer::bytes_of(src, i, j)
    &&& match token.tag {
        Lexeme::Word(word) => {
            ||| word == there
            ||| word == "not"@ && there == seq!['!']
            ||| word == "and"@ && there == seq!['&', '&']
            ||| word == "or"@ && there == seq!['|', '|']
        },
        Lexeme::Dash => there == seq!['-'],
        Lexeme::LParen => there == seq!['('],
        Lexeme::RParen => there == seq![')'],
        Lexeme::Eof => i == src.len(),
    }
}

/// A token's offset is the place in the source that it was read from.
pub proof fn tokens_cover_their_text(src: Seq<char>, i: nat, k: int)
    requires
        i <= src.len(),
        lexer::lexed_from(src, i) is Ok,
        0 <= k < lexer::lexed_from(src, i)->Ok_0.len(),
    ensures
        exists|from: nat, to: nat|
            #[trigger] covers(lexer::lexed_from(src, i)->Ok_0[k], src, from, to),
    decreases src.len() - i,
{
    if i < src.len() {
        if text::whitespace(src[i as int]) {
            tokens_cover_their_text(src, i + 1, k);
        } else {
            lexer::lemma_word_end(src, i);
            let (tag, end) = lexer::token_at(src, i)->Ok_0;
            if k == 0 {
                let there = src.subrange(i as int, end as int);
                let c = src[i as int];
                if end == i + 1 {
                    assert(there =~= seq![c]);
                } else if end == i + 2 {
                    assert(there =~= seq![c, src[i as int + 1]]);
                }
                assert(covers(lexer::lexed_from(src, i)->Ok_0[k], src, i, end));
            } else {
                tokens_cover_their_text(src, end, k - 1);
            }
        }
    } else {
        assert(covers(lexer::lexed_from(src, i)->Ok_0[k], src, i, i));
    }
}

// ---------------------------------------------------------------------------------------------
// Expressions
// ---------------------------------------------------------------------------------------------

/// Whether an expression and all its parts lie within the source.
pub open spec fn expr_in(e: Expr, limit: nat) -> bool
    decreases e,
{
    &&& inside(parser::span(e), limit)
    &&& match e {
        Expr::Primitive(_) => true,
        Expr::Not(inner, _) => expr_in(*inner, limit),
        Expr::And(l, r, _) | Expr::Or(l, r, _) => expr_in(*l, limit) && expr_in(*r, limit),
    }
}

/// Whether an expression was parsed from the tokens from `at` up to `end`.
pub open spec fn parsed_between(
    tokens: Seq<Lexed>,
    e: Expr,
    at: nat,
    end: nat,
    limit: nat,
) -> bool {
    &&& at < end < tokens.len()
    &&& expr_in(e, limit)
    &&& tokens[at as int].offset.start <= parser::span(e).start
    &&& parser::span(e).end <= tokens[end - 1].offset.end
}

/// Whether the outcome of parsing from `at` on lies within the source.
pub open spec fn outcome_in(
    tokens: Seq<Lexed>,
    result: Result<(Expr, nat), Failure>,
    at: nat,
    limit: nat,
) -> bool {
    match result {
        Ok((e, end)) => parsed_between(tokens, e, at, end, limit),
        Err(failure) => inside(failure.offset, limit),
    }
}

/// Whether a token stream is one that parsing stays inside of.
pub open spec fn sound(tokens: Seq<Lexed>, limit: nat) -> bool {
    lexer::ends_with_eof(tokens) && tokens_in(tokens, limit)
}

/// A type and its value end before the last token.
proof fn lemma_type_in(tokens: Seq<Lexed>, at: nat, first: nat, limit: nat)
    requires
        sound(tokens, limit),
        first <= at < tokens.len(),
    ensures
        match parser::type_at(tokens, at, tokens[first as int].offset.start) {
            Ok((_, end)) => at < end < tokens.len(),
            Err(failure) => inside(failure.offset, limit),
        },
{
}

/// A primitive lies within the source.
proof fn lemma_primitive_in(tokens: Seq<Lexed>, at: nat, limit: nat)
    requires
        sound(tokens, limit),
        at < tokens.len(),
    ensures
        match parser::primitive_at(tokens, at) {
            Ok((p, end)) => parsed_between(tokens, Expr::Primitive(p), at, end, limit),
            Err(failure) => inside(failure.offset, limit),
        },
{
    let dir_pos = parser::after(at, parser::proto_at(tokens, at) is Some);
    let type_pos = parser::after(dir_pos, parser::dir_at(tokens, dir_pos) is Some);
    lemma_type_in(tokens, type_pos, at, limit);
}

/// A primary expression lies within the source.
proof fn lemma_primary_in(tokens: Seq<Lexed>, at: nat, limit: nat)
    requires
        sound(tokens, limit),
        at < tokens.len(),
    ensures
        outcome_in(tokens, parser::primary_at(tokens, at), at, limit),
    decreases parser::left(tokens, at), 0nat,
{
    match parser::tag_at(tokens, at) {
        Lexeme::LParen => {
            lemma_or_in(tokens, at + 1, limit);
        },
        Lexeme::Word(_) => lemma_primitive_in(tokens, at, limit),
        _ => {},
    }
}

/// A unary expression lies within the source.
proof fn lemma_unary_in(tokens: Seq<Lexed>, at: nat, limit: nat)
    requires
        sound(tokens, limit),
        at < tokens.len(),
    ensures
        outcome_in(tokens, parser::unary_at(tokens, at), at, limit),
    decreases parser::left(tokens, at), 1nat,
{
    if parser::tag_at(tokens, at) == Lexeme::Word("not"@) {
        lemma_unary_in(tokens, at + 1, limit);
    } else {
        lemma_primary_in(tokens, at, limit);
    }
}

/// The part of the source from one expression to a later one lies within the source.
proof fn lemma_both_in(
    tokens: Seq<Lexed>,
    lhs: Expr,
    rhs: Expr,
    first: nat,
    mid: nat,
    end: nat,
    limit: nat,
)
    requires
        sound(tokens, limit),
        parsed_between(tokens, lhs, first, mid, limit),
        parsed_between(tokens, rhs, mid + 1, end, limit),
    ensures
        inside(parser::span_of_both(lhs, rhs), limit),
        tokens[first as int].offset.start <= parser::span_of_both(lhs, rhs).start,
        parser::span_of_both(lhs, rhs).end <= tokens[end - 1].offset.end,
{
}

/// A conjunction that goes on lies within the source.
proof fn lemma_and_rest_in(tokens: Seq<Lexed>, lhs: Expr, first: nat, at: nat, limit: nat)
    requires
        sound(tokens, limit),
        parsed_between(tokens, lhs, first, at, limit),
    ensures
        outcome_in(tokens, parser::and_rest(tokens, lhs, at), first, limit),
    decreases parser::left(tokens, at), 2nat,
{
    if parser::tag_at(tokens, at) == Lexeme::Word("and"@) {
        lemma_unary_in(tokens, at + 1, limit);
        if let Ok((rhs, end)) = parser::unary_at(tokens, at + 1) {
            let both = Expr::And(Box::new(lhs), Box::new(rhs), parser::span_of_both(lhs, rhs));
            lemma_both_in(tokens, lhs, rhs, first, at, end, limit);
            lemma_and_rest_in(tokens, both, first, end, limit);
        }
    }
}

/// A conjunction lies within the source.
proof fn lemma_and_in(tokens: Seq<Lexed>, at: nat, limit: nat)
    requires
        sound(tokens, limit),
        at < tokens.len(),
    ensures
        outcome_in(tokens, parser::and_at(tokens, at), at, limit),
    decreases parser::left(tokens, at), 3nat,
{
    lemma_unary_in(tokens, at, limit);
    if let Ok((lhs, end)) = parser::unary_at(tokens, at) {
        lemma_and_rest_in(tokens, lhs, at, end, limit);
    }
}

/// A disjunction that goes on lies within the source.
proof fn lemma_or_rest_in(tokens: Seq<Lexed>, lhs: Expr, first: nat, at: nat, limit: nat)
    requires
        sound(tokens, limit),
        parsed_between(tokens, lhs, first, at, limit),
    ensures
        outcome_in(tokens, parser::or_rest(tokens, lhs, at), first, limit),
    decreases parser::left(tokens, at), 4nat,
{
    if parser::tag_at(tokens, at) == Lexeme::Word("or"@) {
        lemma_and_in(tokens, at + 1, limit);
        if let Ok((rhs, end)) = parser::and_at(tokens, at + 1) {
            let either = Expr::Or(Box::new(lhs), Box::new(rhs), parser::span_of_both(lhs, rhs));
            lemma_both_in(tokens, lhs, rhs, first, at, end, limit);
            lemma_or_rest_in(tokens, either, first, end, limit);
        }
    }
}

/// A disjunction lies within the source.
proof fn lemma_or_in(tokens: Seq<Lexed>, at: nat, limit: nat)
    requires
        sound(tokens, limit),
        at < tokens.len(),
    ensures
        outcome_in(tokens, parser::or_at(tokens, at), at, limit),
    decreases parser::left(tokens, at), 5nat,
{
    lemma_and_in(tokens, at, limit);
    if let Ok((lhs, end)) = parser::and_at(tokens, at) {
        lemma_or_rest_in(tokens, lhs, at, end, limit);
    }
}

/// What a source text parses to lies within it.
proof fn lemma_parsed_in(tokens: Seq<Lexed>, limit: nat)
    requires
        sound(tokens, limit),
    ensures
        match parser::parsed(tokens) {
            Ok(e) => expr_in(e, limit),
            Err(failure) => inside(failure.offset, limit),
        },
{
    lemma_or_in(tokens, 0, limit);
}

// ---------------------------------------------------------------------------------------------
// Expansion and code
// ---------------------------------------------------------------------------------------------

/// Whether every primitive of an expression lies within the source.
pub open spec fn leaves_in(e: ExpandedExpr, limit: nat) -> bool
    decreases e,
{
    match e {
        ExpandedExpr::Leaf(p) => inside(p.offset, limit),
        ExpandedExpr::Not(inner) => leaves_in(*inner, limit),
        ExpandedExpr::And(l, r) | ExpandedExpr::Or(l, r) => leaves_in(*l, limit) && leaves_in(
            *r,
            limit,
        ),
    }
}

/// The primitives that a primitive stands for are where it is.
proof fn lemma_leaves_upto_in(p: Primitive, n: nat, limit: nat)
    requires
        inside(p.offset, limit),
        n <= desugar::protos_of(p).len(),
    ensures
        n > 0 ==> desugar::leaves_upto(p, n).len() > 0,
        forall|i: int|
            0 <= i < desugar::leaves_upto(p, n).len() ==> leaves_in(
                #[trigger] desugar::leaves_upto(p, n)[i],
                limit,
            ),
    decreases n,
{
    if n > 0 {
        lemma_leaves_upto_in(p, (n - 1) as nat, limit);
        let earlier = desugar::leaves_upto(p, (n - 1) as nat);
        assert forall|i: int| 0 <= i < desugar::leaves_upto(p, n).len() implies leaves_in(
            #[trigger] desugar::leaves_upto(p, n)[i],
            limit,
        ) by {
            if i < earlier.len() {
                assert(desugar::leaves_upto(p, n)[i] == earlier[i]);
            }
        }
    }
}

/// A disjunction of expressions within the source is one.
proof fn lemma_any_of_in(leaves: Seq<ExpandedExpr>, limit: nat)
    requires
        leaves.len() > 0,
        forall|i: int| 0 <= i < leaves.len() ==> leaves_in(#[trigger] leaves[i], limit),
    ensures
        leaves_in(desugar::any_of(leaves), limit),
    decreases leaves.len(),
{
    if leaves.len() > 1 {
        lemma_any_of_in(leaves.drop_last(), limit);
    }
}

/// What an expression stands for lies where it does.
proof fn lemma_expanded_in(e: Expr, limit: nat)
    requires
        expr_in(e, limit),
    ensures
        leaves_in(desugar::expanded(e), limit),
    decreases e,
{
    match e {
        Expr::Primitive(p) => {
            lemma_leaves_upto_in(p, desugar::protos_of(p).len(), limit);
            lemma_any_of_in(desugar::leaves_upto(p, desugar::protos_of(p).len()), limit);
        },
        Expr::Not(inner, _) => lemma_expanded_in(*inner, limit),
        Expr::And(l, r, _) | Expr::Or(l, r, _) => {
            lemma_expanded_in(*l, limit);
            lemma_expanded_in(*r, limit);
        },
    }
}

/// The failure of a primitive lies where the primitive does.
proof fn lemma_failure_in(e: ExpandedExpr, l3: L3OffsetInfo, limit: nat)
    requires
        leaves_in(e, limit),
    ensures
        codegen::first_failure(e, l3) matches Some(failure) ==> inside(failure.offset, limit),
    decreases e,
{
    match e {
        ExpandedExpr::Leaf(_) => {},
        ExpandedExpr::Not(inner) => lemma_failure_in(*inner, l3, limit),
        ExpandedExpr::And(l, r) | ExpandedExpr::Or(l, r) => {
            lemma_failure_in(*l, l3, limit);
            lemma_failure_in(*r, l3, limit);
        },
    }
}

/// Whether every instruction was generated for text within the source.
pub open spec fn items_in(stream: Seq<Item>, limit: nat) -> bool {
    forall|i: int|
        0 <= i < stream.len() ==> (#[trigger] stream[i] matches Item::Real(_, offset) ==> inside(
            offset,
            limit,
        ))
}

/// Joined code lies within the source if both parts do.
proof fn lemma_join_in(a: Seq<Item>, b: Seq<Item>, limit: nat)
    requires
        items_in(a, limit),
        items_in(b, limit),
    ensures
        items_in(a + b, limit),
{
}

/// The comparison of an IPv6 address lies where its primitive does.
proof fn lemma_words_in(
    at: u32,
    addr: u128,
    bits: nat,
    i: nat,
    offset: Range<usize>,
    on_true: nat,
    on_false: nat,
    next: nat,
    limit: nat,
)
    requires
        inside(offset, limit),
    ensures
        items_in(
            codegen::words_code(at, addr, bits, i, offset, on_true, on_false, next).stream,
            limit,
        ),
    decreases bits + 32 - 32 * i,
{
    if 32 * i + 32 < bits {
        lemma_words_in(at, addr, bits, i + 1, offset, on_true, on_false, next + 1, limit);
    }
}

/// A primitive's prologue lies where the primitive does.
proof fn lemma_prologue_in(
    p: CompiledPrimitive,
    l3: L3OffsetInfo,
    on_false: nat,
    next: nat,
    limit: nat,
)
    requires
        inside(p.offset, limit),
    ensures
        items_in(codegen::prologue_code(p, l3, on_false, next).stream, limit),
{
}

/// The check of one direction's field lies where its primitive does.
proof fn lemma_terminal_in(
    p: CompiledPrimitive,
    dir: DirTag,
    l3: L3OffsetInfo,
    on_true: nat,
    on_false: nat,
    next: nat,
    limit: nat,
)
    requires
        inside(p.offset, limit),
    ensures
        items_in(codegen::terminal_code(p, dir, l3, on_true, on_false, next).stream, limit),
{
    match p.ty {
        PrimType::Host(AddrLit::V6(addr)) => {
            let at = (l3.ip_base + semantics::gates6().offset(dir)) as u32;
            lemma_words_in(at, addr, 128, 0, p.offset, on_true, on_false, next, limit);
        },
        PrimType::Net(AddrLit::V6(addr), prefix) => {
            let at = (l3.ip_base + semantics::gates6().offset(dir)) as u32;
            let bits = semantics::prefix_bits(AddrLit::V6(addr), prefix);
            lemma_words_in(at, addr, bits, 0, p.offset, on_true, on_false, next, limit);
        },
        _ => {},
    }
}

/// The code of an expression lies where its primitives do.
proof fn lemma_expr_in(
    e: ExpandedExpr,
    l3: L3OffsetInfo,
    on_true: nat,
    on_false: nat,
    next: nat,
    limit: nat,
)
    requires
        leaves_in(e, limit),
    ensures
        items_in(codegen::expr_code(e, l3, on_true, on_false, next).stream, limit),
    decreases e,
{
    match e {
        ExpandedExpr::Leaf(p) => {
            let prologue = codegen::prologue_code(p, l3, on_false, next);
            lemma_prologue_in(p, l3, on_false, next, limit);
            lemma_terminal_in(p, p.dir, l3, on_true, on_false, prologue.labels, limit);
        },
        ExpandedExpr::Not(inner) => {
            lemma_expr_in(*inner, l3, on_false, on_true, next, limit);
        },
        ExpandedExpr::And(l, r) => {
            let first = codegen::expr_code(*l, l3, next, on_false, next + 1);
            let second = codegen::expr_code(*r, l3, on_true, on_false, first.labels);
            lemma_expr_in(*l, l3, next, on_false, next + 1, limit);
            lemma_expr_in(*r, l3, on_true, on_false, first.labels, limit);
            lemma_join_in(first.stream, seq![Item::Mark(next)], limit);
            lemma_join_in(first.stream + seq![Item::Mark(next)], second.stream, limit);
        },
        ExpandedExpr::Or(l, r) => match (*l, *r) {
            (ExpandedExpr::Leaf(p1), ExpandedExpr::Leaf(p2)) if codegen::is_dir_pair(p1, p2) => {
                assert(leaves_in(*l, limit));
                let prologue = codegen::prologue_code(p1, l3, on_false, next);
                let mid = prologue.labels;
                let first = codegen::terminal_code(p1, p1.dir, l3, on_true, mid, mid + 1);
                let second = codegen::terminal_code(
                    p1,
                    p2.dir,
                    l3,
                    on_true,
                    on_false,
                    first.labels,
                );
                lemma_prologue_in(p1, l3, on_false, next, limit);
                lemma_terminal_in(p1, p1.dir, l3, on_true, mid, mid + 1, limit);
                lemma_terminal_in(p1, p2.dir, l3, on_true, on_false, first.labels, limit);
                let front = prologue.stream + first.stream;
                lemma_join_in(prologue.stream, first.stream, limit);
                lemma_join_in(front, seq![Item::Mark(mid)], limit);
                lemma_join_in(front + seq![Item::Mark(mid)], second.stream, limit);
            },
            _ => {
                let first = codegen::expr_code(*l, l3, on_true, next, next + 1);
                let second = codegen::expr_code(*r, l3, on_true, on_false, first.labels);
                lemma_expr_in(*l, l3, on_true, next, next + 1, limit);
                lemma_expr_in(*r, l3, on_true, on_false, first.labels, limit);
                lemma_join_in(first.stream, seq![Item::Mark(next)], limit);
                lemma_join_in(first.stream + seq![Item::Mark(next)], second.stream, limit);
            },
        },
    }
}

/// A jump that is too far lies where its instruction does.
proof fn lemma_assembled_in(code: Code, n: nat, limit: nat)
    requires
        items_in(code.stream, limit),
        n <= code.stream.len(),
    ensures
        backpatch::assembled_upto(code, n) matches Err(failure) ==> inside(failure.offset, limit),
    decreases n,
{
    if n > 0 {
        lemma_assembled_in(code, (n - 1) as nat, limit);
    }
}

/// The code of a whole program lies within the source, and so does the failure to assemble it.
proof fn lemma_program_in(filter: ExpandedExpr, link_type: LinkType, snaplen: u32, limit: nat)
    requires
        leaves_in(filter, limit),
    ensures
        ({
            let code = codegen::program_code(filter, link_type, snaplen);
            backpatch::assembled(code) matches Err(failure) ==> inside(failure.offset, limit)
        }),
{
    let code = codegen::program_code(filter, link_type, snaplen);
    let body = codegen::expr_code(filter, link_type.l3(), 0, 1, 2).stream;
    lemma_expr_in(filter, link_type.l3(), 0, 1, 2, limit);
    assert forall|i: int| 0 <= i < code.stream.len() implies (#[trigger] code.stream[i] matches Item::Real(
        _,
        offset,
    ) ==> inside(offset, limit)) by {
        if i < body.len() {
            assert(code.stream[i] == body[i]);
        }
    }
    lemma_assembled_in(code, code.stream.len(), limit);
}

/// Every failure to compile points at a place in the source text. (No text is longer than its length
/// can say.)
pub proof fn failures_point_into_the_source(src: Seq<char>, link_type: LinkType, snaplen: u32)
    requires
        byte_len(src) <= usize::MAX,
    ensures
        crate::compiled(src, link_type, snaplen) matches Err(failure) ==> inside(
            failure.offset,
            byte_len(src),
        ),
{
    let limit = byte_len(src);
    lemma_tokens_in(src, 0);
    if let Ok(tokens) = lexer::lexed(src) {
        lexer::lexed_is_complete(src, 0);
        lemma_parsed_in(tokens, limit);
        if let Ok(e) = parser::parsed(tokens) {
            let filter = desugar::expanded(e);
            lemma_expanded_in(e, limit);
            lemma_failure_in(filter, link_type.l3(), limit);
            lemma_program_in(filter, link_type, snaplen, limit);
        }
    }
}

} // verus!
