//! How expressions are written, and that they read back: `not` binds tighter than `and`, and `and`
//! tighter than `or`; both of those nest to the left, and parentheses override all of it.

use crate::ast::{Expr, Primitive};
use crate::error::Failure;
use crate::grouping;
use crate::lexer::{self, Lexed, Lexeme};
use crate::notation::{self, Piece};
use crate::parser;
use vstd::prelude::*;

verus! {

/// What surrounds an expression: nothing that binds (`Loose`), an `and` on its right or an `or` on its
/// left (`Tight`), or a `not` or an `and` on its left (`Tightest`).
pub enum Place {
    Loose,
    Tight,
    Tightest,
}

/// Whether anything binds at a place, as a number.
pub open spec fn bound(place: Place) -> nat {
    if place is Loose {
        0
    } else {
        1
    }
}

/// A word between two blanks.
pub open spec fn spaced(word: Seq<char>) -> Seq<Piece> {
    seq![Piece::Blank(' '), Piece::Word(word), Piece::Blank(' ')]
}

/// The pieces of an expression, with parentheses where its place needs them and nowhere else.
pub open spec fn pieces(e: Expr, place: Place) -> Seq<Piece>
    decreases e, bound(place),
{
    match e {
        Expr::Primitive(p) => notation::primitive_pieces(p),
        Expr::Not(inner, _) => seq![Piece::Word("not"@), Piece::Blank(' ')] + pieces(
            *inner,
            Place::Tightest,
        ),
        Expr::And(l, r, _) => if place is Tightest {
            seq![Piece::Open] + pieces(e, Place::Loose) + seq![Piece::Close]
        } else {
            pieces(*l, Place::Tight) + spaced("and"@) + pieces(*r, Place::Tightest)
        },
        Expr::Or(l, r, _) => if place !is Loose {
            seq![Piece::Open] + pieces(e, Place::Loose) + seq![Piece::Close]
        } else {
            pieces(*l, Place::Loose) + spaced("or"@) + pieces(*r, Place::Tight)
        },
    }
}

/// The text of an expression.
pub open spec fn written(e: Expr) -> Seq<char> {
    notation::text_of(pieces(e, Place::Loose))
}

/// Whether two expressions are the same but for where they stand in their sources.
pub open spec fn same(e: Expr, f: Expr) -> bool
    decreases e,
{
    match (e, f) {
        (Expr::Primitive(p), Expr::Primitive(q)) => {
            &&& p.proto == q.proto
            &&& p.dir == q.dir
            &&& p.ty == q.ty
        },
        (Expr::Not(e1, _), Expr::Not(f1, _)) => same(*e1, *f1),
        (Expr::And(e1, e2, _), Expr::And(f1, f2, _)) => same(*e1, *f1) && same(*e2, *f2),
        (Expr::Or(e1, e2, _), Expr::Or(f1, f2, _)) => same(*e1, *f1) && same(*e2, *f2),
        _ => false,
    }
}

/// The tokens of an expression.
spec fn tags(e: Expr, place: Place) -> Seq<Lexeme>
    decreases e, bound(place),
{
    match e {
        Expr::Primitive(p) => notation::primitive_tags(p),
        Expr::Not(inner, _) => seq![Lexeme::Word("not"@)] + tags(*inner, Place::Tightest),
        Expr::And(l, r, _) => if place is Tightest {
            seq![Lexeme::LParen] + tags(e, Place::Loose) + seq![Lexeme::RParen]
        } else {
            tags(*l, Place::Tight) + seq![Lexeme::Word("and"@)] + tags(*r, Place::Tightest)
        },
        Expr::Or(l, r, _) => if place !is Loose {
            seq![Lexeme::LParen] + tags(e, Place::Loose) + seq![Lexeme::RParen]
        } else {
            tags(*l, Place::Loose) + seq![Lexeme::Word("or"@)] + tags(*r, Place::Tight)
        },
    }
}

/// Pieces in a row are what they say if no words meet.
proof fn lemma_proper_in_a_row(a: Seq<Piece>, b: Seq<Piece>)
    requires
        notation::proper(a),
        notation::proper(b),
        a.len() > 0,
        b.len() > 0,
        a.last() !is Word || b[0] !is Word,
    ensures
        notation::proper(a + b),
{
    let c = a + b;
    assert forall|i: int| 0 <= i < a.len() implies #[trigger] c[i] == a[i] by {}
    assert forall|i: int| a.len() <= i < c.len() implies #[trigger] c[i] == b[i - a.len()] by {}
    assert forall|i: int|
        0 <= i < c.len() - 1 && (#[trigger] c[i]) is Word implies c[i + 1] !is Word by {
        if i < a.len() - 1 {
            assert(c[i + 1] == a[i + 1]);
            assert(a[i] == c[i]);
        } else if i >= a.len() {
            assert(c[i + 1] == b[i + 1 - a.len()]);
            assert(b[i - a.len()] == c[i]);
        }
    }
}

/// The tokens of two runs of pieces, without the end.
proof fn lemma_joined_tags(a: Seq<Piece>, b: Seq<Piece>, s: Seq<Lexeme>, t: Seq<Lexeme>)
    requires
        notation::tags_of(a) == s.push(Lexeme::Eof),
        notation::tags_of(b) == t.push(Lexeme::Eof),
    ensures
        notation::tags_of(a + b) == (s + t).push(Lexeme::Eof),
{
    notation::lemma_tags_in_a_row(a, b);
    assert(s.push(Lexeme::Eof).drop_last() =~= s);
    assert(s + t.push(Lexeme::Eof) =~= (s + t).push(Lexeme::Eof));
}

/// The tokens of single pieces.
proof fn lemma_small_tags(word: Seq<char>)
    requires
        word == "not"@ || word == "and"@ || word == "or"@,
    ensures
        notation::proper(spaced(word)),
        notation::proper(seq![Piece::Word(word), Piece::Blank(' ')]),
        notation::proper(seq![Piece::Open]),
        notation::proper(seq![Piece::Close]),
        notation::tags_of(spaced(word)) == seq![Lexeme::Word(word)].push(Lexeme::Eof),
        notation::tags_of(seq![Piece::Word(word), Piece::Blank(' ')]) == seq![
            Lexeme::Word(word),
        ].push(Lexeme::Eof),
        notation::tags_of(seq![Piece::Open]) == seq![Lexeme::LParen].push(Lexeme::Eof),
        notation::tags_of(seq![Piece::Close]) == seq![Lexeme::RParen].push(Lexeme::Eof),
{
    reveal_strlit("not");
    reveal_strlit("and");
    reveal_strlit("or");
    reveal_with_fuel(notation::tags_of, 4);
    assert(notation::tags_of(spaced(word)) =~= seq![Lexeme::Word(word)].push(Lexeme::Eof));
    assert(notation::tags_of(seq![Piece::Word(word), Piece::Blank(' ')]) =~= seq![
        Lexeme::Word(word),
    ].push(Lexeme::Eof));
    assert(notation::tags_of(seq![Piece::Open]) =~= seq![Lexeme::LParen].push(Lexeme::Eof));
    assert(notation::tags_of(seq![Piece::Close]) =~= seq![Lexeme::RParen].push(Lexeme::Eof));
}

/// Whether pieces are what they say and are read as these tokens.
spec fn spell(pieces: Seq<Piece>, list: Seq<Lexeme>) -> bool {
    &&& notation::proper(pieces)
    &&& notation::tags_of(pieces) == list.push(Lexeme::Eof)
    &&& pieces.len() > 0
    &&& list.len() > 0
}

/// Two runs of pieces around a word.
proof fn lemma_spell_connected(
    a: Seq<Piece>,
    word: Seq<char>,
    b: Seq<Piece>,
    s: Seq<Lexeme>,
    t: Seq<Lexeme>,
)
    requires
        spell(a, s),
        spell(b, t),
        word == "and"@ || word == "or"@,
    ensures
        spell(a + spaced(word) + b, s + seq![Lexeme::Word(word)] + t),
{
    lemma_small_tags(word);
    lemma_proper_in_a_row(a, spaced(word));
    lemma_joined_tags(a, spaced(word), s, seq![Lexeme::Word(word)]);
    let head = a + spaced(word);
    assert(head.last() == Piece::Blank(' '));
    lemma_proper_in_a_row(head, b);
    lemma_joined_tags(head, b, s + seq![Lexeme::Word(word)], t);
}

/// A run of pieces in parentheses.
proof fn lemma_spell_group(a: Seq<Piece>, s: Seq<Lexeme>)
    requires
        spell(a, s),
    ensures
        spell(
            seq![Piece::Open] + a + seq![Piece::Close],
            seq![Lexeme::LParen] + s + seq![Lexeme::RParen],
        ),
{
    lemma_small_tags("not"@);
    let open = seq![Piece::Open];
    let close = seq![Piece::Close];
    lemma_proper_in_a_row(open, a);
    lemma_joined_tags(open, a, seq![Lexeme::LParen], s);
    lemma_proper_in_a_row(open + a, close);
    lemma_joined_tags(open + a, close, seq![Lexeme::LParen] + s, seq![Lexeme::RParen]);
}

/// The pieces of an expression are what they say and are read as its tokens.
proof fn lemma_spell(e: Expr, place: Place)
    ensures
        spell(pieces(e, place), tags(e, place)),
    decreases e, bound(place),
{
    match e {
        Expr::Primitive(p) => notation::lemma_primitive_tags(p),
        Expr::Not(inner, _) => {
            let head = seq![Piece::Word("not"@), Piece::Blank(' ')];
            let a = pieces(*inner, Place::Tightest);
            let s = tags(*inner, Place::Tightest);
            lemma_spell(*inner, Place::Tightest);
            lemma_small_tags("not"@);
            lemma_proper_in_a_row(head, a);
            lemma_joined_tags(head, a, seq![Lexeme::Word("not"@)], s);
        },
        Expr::And(l, r, _) => if place is Tightest {
            lemma_spell(e, Place::Loose);
            lemma_spell_group(pieces(e, Place::Loose), tags(e, Place::Loose));
        } else {
            lemma_spell(*l, Place::Tight);
            lemma_spell(*r, Place::Tightest);
            lemma_spell_connected(
                pieces(*l, Place::Tight),
                "and"@,
                pieces(*r, Place::Tightest),
                tags(*l, Place::Tight),
                tags(*r, Place::Tightest),
            );
        },
        Expr::Or(l, r, _) => if place !is Loose {
            lemma_spell(e, Place::Loose);
            lemma_spell_group(pieces(e, Place::Loose), tags(e, Place::Loose));
        } else {
            lemma_spell(*l, Place::Loose);
            lemma_spell(*r, Place::Tight);
            lemma_spell_connected(
                pieces(*l, Place::Loose),
                "or"@,
                pieces(*r, Place::Tight),
                tags(*l, Place::Loose),
                tags(*r, Place::Tight),
            );
        },
    }
}

// ---------------------------------------------------------------------------------------------
// Reading
// ---------------------------------------------------------------------------------------------

/// Whether these tokens stand in a stream from a position on, with another after them.
#[verifier::opaque]
spec fn stand(tokens: Seq<Lexed>, at: nat, list: Seq<Lexeme>) -> bool {
    &&& list.len() > 0
    &&& at + list.len() < tokens.len()
    &&& forall|k: int| 0 <= k < list.len() ==> tokens[at + k].tag == #[trigger] list[k]
}

/// Tokens that stand in a stream do so in parts.
proof fn lemma_stand_in_parts(
    tokens: Seq<Lexed>,
    at: nat,
    a: Seq<Lexeme>,
    tag: Lexeme,
    b: Seq<Lexeme>,
)
    requires
        stand(tokens, at, a + seq![tag] + b),
        a.len() > 0,
        b.len() > 0,
    ensures
        stand(tokens, at, a),
        parser::tag_at(tokens, at + a.len()) == tag,
        stand(tokens, at + a.len() + 1, b),
{
    reveal(stand);
    let all = a + seq![tag] + b;
    assert forall|k: int| 0 <= k < a.len() implies tokens[at + k].tag == #[trigger] a[k] by {
        assert(all[k] == a[k]);
    }
    assert(all[a.len() as int] == tag);
    assert forall|k: int| 0 <= k < b.len() implies tokens[at + a.len() + 1 + k].tag
        == #[trigger] b[k] by {
        assert(all[a.len() + 1 + k] == b[k]);
    }
}

/// A group's tokens that stand in a stream do so in parts.
proof fn lemma_group_in_parts(tokens: Seq<Lexed>, at: nat, a: Seq<Lexeme>)
    requires
        stand(tokens, at, seq![Lexeme::LParen] + a + seq![Lexeme::RParen]),
        a.len() > 0,
    ensures
        parser::tag_at(tokens, at) is LParen,
        stand(tokens, at + 1, a),
        parser::tag_at(tokens, at + 1 + a.len()) is RParen,
{
    reveal(stand);
    let all = seq![Lexeme::LParen] + a + seq![Lexeme::RParen];
    assert(all[0] is LParen);
    assert(all[a.len() as int + 1] is RParen);
    assert forall|k: int| 0 <= k < a.len() implies tokens[at + 1 + k].tag == #[trigger] a[k] by {
        assert(all[k + 1] == a[k]);
    }
}

/// Negation's tokens that stand in a stream do so in parts.
proof fn lemma_not_in_parts(tokens: Seq<Lexed>, at: nat, a: Seq<Lexeme>)
    requires
        stand(tokens, at, seq![Lexeme::Word("not"@)] + a),
        a.len() > 0,
    ensures
        parser::tag_at(tokens, at) == Lexeme::Word("not"@),
        stand(tokens, at + 1, a),
{
    reveal(stand);
    let all = seq![Lexeme::Word("not"@)] + a;
    assert(all[0] == Lexeme::Word("not"@));
    assert forall|k: int| 0 <= k < a.len() implies tokens[at + 1 + k].tag == #[trigger] a[k] by {
        assert(all[k + 1] == a[k]);
    }
}

/// In which order the places of one expression are read from one another.
spec fn rank(e: Expr, place: Place) -> nat {
    match (e, place) {
        (Expr::And(_, _, _), Place::Tightest) => 2,
        (Expr::And(_, _, _), Place::Loose) => 1,
        (Expr::And(_, _, _), Place::Tight) => 0,
        (Expr::Or(_, _, _), Place::Tight) => 2,
        (Expr::Or(_, _, _), Place::Tightest) => 1,
        (Expr::Or(_, _, _), Place::Loose) => 0,
        (_, Place::Loose) => 2,
        (_, Place::Tight) => 1,
        (_, Place::Tightest) => 0,
    }
}

/// A primitive at a position is a unary expression.
proof fn lemma_reads_primitive(tokens: Seq<Lexed>, at: nat, p: Primitive) -> (f: Expr)
    requires
        stand(tokens, at, notation::primitive_tags(p)),
        Expr::Primitive(p).valid(),
    ensures
        same(Expr::Primitive(p), f),
        grouping::unary_of(tokens, at) == Ok::<(Expr, nat), Failure>(
            (f, at + notation::primitive_tags(p).len()),
        ),
{
    reveal(stand);
    notation::lemma_primitive_at(tokens, at, p);
    let (q, end) = parser::primitive_at(tokens, at)->Ok_0;
    assert(grouping::prim_of(tokens, at) == Ok::<(Primitive, nat), Failure>((q, end))) by {
        reveal(grouping::prim_of);
    }
    grouping::lemma_primary_step(tokens, at);
    grouping::lemma_unary_step(tokens, at);
    Expr::Primitive(q)
}

/// The keywords `and` and `or` differ.
proof fn lemma_connectives_differ()
    ensures
        "and"@ != "or"@,
{
    reveal_strlit("and");
    reveal_strlit("or");
    assert("and"@.len() != "or"@.len());
}

/// An expression's tokens at a position are read as the expression.
proof fn lemma_reads(tokens: Seq<Lexed>, at: nat, e: Expr, place: Place) -> (f: Expr)
    requires
        stand(tokens, at, tags(e, place)),
        e.valid(),
    ensures
        same(e, f),
        ({
            let end = at + tags(e, place).len();
            match place {
                Place::Loose => parser::tag_at(tokens, end) != Lexeme::Word("and"@)
                    ==> grouping::or_of(tokens, at) == grouping::or_rest_of(tokens, f, end),
                Place::Tight => grouping::and_of(tokens, at) == grouping::and_rest_of(
                    tokens,
                    f,
                    end,
                ),
                Place::Tightest => grouping::unary_of(tokens, at) == Ok::<(Expr, nat), Failure>(
                    (f, end),
                ),
            }
        }),
    decreases e, rank(e, place),
{
    let end = at + tags(e, place).len();
    assert(at < end < tokens.len()) by {
        reveal(stand);
    }
    match (e, place) {
        (Expr::Primitive(p), Place::Tightest) => lemma_reads_primitive(tokens, at, p),
        (Expr::Not(inner, _), Place::Tightest) => {
            lemma_spell(*inner, Place::Tightest);
            lemma_not_in_parts(tokens, at, tags(*inner, Place::Tightest));
            let f = lemma_reads(tokens, at + 1, *inner, Place::Tightest);
            grouping::lemma_unary_step(tokens, at);
            grouping::unary_of(tokens, at)->Ok_0.0
        },
        (Expr::And(l, r, _), Place::Tight) => {
            let a = tags(*l, Place::Tight);
            let b = tags(*r, Place::Tightest);
            lemma_spell(*l, Place::Tight);
            lemma_spell(*r, Place::Tightest);
            lemma_stand_in_parts(tokens, at, a, Lexeme::Word("and"@), b);
            let f = lemma_reads(tokens, at, *l, Place::Tight);
            let g = lemma_reads(tokens, at + a.len() + 1, *r, Place::Tightest);
            grouping::lemma_and_rest_step(tokens, f, at + a.len());
            Expr::And(Box::new(f), Box::new(g), parser::span_of_both(f, g))
        },
        (Expr::Or(l, r, _), Place::Loose) => {
            let a = tags(*l, Place::Loose);
            let b = tags(*r, Place::Tight);
            lemma_spell(*l, Place::Loose);
            lemma_spell(*r, Place::Tight);
            lemma_connectives_differ();
            lemma_stand_in_parts(tokens, at, a, Lexeme::Word("or"@), b);
            let f = lemma_reads(tokens, at, *l, Place::Loose);
            let g = lemma_reads(tokens, at + a.len() + 1, *r, Place::Tight);
            grouping::lemma_and_rest_step(tokens, g, end);
            grouping::lemma_or_rest_step(tokens, f, at + a.len());
            Expr::Or(Box::new(f), Box::new(g), parser::span_of_both(f, g))
        },
        (Expr::And(_, _, _), Place::Tightest) | (Expr::Or(_, _, _), Place::Tightest) => {
            let a = tags(e, Place::Loose);
            lemma_spell(e, Place::Loose);
            lemma_group_in_parts(tokens, at, a);
            let f = lemma_reads(tokens, at + 1, e, Place::Loose);
            grouping::lemma_or_rest_step(tokens, f, at + 1 + a.len());
            grouping::lemma_primary_step(tokens, at);
            grouping::lemma_unary_step(tokens, at);
            f
        },
        (_, Place::Tight) => {
            let f = lemma_reads(tokens, at, e, Place::Tightest);
            grouping::lemma_and_step(tokens, at);
            f
        },
        (_, Place::Loose) => {
            let f = lemma_reads(tokens, at, e, Place::Tight);
            grouping::lemma_and_rest_step(tokens, f, end);
            grouping::lemma_or_step(tokens, at);
            f
        },
    }
}

/// An expression reads back from its text: it is the same but for where its parts stand.
pub proof fn expressions_read_back(e: Expr)
    requires
        e.valid(),
    ensures
        grouping::ast_of(written(e)) matches Ok(f) && same(e, f),
{
    let list = tags(e, Place::Loose);
    lemma_spell(e, Place::Loose);
    notation::texts_are_read_piece_by_piece(pieces(e, Place::Loose));
    let tokens = lexer::lexed(written(e))->Ok_0;
    let all = notation::tags(tokens);
    assert(all.len() == tokens.len());
    assert(all == list.push(Lexeme::Eof));
    assert forall|k: int| 0 <= k < all.len() implies #[trigger] all[k] == tokens[k].tag by {}
    assert(all[list.len() as int] is Eof);
    assert(stand(tokens, 0, list)) by {
        reveal(stand);
        assert forall|k: int| 0 <= k < list.len() implies tokens[0 + k].tag == #[trigger] list[k] by {
            assert(all[k] == list[k]);
        }
    }
    lexer::lexed_is_complete(written(e), 0);
    let f = lemma_reads(tokens, 0, e, Place::Loose);
    grouping::lemma_or_rest_step(tokens, f, list.len());
    assert(all[0] == list[0]);
    grouping::lemma_whole_step(tokens);
    assert(parser::parsed(tokens) == grouping::whole_of(tokens)) by {
        reveal(grouping::whole_of);
    }
    reveal(grouping::ast_of);
}

} // verus!
