//! How primitives are written, and that they read back.

use crate::ast::{AddrLit, DirTag, Expr, PrimType, Primitive, ProtoTag};
use crate::error::Failure;
use crate::grouping;
use crate::lexer::{self, Lexed, Lexeme};
use crate::literal;
use crate::parser;
use crate::render;
use crate::text;
use core::ops::Range;
use vstd::arithmetic::power2::{lemma2_to64, lemma_pow2_adds, pow2};
use vstd::prelude::*;

verus! {

// ---------------------------------------------------------------------------------------------
// Tokens
// ---------------------------------------------------------------------------------------------

/// A piece of a source text.
pub enum Piece {
    /// A run of ASCII letters, digits, `.`, `:` and `/`.
    Word(Seq<char>),
    /// A blank character.
    Blank(char),
    Dash,
    Open,
    Close,
    Not,
    And,
    Or,
}

/// The characters of a piece.
pub open spec fn spelled(piece: Piece) -> Seq<char> {
    match piece {
        Piece::Word(word) => word,
        Piece::Blank(c) => seq![c],
        Piece::Dash => seq!['-'],
        Piece::Open => seq!['('],
        Piece::Close => seq![')'],
        Piece::Not => seq!['!'],
        Piece::And => seq!['&', '&'],
        Piece::Or => seq!['|', '|'],
    }
}

/// The text that pieces make.
pub open spec fn text_of(pieces: Seq<Piece>) -> Seq<char>
    decreases pieces.len(),
{
    if pieces.len() == 0 {
        seq![]
    } else {
        spelled(pieces[0]) + text_of(pieces.drop_first())
    }
}

/// The tokens that pieces are read as. Blanks are skipped, and `!`, `&&` and `||` are the words they
/// stand for.
pub open spec fn tags_of(pieces: Seq<Piece>) -> Seq<Lexeme>
    decreases pieces.len(),
{
    if pieces.len() == 0 {
        seq![Lexeme::Eof]
    } else {
        let rest = tags_of(pieces.drop_first());
        match pieces[0] {
            Piece::Word(word) => seq![Lexeme::Word(word)] + rest,
            Piece::Blank(_) => rest,
            Piece::Dash => seq![Lexeme::Dash] + rest,
            Piece::Open => seq![Lexeme::LParen] + rest,
            Piece::Close => seq![Lexeme::RParen] + rest,
            Piece::Not => seq![Lexeme::Word("not"@)] + rest,
            Piece::And => seq![Lexeme::Word("and"@)] + rest,
            Piece::Or => seq![Lexeme::Word("or"@)] + rest,
        }
    }
}

/// Whether each piece is what it says: words are made of letters, digits, `.`, `:` and `/`, and no two
/// stand next to each other; blanks are white space.
pub open spec fn proper(pieces: Seq<Piece>) -> bool {
    forall|i: int|
        0 <= i < pieces.len() ==> match #[trigger] pieces[i] {
            Piece::Word(word) => {
                &&& word.len() > 0
                &&& forall|j: int|
                    0 <= j < word.len() ==> {
                        ||| 'a' <= #[trigger] word[j] <= 'z'
                        ||| 'A' <= word[j] <= 'Z'
                        ||| '0' <= word[j] <= '9'
                        ||| word[j] == '.'
                        ||| word[j] == ':'
                        ||| word[j] == '/'
                    }
                &&& i + 1 < pieces.len() ==> pieces[i + 1] !is Word
            },
            Piece::Blank(c) => text::whitespace(c),
            _ => true,
        }
}

/// The kinds of a token stream's tokens.
pub open spec fn tags(tokens: Seq<Lexed>) -> Seq<Lexeme> {
    tokens.map_values(|token: Lexed| token.tag)
}

/// The first character of what follows a word is no word character.
proof fn lemma_after_word(pieces: Seq<Piece>)
    requires
        proper(pieces),
        pieces.len() > 0,
        pieces[0] !is Word,
    ensures
        text_of(pieces).len() > 0,
        !lexer::word_char(text_of(pieces)[0]),
{
    assert(text_of(pieces)[0] == spelled(pieces[0])[0]);
}

/// The tokens of a text from the place on where its last pieces start.
proof fn lemma_lexing_pieces(before: Seq<char>, pieces: Seq<Piece>)
    requires
        proper(pieces),
    ensures
        lexer::lexed_from(before + text_of(pieces), before.len()) matches Ok(tokens) && tags(tokens)
            == tags_of(pieces),
    decreases pieces.len(),
{
    let src = before + text_of(pieces);
    let at = before.len();
    if pieces.len() == 0 {
        assert(src.len() == at);
        assert(tags(lexer::lexed_from(src, at)->Ok_0) =~= tags_of(pieces));
    } else {
        let rest = pieces.drop_first();
        let here = spelled(pieces[0]);
        let next = at + here.len();
        assert(src =~= (before + here) + text_of(rest));
        assert forall|i: int| 0 <= i < rest.len() implies #[trigger] rest[i] == pieces[i + 1] by {}
        assert(proper(rest)) by {
            assert forall|i: int| 0 <= i < rest.len() implies match #[trigger] rest[i] {
                Piece::Word(word) => {
                    &&& word.len() > 0
                    &&& forall|j: int|
                        0 <= j < word.len() ==> {
                            ||| 'a' <= #[trigger] word[j] <= 'z'
                            ||| 'A' <= word[j] <= 'Z'
                            ||| '0' <= word[j] <= '9'
                            ||| word[j] == '.'
                            ||| word[j] == ':'
                            ||| word[j] == '/'
                        }
                    &&& i + 1 < rest.len() ==> rest[i + 1] !is Word
                },
                Piece::Blank(c) => text::whitespace(c),
                _ => true,
            } by {
                assert(rest[i] == pieces[i + 1]);
                if i + 1 < rest.len() {
                    assert(rest[i + 1] == pieces[i + 2]);
                }
            }
        }
        lemma_lexing_pieces(before + here, rest);
        assert forall|i: int| 0 <= i < here.len() implies src[at + i] == #[trigger] here[i] by {}
        assert(src[at as int] == here[0]);
        let more = lexer::lexed_from(src, next)->Ok_0;
        if let Piece::Word(word) = pieces[0] {
            let end = lexer::word_end(src, at);
            lexer::lemma_word_end(src, at);
            if end < next {
                assert(lexer::word_char(here[end - at]));
            }
            if end > next {
                assert(rest.len() > 0) by {
                    assert(text_of(rest).len() > 0);
                }
                assert(rest[0] == pieces[1]);
                lemma_after_word(rest);
                assert(src[next as int] == text_of(rest)[0]);
            }
            assert(src.subrange(at as int, end as int) =~= word);
        } else if pieces[0] is And || pieces[0] is Or {
            assert(src[at as int + 1] == here[1]);
        }
        assert(tags(lexer::lexed_from(src, at)->Ok_0) =~= tags_of(pieces));
    }
}

/// A text is read as the pieces that it is made of.
pub proof fn texts_are_read_piece_by_piece(pieces: Seq<Piece>)
    requires
        proper(pieces),
    ensures
        lexer::lexed(text_of(pieces)) matches Ok(tokens) && tags(tokens) == tags_of(pieces),
{
    assert(seq![] + text_of(pieces) =~= text_of(pieces));
    lemma_lexing_pieces(seq![], pieces);
}

// ---------------------------------------------------------------------------------------------
// Addresses
// ---------------------------------------------------------------------------------------------

/// An IPv4 address as four decimal octets with dots between them, the most significant first.
pub open spec fn dotted(addr: u32) -> Seq<char> {
    render::decimal(addr as nat / 0x100_0000) + seq!['.'] + render::decimal(
        addr as nat / 0x1_0000 % 0x100,
    ) + seq!['.'] + render::decimal(addr as nat / 0x100 % 0x100) + seq!['.'] + render::decimal(
        addr as nat % 0x100,
    )
}

/// A number as `n` hexadecimal groups of sixteen bits with colons between them, the most significant
/// first.
pub open spec fn colons(addr: nat, n: nat) -> Seq<char>
    decreases n,
{
    if n <= 1 {
        render::hexadecimal(addr % 0x1_0000)
    } else {
        colons(addr / 0x1_0000, (n - 1) as nat) + seq![':'] + render::hexadecimal(addr % 0x1_0000)
    }
}

/// An address.
pub open spec fn address(addr: AddrLit) -> Seq<char> {
    match addr {
        AddrLit::V4(value) => dotted(value),
        AddrLit::V6(value) => colons(value as nat, 8),
    }
}

/// A text without the separator is one piece.
proof fn lemma_split_one(t: Seq<char>, sep: char)
    requires
        !t.contains(sep),
    ensures
        literal::split(t, sep) == seq![t],
    decreases t.len(),
{
    if t.len() > 0 {
        assert(t.last() != sep) by {
            assert(t.contains(t[t.len() - 1]));
        }
        assert(!t.drop_last().contains(sep)) by {
            assert forall|i: int| 0 <= i < t.len() - 1 implies t.drop_last()[i] != sep by {
                assert(t.contains(t[i]));
            }
        }
        lemma_split_one(t.drop_last(), sep);
        assert(t.drop_last().push(t.last()) =~= t);
        assert(literal::split(t, sep) =~= seq![t]);
    } else {
        assert(t =~= seq![]);
        assert(literal::split(t, sep) =~= seq![t]);
    }
}

/// What follows the last separator is the last piece.
proof fn lemma_split_last(head: Seq<char>, sep: char, t: Seq<char>)
    requires
        !t.contains(sep),
    ensures
        literal::split(head + seq![sep] + t, sep) == literal::split(head, sep).push(t),
    decreases t.len(),
{
    let whole = head + seq![sep] + t;
    if t.len() > 0 {
        assert(t.last() != sep) by {
            assert(t.contains(t[t.len() - 1]));
        }
        assert(!t.drop_last().contains(sep)) by {
            assert forall|i: int| 0 <= i < t.len() - 1 implies t.drop_last()[i] != sep by {
                assert(t.contains(t[i]));
            }
        }
        lemma_split_last(head, sep, t.drop_last());
        assert(whole.drop_last() =~= head + seq![sep] + t.drop_last());
        assert(t.drop_last().push(t.last()) =~= t);
        assert(literal::split(whole, sep) =~= literal::split(head, sep).push(t));
    } else {
        assert(whole.drop_last() =~= head);
        assert(t =~= seq![]);
        assert(literal::split(whole, sep) =~= literal::split(head, sep).push(t));
    }
}

/// A decimal numeral holds no other characters than digits and is the number it was written from.
proof fn lemma_decimal(n: nat, max: nat)
    requires
        n <= max,
    ensures
        literal::decimal(render::decimal(n), max) == Some(n),
        render::decimal(n).len() > 0,
        !render::decimal(n).contains('.'),
        !render::decimal(n).contains(':'),
        !render::decimal(n).contains('/'),
        forall|i: int|
            0 <= i < render::decimal(n).len() ==> '0' <= #[trigger] render::decimal(n)[i] <= '9',
{
    render::decimal_reads_back(n);
}

/// Four texts with dots between them, split at the dots.
proof fn lemma_four_octets(a: Seq<char>, b: Seq<char>, c: Seq<char>, d: Seq<char>)
    requires
        !a.contains('.'),
        !b.contains('.'),
        !c.contains('.'),
        !d.contains('.'),
    ensures
        literal::split(a + seq!['.'] + b + seq!['.'] + c + seq!['.'] + d, '.') == seq![a, b, c, d],
{
    let second = a + seq!['.'] + b;
    let third = second + seq!['.'] + c;
    lemma_split_one(a, '.');
    lemma_split_last(a, '.', b);
    lemma_split_last(second, '.', c);
    lemma_split_last(third, '.', d);
    assert(literal::split(third + seq!['.'] + d, '.') =~= seq![a, b, c, d]);
}

/// An IPv4 address is made of digits and dots.
proof fn lemma_dotted_chars(addr: u32)
    ensures
        dotted(addr).len() > 0,
        forall|i: int|
            0 <= i < dotted(addr).len() ==> '0' <= #[trigger] dotted(addr)[i] <= '9' || dotted(
                addr,
            )[i] == '.',
{
    lemma_decimal(addr as nat / 0x100_0000, 255);
    lemma_decimal(addr as nat / 0x1_0000 % 0x100, 255);
    lemma_decimal(addr as nat / 0x100 % 0x100, 255);
    lemma_decimal(addr as nat % 0x100, 255);
}

/// An IPv4 address reads back.
proof fn lemma_dotted(addr: u32)
    ensures
        literal::ipv4(dotted(addr)) == Some(addr),
{
    let a = addr as nat / 0x100_0000;
    let b = addr as nat / 0x1_0000 % 0x100;
    let c = addr as nat / 0x100 % 0x100;
    let d = addr as nat % 0x100;
    lemma_decimal(a, 255);
    lemma_decimal(b, 255);
    lemma_decimal(c, 255);
    lemma_decimal(d, 255);
    lemma_four_octets(
        render::decimal(a),
        render::decimal(b),
        render::decimal(c),
        render::decimal(d),
    );
    let octets = literal::split(dotted(addr), '.');
    assert(octets[0] == render::decimal(a));
    assert(octets[1] == render::decimal(b));
    assert(octets[2] == render::decimal(c));
    assert(octets[3] == render::decimal(d));
    lemma_octets(addr as nat);
}

/// The octets of a number make the number.
proof fn lemma_octets(n: nat)
    ensures
        n / 0x100_0000 * 0x100_0000 + n / 0x1_0000 % 0x100 * 0x1_0000 + n / 0x100 % 0x100 * 0x100 + n
            % 0x100 == n,
{
    let q = n / 0x100;
    let r = q / 0x100;
    assert(n == q * 0x100 + n % 0x100);
    assert(q == r * 0x100 + q % 0x100);
    assert(r == r / 0x100 * 0x100 + r % 0x100);
    assert(r == n / 0x1_0000);
    assert(r / 0x100 == n / 0x100_0000);
}

/// A hexadecimal numeral is read as the number it was written from.
proof fn lemma_hexadecimal(n: nat)
    ensures
        literal::hex_value(render::hexadecimal(n)) == Some(n),
        render::hexadecimal(n).len() > 0,
        n < 0x1_0000 ==> render::hexadecimal(n).len() <= 4,
        forall|i: int|
            0 <= i < render::hexadecimal(n).len() ==> '0' <= #[trigger] render::hexadecimal(n)[i]
                <= '9' || 'a' <= render::hexadecimal(n)[i] <= 'f',
        !render::hexadecimal(n).contains(':'),
    decreases n,
{
    reveal_with_fuel(literal::hex_value, 2);
    render::hexadecimal_reads_back(n);
    if n >= 16 {
        lemma_hexadecimal(n / 16);
        assert(render::hexadecimal(n).drop_last() =~= render::hexadecimal(n / 16));
    }
    lemma_hexadecimal_len(n);
}

/// A number of sixteen bits has at most four hexadecimal digits.
proof fn lemma_hexadecimal_len(n: nat)
    ensures
        n < 0x1_0000 ==> render::hexadecimal(n).len() <= 4,
{
    reveal_with_fuel(render::hexadecimal, 5);
}

/// Whether a number has at most `n` groups of sixteen bits.
spec fn has_groups(addr: nat, n: nat) -> bool
    decreases n,
{
    if n <= 1 {
        addr < 0x1_0000
    } else {
        has_groups(addr / 0x1_0000, (n - 1) as nat)
    }
}

/// The values of the first pieces do not depend on later ones.
proof fn lemma_hex_groups_prefix(a: Seq<Seq<char>>, b: Seq<Seq<char>>, n: nat)
    requires
        n <= a.len(),
        n <= b.len(),
        forall|i: int| 0 <= i < n ==> #[trigger] a[i] == b[i],
    ensures
        literal::hex_groups(a, n) == literal::hex_groups(b, n),
    decreases n,
{
    if n > 0 {
        lemma_hex_groups_prefix(a, b, (n - 1) as nat);
        assert(a[n - 1] == b[n - 1]);
    }
}

/// Whether no two colons stand next to each other, and none at an end.
spec fn apart(t: Seq<char>) -> bool {
    &&& t.len() > 0
    &&& t[0] != ':'
    &&& t.last() != ':'
    &&& forall|i: int, j: int|
        0 <= i && j == i + 1 && j < t.len() ==> !(#[trigger] t[i] == ':' && #[trigger] t[j] == ':')
}

/// Groups with colons between them read back.
proof fn lemma_colons(addr: nat, n: nat)
    requires
        has_groups(addr, n),
        n > 0,
    ensures
        ({
            let t = colons(addr, n);
            let pieces = literal::split(t, ':');
            &&& apart(t)
            &&& forall|i: int|
                0 <= i < t.len() ==> '0' <= #[trigger] t[i] <= '9' || 'a' <= t[i] <= 'f' || t[i]
                    == ':'
            &&& n > 1 ==> t.contains(':')
            &&& pieces.len() == n
            &&& literal::hex_groups(pieces, n) matches Some(groups) && groups.len() == n
                && literal::groups_value(groups) == addr
        }),
    decreases n,
{
    let t = colons(addr, n);
    let pieces = literal::split(t, ':');
    let low = addr % 0x1_0000;
    let last = render::hexadecimal(low);
    lemma_hexadecimal(low);
    reveal_with_fuel(literal::hex_groups, 2);
    reveal_with_fuel(literal::groups_value, 2);
    if n == 1 {
        lemma_split_one(last, ':');
        assert(apart(t)) by {
            assert(t[0] != ':');
        }
        let groups = literal::hex_groups(pieces, 1)->0;
        assert(groups =~= seq![low]);
        assert(groups.drop_last() =~= seq![]);
    } else {
        let high = addr / 0x1_0000;
        let m = (n - 1) as nat;
        let head = colons(high, m);
        lemma_colons(high, m);
        lemma_split_last(head, ':', last);
        let front = literal::split(head, ':');
        lemma_hex_groups_prefix(front, pieces, m);
        let before = literal::hex_groups(front, m)->0;
        let groups = literal::hex_groups(pieces, n)->0;
        assert(pieces[m as int] == last);
        assert(groups == before.push(low));
        assert(groups.drop_last() =~= before);
        assert(t[head.len() as int] == ':');
        assert(t.last() == last.last());
        assert(t[0] == head[0]);
        assert forall|i: int, j: int| 0 <= i && j == i + 1 && j < t.len() implies !(#[trigger] t[i]
            == ':' && #[trigger] t[j] == ':') by {
            if j < head.len() {
                assert(t[i] == head[i] && t[j] == head[j]);
            } else if j == head.len() {
                assert(t[i] == head.last());
            } else {
                assert(t[j] == last[j - head.len() - 1]);
            }
        }
    }
}

/// A text in which no two colons stand next to each other has no gap.
proof fn lemma_no_gap(t: Seq<char>, i: nat)
    requires
        apart(t),
    ensures
        literal::gap_from(t, i) is None,
    decreases t.len() - i,
{
    if i + 2 <= t.len() {
        assert(!(t[i as int] == ':' && t[i as int + 1] == ':'));
        lemma_no_gap(t, i + 1);
    }
}

/// An IPv6 address reads back.
proof fn lemma_ipv6(addr: u128)
    ensures
        literal::ipv6(colons(addr as nat, 8)) == Some(addr),
        colons(addr as nat, 8).len() > 0,
        colons(addr as nat, 8).contains(':'),
        forall|i: int|
            0 <= i < colons(addr as nat, 8).len() ==> {
                ||| '0' <= #[trigger] colons(addr as nat, 8)[i] <= '9'
                ||| 'a' <= colons(addr as nat, 8)[i] <= 'f'
                ||| colons(addr as nat, 8)[i] == ':'
            },
{
    let t = colons(addr as nat, 8);
    assert(has_groups(addr as nat, 8)) by {
        reveal_with_fuel(has_groups, 8);
    }
    lemma_colons(addr as nat, 8);
    lemma_no_gap(t, 0);
}

/// A `/` that a text does not hold is found nowhere in it, and one after it is found there.
proof fn lemma_slash(t: Seq<char>, rest: Seq<char>)
    requires
        !t.contains('/'),
    ensures
        literal::find_from(t, '/', 0) == t.len(),
        literal::find_from(t + seq!['/'] + rest, '/', 0) == t.len(),
{
    let whole = t + seq!['/'] + rest;
    literal::lemma_find(t, '/', 0);
    literal::lemma_find(whole, '/', 0);
    let at = literal::find_from(whole, '/', 0);
    assert(whole[t.len() as int] == '/');
    if at < t.len() {
        assert(whole[at as int] == t[at as int]);
    }
}

/// An address literal reads back, with and without a prefix length.
pub proof fn addresses_read_back(addr: AddrLit, bits: u8, offset: Range<usize>, allow_prefix: bool)
    requires
        bits <= match addr {
            AddrLit::V4(_) => 32,
            AddrLit::V6(_) => 128u8,
        },
    ensures
        literal::addr_literal(address(addr), offset, allow_prefix) == Ok::<
            (AddrLit, Option<u8>),
            Failure,
        >((addr, None)),
        literal::addr_literal(
            address(addr) + seq!['/'] + render::decimal(bits as nat),
            offset,
            true,
        ) == Ok::<(AddrLit, Option<u8>), Failure>((addr, Some(bits))),
        address(addr).len() > 0,
        forall|i: int| 0 <= i < address(addr).len() ==> lexer::word_char(#[trigger] address(addr)[i]),
{
    let t = address(addr);
    let rest = render::decimal(bits as nat);
    let whole = t + seq!['/'] + rest;
    match addr {
        AddrLit::V4(value) => {
            lemma_dotted(value);
            lemma_dotted_chars(value);
        },
        AddrLit::V6(value) => lemma_ipv6(value),
    }
    lemma_decimal(
        bits as nat,
        match addr {
            AddrLit::V4(_) => 32,
            AddrLit::V6(_) => 128,
        },
    );
    assert(!t.contains('/'));
    lemma_slash(t, rest);
    assert(t.take(t.len() as int) =~= t);
    assert(whole.take(t.len() as int) =~= t);
    assert(whole.skip(t.len() as int + 1) =~= rest);
    if addr is V6 {
        let i = choose|i: int| 0 <= i < t.len() && t[i] == ':';
        assert(whole[i] == ':');
        assert(whole.contains(':'));
    } else {
        assert(!t.contains(':'));
        assert forall|i: int| 0 <= i < whole.len() implies whole[i] != ':' by {
            if i < t.len() {
                assert(whole[i] == t[i]);
            } else if i > t.len() {
                assert(whole[i] == rest[i - t.len() - 1]);
            }
        }
    }
}

/// A part of an IPv6 address: nothing, or groups with colons between them.
pub open spec fn part(addr: nat, n: nat) -> Seq<char> {
    if n == 0 {
        seq![]
    } else {
        colons(addr, n)
    }
}

/// The groups of a part.
proof fn lemma_part(addr: nat, n: nat, dotted: bool) -> (groups: Seq<nat>)
    requires
        n == 0 ==> addr == 0,
        n > 0 ==> has_groups(addr, n),
    ensures
        literal::groups_of(part(addr, n), dotted) == Some(groups),
        groups.len() == n,
        literal::groups_value(groups) == addr,
{
    if n > 0 {
        lemma_colons(addr, n);
        literal::hex_groups(literal::split(part(addr, n), ':'), n)->0
    } else {
        seq![]
    }
}

/// Groups in a row.
proof fn lemma_groups_in_a_row(a: Seq<nat>, b: Seq<nat>)
    ensures
        literal::groups_value(a + b) == literal::groups_value(a) * pow2(16 * b.len())
            + literal::groups_value(b),
    decreases b.len(),
{
    lemma2_to64();
    if b.len() == 0 {
        assert(a + b =~= a);
        assert(pow2(16 * b.len()) == 1);
    } else {
        let c = b.drop_last();
        lemma_groups_in_a_row(a, c);
        assert((a + b).drop_last() =~= a + c);
        assert((a + b).last() == b.last());
        lemma_pow2_adds(16 * c.len(), 16);
        let x = literal::groups_value(a);
        let y = pow2(16 * c.len());
        let z = literal::groups_value(c);
        assert((x * y + z) * 0x1_0000 == x * (y * 0x1_0000) + z * 0x1_0000) by (nonlinear_arith);
        assert(16 * b.len() == 16 * c.len() + 16);
        assert(pow2(16 * b.len()) == y * 0x1_0000);
    }
}

/// Groups of zero count nothing.
proof fn lemma_zeros(n: nat)
    ensures
        literal::groups_value(literal::zeros(n)) == 0,
    decreases n,
{
    if n > 0 {
        lemma_zeros((n - 1) as nat);
        assert(literal::zeros(n).drop_last() =~= literal::zeros((n - 1) as nat));
    }
}

/// A gap is found where it is.
proof fn lemma_gap(head: Seq<char>, rest: Seq<char>, i: nat)
    requires
        head.len() == 0 || apart(head),
        i <= head.len(),
    ensures
        literal::gap_from(head + seq![':', ':'] + rest, i) == Some(head.len()),
    decreases head.len() - i,
{
    let t = head + seq![':', ':'] + rest;
    if i < head.len() {
        assert(t[i as int] == head[i as int]);
        if i + 1 < head.len() {
            assert(t[i as int + 1] == head[i as int + 1]);
        } else {
            assert(t[i as int] == head.last());
        }
        lemma_gap(head, rest, i + 1);
    } else {
        assert(t[i as int] == ':' && t[i as int + 1] == ':');
    }
}

/// A `::` in an IPv6 address stands for the groups that are missing, all zero: what comes before it are
/// the first groups, and what comes after it the last.
pub proof fn gaps_stand_for_zeros(high: nat, m: nat, low: nat, n: nat)
    requires
        m + n <= 7,
        high < pow2(16 * m),
        low < pow2(16 * n),
    ensures
        literal::ipv6(part(high, m) + seq![':', ':'] + part(low, n)) == Some(
            (high * pow2((128 - 16 * m) as nat) + low) as u128,
        ),
{
    let head = part(high, m);
    let tail = part(low, n);
    let t = head + seq![':', ':'] + tail;
    lemma_fits(high, m);
    lemma_fits(low, n);
    lemma2_to64();
    let a = lemma_part(high, m, false);
    let b = lemma_part(low, n, true);
    if m > 0 {
        lemma_colons(high, m);
    }
    lemma_gap(head, tail, 0);
    assert(t.take(head.len() as int) =~= head);
    assert(t.skip(head.len() as int + 2) =~= tail);
    let k = (8 - m - n) as nat;
    lemma_zeros(k);
    lemma_groups_in_a_row(a, literal::zeros(k));
    lemma_groups_in_a_row(a + literal::zeros(k), b);
    let x = pow2(16 * k);
    let y = pow2(16 * n);
    lemma_pow2_adds(16 * k, 16 * n);
    assert(high * x * y == high * (x * y)) by (nonlinear_arith);
}

/// A number that is small enough has few groups.
proof fn lemma_fits(addr: nat, n: nat)
    requires
        addr < pow2(16 * n),
    ensures
        n > 0 ==> has_groups(addr, n),
        n == 0 ==> addr == 0,
    decreases n,
{
    lemma2_to64();
    if n > 1 {
        lemma_pow2_adds((16 * (n - 1)) as nat, 16);
        let y = pow2((16 * (n - 1)) as nat);
        assert(addr / 0x1_0000 < y);
        lemma_fits(addr / 0x1_0000, (n - 1) as nat);
    }
}

/// The last two groups of an IPv6 address can be written as an IPv4 address.
pub proof fn ipv6_addresses_can_end_in_an_ipv4_address(high: nat, low: u32)
    requires
        high < pow2(96),
    ensures
        literal::ipv6(colons(high, 6) + seq![':'] + dotted(low)) == Some(
            (high * 0x1_0000_0000 + low) as u128,
        ),
{
    let head = colons(high, 6);
    let last = dotted(low);
    let t = head + seq![':'] + last;
    lemma_fits(high, 6);
    lemma_colons(high, 6);
    lemma_dotted(low);
    lemma_dotted_chars(low);
    assert(!last.contains(':'));
    lemma_split_last(head, ':', last);
    let front = literal::split(head, ':');
    let pieces = literal::split(t, ':');
    lemma_hex_groups_prefix(front, pieces, 6);
    assert(pieces[6] == last);
    lemma_no_hex_group(low);
    assert(apart(t)) by {
        assert(t[0] == head[0]);
        assert(t.last() == last.last());
        assert forall|i: int, j: int| 0 <= i && j == i + 1 && j < t.len() implies !(#[trigger] t[i]
            == ':' && #[trigger] t[j] == ':') by {
            if j < head.len() {
                assert(t[i] == head[i] && t[j] == head[j]);
            } else if j == head.len() {
                assert(t[i] == head.last());
            } else {
                assert(t[j] == last[j - head.len() - 1]);
            }
        }
    }
    lemma_no_gap(t, 0);
    let groups = literal::hex_groups(front, 6)->0;
    let h = (low / 0x1_0000) as nat;
    let l = (low % 0x1_0000) as nat;
    reveal_with_fuel(literal::groups_value, 2);
    assert(groups.push(h).push(l).drop_last() =~= groups.push(h));
    assert(groups.push(h).drop_last() =~= groups);
}

/// An IPv4 address is no group of hexadecimal digits.
proof fn lemma_no_hex_group(addr: u32)
    ensures
        literal::hex_group(dotted(addr)) is None,
{
    lemma_decimal(addr as nat / 0x100_0000, 255);
    lemma_decimal(addr as nat / 0x1_0000 % 0x100, 255);
    lemma_decimal(addr as nat / 0x100 % 0x100, 255);
    lemma_decimal(addr as nat % 0x100, 255);
}

/// A decimal numeral of a number that is too large is refused.
proof fn lemma_too_large(n: nat, max: nat)
    requires
        n > max,
    ensures
        literal::decimal(render::decimal(n), max) is None,
{
    render::decimal_reads_back(n);
    let t = render::decimal(n);
    assert(text::digit(t[0]));
    assert(literal::unsigned(t) == t);
}

/// Four decimal numerals with dots between them are an IPv4 address exactly if each is at most 255. The
/// first is the most significant.
pub proof fn octets_are_at_most_255(a: nat, b: nat, c: nat, d: nat)
    ensures
        literal::ipv4(
            render::decimal(a) + seq!['.'] + render::decimal(b) + seq!['.'] + render::decimal(c)
                + seq!['.'] + render::decimal(d),
        ) == if a <= 255 && b <= 255 && c <= 255 && d <= 255 {
            Some((a * 0x100_0000 + b * 0x1_0000 + c * 0x100 + d) as u32)
        } else {
            None
        },
{
    let n = seq![a, b, c, d];
    let t = n.map_values(|v: nat| render::decimal(v));
    assert forall|i: int| 0 <= i < 4 implies {
        &&& !(#[trigger] t[i]).contains('.')
        &&& n[i] <= 255 ==> literal::decimal(t[i], 255) == Some(n[i])
        &&& n[i] > 255 ==> literal::decimal(t[i], 255) is None
    } by {
        lemma_decimal(n[i], n[i]);
        if n[i] <= 255 {
            lemma_decimal(n[i], 255);
        } else {
            lemma_too_large(n[i], 255);
        }
    }
    lemma_four_octets(t[0], t[1], t[2], t[3]);
    let octets = literal::split(t[0] + seq!['.'] + t[1] + seq!['.'] + t[2] + seq!['.'] + t[3], '.');
    assert(octets[0] == t[0] && octets[1] == t[1] && octets[2] == t[2] && octets[3] == t[3]);
}

/// A prefix length is at most the address's length, and only a network has one.
pub proof fn long_prefixes_are_refused(addr: AddrLit, n: nat, offset: Range<usize>)
    ensures
        ({
            let t = address(addr) + seq!['/'] + render::decimal(n);
            &&& literal::addr_literal(t, offset, false) is Err
            &&& literal::addr_literal(t, offset, true) is Err <==> n > match addr {
                AddrLit::V4(_) => 32,
                AddrLit::V6(_) => 128nat,
            }
        }),
{
    let rest = render::decimal(n);
    let max = match addr {
        AddrLit::V4(_) => 32,
        AddrLit::V6(_) => 128nat,
    };
    if n > max {
        lemma_too_large(n, max);
    } else {
        lemma_decimal(n, max);
    }
    lemma_decimal(n, n);
    lemma_literal_parts(addr, rest);
    match addr {
        AddrLit::V4(value) => lemma_dotted(value),
        AddrLit::V6(value) => lemma_ipv6(value),
    }
}

/// What an address literal with a prefix length is taken apart into.
proof fn lemma_literal_parts(addr: AddrLit, rest: Seq<char>)
    requires
        !rest.contains(':'),
    ensures
        ({
            let whole = address(addr) + seq!['/'] + rest;
            let slash = literal::find_from(whole, '/', 0);
            &&& slash == address(addr).len() < whole.len()
            &&& whole.take(slash as int) == address(addr)
            &&& whole.skip(slash as int + 1) == rest
            &&& whole.contains(':') == (addr is V6)
        }),
{
    let t = address(addr);
    let whole = t + seq!['/'] + rest;
    match addr {
        AddrLit::V4(value) => lemma_dotted_chars(value),
        AddrLit::V6(value) => lemma_ipv6(value),
    }
    assert(!t.contains('/'));
    lemma_slash(t, rest);
    assert(whole.take(t.len() as int) =~= t);
    assert(whole.skip(t.len() as int + 1) =~= rest);
    if addr is V6 {
        let i = choose|i: int| 0 <= i < t.len() && t[i] == ':';
        assert(whole[i] == ':');
    } else {
        assert forall|i: int| 0 <= i < whole.len() implies whole[i] != ':' by {
            if i < t.len() {
                assert(whole[i] == t[i]);
            } else if i > t.len() {
                assert(whole[i] == rest[i - t.len() - 1]);
            }
        }
    }
}

/// A port is at most 65535.
pub proof fn ports_are_at_most_65535(n: nat, offset: Range<usize>)
    ensures
        literal::port_literal(render::decimal(n), offset) is Ok <==> n <= 65535,
        n <= 65535 ==> literal::port_literal(render::decimal(n), offset)->Ok_0 == n,
{
    if n <= 65535 {
        lemma_decimal(n, 65535);
    } else {
        lemma_too_large(n, 65535);
    }
}

/// The case of a hexadecimal digit does not matter: `A` to `F` are 10 to 15, as `a` to `f` are.
pub proof fn hexadecimal_digits_have_no_case(i: int)
    requires
        0 <= i < 6,
    ensures
        literal::hex_digit((97 + i) as char) == Some((10 + i) as nat),
        literal::hex_digit((65 + i) as char) == Some((10 + i) as nat),
        forall|c: char|
            #![trigger literal::hex_digit(c)]
            '0' <= c <= '9' ==> literal::hex_digit(c) == Some((c as int - 48) as nat),
        forall|c: char|
            #![trigger literal::hex_digit(c)]
            literal::hex_digit(c) is Some ==> '0' <= c <= '9' || 'a' <= c <= 'f' || 'A' <= c <= 'F',
{
}

// ---------------------------------------------------------------------------------------------
// Primitives
// ---------------------------------------------------------------------------------------------

/// The keyword of a protocol.
pub open spec fn proto_word(tag: ProtoTag) -> Seq<char> {
    match tag {
        ProtoTag::Ip => "ip"@,
        ProtoTag::Ip6 => "ip6"@,
        ProtoTag::Arp => "arp"@,
        ProtoTag::Tcp => "tcp"@,
        ProtoTag::Udp => "udp"@,
        ProtoTag::Icmp => "icmp"@,
    }
}

/// The keyword of a direction.
pub open spec fn dir_word(tag: DirTag) -> Seq<char> {
    match tag {
        DirTag::Src => "src"@,
        DirTag::Dst => "dst"@,
    }
}

/// The pieces of an optional keyword and the blank after it.
pub open spec fn optional_word(word: Option<Seq<char>>) -> Seq<Piece> {
    match word {
        Some(word) => seq![Piece::Word(word), Piece::Blank(' ')],
        None => seq![],
    }
}

/// The pieces of what a primitive matches on.
pub open spec fn type_pieces(ty: PrimType) -> Seq<Piece> {
    match ty {
        PrimType::Host(addr) => seq![
            Piece::Word("host"@),
            Piece::Blank(' '),
            Piece::Word(address(addr)),
        ],
        PrimType::Net(addr, None) => seq![
            Piece::Word("net"@),
            Piece::Blank(' '),
            Piece::Word(address(addr)),
        ],
        PrimType::Net(addr, Some(bits)) => seq![
            Piece::Word("net"@),
            Piece::Blank(' '),
            Piece::Word(address(addr) + seq!['/'] + render::decimal(bits as nat)),
        ],
        PrimType::Port(port) => seq![
            Piece::Word("port"@),
            Piece::Blank(' '),
            Piece::Word(render::decimal(port as nat)),
        ],
        PrimType::PortRange(lo, hi) => seq![
            Piece::Word("portrange"@),
            Piece::Blank(' '),
            Piece::Word(render::decimal(lo as nat)),
            Piece::Dash,
            Piece::Word(render::decimal(hi as nat)),
        ],
    }
}

/// The pieces of a primitive: its protocol and its direction, if it names them, and what it matches on.
pub open spec fn primitive_pieces(p: Primitive) -> Seq<Piece> {
    optional_word(proto_words(p.proto)) + optional_word(dir_words(p.dir)) + type_pieces(p.ty)
}

/// The text of a primitive, such as `tcp dst port 80` or `net 10.0.0.0/8`.
pub open spec fn written(p: Primitive) -> Seq<char> {
    text_of(primitive_pieces(p))
}

/// The keywords differ from each other and are made of word characters.
proof fn lemma_keywords()
    ensures
        forall|tag: ProtoTag|
            {
                &&& parser::proto_keyword(#[trigger] proto_word(tag)) == Some(tag)
                &&& plain(proto_word(tag))
                &&& proto_word(tag) != "not"@
            },
        forall|tag: DirTag|
            {
                &&& parser::dir_keyword(#[trigger] dir_word(tag)) == Some(tag)
                &&& parser::proto_keyword(dir_word(tag)) is None
                &&& plain(dir_word(tag))
                &&& dir_word(tag) != "not"@
            },
        type_word("host"@),
        type_word("net"@),
        type_word("port"@),
        type_word("portrange"@),
        "host"@ != "net"@,
        "host"@ != "port"@,
        "net"@ != "port"@,
        "host"@ != "portrange"@,
        "net"@ != "portrange"@,
        "port"@ != "portrange"@,
{
    reveal_strlit("ip");
    reveal_strlit("ip6");
    reveal_strlit("arp");
    reveal_strlit("tcp");
    reveal_strlit("udp");
    reveal_strlit("icmp");
    reveal_strlit("src");
    reveal_strlit("dst");
    reveal_strlit("host");
    reveal_strlit("net");
    reveal_strlit("port");
    reveal_strlit("portrange");
    reveal_strlit("not");
    assert("ip"@[0] == 'i' && "ip6"@[0] == 'i' && "arp"@[0] == 'a' && "tcp"@[0] == 't' && "udp"@[0]
        == 'u' && "icmp"@[0] == 'i' && "src"@[0] == 's' && "dst"@[0] == 'd' && "host"@[0] == 'h'
        && "net"@[0] == 'n' && "port"@[0] == 'p' && "not"@[0] == 'n' && "portrange"@[0] == 'p');
    assert("net"@[1] == 'e' && "not"@[1] == 'o');
    assert forall|tag: ProtoTag|
        {
            &&& parser::proto_keyword(#[trigger] proto_word(tag)) == Some(tag)
            &&& plain(proto_word(tag))
            &&& proto_word(tag) != "not"@
        } by {
        match tag {
            ProtoTag::Ip => assert(plain("ip"@)),
            ProtoTag::Ip6 => assert(plain("ip6"@)),
            ProtoTag::Arp => assert(plain("arp"@)),
            ProtoTag::Tcp => assert(plain("tcp"@)),
            ProtoTag::Udp => assert(plain("udp"@)),
            ProtoTag::Icmp => assert(plain("icmp"@)),
        }
    }
}

/// Whether a text is made of word characters.
spec fn plain(word: Seq<char>) -> bool {
    &&& word.len() > 0
    &&& forall|j: int| 0 <= j < word.len() ==> lexer::word_char(#[trigger] word[j])
}

/// Whether a word is none of the optional keywords and is made of word characters.
spec fn type_word(word: Seq<char>) -> bool {
    &&& parser::proto_keyword(word) is None
    &&& parser::dir_keyword(word) is None
    &&& plain(word)
    &&& word != "not"@
}

/// The tokens of pieces in a row.
pub proof fn lemma_tags_in_a_row(a: Seq<Piece>, b: Seq<Piece>)
    ensures
        tags_of(a).len() > 0,
        tags_of(a + b) == tags_of(a).drop_last() + tags_of(b),
    decreases a.len(),
{
    if a.len() == 0 {
        assert(a + b =~= b);
        assert(tags_of(a).drop_last() + tags_of(b) =~= tags_of(b));
    } else {
        lemma_tags_in_a_row(a.drop_first(), b);
        assert((a + b).drop_first() =~= a.drop_first() + b);
        assert(tags_of(a + b) =~= tags_of(a).drop_last() + tags_of(b));
    }
}

/// The tokens of an optional keyword: the keyword.
spec fn optional_tag(word: Option<Seq<char>>) -> Seq<Lexeme> {
    match word {
        Some(word) => seq![Lexeme::Word(word)],
        None => seq![],
    }
}

/// The tokens of what a primitive matches on.
spec fn type_tags(ty: PrimType) -> Seq<Lexeme> {
    let word = |text: Seq<char>| Lexeme::Word(text);
    match ty {
        PrimType::Host(addr) => seq![word("host"@), word(address(addr))],
        PrimType::Net(addr, None) => seq![word("net"@), word(address(addr))],
        PrimType::Net(addr, Some(bits)) => seq![
            word("net"@),
            word(address(addr) + seq!['/'] + render::decimal(bits as nat)),
        ],
        PrimType::Port(port) => seq![word("port"@), word(render::decimal(port as nat))],
        PrimType::PortRange(lo, hi) => seq![
            word("portrange"@),
            word(render::decimal(lo as nat)),
            Lexeme::Dash,
            word(render::decimal(hi as nat)),
        ],
    }
}

/// The tokens of what a primitive matches on.
proof fn lemma_type_tags(ty: PrimType)
    ensures
        tags_of(type_pieces(ty)) == type_tags(ty).push(Lexeme::Eof),
{
    reveal_with_fuel(tags_of, 6);
    let t = type_pieces(ty);
    assert(t.drop_first().drop_first() =~= t.skip(2));
    assert(tags_of(t) =~= type_tags(ty).push(Lexeme::Eof));
}

/// The tokens of an optional keyword.
proof fn lemma_optional_tags(word: Option<Seq<char>>)
    ensures
        tags_of(optional_word(word)).drop_last() == optional_tag(word),
{
    reveal_with_fuel(tags_of, 3);
    assert(tags_of(optional_word(word)).drop_last() =~= optional_tag(word));
}

/// A word, a blank and a word are what they say.
proof fn lemma_two_words(first: Seq<char>, second: Seq<char>)
    requires
        plain(first),
        plain(second),
    ensures
        proper(seq![Piece::Word(first), Piece::Blank(' '), Piece::Word(second)]),
{
}

/// A word, a blank and two words around a dash are what they say.
proof fn lemma_range_words(first: Seq<char>, lo: Seq<char>, hi: Seq<char>)
    requires
        plain(first),
        plain(lo),
        plain(hi),
    ensures
        proper(
            seq![
                Piece::Word(first),
                Piece::Blank(' '),
                Piece::Word(lo),
                Piece::Dash,
                Piece::Word(hi),
            ],
        ),
{
}

/// An address and a prefix length make a word.
proof fn lemma_plain_net(a: Seq<char>, b: Seq<char>)
    requires
        plain(a),
        plain(b),
    ensures
        plain(a + seq!['/'] + b),
{
    let t = a + seq!['/'] + b;
    assert forall|j: int| 0 <= j < t.len() implies lexer::word_char(#[trigger] t[j]) by {
        if j < a.len() {
            assert(t[j] == a[j]);
        } else if j > a.len() {
            assert(t[j] == b[j - a.len() - 1]);
        }
    }
}

/// A decimal numeral is a word.
proof fn lemma_plain_decimal(n: nat)
    ensures
        plain(render::decimal(n)),
{
    lemma_decimal(n, n);
}

/// An address is a word.
proof fn lemma_plain_address(addr: AddrLit)
    ensures
        plain(address(addr)),
{
    addresses_read_back(addr, 0, Range { start: 0usize, end: 0usize }, false);
}

/// The pieces of what a primitive matches on are what they say.
proof fn lemma_type_proper(ty: PrimType)
    ensures
        proper(type_pieces(ty)),
        type_pieces(ty).len() > 0,
{
    assert(plain("host"@) && plain("net"@) && plain("port"@) && plain("portrange"@)) by {
        lemma_keywords();
    }
    match ty {
        PrimType::Host(addr) => {
            lemma_plain_address(addr);
            lemma_two_words("host"@, address(addr));
        },
        PrimType::Net(addr, None) => {
            lemma_plain_address(addr);
            lemma_two_words("net"@, address(addr));
        },
        PrimType::Net(addr, Some(bits)) => {
            lemma_plain_address(addr);
            lemma_plain_decimal(bits as nat);
            lemma_plain_net(address(addr), render::decimal(bits as nat));
            lemma_two_words("net"@, address(addr) + seq!['/'] + render::decimal(bits as nat));
        },
        PrimType::Port(port) => {
            lemma_plain_decimal(port as nat);
            lemma_two_words("port"@, render::decimal(port as nat));
        },
        PrimType::PortRange(lo, hi) => {
            lemma_plain_decimal(lo as nat);
            lemma_plain_decimal(hi as nat);
            lemma_range_words("portrange"@, render::decimal(lo as nat), render::decimal(hi as nat));
        },
    }
}

/// A keyword and a blank before pieces that are what they say.
proof fn lemma_optional_proper(word: Option<Seq<char>>, rest: Seq<Piece>)
    requires
        proper(rest),
        word matches Some(w) ==> plain(w),
    ensures
        proper(optional_word(word) + rest),
{
    let all = optional_word(word) + rest;
    if word is None {
        assert(all =~= rest);
    } else {
        assert(all[0] == Piece::Word(word->0));
        assert(all[1] == Piece::Blank(' '));
        assert forall|i: int| 2 <= i < all.len() implies #[trigger] all[i] == rest[i - 2] by {}
    }
}

/// The keyword of a protocol, if there is one.
pub open spec fn proto_words(proto: Option<ProtoTag>) -> Option<Seq<char>> {
    match proto {
        Some(tag) => Some(proto_word(tag)),
        None => None,
    }
}

/// The keyword of a direction, if there is one.
pub open spec fn dir_words(dir: Option<DirTag>) -> Option<Seq<char>> {
    match dir {
        Some(tag) => Some(dir_word(tag)),
        None => None,
    }
}

/// The tokens of a primitive.
#[verifier::opaque]
pub closed spec fn primitive_tags(p: Primitive) -> Seq<Lexeme> {
    optional_tag(proto_words(p.proto)) + optional_tag(dir_words(p.dir)) + type_tags(p.ty)
}

/// The pieces of a primitive are what they say, and are read as its tokens.
pub proof fn lemma_primitive_tags(p: Primitive)
    ensures
        proper(primitive_pieces(p)),
        tags_of(primitive_pieces(p)) == primitive_tags(p).push(Lexeme::Eof),
        primitive_pieces(p).len() > 0,
        primitive_tags(p).len() > 0,
{
    reveal(primitive_tags);
    let a = optional_word(proto_words(p.proto));
    let b = optional_word(dir_words(p.dir));
    let c = type_pieces(p.ty);
    lemma_type_proper(p.ty);
    assert(proto_words(p.proto) matches Some(w) ==> plain(w)) by {
        lemma_keywords();
    }
    assert(dir_words(p.dir) matches Some(w) ==> plain(w)) by {
        lemma_keywords();
    }
    lemma_optional_proper(dir_words(p.dir), c);
    lemma_optional_proper(proto_words(p.proto), b + c);
    assert(primitive_pieces(p) =~= a + (b + c));
    lemma_tags_in_a_row(a, b + c);
    lemma_tags_in_a_row(b, c);
    lemma_optional_tags(proto_words(p.proto));
    lemma_optional_tags(dir_words(p.dir));
    lemma_type_tags(p.ty);
    assert(optional_tag(proto_words(p.proto)) + (optional_tag(dir_words(p.dir)) + type_tags(
        p.ty,
    ).push(Lexeme::Eof)) =~= primitive_tags(p).push(Lexeme::Eof));
}

/// A port number at a position is read.
proof fn lemma_port_at(tokens: Seq<Lexed>, at: nat, port: u16)
    requires
        parser::tag_at(tokens, at) == Lexeme::Word(render::decimal(port as nat)),
    ensures
        parser::port_at(tokens, at) == Ok::<u16, Failure>(port),
{
    lemma_decimal(port as nat, 65535);
}

/// What an address literal stands for, under a name that does not unfold.
#[verifier::opaque]
spec fn literal_of(text: Seq<char>, offset: Range<usize>, allow_prefix: bool) -> Result<
    (AddrLit, Option<u8>),
    Failure,
> {
    literal::addr_literal(text, offset, allow_prefix)
}

/// An address is read, under that name.
proof fn lemma_literal_of(addr: AddrLit, prefix: Option<u8>, offset: Range<usize>, net: bool)
    requires
        PrimType::Net(addr, prefix).prefix_fits(),
        prefix is Some ==> net,
    ensures
        literal_of(address_text(addr, prefix), offset, net) == Ok::<
            (AddrLit, Option<u8>),
            Failure,
        >((addr, prefix)),
{
    reveal(literal_of);
    match prefix {
        Some(bits) => addresses_read_back(addr, bits, offset, net),
        None => addresses_read_back(addr, 0, offset, net),
    }
}

/// The text of an address and its prefix length, if there is one.
spec fn address_text(addr: AddrLit, prefix: Option<u8>) -> Seq<char> {
    match prefix {
        Some(bits) => address(addr) + seq!['/'] + render::decimal(bits as nat),
        None => address(addr),
    }
}

/// A `host` or `net` at a position is read.
proof fn lemma_address_at(
    tokens: Seq<Lexed>,
    at: nat,
    text: Seq<char>,
    addr: AddrLit,
    prefix: Option<u8>,
    net: bool,
    start: usize,
)
    requires
        parser::tag_at(tokens, at) == Lexeme::Word(
            if net {
                "net"@
            } else {
                "host"@
            },
        ),
        parser::tag_at(tokens, at + 1) == Lexeme::Word(text),
        literal_of(text, parser::offset_at(tokens, at + 1), net) == Ok::<
            (AddrLit, Option<u8>),
            Failure,
        >((addr, prefix)),
        "host"@ != "net"@,
    ensures
        parser::type_at(tokens, at, start) == Ok::<(PrimType, nat), Failure>(
            (
                if net {
                    PrimType::Net(addr, prefix)
                } else {
                    PrimType::Host(addr)
                },
                at + 2,
            ),
        ),
{
    let read = literal::addr_literal(text, parser::offset_at(tokens, at + 1), net);
    assert(read == Ok::<(AddrLit, Option<u8>), Failure>((addr, prefix))) by {
        reveal(literal_of);
    }
}

/// A `port` or `portrange` at a position is read.
proof fn lemma_ports_at(tokens: Seq<Lexed>, at: nat, lo: u16, hi: u16, range: bool, start: usize)
    requires
        parser::tag_at(tokens, at) == Lexeme::Word(
            if range {
                "portrange"@
            } else {
                "port"@
            },
        ),
        parser::tag_at(tokens, at + 1) == Lexeme::Word(render::decimal(lo as nat)),
        range ==> {
            &&& parser::tag_at(tokens, at + 2) is Dash
            &&& parser::tag_at(tokens, at + 3) == Lexeme::Word(render::decimal(hi as nat))
            &&& lo <= hi
        },
        "host"@ != "port"@,
        "net"@ != "port"@,
        "host"@ != "portrange"@,
        "net"@ != "portrange"@,
        "port"@ != "portrange"@,
    ensures
        parser::type_at(tokens, at, start) == Ok::<(PrimType, nat), Failure>(
            if range {
                (PrimType::PortRange(lo, hi), at + 4)
            } else {
                (PrimType::Port(lo), at + 2)
            },
        ),
{
    lemma_port_at(tokens, at + 1, lo);
    if range {
        lemma_port_at(tokens, at + 3, hi);
    }
}

/// What a primitive matches on is read.
proof fn lemma_type_at(tokens: Seq<Lexed>, at: nat, ty: PrimType, start: usize)
    requires
        ty.prefix_fits(),
        ty.bounds_ordered(),
        at + type_tags(ty).len() <= tokens.len(),
        forall|k: int|
            0 <= k < type_tags(ty).len() ==> parser::tag_at(tokens, (at + k) as nat)
                == #[trigger] type_tags(ty)[k],
    ensures
        read_as(tokens, at, start, ty, at + type_tags(ty).len()),
{
    let list = type_tags(ty);
    assert(parser::tag_at(tokens, at) == list[0]);
    assert(parser::tag_at(tokens, at + 1) == list[1]);
    assert("host"@ != "net"@ && "host"@ != "port"@ && "net"@ != "port"@ && "host"@ != "portrange"@
        && "net"@ != "portrange"@ && "port"@ != "portrange"@) by {
        lemma_keywords();
    }
    let offset = parser::offset_at(tokens, at + 1);
    let end = at + list.len();
    match ty {
        PrimType::Host(addr) => {
            lemma_literal_of(addr, None, offset, false);
            assert(read_as(tokens, at, start, ty, end)) by {
                reveal(read_as);
                lemma_address_at(tokens, at, address(addr), addr, None, false, start);
            }
        },
        PrimType::Net(addr, prefix) => {
            lemma_literal_of(addr, prefix, offset, true);
            assert(read_as(tokens, at, start, ty, end)) by {
                reveal(read_as);
                let text = address_text(addr, prefix);
                lemma_address_at(tokens, at, text, addr, prefix, true, start);
            }
        },
        PrimType::Port(port) => {
            assert(read_as(tokens, at, start, ty, end)) by {
                reveal(read_as);
                lemma_ports_at(tokens, at, port, port, false, start);
            }
        },
        PrimType::PortRange(lo, hi) => {
            assert(parser::tag_at(tokens, at + 2) == list[2]);
            assert(parser::tag_at(tokens, at + 3) == list[3]);
            assert(read_as(tokens, at, start, ty, end)) by {
                reveal(read_as);
                lemma_ports_at(tokens, at, lo, hi, true, start);
            }
        },
    }
}

/// Whether what a primitive matches on is read from a position on, up to `end`.
#[verifier::opaque]
spec fn read_as(tokens: Seq<Lexed>, at: nat, start: usize, ty: PrimType, end: nat) -> bool {
    parser::type_at(tokens, at, start) == Ok::<(PrimType, nat), Failure>((ty, end))
}

/// A primitive at a position is read.
pub proof fn lemma_primitive_at(tokens: Seq<Lexed>, at: nat, p: Primitive)
    requires
        p.ty.prefix_fits(),
        p.ty.bounds_ordered(),
        at + primitive_tags(p).len() <= tokens.len(),
        forall|k: int|
            0 <= k < primitive_tags(p).len() ==> tokens[at + k].tag
                == #[trigger] primitive_tags(p)[k],
    ensures
        parser::primitive_at(tokens, at) matches Ok((q, end)) && {
            &&& q.proto == p.proto
            &&& q.dir == p.dir
            &&& q.ty == p.ty
            &&& end == at + primitive_tags(p).len()
        },
        tokens[at as int].tag is Word,
        tokens[at as int].tag != Lexeme::Word("not"@),
{
    reveal(primitive_tags);
    let start = parser::offset_at(tokens, at).start;
    let dir_pos = parser::after(at, p.proto is Some);
    let type_pos = parser::after(dir_pos, p.dir is Some);
    let proto = proto_words(p.proto);
    let dir = dir_words(p.dir);
    lemma_tag_positions(tokens, at, proto, dir, type_tags(p.ty));
    lemma_type_at(tokens, type_pos, p.ty, start);
    lemma_keyword_positions(tokens, p, at, dir_pos, type_pos);
    lemma_read_primitive(tokens, at, p, at + primitive_tags(p).len());
}

/// Where the tokens of a primitive stand.
proof fn lemma_tag_positions(
    tokens: Seq<Lexed>,
    at: nat,
    proto: Option<Seq<char>>,
    dir: Option<Seq<char>>,
    list: Seq<Lexeme>,
)
    requires
        list.len() > 0,
        ({
            let all = optional_tag(proto) + optional_tag(dir) + list;
            &&& at + all.len() <= tokens.len()
            &&& forall|k: int| 0 <= k < all.len() ==> tokens[at + k].tag == #[trigger] all[k]
        }),
    ensures
        ({
            let dir_pos = parser::after(at, proto is Some);
            let type_pos = parser::after(dir_pos, dir is Some);
            &&& proto matches Some(word) ==> tokens[at as int].tag == Lexeme::Word(word)
            &&& dir matches Some(word) ==> tokens[dir_pos as int].tag == Lexeme::Word(word)
            &&& tokens[type_pos as int].tag == list[0]
            &&& type_pos + list.len() == at + (optional_tag(proto) + optional_tag(dir) + list).len()
            &&& forall|k: int|
                0 <= k < list.len() ==> parser::tag_at(tokens, (type_pos + k) as nat)
                    == #[trigger] list[k]
        }),
{
    let all = optional_tag(proto) + optional_tag(dir) + list;
    let dir_at = optional_tag(proto).len() as int;
    let type_at = dir_at + optional_tag(dir).len();
    if proto is Some {
        assert(all[0] == Lexeme::Word(proto->0));
    }
    if dir is Some {
        assert(all[dir_at] == Lexeme::Word(dir->0));
    }
    assert forall|k: int| 0 <= k < list.len() implies tokens[at + type_at + k].tag
        == #[trigger] list[k] by {
        assert(all[type_at + k] == list[k]);
    }
    assert(tokens[at + type_at + 0].tag == list[0]);
}

/// A primitive is read from its parts.
proof fn lemma_read_primitive(tokens: Seq<Lexed>, at: nat, p: Primitive, end: nat)
    requires
        parser::proto_at(tokens, at) == p.proto,
        parser::dir_at(tokens, parser::after(at, p.proto is Some)) == p.dir,
        read_as(
            tokens,
            parser::after(parser::after(at, p.proto is Some), p.dir is Some),
            parser::offset_at(tokens, at).start,
            p.ty,
            end,
        ),
    ensures
        parser::primitive_at(tokens, at) matches Ok((q, e)) && {
            &&& q.proto == p.proto
            &&& q.dir == p.dir
            &&& q.ty == p.ty
            &&& e == end
        },
{
    reveal(read_as);
}

/// The optional keywords of a primitive are read, and no others.
proof fn lemma_keyword_positions(
    tokens: Seq<Lexed>,
    p: Primitive,
    at: nat,
    dir_pos: nat,
    type_pos: nat,
)
    requires
        type_pos < tokens.len(),
        dir_pos == parser::after(at, p.proto is Some),
        type_pos == parser::after(dir_pos, p.dir is Some),
        p.proto matches Some(tag) ==> tokens[at as int].tag == Lexeme::Word(proto_word(tag)),
        p.dir matches Some(tag) ==> tokens[dir_pos as int].tag == Lexeme::Word(dir_word(tag)),
        tokens[type_pos as int].tag == type_tags(p.ty)[0],
    ensures
        parser::proto_at(tokens, at) == p.proto,
        parser::dir_at(tokens, dir_pos) == p.dir,
        tokens[at as int].tag is Word,
        tokens[at as int].tag != Lexeme::Word("not"@),
{
    lemma_keywords();
}

/// A primitive reads back from its text.
pub proof fn primitives_read_back(p: Primitive)
    requires
        p.ty.prefix_fits(),
        p.ty.bounds_ordered(),
    ensures
        grouping::ast_of(written(p)) matches Ok(Expr::Primitive(q)) && {
            &&& q.proto == p.proto
            &&& q.dir == p.dir
            &&& q.ty == p.ty
        },
{
    lemma_primitive_tags(p);
    texts_are_read_piece_by_piece(primitive_pieces(p));
    let tokens = lexer::lexed(written(p))->Ok_0;
    let all = tags(tokens);
    assert(all.len() == tokens.len());
    assert(all == primitive_tags(p).push(Lexeme::Eof));
    assert forall|k: int| 0 <= k < all.len() implies #[trigger] all[k] == tokens[k].tag by {}
    assert forall|k: int| 0 <= k < primitive_tags(p).len() implies tokens[0 + k].tag
        == #[trigger] primitive_tags(p)[k] by {
        assert(all[k] == primitive_tags(p)[k]);
    }
    assert(all[tokens.len() - 1] == Lexeme::Eof);
    lemma_primitive_at(tokens, 0, p);
    let (q, end) = parser::primitive_at(tokens, 0)->Ok_0;
    grouping::parsing_a_primitive(tokens, q, end);
    reveal(grouping::ast_of);
}

/// The keywords are these and no others, letter for letter.
pub proof fn keywords_are_only_these(word: Seq<char>)
    ensures
        parser::proto_keyword(word) matches Some(tag) ==> word == proto_word(tag),
        parser::proto_keyword(word) is None ==> forall|tag: ProtoTag|
            word != #[trigger] proto_word(tag),
        parser::dir_keyword(word) matches Some(tag) ==> word == dir_word(tag),
        parser::dir_keyword(word) is None ==> forall|tag: DirTag| word != #[trigger] dir_word(tag),
{
    lemma_keywords();
}

/// What a primitive matches on starts with one of four keywords, letter for letter.
pub proof fn types_start_with_their_keywords(tokens: Seq<Lexed>, at: nat, start: usize)
    ensures
        parser::type_at(tokens, at, start) matches Ok((ty, _)) ==> parser::tag_at(tokens, at)
            == Lexeme::Word(
            match ty {
                PrimType::Host(_) => "host"@,
                PrimType::Net(_, _) => "net"@,
                PrimType::Port(_) => "port"@,
                PrimType::PortRange(_, _) => "portrange"@,
            },
        ),
{
}

} // verus!
