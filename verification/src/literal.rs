//! Number and address literals.

use crate::ast::AddrLit;
use crate::error::{CompileError, ErrorTag, Failure, Offset, Reason};
use crate::text::{self, is_digit, to_chars};
use core::ops::Range;
use vstd::prelude::*;
use vstd::string::*;

verus! {

// ---------------------------------------------------------------------------------------------
// What literals stand for
// ---------------------------------------------------------------------------------------------

/// The value of a run of decimal digits.
pub open spec fn digits_value(digits: Seq<char>) -> nat
    decreases digits.len(),
{
    if digits.len() == 0 {
        0
    } else {
        (digits_value(digits.drop_last()) * 10 + (digits.last() as int - '0' as int)) as nat
    }
}

/// The digits of a decimal number: what follows an optional `+`.
pub open spec fn unsigned(text: Seq<char>) -> Seq<char> {
    if text.len() > 0 && text[0] == '+' {
        text.drop_first()
    } else {
        text
    }
}

/// The value of a decimal number of at most `max`: one or more digits after an optional `+`.
pub open spec fn decimal(text: Seq<char>, max: nat) -> Option<nat> {
    let digits = unsigned(text);
    if digits.len() > 0 && (forall|i: int| 0 <= i < digits.len() ==> text::digit(digits[i]))
        && digits_value(digits) <= max {
        Some(digits_value(digits))
    } else {
        None
    }
}

/// The pieces of a text between the occurrences of `sep`. There is one more piece than there are
/// occurrences.
pub open spec fn split(text: Seq<char>, sep: char) -> Seq<Seq<char>>
    decreases text.len(),
{
    if text.len() == 0 {
        seq![seq![]]
    } else {
        let pieces = split(text.drop_last(), sep);
        if text.last() == sep {
            pieces.push(seq![])
        } else {
            pieces.drop_last().push(pieces.last().push(text.last()))
        }
    }
}

/// The IPv4 address of four dot-separated decimal octets.
pub open spec fn ipv4(text: Seq<char>) -> Option<u32> {
    let octets = split(text, '.');
    if octets.len() == 4 && (forall|i: int| 0 <= i < 4 ==> decimal(#[trigger] octets[i], 255) is Some) {
        Some(
            (decimal(octets[0], 255)->0 * 0x100_0000 + decimal(octets[1], 255)->0 * 0x1_0000
                + decimal(octets[2], 255)->0 * 0x100 + decimal(octets[3], 255)->0) as u32,
        )
    } else {
        None
    }
}

/// The value of a hexadecimal digit.
pub open spec fn hex_digit(c: char) -> Option<nat> {
    if '0' <= c <= '9' {
        Some((c as int - '0' as int) as nat)
    } else if 'a' <= c <= 'f' {
        Some((c as int - 'a' as int + 10) as nat)
    } else if 'A' <= c <= 'F' {
        Some((c as int - 'A' as int + 10) as nat)
    } else {
        None
    }
}

/// The value of a run of hexadecimal digits.
pub open spec fn hex_value(digits: Seq<char>) -> Option<nat>
    decreases digits.len(),
{
    if digits.len() == 0 {
        Some(0)
    } else {
        match (hex_value(digits.drop_last()), hex_digit(digits.last())) {
            (Some(high), Some(low)) => Some(high * 16 + low),
            _ => None,
        }
    }
}

/// The value of one group of an IPv6 address: one to four hexadecimal digits.
pub open spec fn hex_group(text: Seq<char>) -> Option<nat> {
    if 1 <= text.len() <= 4 {
        hex_value(text)
    } else {
        None
    }
}

/// The values of the first `n` pieces as groups of an IPv6 address.
pub open spec fn hex_groups(pieces: Seq<Seq<char>>, n: nat) -> Option<Seq<nat>>
    decreases n,
{
    if n == 0 {
        Some(seq![])
    } else {
        match (hex_groups(pieces, (n - 1) as nat), hex_group(pieces[n - 1])) {
            (Some(groups), Some(group)) => Some(groups.push(group)),
            _ => None,
        }
    }
}

/// The groups of a part of an IPv6 address: none in an empty part, else those that colons separate.
/// Where `dotted` allows it, the last may be an IPv4 address, which makes two groups.
pub open spec fn groups_of(part: Seq<char>, dotted: bool) -> Option<Seq<nat>> {
    let pieces = split(part, ':');
    let last = (pieces.len() - 1) as nat;
    if part.len() == 0 {
        Some(seq![])
    } else {
        match hex_groups(pieces, last) {
            None => None,
            Some(groups) => match hex_group(pieces[last as int]) {
                Some(group) => Some(groups.push(group)),
                None => match ipv4(pieces[last as int]) {
                    Some(addr) if dotted => Some(
                        groups.push((addr / 0x1_0000) as nat).push((addr % 0x1_0000) as nat),
                    ),
                    _ => None,
                },
            },
        }
    }
}

/// The number that 16-bit groups make, the most significant first.
pub open spec fn groups_value(groups: Seq<nat>) -> nat
    decreases groups.len(),
{
    if groups.len() == 0 {
        0
    } else {
        groups_value(groups.drop_last()) * 0x1_0000 + groups.last()
    }
}

/// Where the first `::` at or after character `i` is, if there is one.
pub open spec fn gap_from(text: Seq<char>, i: nat) -> Option<nat>
    decreases text.len() - i,
{
    if i + 2 > text.len() {
        None
    } else if text[i as int] == ':' && text[i as int + 1] == ':' {
        Some(i)
    } else {
        gap_from(text, i + 1)
    }
}

/// `n` groups of zero.
pub open spec fn zeros(n: nat) -> Seq<nat> {
    Seq::new(n, |i: int| 0)
}

/// The IPv6 address that a text stands for: eight groups, or fewer with one `::` that stands for the
/// missing ones, at least one. The last two may be written as an IPv4 address.
pub open spec fn ipv6(text: Seq<char>) -> Option<u128> {
    match gap_from(text, 0) {
        Some(at) => match (
            groups_of(text.take(at as int), false),
            groups_of(text.skip(at as int + 2), true),
        ) {
            (Some(head), Some(tail)) if head.len() + tail.len() <= 7 => Some(
                groups_value(head + zeros((8 - head.len() - tail.len()) as nat) + tail) as u128,
            ),
            _ => None,
        },
        None => match groups_of(text, true) {
            Some(groups) if groups.len() == 8 => Some(groups_value(groups) as u128),
            _ => None,
        },
    }
}

/// Where `c` first occurs in `text` at or after position `i`; the text's length if it does not.
pub open spec fn find_from(text: Seq<char>, c: char, i: nat) -> nat
    decreases text.len() - i,
{
    if i >= text.len() {
        text.len()
    } else if text[i as int] == c {
        i
    } else {
        find_from(text, c, i + 1)
    }
}

/// The failure of a literal that is no IPv4 address or network.
pub open spec fn bad_ipv4(text: Seq<char>, offset: Range<usize>) -> Failure {
    Failure { offset, reason: Reason::InvalidIPv4Literal(text) }
}

/// The failure of a literal with a colon that is no IPv6 address or network.
pub open spec fn bad_ipv6(offset: Range<usize>) -> Failure {
    Failure { offset, reason: Reason::Unimplemented("this form of IPv6 address literal"@) }
}

/// The address and prefix length of a literal: an address and, where `allow_prefix` permits one, an
/// optional `/` and a prefix length of at most the address's length. A literal with a colon is an
/// IPv6 one, any other an IPv4 one.
pub open spec fn addr_literal(text: Seq<char>, offset: Range<usize>, allow_prefix: bool) -> Result<
    (AddrLit, Option<u8>),
    Failure,
> {
    let slash = find_from(text, '/', 0);
    let v6 = text.contains(':');
    let failure = if v6 {
        bad_ipv6(offset)
    } else {
        bad_ipv4(text, offset)
    };
    let addr = if v6 {
        match ipv6(text.take(slash as int)) {
            Some(value) => Some(AddrLit::V6(value)),
            None => None,
        }
    } else {
        match ipv4(text.take(slash as int)) {
            Some(value) => Some(AddrLit::V4(value)),
            None => None,
        }
    };
    match addr {
        None => Err(failure),
        Some(addr) => if slash == text.len() {
            Ok((addr, None))
        } else if allow_prefix {
            match decimal(
                text.skip(slash as int + 1),
                if v6 {
                    128
                } else {
                    32
                },
            ) {
                Some(bits) => Ok((addr, Some(bits as u8))),
                None => Err(failure),
            }
        } else {
            Err(failure)
        },
    }
}

/// The port that a literal stands for.
pub open spec fn port_literal(text: Seq<char>, offset: Range<usize>) -> Result<u16, Failure> {
    match decimal(text, 65535) {
        Some(port) => Ok(port as u16),
        None => Err(Failure { offset, reason: Reason::InvalidPortNumber(text) }),
    }
}

// ---------------------------------------------------------------------------------------------
// Reading them
// ---------------------------------------------------------------------------------------------

/// Parses a decimal number of at most `max`.
fn parse_decimal(chars: &Vec<char>, max: u16) -> (result: Option<u16>)
    ensures
        match result {
            Some(value) => decimal(chars@, max as nat) == Some(value as nat),
            None => decimal(chars@, max as nat) is None,
        },
{
    let start: usize = if chars.len() > 0 && chars[0] == '+' {
        1
    } else {
        0
    };
    let ghost digits = unsigned(chars@);
    let mut value: u32 = 0;
    let mut i: usize = start;
    while i < chars.len()
        invariant
            start <= i <= chars@.len(),
            digits == unsigned(chars@),
            digits == chars@.skip(start as int),
            value == digits_value(digits.take(i - start)),
            value <= max,
            forall|j: int| 0 <= j < i - start ==> text::digit(digits[j]),
        decreases chars@.len() - i,
    {
        let c: char = chars[i];
        assert(digits[i - start] == c);
        if !is_digit(c) {
            return None;
        }
        assert(digits.take(i - start + 1).drop_last() =~= digits.take(i - start));
        value = value * 10 + (c as u32 - '0' as u32);
        i = i + 1;
        if value > max as u32 {
            proof {
                if forall|j: int| 0 <= j < digits.len() ==> text::digit(digits[j]) {
                    lemma_digits_value_grows(digits, (i - start) as nat);
                }
            }
            return None;
        }
    }
    assert(digits.take(i - start) =~= digits);
    if i == start {
        None
    } else {
        Some(value as u16)
    }
}

/// More digits make no smaller a number.
proof fn lemma_digits_value_grows(digits: Seq<char>, n: nat)
    requires
        n <= digits.len(),
        forall|i: int| 0 <= i < digits.len() ==> text::digit(digits[i]),
    ensures
        digits_value(digits.take(n as int)) <= digits_value(digits),
    decreases digits.len(),
{
    if n == digits.len() {
        assert(digits.take(n as int) =~= digits);
    } else {
        assert(digits.drop_last().take(n as int) =~= digits.take(n as int));
        lemma_digits_value_grows(digits.drop_last(), n);
    }
}

/// The values of a sequence of pieces.
spec fn pieces_of(pieces: Seq<Vec<char>>) -> Seq<Seq<char>> {
    pieces.map_values(|piece: Vec<char>| piece@)
}

/// Splits a text at every occurrence of `sep`.
fn split_at(chars: &Vec<char>, sep: char) -> (pieces: Vec<Vec<char>>)
    ensures
        pieces_of(pieces@) == split(chars@, sep),
        pieces@.len() > 0,
{
    let mut pieces: Vec<Vec<char>> = Vec::new();
    let mut piece: Vec<char> = Vec::new();
    let mut i: usize = 0;
    while i < chars.len()
        invariant
            i <= chars@.len(),
            pieces_of(pieces@).push(piece@) == split(chars@.take(i as int), sep),
        decreases chars@.len() - i,
    {
        assert(chars@.take(i + 1).drop_last() =~= chars@.take(i as int));
        let c: char = chars[i];
        if c == sep {
            pieces.push(piece);
            piece = Vec::new();
        } else {
            piece.push(c);
        }
        i = i + 1;
    }
    assert(chars@.take(i as int) =~= chars@);
    pieces.push(piece);
    pieces
}

/// The characters from `from` up to `to`.
fn part_of(chars: &Vec<char>, from: usize, to: usize) -> (part: Vec<char>)
    requires
        from <= to <= chars@.len(),
    ensures
        part@ == chars@.subrange(from as int, to as int),
{
    let mut part: Vec<char> = Vec::new();
    let mut i: usize = from;
    while i < to
        invariant
            from <= i <= to <= chars@.len(),
            part@ == chars@.subrange(from as int, i as int),
        decreases to - i,
    {
        part.push(chars[i]);
        i = i + 1;
    }
    part
}

/// Parses exactly four dot-separated decimal octets.
pub fn parse_ipv4_octets(text: &str) -> (addr: Option<u32>)
    ensures
        addr == ipv4(text@),
{
    parse_ipv4(&to_chars(text))
}

/// Parses exactly four dot-separated decimal octets.
fn parse_ipv4(chars: &Vec<char>) -> (addr: Option<u32>)
    ensures
        addr == ipv4(chars@),
{
    let pieces: Vec<Vec<char>> = split_at(chars, '.');
    if pieces.len() != 4 {
        return None;
    }
    match (
        parse_decimal(&pieces[0], 255),
        parse_decimal(&pieces[1], 255),
        parse_decimal(&pieces[2], 255),
        parse_decimal(&pieces[3], 255),
    ) {
        (Some(a), Some(b), Some(c), Some(d)) => {
            Some(a as u32 * 0x100_0000 + b as u32 * 0x1_0000 + c as u32 * 0x100 + d as u32)
        },
        _ => None,
    }
}

/// The value of a hexadecimal digit.
fn hex_digit_of(c: char) -> (value: Option<u16>)
    ensures
        match value {
            Some(v) => hex_digit(c) == Some(v as nat) && v < 16,
            None => hex_digit(c) is None,
        },
{
    if '0' <= c && c <= '9' {
        Some((c as u32 - '0' as u32) as u16)
    } else if 'a' <= c && c <= 'f' {
        Some((c as u32 - 'a' as u32 + 10) as u16)
    } else if 'A' <= c && c <= 'F' {
        Some((c as u32 - 'A' as u32 + 10) as u16)
    } else {
        None
    }
}

/// Parses one group of an IPv6 address.
fn parse_hex_group(chars: &Vec<char>) -> (value: Option<u16>)
    ensures
        match value {
            Some(v) => hex_group(chars@) == Some(v as nat),
            None => hex_group(chars@) is None,
        },
{
    if chars.len() == 0 || chars.len() > 4 {
        return None;
    }
    let mut value: u32 = 0;
    let mut i: usize = 0;
    while i < chars.len()
        invariant
            i <= chars@.len() <= 4,
            hex_value(chars@.take(i as int)) == Some(value as nat),
            i == 0 ==> value < 1,
            i == 1 ==> value < 0x10,
            i == 2 ==> value < 0x100,
            i == 3 ==> value < 0x1000,
            i == 4 ==> value < 0x1_0000,
        decreases chars@.len() - i,
    {
        assert(chars@.take(i + 1).drop_last() =~= chars@.take(i as int));
        match hex_digit_of(chars[i]) {
            Some(digit) => {
                value = value * 16 + digit as u32;
            },
            None => {
                proof {
                    lemma_no_hex_value(chars@, (i + 1) as nat);
                }
                return None;
            },
        }
        i = i + 1;
    }
    assert(chars@.take(i as int) =~= chars@);
    Some(value as u16)
}

/// A run that starts with no hexadecimal number is none.
proof fn lemma_no_hex_value(digits: Seq<char>, n: nat)
    requires
        n <= digits.len(),
        hex_value(digits.take(n as int)) is None,
    ensures
        hex_value(digits) is None,
    decreases digits.len(),
{
    if n == digits.len() {
        assert(digits.take(n as int) =~= digits);
    } else {
        assert(digits.drop_last().take(n as int) =~= digits.take(n as int));
        lemma_no_hex_value(digits.drop_last(), n);
    }
}

/// The values of executable groups.
spec fn group_values(groups: Seq<u16>) -> Seq<nat> {
    groups.map_values(|group: u16| group as nat)
}

/// Parses the groups of a part of an IPv6 address.
fn parse_groups(part: &Vec<char>, dotted: bool) -> (result: Option<Vec<u16>>)
    ensures
        match result {
            Some(groups) => groups_of(part@, dotted) == Some(group_values(groups@)),
            None => groups_of(part@, dotted) is None,
        },
{
    let mut groups: Vec<u16> = Vec::new();
    if part.len() == 0 {
        return Some(groups);
    }
    let pieces: Vec<Vec<char>> = split_at(part, ':');
    let ghost texts = split(part@, ':');
    let last: usize = pieces.len() - 1;
    let mut i: usize = 0;
    while i < last
        invariant
            i <= last < pieces@.len(),
            part@.len() > 0,
            texts == split(part@, ':'),
            texts == pieces_of(pieces@),
            last == texts.len() - 1,
            hex_groups(texts, i as nat) == Some(group_values(groups@)),
        decreases last - i,
    {
        match parse_hex_group(&pieces[i]) {
            Some(group) => {
                groups.push(group);
            },
            None => {
                proof {
                    lemma_no_hex_groups(texts, (i + 1) as nat, last as nat);
                }
                return None;
            },
        }
        i = i + 1;
    }
    match parse_hex_group(&pieces[last]) {
        Some(group) => {
            groups.push(group);
            Some(groups)
        },
        None => {
            if !dotted {
                return None;
            }
            match parse_ipv4(&pieces[last]) {
                Some(addr) => {
                    let high: u16 = (addr / 0x1_0000) as u16;
                    let low: u16 = (addr % 0x1_0000) as u16;
                    groups.push(high);
                    groups.push(low);
                    Some(groups)
                },
                None => None,
            }
        },
    }
}

/// Pieces that start with something else than groups are no groups.
proof fn lemma_no_hex_groups(pieces: Seq<Seq<char>>, m: nat, n: nat)
    requires
        m <= n,
        hex_groups(pieces, m) is None,
    ensures
        hex_groups(pieces, n) is None,
    decreases n - m,
{
    if m < n {
        lemma_no_hex_groups(pieces, m, (n - 1) as nat);
    }
}

/// One more than the largest number that `n` groups make.
spec fn group_limit(n: nat) -> nat
    decreases n,
{
    if n == 0 {
        1
    } else {
        group_limit((n - 1) as nat) * 0x1_0000
    }
}

/// The number that groups make is below their limit.
proof fn lemma_groups_value_bounded(groups: Seq<nat>)
    requires
        forall|i: int| 0 <= i < groups.len() ==> groups[i] < 0x1_0000,
    ensures
        groups_value(groups) < group_limit(groups.len()),
    decreases groups.len(),
{
    if groups.len() > 0 {
        lemma_groups_value_bounded(groups.drop_last());
    }
}

/// The number that at most eight groups make.
fn value_of(groups: &Vec<u16>) -> (value: u128)
    requires
        groups@.len() <= 8,
    ensures
        value == groups_value(group_values(groups@)),
{
    let ghost values = group_values(groups@);
    let mut value: u128 = 0;
    let mut i: usize = 0;
    while i < groups.len()
        invariant
            i <= groups@.len() <= 8,
            values == group_values(groups@),
            value == groups_value(values.take(i as int)),
        decreases groups@.len() - i,
    {
        proof {
            assert(values.take(i + 1).drop_last() =~= values.take(i as int));
            lemma_groups_value_bounded(values.take(i + 1));
            lemma_group_limit((i + 1) as nat);
        }
        value = value * 0x1_0000 + groups[i] as u128;
        i = i + 1;
    }
    assert(values.take(i as int) =~= values);
    value
}

/// Eight groups make 128 bits.
proof fn lemma_group_limit(n: nat)
    requires
        n <= 8,
    ensures
        group_limit(n) <= 0x1_0000_0000_0000_0000_0000_0000_0000_0000,
{
    reveal_with_fuel(group_limit, 9);
}

/// Parses an IPv6 address.
fn parse_ipv6(chars: &Vec<char>) -> (addr: Option<u128>)
    ensures
        addr == ipv6(chars@),
{
    let len: usize = chars.len();
    let mut at: usize = 0;
    while at < len && len - at >= 2 && !(chars[at] == ':' && chars[at + 1] == ':')
        invariant
            at <= len == chars@.len(),
            gap_from(chars@, 0) == gap_from(chars@, at as nat),
        decreases len - at,
    {
        at = at + 1;
    }
    if len - at < 2 {
        match parse_groups(chars, true) {
            Some(groups) => {
                if groups.len() == 8 {
                    Some(value_of(&groups))
                } else {
                    None
                }
            },
            None => None,
        }
    } else {
        let before: Vec<char> = part_of(chars, 0, at);
        let after: Vec<char> = part_of(chars, at + 2, len);
        let head: Vec<u16> = match parse_groups(&before, false) {
            Some(groups) => groups,
            None => {
                return None;
            },
        };
        let tail: Vec<u16> = match parse_groups(&after, true) {
            Some(groups) => groups,
            None => {
                return None;
            },
        };
        if head.len() > 7 || tail.len() > 7 - head.len() {
            return None;
        }
        let ghost front = head@;
        let mut groups: Vec<u16> = head;
        let fill: usize = 8 - tail.len();
        while groups.len() < fill
            invariant
                front.len() <= groups@.len() <= fill,
                group_values(groups@) == group_values(front) + zeros(
                    (groups@.len() - front.len()) as nat,
                ),
            decreases fill - groups@.len(),
        {
            let ghost before = group_values(groups@);
            groups.push(0);
            assert(group_values(groups@) =~= before.push(0));
        }
        let ghost filled = groups@;
        let mut i: usize = 0;
        while i < tail.len()
            invariant
                i <= tail@.len() <= 7,
                filled.len() + tail@.len() == 8,
                groups@ == filled + tail@.take(i as int),
            decreases tail@.len() - i,
        {
            groups.push(tail[i]);
            i = i + 1;
        }
        assert(group_values(groups@) =~= group_values(filled) + group_values(tail@));
        Some(value_of(&groups))
    }
}

/// Parses an address literal. A prefix length may follow only where `allow_prefix` says so, as for
/// `net`.
pub fn parse_addr_literal(text: &str, offset: Offset, allow_prefix: bool) -> (result: Result<
    (AddrLit, Option<u8>),
    CompileError,
>)
    ensures
        match result {
            Ok(literal) => addr_literal(text@, offset, allow_prefix) == Ok::<
                (AddrLit, Option<u8>),
                Failure,
            >(literal),
            Err(error) => addr_literal(text@, offset, allow_prefix) == Err::<
                (AddrLit, Option<u8>),
                Failure,
            >(error@),
        },
{
    let chars: Vec<char> = to_chars(text);
    let len: usize = chars.len();
    let colon: usize = position(&chars, ':');
    let slash: usize = position(&chars, '/');
    let v6: bool = colon < len;
    proof {
        lemma_find(chars@, ':', 0);
        lemma_find(chars@, '/', 0);
    }
    let address: Vec<char> = part_of(&chars, 0, slash);
    let addr: Option<AddrLit> = if v6 {
        match parse_ipv6(&address) {
            Some(value) => Some(AddrLit::V6(value)),
            None => None,
        }
    } else {
        match parse_ipv4(&address) {
            Some(value) => Some(AddrLit::V4(value)),
            None => None,
        }
    };
    let failure: ErrorTag = if v6 {
        ErrorTag::Unimplemented("this form of IPv6 address literal")
    } else {
        ErrorTag::InvalidIPv4Literal(text.to_owned())
    };
    match addr {
        None => Err(CompileError::new(offset, failure)),
        Some(addr) => {
            if slash == len {
                return Ok((addr, None));
            }
            if !allow_prefix {
                return Err(CompileError::new(offset, failure));
            }
            let prefix: Vec<char> = part_of(&chars, slash + 1, len);
            match parse_decimal(
                &prefix,
                if v6 {
                    128
                } else {
                    32
                },
            ) {
                Some(bits) => Ok((addr, Some(bits as u8))),
                None => Err(CompileError::new(offset, failure)),
            }
        },
    }
}

/// Where `c` first occurs; the length if it does not.
fn position(chars: &Vec<char>, c: char) -> (at: usize)
    ensures
        at == find_from(chars@, c, 0),
        at <= chars@.len(),
{
    let mut at: usize = 0;
    while at < chars.len() && chars[at] != c
        invariant
            at <= chars@.len(),
            find_from(chars@, c, 0) == find_from(chars@, c, at as nat),
        decreases chars@.len() - at,
    {
        at = at + 1;
    }
    at
}

/// The first occurrence is one, and nothing before it is.
pub proof fn lemma_find(text: Seq<char>, c: char, i: nat)
    requires
        i <= text.len(),
    ensures
        i <= find_from(text, c, i) <= text.len(),
        forall|j: int| i <= j < find_from(text, c, i) ==> text[j] != c,
        find_from(text, c, i) < text.len() ==> text[find_from(text, c, i) as int] == c,
    decreases text.len() - i,
{
    if i < text.len() && text[i as int] != c {
        lemma_find(text, c, i + 1);
    }
}

/// Parses a port number.
pub fn parse_port(text: &str, offset: Offset) -> (result: Result<u16, CompileError>)
    ensures
        match result {
            Ok(port) => port_literal(text@, offset) == Ok::<u16, Failure>(port),
            Err(error) => port_literal(text@, offset) == Err::<u16, Failure>(error@),
        },
{
    match parse_decimal(&to_chars(text), 65535) {
        Some(port) => Ok(port),
        None => Err(CompileError::new(offset, ErrorTag::InvalidPortNumber(text.to_owned()))),
    }
}

} // verus!
