//! Error types shared by every compilation stage.

use crate::render::{self, push_decimal, push_repeated};
use core::ops::Range;
use vstd::prelude::*;
use vstd::string::*;

verus! {

/// A byte-offset range into the source string passed to [`crate::compile`].
pub type Offset = Range<usize>;

/// The specific reason a compilation failed.
///
/// `non_exhaustive` because later grammar constructs will need new variants.
#[non_exhaustive]
#[derive(Debug, PartialEq, Eq)]
pub enum ErrorTag {
    /// The lexer found a character it doesn't know how to start a token with.
    UnexpectedChar(char),
    /// The parser expected one of a specific set of tokens but found something else.
    UnexpectedToken { expected: &'static str, found: String },
    /// The parser ran out of tokens while still expecting more input.
    UnexpectedEof { expected: &'static str },
    /// A word token isn't a keyword the grammar recognizes in this position.
    UnknownKeyword(String),
    /// Text that was expected to be an IPv4 address or CIDR literal didn't parse as one.
    InvalidIPv4Literal(String),
    /// Text that was expected to be a port number didn't parse as one, or is out of range.
    InvalidPortNumber(String),
    /// A `portrange` primitive had `lo > hi`.
    InvalidPortRange { lo: u32, hi: u32 },
    /// A `(` was never closed, or a `)` had no matching `(`.
    UnbalancedParens,
    /// The source was empty or contained only whitespace.
    EmptyExpression,
    /// A `jt`/`jf` displacement didn't fit in the 8-bit field that a conditional jump has.
    ///
    /// This is a limit of the instruction set: an expression that joins very many primitives can
    /// legitimately exceed it.
    JumpDisplacementOverflow { inst_index: usize, displacement: u32 },
    /// The [`crate::LinkType`] has no support yet.
    UnsupportedLinkType,
    /// The construct was recognized but is not implemented yet.
    Unimplemented(&'static str),
    /// A syntactically valid `proto`/`type` pairing that doesn't mean anything, such as
    /// `arp port 80`: ARP has no notion of a port.
    InvalidPrimitiveCombination(&'static str),
}

/// A compilation failure, with the source offset it applies to.
#[derive(Debug, PartialEq, Eq)]
pub struct CompileError {
    pub offset: Offset,
    pub tag: ErrorTag,
}

/// The mathematical value of an [`ErrorTag`]: its texts are character sequences.
pub enum Reason {
    UnexpectedChar(char),
    UnexpectedToken { expected: Seq<char>, found: Seq<char> },
    UnexpectedEof { expected: Seq<char> },
    UnknownKeyword(Seq<char>),
    InvalidIPv4Literal(Seq<char>),
    InvalidPortNumber(Seq<char>),
    InvalidPortRange { lo: u32, hi: u32 },
    UnbalancedParens,
    EmptyExpression,
    JumpDisplacementOverflow { inst_index: nat, displacement: u32 },
    UnsupportedLinkType,
    Unimplemented(Seq<char>),
    InvalidPrimitiveCombination(Seq<char>),
}

/// The mathematical value of a [`CompileError`].
pub struct Failure {
    pub offset: Range<usize>,
    pub reason: Reason,
}

impl View for ErrorTag {
    type V = Reason;

    open spec fn view(&self) -> Reason {
        match *self {
            ErrorTag::UnexpectedChar(c) => Reason::UnexpectedChar(c),
            ErrorTag::UnexpectedToken { expected, found } => Reason::UnexpectedToken {
                expected: expected@,
                found: found@,
            },
            ErrorTag::UnexpectedEof { expected } => Reason::UnexpectedEof { expected: expected@ },
            ErrorTag::UnknownKeyword(word) => Reason::UnknownKeyword(word@),
            ErrorTag::InvalidIPv4Literal(text) => Reason::InvalidIPv4Literal(text@),
            ErrorTag::InvalidPortNumber(text) => Reason::InvalidPortNumber(text@),
            ErrorTag::InvalidPortRange { lo, hi } => Reason::InvalidPortRange { lo, hi },
            ErrorTag::UnbalancedParens => Reason::UnbalancedParens,
            ErrorTag::EmptyExpression => Reason::EmptyExpression,
            ErrorTag::JumpDisplacementOverflow { inst_index, displacement } =>
                Reason::JumpDisplacementOverflow { inst_index: inst_index as nat, displacement },
            ErrorTag::UnsupportedLinkType => Reason::UnsupportedLinkType,
            ErrorTag::Unimplemented(what) => Reason::Unimplemented(what@),
            ErrorTag::InvalidPrimitiveCombination(msg) => Reason::InvalidPrimitiveCombination(msg@),
        }
    }
}

impl View for CompileError {
    type V = Failure;

    open spec fn view(&self) -> Failure {
        Failure { offset: self.offset, reason: self.tag@ }
    }
}

/// The message of a reason.
pub open spec fn message(reason: Reason) -> Seq<char> {
    match reason {
        Reason::UnexpectedChar(c) => "unexpected character '"@ + seq![c] + "'"@,
        Reason::UnexpectedToken { expected, found } => "expected "@ + expected + ", found '"@
            + found + "'"@,
        Reason::UnexpectedEof { expected } => "expected "@ + expected + ", found end of input"@,
        Reason::UnknownKeyword(word) => "unknown keyword '"@ + word + "'"@,
        Reason::InvalidIPv4Literal(text) => "'"@ + text
            + "' is not a valid IPv4 address or network"@,
        Reason::InvalidPortNumber(text) => "'"@ + text + "' is not a valid port number"@,
        Reason::InvalidPortRange { lo, hi } => "invalid port range "@ + render::decimal(lo as nat)
            + "-"@ + render::decimal(hi as nat) + ": lower bound exceeds upper bound"@,
        Reason::UnbalancedParens => "unbalanced parentheses"@,
        Reason::EmptyExpression => "empty filter expression"@,
        Reason::JumpDisplacementOverflow { inst_index, displacement } => "jump at instruction "@
            + render::decimal(inst_index) + " has displacement "@ + render::decimal(
            displacement as nat,
        )
            + ", which exceeds the 8-bit cBPF jt/jf limit of 255; split the expression into a smaller one"@,
        Reason::UnsupportedLinkType => "this link type has no support yet"@,
        Reason::Unimplemented(what) => what + " is not implemented yet"@,
        Reason::InvalidPrimitiveCombination(msg) => msg,
    }
}

/// The message of a failure, with the place it applies to.
pub open spec fn report(failure: Failure) -> Seq<char> {
    message(failure.reason) + " (at "@ + render::decimal(failure.offset.start as nat) + ".."@
        + render::decimal(failure.offset.end as nat) + ")"@
}

/// What to print below the source to point at a place in it: a caret per byte, at least one.
pub open spec fn carets(offset: Range<usize>) -> Seq<char> {
    render::repeated(' ', offset.start as nat) + render::repeated(
        '^',
        if offset.end > offset.start {
            (offset.end - offset.start) as nat
        } else {
            1
        },
    )
}

impl ErrorTag {
    /// The message of this reason.
    pub fn to_string(&self) -> (text: String)
        ensures
            text@ == message(self@),
    {
        let mut text: String = String::new();
        match self {
            ErrorTag::UnexpectedChar(c) => {
                text.append("unexpected character '");
                text.push(*c);
                text.append("'");
            },
            ErrorTag::UnexpectedToken { expected, found } => {
                text.append("expected ");
                text.append(expected);
                text.append(", found '");
                text.append(found.as_str());
                text.append("'");
            },
            ErrorTag::UnexpectedEof { expected } => {
                text.append("expected ");
                text.append(expected);
                text.append(", found end of input");
            },
            ErrorTag::UnknownKeyword(word) => {
                text.append("unknown keyword '");
                text.append(word.as_str());
                text.append("'");
            },
            ErrorTag::InvalidIPv4Literal(literal) => {
                text.append("'");
                text.append(literal.as_str());
                text.append("' is not a valid IPv4 address or network");
            },
            ErrorTag::InvalidPortNumber(literal) => {
                text.append("'");
                text.append(literal.as_str());
                text.append("' is not a valid port number");
            },
            ErrorTag::InvalidPortRange { lo, hi } => {
                text.append("invalid port range ");
                push_decimal(&mut text, *lo as u128);
                text.append("-");
                push_decimal(&mut text, *hi as u128);
                text.append(": lower bound exceeds upper bound");
            },
            ErrorTag::UnbalancedParens => {
                text.append("unbalanced parentheses");
            },
            ErrorTag::EmptyExpression => {
                text.append("empty filter expression");
            },
            ErrorTag::JumpDisplacementOverflow { inst_index, displacement } => {
                text.append("jump at instruction ");
                push_decimal(&mut text, *inst_index as u128);
                text.append(" has displacement ");
                push_decimal(&mut text, *displacement as u128);
                text.append(
                    ", which exceeds the 8-bit cBPF jt/jf limit of 255; split the expression into a smaller one",
                );
            },
            ErrorTag::UnsupportedLinkType => {
                text.append("this link type has no support yet");
            },
            ErrorTag::Unimplemented(what) => {
                text.append(what);
                text.append(" is not implemented yet");
            },
            ErrorTag::InvalidPrimitiveCombination(msg) => {
                text.append(msg);
            },
        }
        text
    }
}

impl Clone for ErrorTag {
    fn clone(&self) -> (copy: ErrorTag)
        ensures
            copy@ == self@,
    {
        match self {
            ErrorTag::UnexpectedChar(c) => ErrorTag::UnexpectedChar(*c),
            ErrorTag::UnexpectedToken { expected, found } => ErrorTag::UnexpectedToken {
                expected: *expected,
                found: found.clone(),
            },
            ErrorTag::UnexpectedEof { expected } => ErrorTag::UnexpectedEof { expected: *expected },
            ErrorTag::UnknownKeyword(word) => ErrorTag::UnknownKeyword(word.clone()),
            ErrorTag::InvalidIPv4Literal(text) => ErrorTag::InvalidIPv4Literal(text.clone()),
            ErrorTag::InvalidPortNumber(text) => ErrorTag::InvalidPortNumber(text.clone()),
            ErrorTag::InvalidPortRange { lo, hi } => ErrorTag::InvalidPortRange {
                lo: *lo,
                hi: *hi,
            },
            ErrorTag::UnbalancedParens => ErrorTag::UnbalancedParens,
            ErrorTag::EmptyExpression => ErrorTag::EmptyExpression,
            ErrorTag::JumpDisplacementOverflow { inst_index, displacement } =>
                ErrorTag::JumpDisplacementOverflow {
                inst_index: *inst_index,
                displacement: *displacement,
            },
            ErrorTag::UnsupportedLinkType => ErrorTag::UnsupportedLinkType,
            ErrorTag::Unimplemented(what) => ErrorTag::Unimplemented(*what),
            ErrorTag::InvalidPrimitiveCombination(msg) => ErrorTag::InvalidPrimitiveCombination(
                *msg,
            ),
        }
    }
}

impl Clone for CompileError {
    fn clone(&self) -> (copy: CompileError)
        ensures
            copy@ == self@,
    {
        CompileError { offset: copy_offset(&self.offset), tag: self.tag.clone() }
    }
}

impl CompileError {
    /// The failure `tag` at `offset`.
    pub fn new(offset: Offset, tag: ErrorTag) -> (error: CompileError)
        ensures
            error.offset == offset,
            error.tag == tag,
    {
        CompileError { offset, tag }
    }

    /// The message of this failure, with the place it applies to.
    pub fn to_string(&self) -> (text: String)
        ensures
            text@ == report(self@),
    {
        let mut text: String = self.tag.to_string();
        text.append(" (at ");
        push_decimal(&mut text, self.offset.start as u128);
        text.append("..");
        push_decimal(&mut text, self.offset.end as u128);
        text.append(")");
        text
    }

    /// What to print below the source to point at the place this failure applies to.
    pub fn underline(&self) -> (text: String)
        ensures
            text@ == carets(self.offset),
    {
        let mut text: String = String::new();
        push_repeated(&mut text, ' ', self.offset.start);
        let width: usize = if self.offset.end > self.offset.start {
            self.offset.end - self.offset.start
        } else {
            1
        };
        push_repeated(&mut text, '^', width);
        text
    }
}

/// Another range with the same bounds.
pub fn copy_offset(offset: &Offset) -> (copy: Offset)
    ensures
        copy == *offset,
{
    offset.start..offset.end
}

/// Carets stand below the bytes of a range: a blank for each byte before it, and a caret for each byte of
/// it or, if it is empty, one.
pub proof fn carets_stand_below_a_range(offset: Range<usize>)
    requires
        offset.start <= offset.end,
    ensures
        carets(offset).len() == if offset.start == offset.end {
            offset.start + 1
        } else {
            offset.end as int
        },
        forall|i: int| 0 <= i < offset.start ==> #[trigger] carets(offset)[i] == ' ',
        forall|i: int| offset.start <= i < carets(offset).len() ==> #[trigger] carets(offset)[i] == '^',
{
}

} // verus!
