//! Tokenizer: from source text to a flat stream of [`Token`]s, such as `[Word("tcp"), Word("port"),
//! Word("80"), Eof]` from `tcp port 80`.

use crate::error::{CompileError, ErrorTag, Failure, Offset, Reason};
use crate::text::{self, is_alphanumeric, is_whitespace, text_between, to_chars, utf8_width};
use core::ops::Range;
use vstd::prelude::*;
use vstd::string::*;
use vstd::utf8::*;

verus! {

/// A token and where it stands in the source.
#[derive(Debug, PartialEq, Eq)]
pub struct Token {
    pub tag: TokenTag,
    pub offset: Offset,
}

/// What a token is.
#[derive(Debug, PartialEq, Eq)]
pub enum TokenTag {
    /// A run of word characters. Keywords, numbers and address literals all come as this.
    Word(String),
    /// `-`, between the bounds of a port range.
    Dash,
    LParen,
    RParen,
    Eof,
}

/// The mathematical value of a [`TokenTag`].
pub enum Lexeme {
    Word(Seq<char>),
    Dash,
    LParen,
    RParen,
    Eof,
}

/// The mathematical value of a [`Token`].
pub struct Lexed {
    pub tag: Lexeme,
    pub offset: Range<usize>,
}

impl View for TokenTag {
    type V = Lexeme;

    open spec fn view(&self) -> Lexeme {
        match *self {
            TokenTag::Word(word) => Lexeme::Word(word@),
            TokenTag::Dash => Lexeme::Dash,
            TokenTag::LParen => Lexeme::LParen,
            TokenTag::RParen => Lexeme::RParen,
            TokenTag::Eof => Lexeme::Eof,
        }
    }
}

impl View for Token {
    type V = Lexed;

    open spec fn view(&self) -> Lexed {
        Lexed { tag: self.tag@, offset: self.offset }
    }
}

/// The values of a sequence of tokens.
pub open spec fn values(tokens: Seq<Token>) -> Seq<Lexed> {
    tokens.map_values(|token: Token| token@)
}

/// A character that words are made of.
pub open spec fn word_char(c: char) -> bool {
    text::alphanumeric(c) || c == '.' || c == ':' || c == '/'
}

/// Where the run of word characters from character `i` on ends.
pub open spec fn word_end(src: Seq<char>, i: nat) -> nat
    decreases src.len() - i,
{
    if i < src.len() && word_char(src[i as int]) {
        word_end(src, i + 1)
    } else {
        i
    }
}

/// The byte range of the characters from `i` up to `j`.
pub open spec fn bytes_of(src: Seq<char>, i: nat, j: nat) -> Range<usize> {
    Range { start: text::offset_of(src, i) as usize, end: text::offset_of(src, j) as usize }
}

/// The failure to start a token with character `i`. It covers the character's first byte.
pub open spec fn unexpected(src: Seq<char>, i: nat) -> Failure {
    let start = text::offset_of(src, i);
    Failure {
        offset: Range { start: start as usize, end: (start + 1) as usize },
        reason: Reason::UnexpectedChar(src[i as int]),
    }
}

/// The token that starts at character `i`, which is no white space, and the character after it.
pub open spec fn token_at(src: Seq<char>, i: nat) -> Result<(Lexeme, nat), Failure> {
    let c = src[i as int];
    let doubled = i + 1 < src.len() && src[i as int + 1] == c;
    if c == '(' {
        Ok((Lexeme::LParen, i + 1))
    } else if c == ')' {
        Ok((Lexeme::RParen, i + 1))
    } else if c == '-' {
        Ok((Lexeme::Dash, i + 1))
    } else if c == '!' {
        Ok((Lexeme::Word("not"@), i + 1))
    } else if c == '&' && doubled {
        Ok((Lexeme::Word("and"@), i + 2))
    } else if c == '|' && doubled {
        Ok((Lexeme::Word("or"@), i + 2))
    } else if word_char(c) {
        Ok((Lexeme::Word(src.subrange(i as int, word_end(src, i) as int)), word_end(src, i)))
    } else {
        Err(unexpected(src, i))
    }
}

/// `tokens` and then the tokens of `rest`.
pub open spec fn followed_by(tokens: Seq<Lexed>, rest: Result<Seq<Lexed>, Failure>) -> Result<
    Seq<Lexed>,
    Failure,
> {
    match rest {
        Ok(more) => Ok(tokens + more),
        Err(failure) => Err(failure),
    }
}

/// The tokens of the source from character `i` on, or the failure of the first character that starts
/// none. `Eof` comes last, at the end of the source.
pub open spec fn lexed_from(src: Seq<char>, i: nat) -> Result<Seq<Lexed>, Failure>
    decreases src.len() - i,
    via lexed_from_terminates
{
    if i >= src.len() {
        Ok(seq![Lexed { tag: Lexeme::Eof, offset: bytes_of(src, src.len(), src.len()) }])
    } else if text::whitespace(src[i as int]) {
        lexed_from(src, i + 1)
    } else {
        match token_at(src, i) {
            Ok((tag, end)) => followed_by(
                seq![Lexed { tag, offset: bytes_of(src, i, end) }],
                lexed_from(src, end),
            ),
            Err(failure) => Err(failure),
        }
    }
}

#[via_fn]
proof fn lexed_from_terminates(src: Seq<char>, i: nat) {
    if i < src.len() {
        lemma_word_end(src, i);
    }
}

/// Whether a token stream ends with `Eof`.
pub open spec fn ends_with_eof(tokens: Seq<Lexed>) -> bool {
    tokens.len() > 0 && tokens.last().tag is Eof
}

/// Whether a token stream ends with `Eof` and has it nowhere else.
pub open spec fn complete(tokens: Seq<Lexed>) -> bool {
    &&& ends_with_eof(tokens)
    &&& forall|i: int| 0 <= i < tokens.len() - 1 ==> (#[trigger] tokens[i]).tag !is Eof
}

/// The tokens of a source text.
pub open spec fn lexed(src: Seq<char>) -> Result<Seq<Lexed>, Failure> {
    lexed_from(src, 0)
}

/// A run of word characters ends after its last character, within the source.
pub proof fn lemma_word_end(src: Seq<char>, i: nat)
    requires
        i <= src.len(),
    ensures
        i <= word_end(src, i) <= src.len(),
        i < src.len() && word_char(src[i as int]) ==> i < word_end(src, i),
        forall|j: int| i <= j < word_end(src, i) ==> word_char(src[j]),
        word_end(src, i) < src.len() ==> !word_char(src[word_end(src, i) as int]),
    decreases src.len() - i,
{
    if i < src.len() && word_char(src[i as int]) {
        lemma_word_end(src, i + 1);
    }
}

/// Every token stream ends with `Eof`, and has it nowhere else.
pub proof fn lexed_is_complete(src: Seq<char>, i: nat)
    requires
        lexed_from(src, i) is Ok,
    ensures
        complete(lexed_from(src, i)->Ok_0),
    decreases
            if i < src.len() {
                src.len() - i
            } else {
                0
            },
{
    if i < src.len() {
        if text::whitespace(src[i as int]) {
            lexed_is_complete(src, i + 1);
        } else {
            lemma_word_end(src, i);
            lexed_is_complete(src, token_at(src, i)->Ok_0.1);
        }
    }
}

/// Whether words are made of `c`.
pub fn is_word_char(c: char) -> (yes: bool)
    ensures
        yes == word_char(c),
{
    is_alphanumeric(c) || c == '.' || c == ':' || c == '/'
}

/// The tokens of `src`.
pub fn lex(src: &str) -> (result: Result<Vec<Token>, CompileError>)
    ensures
        text::offset_of(src@, src@.len()) <= usize::MAX,
        match result {
            Ok(tokens) => {
                &&& lexed(src@) == Ok::<Seq<Lexed>, Failure>(values(tokens@))
                &&& complete(values(tokens@))
            },
            Err(error) => lexed(src@) == Err::<Seq<Lexed>, Failure>(error@),
        },
{
    let chars: Vec<char> = to_chars(src);
    let eof_at: usize = src.as_bytes().len();
    let mut tokens: Vec<Token> = Vec::new();
    let mut i: usize = 0;
    let mut start: usize = 0;
    proof {
        text::offset_is_encoded_length(src@, src@.len());
        assert(src@.take(src@.len() as int) =~= src@);
    }
    while i < chars.len()
        invariant
            chars@ == src@,
            i <= chars@.len(),
            start == text::offset_of(src@, i as nat),
            eof_at == text::offset_of(src@, src@.len()),
            followed_by(values(tokens@), lexed_from(src@, i as nat)) == lexed(src@),
        decreases chars@.len() - i,
    {
        proof {
            text::offsets_grow(src@, (i + 1) as nat, src@.len());
        }
        let c: char = chars[i];
        if is_whitespace(c) {
            start = start + utf8_width(c);
            i = i + 1;
            continue ;
        }
        let ghost before = tokens@;
        let ghost first = i as nat;
        let from: usize = start;
        let tag: TokenTag = if c == '(' {
            TokenTag::LParen
        } else if c == ')' {
            TokenTag::RParen
        } else if c == '-' {
            TokenTag::Dash
        } else if c == '!' {
            TokenTag::Word("not".to_owned())
        } else if c == '&' || c == '|' {
            if i + 1 < chars.len() && chars[i + 1] == c {
                proof {
                    text::offsets_grow(src@, (i + 2) as nat, src@.len());
                }
                start = start + 1;
                i = i + 1;
                if c == '&' {
                    TokenTag::Word("and".to_owned())
                } else {
                    TokenTag::Word("or".to_owned())
                }
            } else {
                return Err(CompileError::new(start..start + 1, ErrorTag::UnexpectedChar(c)));
            }
        } else if is_word_char(c) {
            let word_start: usize = i;
            while i + 1 < chars.len() && is_word_char(chars[i + 1])
                invariant
                    chars@ == src@,
                    word_start <= i < chars@.len(),
                    word_char(src@[i as int]),
                    start == text::offset_of(src@, i as nat),
                    eof_at == text::offset_of(src@, src@.len()),
                    word_end(src@, word_start as nat) == word_end(src@, i as nat),
                decreases chars@.len() - i,
            {
                proof {
                    text::offsets_grow(src@, (i + 1) as nat, src@.len());
                }
                start = start + utf8_width(chars[i]);
                i = i + 1;
            }
            assert(word_end(src@, (i + 1) as nat) == i + 1);
            TokenTag::Word(text_between(&chars, word_start, i + 1))
        } else {
            return Err(CompileError::new(start..start + 1, ErrorTag::UnexpectedChar(c)));
        };
        proof {
            text::offsets_grow(src@, (i + 1) as nat, src@.len());
        }
        start = start + utf8_width(chars[i]);
        i = i + 1;
        tokens.push(Token { tag, offset: from..start });
        proof {
            let token = Lexed { tag: tag@, offset: bytes_of(src@, first, i as nat) };
            if let Ok(more) = lexed_from(src@, i as nat) {
                assert(values(tokens@) + more =~= values(before) + (seq![token] + more));
            }
        }
    }
    let ghost before = tokens@;
    tokens.push(Token { tag: TokenTag::Eof, offset: eof_at..eof_at });
    assert(values(tokens@) =~= values(before) + lexed_from(src@, i as nat)->Ok_0);
    proof {
        lexed_is_complete(src@, 0);
    }
    Ok(tokens)
}

/// A source text with a character that stands in no token and is no white space is refused.
pub proof fn unknown_characters_are_refused(src: Seq<char>, i: nat, at: nat)
    requires
        i <= at < src.len(),
        ({
            let c = src[at as int];
            !text::whitespace(c) && !('a' <= c <= 'z' || 'A' <= c <= 'Z' || '0' <= c <= '9' || c
                == '.' || c == ':' || c == '/' || c == '(' || c == ')' || c == '-' || c == '!' || c
                == '&' || c == '|')
        }),
    ensures
        lexed_from(src, i) matches Err(failure) && failure.reason is UnexpectedChar,
    decreases src.len() - i,
{
    if i < src.len() {
        lemma_word_end(src, i);
        if text::whitespace(src[i as int]) {
            unknown_characters_are_refused(src, i + 1, at);
        } else if let Ok((_, end)) = token_at(src, i) {
            unknown_characters_are_refused(src, end, at);
        }
    }
}

/// A single `&` or `|` is refused, unless what comes before it is.
pub proof fn single_connectives_are_refused(src: Seq<char>, i: nat)
    requires
        i < src.len(),
        src[i as int] == '&' || src[i as int] == '|',
        i + 1 < src.len() ==> src[i as int + 1] != src[i as int],
    ensures
        lexed_from(src, i) == Err::<Seq<Lexed>, Failure>(unexpected(src, i)),
{
}

} // verus!
