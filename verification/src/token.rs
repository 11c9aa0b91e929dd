//! The tokens of a board description: identifiers, the reserved words
//! `chip`, `expose` and `as`, and the punctuation `{ } ; :: - ,`.

use vstd::prelude::*;
use vstd::string::StrSliceExecFns;
use vstd::utf8::is_ascii_chars;
use crate::text::same_text;

verus! {

/// One token of a board description.
#[derive(Debug, PartialEq, Eq)]
pub enum Token {
    Ident(String),
    Chip,
    Expose,
    As,
    LeftBrace,
    RightBrace,
    Semicolon,
    PathSep,
    Dash,
    Comma,
}

/// Mathematical content of a `Token`.
pub enum Lexeme {
    Ident(Seq<char>),
    Chip,
    Expose,
    As,
    LeftBrace,
    RightBrace,
    Semicolon,
    PathSep,
    Dash,
    Comma,
}

impl View for Token {
    type V = Lexeme;

    open spec fn view(&self) -> Lexeme {
        match self {
            Token::Ident(name) => Lexeme::Ident(name@),
            Token::Chip => Lexeme::Chip,
            Token::Expose => Lexeme::Expose,
            Token::As => Lexeme::As,
            Token::LeftBrace => Lexeme::LeftBrace,
            Token::RightBrace => Lexeme::RightBrace,
            Token::Semicolon => Lexeme::Semicolon,
            Token::PathSep => Lexeme::PathSep,
            Token::Dash => Lexeme::Dash,
            Token::Comma => Lexeme::Comma,
        }
    }
}

impl DeepView for Token {
    type V = Lexeme;

    open spec fn deep_view(&self) -> Lexeme {
        self@
    }
}

/// Why a text is not a sequence of tokens.
#[derive(Debug, Clone, Copy, PartialEq, Eq, Structural)]
pub enum LexError {
    /// The text holds a character outside ASCII.
    NotAscii,
    /// The character at this position starts no token.
    BadCharacter { position: usize },
}

/// White space: blank, tab, line feed and carriage return.
pub open spec fn is_space(c: char) -> bool {
    c == ' ' || c == '\t' || c == '\n' || c == '\r'
}

/// A letter or an underscore.
pub open spec fn is_word_start(c: char) -> bool {
    ('a' <= c && c <= 'z') || ('A' <= c && c <= 'Z') || c == '_'
}

/// A letter, an underscore or a digit.
pub open spec fn is_word_part(c: char) -> bool {
    is_word_start(c) || ('0' <= c && c <= '9')
}

/// The token that a single punctuation character makes.
pub open spec fn punctuation(c: char) -> Option<Lexeme> {
    if c == '{' {
        Some(Lexeme::LeftBrace)
    } else if c == '}' {
        Some(Lexeme::RightBrace)
    } else if c == ';' {
        Some(Lexeme::Semicolon)
    } else if c == '-' {
        Some(Lexeme::Dash)
    } else if c == ',' {
        Some(Lexeme::Comma)
    } else {
        None
    }
}

/// The token that a word makes: a reserved word, or else an identifier.
pub open spec fn word(w: Seq<char>) -> Lexeme {
    if w == "chip"@ {
        Lexeme::Chip
    } else if w == "expose"@ {
        Lexeme::Expose
    } else if w == "as"@ {
        Lexeme::As
    } else {
        Lexeme::Ident(w)
    }
}

/// Where the run of word characters that starts at `pos` ends.
pub open spec fn word_end(s: Seq<char>, pos: int) -> int
    decreases s.len() - pos,
{
    if 0 <= pos < s.len() && is_word_part(s[pos]) {
        word_end(s, pos + 1)
    } else {
        pos
    }
}

/// A word ends within the text, no earlier than it starts.
pub proof fn lemma_word_end_bounds(s: Seq<char>, pos: int)
    requires
        0 <= pos <= s.len(),
    ensures
        pos <= word_end(s, pos) <= s.len(),
    decreases s.len() - pos,
{
    if pos < s.len() && is_word_part(s[pos]) {
        lemma_word_end_bounds(s, pos + 1);
    }
}

/// The tokens of `s`: those in `done`, followed by the tokens of the text
/// from `pos` on. Words are as long as they can be, `::` is one token, white
/// space separates tokens, and the position of the first character that
/// starts no token is the error.
pub open spec fn scan(s: Seq<char>, pos: int, done: Seq<Lexeme>) -> Result<Seq<Lexeme>, int>
    decreases s.len() - pos,
{
    if pos < 0 || pos >= s.len() {
        Ok(done)
    } else if is_space(s[pos]) {
        scan(s, pos + 1, done)
    } else if is_word_start(s[pos]) {
        let end = word_end(s, pos + 1);
        if pos < end <= s.len() {
            scan(s, end, done.push(word(s.subrange(pos, end))))
        } else {
            Err(pos)
        }
    } else if s[pos] == ':' {
        if pos + 1 < s.len() && s[pos + 1] == ':' {
            scan(s, pos + 2, done.push(Lexeme::PathSep))
        } else {
            Err(pos)
        }
    } else {
        match punctuation(s[pos]) {
            Some(t) => scan(s, pos + 1, done.push(t)),
            None => Err(pos),
        }
    }
}

/// The tokens of a text.
pub open spec fn lex(s: Seq<char>) -> Result<Seq<Lexeme>, LexError> {
    if !is_ascii_chars(s) {
        Err(LexError::NotAscii)
    } else {
        match scan(s, 0, Seq::empty()) {
            Ok(tokens) => Ok(tokens),
            Err(p) => Err(LexError::BadCharacter { position: p as usize }),
        }
    }
}

fn space_byte(b: u8) -> (r: bool)
    ensures
        b < 128 ==> r == is_space(b as char),
{
    b == 32 || b == 9 || b == 10 || b == 13
}

fn word_start_byte(b: u8) -> (r: bool)
    ensures
        b < 128 ==> r == is_word_start(b as char),
{
    (97 <= b && b <= 122) || (65 <= b && b <= 90) || b == 95
}

fn word_part_byte(b: u8) -> (r: bool)
    ensures
        b < 128 ==> r == is_word_part(b as char),
{
    word_start_byte(b) || (48 <= b && b <= 57)
}

fn punctuation_byte(b: u8) -> (r: Option<Token>)
    ensures
        b < 128 ==> r.deep_view() == punctuation(b as char),
{
    if b == 123 {
        Some(Token::LeftBrace)
    } else if b == 125 {
        Some(Token::RightBrace)
    } else if b == 59 {
        Some(Token::Semicolon)
    } else if b == 45 {
        Some(Token::Dash)
    } else if b == 44 {
        Some(Token::Comma)
    } else {
        None
    }
}

fn make_word(w: &str) -> (r: Token)
    ensures
        r@ == word(w@),
{
    if same_text(w, "chip") {
        Token::Chip
    } else if same_text(w, "expose") {
        Token::Expose
    } else if same_text(w, "as") {
        Token::As
    } else {
        Token::Ident(w.to_owned())
    }
}

fn find_word_end(text: &str, from: usize) -> (r: usize)
    requires
        is_ascii_chars(text@),
        from <= text@.len(),
    ensures
        r == word_end(text@, from as int),
{
    let n = text.unicode_len();
    let mut pos = from;
    while pos < n
        invariant
            from <= pos <= n,
            n == text@.len(),
            is_ascii_chars(text@),
            word_end(text@, from as int) == word_end(text@, pos as int),
        decreases n - pos,
    {
        let b = text.get_ascii(pos);
        assert(b as char == text@[pos as int] && b < 128);
        if !word_part_byte(b) {
            return pos;
        }
        pos = pos + 1;
    }
    pos
}

/// Splits a board description into its tokens.
pub fn tokenize(text: &str) -> (r: Result<Vec<Token>, LexError>)
    ensures
        match r {
            Ok(tokens) => lex(text@) == Ok::<Seq<Lexeme>, LexError>(tokens.deep_view()),
            Err(e) => lex(text@) == Err::<Seq<Lexeme>, LexError>(e),
        },
{
    if !text.is_ascii() {
        return Err(LexError::NotAscii);
    }
    let n = text.unicode_len();
    let mut tokens: Vec<Token> = Vec::new();
    let mut pos: usize = 0;
    assert(tokens.deep_view() =~= Seq::empty());
    while pos < n
        invariant
            pos <= n,
            n == text@.len(),
            is_ascii_chars(text@),
            scan(text@, 0, Seq::empty()) == scan(text@, pos as int, tokens.deep_view()),
        decreases n - pos,
    {
        let ghost done = tokens.deep_view();
        let b = text.get_ascii(pos);
        assert(b as char == text@[pos as int] && b < 128);
        if space_byte(b) {
            pos = pos + 1;
        } else if word_start_byte(b) {
            let start = pos;
            pos = find_word_end(text, pos + 1);
            proof {
                lemma_word_end_bounds(text@, start + 1);
            }
            let w = text.substring_ascii(start, pos);
            tokens.push(make_word(w));
            assert(tokens.deep_view() =~= done.push(word(text@.subrange(start as int, pos as int))));
        } else if b == 58 {
            let mut doubled = false;
            if pos + 1 < n {
                let next = text.get_ascii(pos + 1);
                assert(next as char == text@[pos + 1] && next < 128);
                doubled = next == 58;
            }
            if doubled {
                tokens.push(Token::PathSep);
                assert(tokens.deep_view() =~= done.push(Lexeme::PathSep));
                pos = pos + 2;
            } else {
                return Err(LexError::BadCharacter { position: pos });
            }
        } else {
            match punctuation_byte(b) {
                Some(t) => {
                    tokens.push(t);
                    assert(tokens.deep_view() =~= done.push(t@));
                    pos = pos + 1;
                },
                None => {
                    return Err(LexError::BadCharacter { position: pos });
                },
            }
        }
    }
    Ok(tokens)
}

} // verus!
