//! The grammar of a board description, read from its tokens:
//!
//! ```text
//! board      := IDENT "{" chip_decl* connection* expose* "}"
//! chip_decl  := "chip" IDENT ";"
//! connection := pin_ref "-" pin_ref ";"
//! expose     := "expose" pin_ref ("," pin_ref)* "as" IDENT ";"
//! pin_ref    := IDENT "::" IDENT
//! ```

use vstd::prelude::*;
use crate::token::{Lexeme, Token};
use crate::traits::{ChipPin, PinId};

verus! {

/// Internal pins that a board shows on its own boundary under one name.
#[derive(Debug, PartialEq, Eq)]
pub struct ExposedPins {
    pub pins: Vec<ChipPin>,
    pub as_name: String,
}

/// Mathematical content of an `ExposedPins`.
pub struct Exposure {
    pub pins: Seq<PinId>,
    pub as_name: Seq<char>,
}

impl View for ExposedPins {
    type V = Exposure;

    open spec fn view(&self) -> Exposure {
        Exposure { pins: self.pins.deep_view(), as_name: self.as_name@ }
    }
}

impl DeepView for ExposedPins {
    type V = Exposure;

    open spec fn deep_view(&self) -> Exposure {
        self@
    }
}

/// What a board description says: the board's name, the chips in the order
/// of their declaration, the connections between pins, and the exposed pins.
pub struct Description {
    pub name: Seq<char>,
    pub chips: Seq<Seq<char>>,
    pub connections: Seq<(PinId, PinId)>,
    pub exposes: Seq<Exposure>,
}

/// A board description: the board's name, the chips in the order of their
/// declaration, the connections between pins, and the exposed pins.
#[derive(Debug, PartialEq, Eq)]
pub struct PcbMacroInput {
    pub name: String,
    pub chips: Vec<String>,
    pub connections: Vec<(ChipPin, ChipPin)>,
    pub exposed_pins: Vec<ExposedPins>,
}

impl View for PcbMacroInput {
    type V = Description;

    open spec fn view(&self) -> Description {
        Description {
            name: self.name@,
            chips: self.chips.deep_view(),
            connections: self.connections.deep_view(),
            exposes: self.exposed_pins.deep_view(),
        }
    }
}

/// The index `i` where a token was expected, or the number of tokens when
/// they end before it.
pub open spec fn miss(t: Seq<Lexeme>, i: int) -> int {
    if i < t.len() {
        i
    } else {
        t.len() as int
    }
}

/// The token at index `i` is `l`.
pub open spec fn is_at(t: Seq<Lexeme>, i: int, l: Lexeme) -> bool {
    0 <= i < t.len() && t[i] == l
}

/// The identifier at index `i`, if there is one.
pub open spec fn ident_at(t: Seq<Lexeme>, i: int) -> Option<Seq<char>> {
    if 0 <= i < t.len() {
        match t[i] {
            Lexeme::Ident(name) => Some(name),
            _ => None,
        }
    } else {
        None
    }
}

/// The pin reference `chip :: pin` in the three tokens from index `i`, or the
/// index of the token that does not fit.
pub open spec fn pin_at(t: Seq<Lexeme>, i: int) -> Result<PinId, int> {
    match ident_at(t, i) {
        None => Err(miss(t, i)),
        Some(chip) => if !is_at(t, i + 1, Lexeme::PathSep) {
            Err(miss(t, i + 1))
        } else {
            match ident_at(t, i + 2) {
                None => Err(miss(t, i + 2)),
                Some(pin) => Ok((chip, pin)),
            }
        },
    }
}

/// The chip declarations from index `pos` on, after those in `done`, with the
/// index where they end.
pub open spec fn chips_from(t: Seq<Lexeme>, pos: int, done: Seq<Seq<char>>) -> Result<
    (Seq<Seq<char>>, int),
    int,
>
    decreases t.len() - pos,
{
    if is_at(t, pos, Lexeme::Chip) {
        match ident_at(t, pos + 1) {
            None => Err(miss(t, pos + 1)),
            Some(name) => if !is_at(t, pos + 2, Lexeme::Semicolon) {
                Err(miss(t, pos + 2))
            } else {
                chips_from(t, pos + 3, done.push(name))
            },
        }
    } else {
        Ok((done, pos))
    }
}

/// The connection in the eight tokens from index `pos`.
pub open spec fn connection_at(t: Seq<Lexeme>, pos: int) -> Result<(PinId, PinId), int> {
    match pin_at(t, pos) {
        Err(e) => Err(e),
        Ok(a) => if !is_at(t, pos + 3, Lexeme::Dash) {
            Err(miss(t, pos + 3))
        } else {
            match pin_at(t, pos + 4) {
                Err(e) => Err(e),
                Ok(b) => if !is_at(t, pos + 7, Lexeme::Semicolon) {
                    Err(miss(t, pos + 7))
                } else {
                    Ok((a, b))
                },
            }
        },
    }
}

/// The connections from index `pos` on, after those in `done`, with the index
/// where they end. A connection starts with an identifier.
pub open spec fn connections_from(t: Seq<Lexeme>, pos: int, done: Seq<(PinId, PinId)>) -> Result<
    (Seq<(PinId, PinId)>, int),
    int,
>
    decreases t.len() - pos,
{
    if ident_at(t, pos) is Some {
        match connection_at(t, pos) {
            Err(e) => Err(e),
            Ok(c) => connections_from(t, pos + 8, done.push(c)),
        }
    } else {
        Ok((done, pos))
    }
}

/// The pin references that follow, each after a comma, from index `pos` on,
/// after those in `done`, with the index where they end.
pub open spec fn pins_from(t: Seq<Lexeme>, pos: int, done: Seq<PinId>) -> Result<
    (Seq<PinId>, int),
    int,
>
    decreases t.len() - pos,
{
    if is_at(t, pos, Lexeme::Comma) {
        match pin_at(t, pos + 1) {
            Err(e) => Err(e),
            Ok(p) => pins_from(t, pos + 4, done.push(p)),
        }
    } else {
        Ok((done, pos))
    }
}

/// The rest of an expose entry whose word `expose` stands at index `pos`,
/// with the index where the entry ends.
pub open spec fn expose_at(t: Seq<Lexeme>, pos: int) -> Result<(Exposure, int), int> {
    match pin_at(t, pos + 1) {
        Err(e) => Err(e),
        Ok(p) => match pins_from(t, pos + 4, seq![p]) {
            Err(e) => Err(e),
            Ok((pins, q)) => if !is_at(t, q, Lexeme::As) {
                Err(miss(t, q))
            } else {
                match ident_at(t, q + 1) {
                    None => Err(miss(t, q + 1)),
                    Some(name) => if !is_at(t, q + 2, Lexeme::Semicolon) {
                        Err(miss(t, q + 2))
                    } else {
                        Ok((Exposure { pins: pins, as_name: name }, q + 3))
                    },
                }
            },
        },
    }
}

/// A list of pin references ends no earlier than it starts.
pub proof fn lemma_pins_advance(t: Seq<Lexeme>, pos: int, done: Seq<PinId>)
    ensures
        pins_from(t, pos, done) matches Ok((pins, q)) ==> pos <= q && pins.len() >= done.len(),
    decreases t.len() - pos,
{
    if is_at(t, pos, Lexeme::Comma) {
        match pin_at(t, pos + 1) {
            Err(e) => {},
            Ok(p) => {
                lemma_pins_advance(t, pos + 4, done.push(p));
            },
        }
    }
}

/// An expose entry ends after it starts, within the tokens, and names at
/// least one pin.
pub proof fn lemma_expose_advances(t: Seq<Lexeme>, pos: int)
    ensures
        expose_at(t, pos) matches Ok((x, q)) ==> pos + 7 <= q <= t.len() && x.pins.len() >= 1,
{
    match pin_at(t, pos + 1) {
        Err(e) => {},
        Ok(p) => {
            lemma_pins_advance(t, pos + 4, seq![p]);
        },
    }
}

/// The expose entries from index `pos` on, after those in `done`, with the
/// index where they end.
pub open spec fn exposes_from(t: Seq<Lexeme>, pos: int, done: Seq<Exposure>) -> Result<
    (Seq<Exposure>, int),
    int,
>
    decreases t.len() - pos,
{
    if is_at(t, pos, Lexeme::Expose) {
        match expose_at(t, pos) {
            Err(e) => Err(e),
            Ok((x, q)) => {
                proof {
                    lemma_expose_advances(t, pos);
                }
                exposes_from(t, q, done.push(x))
            },
        }
    } else {
        Ok((done, pos))
    }
}

/// The description that a sequence of tokens spells, or the index of the
/// first token that does not fit the grammar (the number of tokens, when
/// they end too early).
pub open spec fn syntax(t: Seq<Lexeme>) -> Result<Description, int> {
    match ident_at(t, 0) {
        None => Err(miss(t, 0)),
        Some(name) => if !is_at(t, 1, Lexeme::LeftBrace) {
            Err(miss(t, 1))
        } else {
            match chips_from(t, 2, Seq::empty()) {
                Err(e) => Err(e),
                Ok((chips, p)) => match connections_from(t, p, Seq::empty()) {
                    Err(e) => Err(e),
                    Ok((connections, q)) => match exposes_from(t, q, Seq::empty()) {
                        Err(e) => Err(e),
                        Ok((exposes, r)) => if !is_at(t, r, Lexeme::RightBrace) {
                            Err(miss(t, r))
                        } else if r + 1 != t.len() {
                            Err(r + 1)
                        } else {
                            Ok(
                                Description {
                                    name: name,
                                    chips: chips,
                                    connections: connections,
                                    exposes: exposes,
                                },
                            )
                        },
                    },
                },
            }
        },
    }
}

fn same_mark(a: &Token, b: &Token) -> (r: bool)
    requires
        !(b is Ident),
    ensures
        r == (a@ == b@),
{
    match (a, b) {
        (Token::Chip, Token::Chip) => true,
        (Token::Expose, Token::Expose) => true,
        (Token::As, Token::As) => true,
        (Token::LeftBrace, Token::LeftBrace) => true,
        (Token::RightBrace, Token::RightBrace) => true,
        (Token::Semicolon, Token::Semicolon) => true,
        (Token::PathSep, Token::PathSep) => true,
        (Token::Dash, Token::Dash) => true,
        (Token::Comma, Token::Comma) => true,
        _ => false,
    }
}

fn mark_at(tokens: &Vec<Token>, pos: usize, k: usize, want: &Token) -> (r: bool)
    requires
        pos <= tokens.len(),
        !(want is Ident),
    ensures
        r == is_at(tokens.deep_view(), pos + k, want@),
{
    if k < tokens.len() - pos {
        same_mark(&tokens[pos + k], want)
    } else {
        false
    }
}

fn name_at(tokens: &Vec<Token>, pos: usize, k: usize) -> (r: Option<String>)
    requires
        pos <= tokens.len(),
    ensures
        r.deep_view() == ident_at(tokens.deep_view(), pos + k),
{
    if k < tokens.len() - pos {
        match &tokens[pos + k] {
            Token::Ident(name) => Some(name.clone()),
            _ => None,
        }
    } else {
        None
    }
}

fn missing(tokens: &Vec<Token>, pos: usize, k: usize) -> (r: usize)
    requires
        pos <= tokens.len(),
    ensures
        r == miss(tokens.deep_view(), pos + k),
{
    if k < tokens.len() - pos {
        pos + k
    } else {
        tokens.len()
    }
}

fn read_pin(tokens: &Vec<Token>, pos: usize, k: usize) -> (r: Result<ChipPin, usize>)
    requires
        pos <= tokens.len(),
        k <= 8,
    ensures
        match r {
            Ok(p) => pin_at(tokens.deep_view(), pos + k) == Ok::<PinId, int>(p@),
            Err(e) => pin_at(tokens.deep_view(), pos + k) == Err::<PinId, int>(e as int),
        },
{
    match name_at(tokens, pos, k) {
        None => Err(missing(tokens, pos, k)),
        Some(chip) => {
            if !mark_at(tokens, pos, k + 1, &Token::PathSep) {
                Err(missing(tokens, pos, k + 1))
            } else {
                match name_at(tokens, pos, k + 2) {
                    None => Err(missing(tokens, pos, k + 2)),
                    Some(pin) => Ok(ChipPin { chip: chip, pin: pin }),
                }
            }
        },
    }
}

fn read_chips(tokens: &Vec<Token>, start: usize) -> (r: Result<(Vec<String>, usize), usize>)
    requires
        start <= tokens.len(),
    ensures
        match r {
            Ok((chips, end)) => end <= tokens.len() && chips_from(
                tokens.deep_view(),
                start as int,
                Seq::empty(),
            ) == Ok::<(Seq<Seq<char>>, int), int>((chips.deep_view(), end as int)),
            Err(e) => chips_from(tokens.deep_view(), start as int, Seq::empty()) == Err::<
                (Seq<Seq<char>>, int),
                int,
            >(e as int),
        },
{
    let mut chips: Vec<String> = Vec::new();
    let mut pos = start;
    assert(chips.deep_view() =~= Seq::empty());
    while mark_at(tokens, pos, 0, &Token::Chip)
        invariant
            pos <= tokens.len(),
            chips_from(tokens.deep_view(), start as int, Seq::empty()) == chips_from(
                tokens.deep_view(),
                pos as int,
                chips.deep_view(),
            ),
        decreases tokens.len() - pos,
    {
        let ghost done = chips.deep_view();
        match name_at(tokens, pos, 1) {
            None => {
                return Err(missing(tokens, pos, 1));
            },
            Some(name) => {
                if !mark_at(tokens, pos, 2, &Token::Semicolon) {
                    return Err(missing(tokens, pos, 2));
                }
                chips.push(name);
                assert(chips.deep_view() =~= done.push(name@));
                pos = pos + 3;
            },
        }
    }
    Ok((chips, pos))
}

fn read_connection(tokens: &Vec<Token>, pos: usize) -> (r: Result<(ChipPin, ChipPin), usize>)
    requires
        pos <= tokens.len(),
    ensures
        match r {
            Ok(c) => pos + 8 <= tokens.len() && connection_at(tokens.deep_view(), pos as int)
                == Ok::<(PinId, PinId), int>((c.0@, c.1@)),
            Err(e) => connection_at(tokens.deep_view(), pos as int) == Err::<(PinId, PinId), int>(
                e as int,
            ),
        },
{
    match read_pin(tokens, pos, 0) {
        Err(e) => Err(e),
        Ok(a) => {
            if !mark_at(tokens, pos, 3, &Token::Dash) {
                Err(missing(tokens, pos, 3))
            } else {
                match read_pin(tokens, pos, 4) {
                    Err(e) => Err(e),
                    Ok(b) => {
                        if !mark_at(tokens, pos, 7, &Token::Semicolon) {
                            Err(missing(tokens, pos, 7))
                        } else {
                            Ok((a, b))
                        }
                    },
                }
            }
        },
    }
}

fn read_connections(tokens: &Vec<Token>, start: usize) -> (r: Result<
    (Vec<(ChipPin, ChipPin)>, usize),
    usize,
>)
    requires
        start <= tokens.len(),
    ensures
        match r {
            Ok((connections, end)) => end <= tokens.len() && connections_from(
                tokens.deep_view(),
                start as int,
                Seq::empty(),
            ) == Ok::<(Seq<(PinId, PinId)>, int), int>((connections.deep_view(), end as int)),
            Err(e) => connections_from(tokens.deep_view(), start as int, Seq::empty()) == Err::<
                (Seq<(PinId, PinId)>, int),
                int,
            >(e as int),
        },
{
    let mut connections: Vec<(ChipPin, ChipPin)> = Vec::new();
    let mut pos = start;
    assert(connections.deep_view() =~= Seq::empty());
    while name_at(tokens, pos, 0).is_some()
        invariant
            pos <= tokens.len(),
            connections_from(tokens.deep_view(), start as int, Seq::empty()) == connections_from(
                tokens.deep_view(),
                pos as int,
                connections.deep_view(),
            ),
        decreases tokens.len() - pos,
    {
        let ghost done = connections.deep_view();
        match read_connection(tokens, pos) {
            Err(e) => {
                return Err(e);
            },
            Ok(c) => {
                let ghost cv = (c.0@, c.1@);
                connections.push(c);
                assert(connections.deep_view() =~= done.push(cv));
                pos = pos + 8;
            },
        }
    }
    Ok((connections, pos))
}

fn read_more_pins(tokens: &Vec<Token>, start: usize, first: ChipPin) -> (r: Result<
    (Vec<ChipPin>, usize),
    usize,
>)
    requires
        start <= tokens.len(),
    ensures
        match r {
            Ok((pins, end)) => end <= tokens.len() && pins_from(
                tokens.deep_view(),
                start as int,
                seq![first@],
            ) == Ok::<(Seq<PinId>, int), int>((pins.deep_view(), end as int)),
            Err(e) => pins_from(tokens.deep_view(), start as int, seq![first@]) == Err::<
                (Seq<PinId>, int),
                int,
            >(e as int),
        },
{
    let mut pins: Vec<ChipPin> = Vec::new();
    pins.push(first);
    let mut pos = start;
    assert(pins.deep_view() =~= seq![first@]);
    while mark_at(tokens, pos, 0, &Token::Comma)
        invariant
            pos <= tokens.len(),
            pins_from(tokens.deep_view(), start as int, seq![first@]) == pins_from(
                tokens.deep_view(),
                pos as int,
                pins.deep_view(),
            ),
        decreases tokens.len() - pos,
    {
        let ghost done = pins.deep_view();
        match read_pin(tokens, pos, 1) {
            Err(e) => {
                return Err(e);
            },
            Ok(p) => {
                let ghost pv = p@;
                pins.push(p);
                assert(pins.deep_view() =~= done.push(pv));
                pos = pos + 4;
            },
        }
    }
    Ok((pins, pos))
}

fn read_expose(tokens: &Vec<Token>, pos: usize) -> (r: Result<(ExposedPins, usize), usize>)
    requires
        pos < tokens.len(),
    ensures
        match r {
            Ok((x, end)) => pos < end <= tokens.len() && expose_at(tokens.deep_view(), pos as int)
                == Ok::<(Exposure, int), int>((x@, end as int)),
            Err(e) => expose_at(tokens.deep_view(), pos as int) == Err::<(Exposure, int), int>(
                e as int,
            ),
        },
{
    match read_pin(tokens, pos, 1) {
        Err(e) => Err(e),
        Ok(first) => {
            match read_more_pins(tokens, pos + 4, first) {
                Err(e) => Err(e),
                Ok((pins, q)) => {
                    proof {
                        lemma_expose_advances(tokens.deep_view(), pos as int);
                    }
                    if !mark_at(tokens, q, 0, &Token::As) {
                        Err(missing(tokens, q, 0))
                    } else {
                        match name_at(tokens, q, 1) {
                            None => Err(missing(tokens, q, 1)),
                            Some(name) => {
                                if !mark_at(tokens, q, 2, &Token::Semicolon) {
                                    Err(missing(tokens, q, 2))
                                } else {
                                    Ok((ExposedPins { pins: pins, as_name: name }, q + 3))
                                }
                            },
                        }
                    }
                },
            }
        },
    }
}

fn read_exposes(tokens: &Vec<Token>, start: usize) -> (r: Result<(Vec<ExposedPins>, usize), usize>)
    requires
        start <= tokens.len(),
    ensures
        match r {
            Ok((exposes, end)) => end <= tokens.len() && exposes_from(
                tokens.deep_view(),
                start as int,
                Seq::empty(),
            ) == Ok::<(Seq<Exposure>, int), int>((exposes.deep_view(), end as int)),
            Err(e) => exposes_from(tokens.deep_view(), start as int, Seq::empty()) == Err::<
                (Seq<Exposure>, int),
                int,
            >(e as int),
        },
{
    let mut exposes: Vec<ExposedPins> = Vec::new();
    let mut pos = start;
    assert(exposes.deep_view() =~= Seq::empty());
    while mark_at(tokens, pos, 0, &Token::Expose)
        invariant
            pos <= tokens.len(),
            exposes_from(tokens.deep_view(), start as int, Seq::empty()) == exposes_from(
                tokens.deep_view(),
                pos as int,
                exposes.deep_view(),
            ),
        decreases tokens.len() - pos,
    {
        let ghost done = exposes.deep_view();
        match read_expose(tokens, pos) {
            Err(e) => {
                return Err(e);
            },
            Ok((x, end)) => {
                let ghost xv = x@;
                exposes.push(x);
                assert(exposes.deep_view() =~= done.push(xv));
                pos = end;
            },
        }
    }
    Ok((exposes, pos))
}

/// Reads a description from its tokens. It fails with the index of the first
/// token that does not fit the grammar.
pub fn parse_tokens(tokens: &Vec<Token>) -> (r: Result<PcbMacroInput, usize>)
    ensures
        match r {
            Ok(input) => syntax(tokens.deep_view()) == Ok::<Description, int>(input@),
            Err(e) => syntax(tokens.deep_view()) == Err::<Description, int>(e as int),
        },
{
    let name = match name_at(tokens, 0, 0) {
        None => {
            return Err(missing(tokens, 0, 0));
        },
        Some(name) => name,
    };
    if !mark_at(tokens, 0, 1, &Token::LeftBrace) {
        return Err(missing(tokens, 0, 1));
    }
    let (chips, p) = match read_chips(tokens, 2) {
        Err(e) => {
            return Err(e);
        },
        Ok(found) => found,
    };
    let (connections, q) = match read_connections(tokens, p) {
        Err(e) => {
            return Err(e);
        },
        Ok(found) => found,
    };
    let (exposes, r) = match read_exposes(tokens, q) {
        Err(e) => {
            return Err(e);
        },
        Ok(found) => found,
    };
    if !mark_at(tokens, r, 0, &Token::RightBrace) {
        return Err(missing(tokens, r, 0));
    }
    if r + 1 != tokens.len() {
        return Err(r + 1);
    }
    Ok(PcbMacroInput { name: name, chips: chips, connections: connections, exposed_pins: exposes })
}

} // verus!
