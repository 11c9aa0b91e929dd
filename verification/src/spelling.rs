//! The tokens that spell a description, and the proof that reading them
//! gives the description back.

use vstd::prelude::*;
use crate::syntax::{
    chips_from, connection_at, connections_from, expose_at, exposes_from, ident_at, is_at,
    pin_at, pins_from, syntax, Description, Exposure,
};
use crate::token::Lexeme;
use crate::traits::PinId;

verus! {

/// The tokens of a pin reference.
pub open spec fn pin_tokens(p: PinId) -> Seq<Lexeme> {
    seq![Lexeme::Ident(p.0), Lexeme::PathSep, Lexeme::Ident(p.1)]
}

/// The tokens of the chip declarations.
pub open spec fn chip_tokens(chips: Seq<Seq<char>>) -> Seq<Lexeme>
    decreases chips.len(),
{
    if chips.len() == 0 {
        Seq::empty()
    } else {
        seq![Lexeme::Chip, Lexeme::Ident(chips[0]), Lexeme::Semicolon] + chip_tokens(
            chips.drop_first(),
        )
    }
}

/// The tokens of the connections.
pub open spec fn connection_tokens(connections: Seq<(PinId, PinId)>) -> Seq<Lexeme>
    decreases connections.len(),
{
    if connections.len() == 0 {
        Seq::empty()
    } else {
        pin_tokens(connections[0].0) + seq![Lexeme::Dash] + pin_tokens(connections[0].1)
            + seq![Lexeme::Semicolon] + connection_tokens(connections.drop_first())
    }
}

/// The tokens of the pin references that follow the first of an expose
/// entry, each after a comma.
pub open spec fn more_pin_tokens(pins: Seq<PinId>) -> Seq<Lexeme>
    decreases pins.len(),
{
    if pins.len() == 0 {
        Seq::empty()
    } else {
        seq![Lexeme::Comma] + pin_tokens(pins[0]) + more_pin_tokens(pins.drop_first())
    }
}

/// The tokens of an expose entry.
pub open spec fn expose_tokens(x: Exposure) -> Seq<Lexeme> {
    seq![Lexeme::Expose] + pin_tokens(x.pins[0]) + more_pin_tokens(x.pins.drop_first())
        + seq![Lexeme::As, Lexeme::Ident(x.as_name), Lexeme::Semicolon]
}

/// The tokens of the expose entries.
pub open spec fn exposes_tokens(exposes: Seq<Exposure>) -> Seq<Lexeme>
    decreases exposes.len(),
{
    if exposes.len() == 0 {
        Seq::empty()
    } else {
        expose_tokens(exposes[0]) + exposes_tokens(exposes.drop_first())
    }
}

/// The tokens that spell a description: its name, and between braces its
/// chip declarations, its connections and its expose entries.
pub open spec fn tokens_of(d: Description) -> Seq<Lexeme> {
    seq![Lexeme::Ident(d.name), Lexeme::LeftBrace] + chip_tokens(d.chips) + connection_tokens(
        d.connections,
    ) + exposes_tokens(d.exposes) + seq![Lexeme::RightBrace]
}

/// The tokens `s` stand in `t` from index `pos` on.
pub open spec fn holds_at(t: Seq<Lexeme>, pos: int, s: Seq<Lexeme>) -> bool {
    &&& 0 <= pos
    &&& pos + s.len() <= t.len()
    &&& forall|i: int| 0 <= i < s.len() ==> t[pos + i] == #[trigger] s[i]
}

proof fn lemma_holds_split(t: Seq<Lexeme>, pos: int, a: Seq<Lexeme>, b: Seq<Lexeme>)
    requires
        holds_at(t, pos, a + b),
    ensures
        holds_at(t, pos, a),
        holds_at(t, pos + a.len(), b),
{
    let s = a + b;
    assert forall|i: int| 0 <= i < a.len() implies t[pos + i] == #[trigger] a[i] by {
        assert(s[i] == a[i]);
    }
    assert forall|i: int| 0 <= i < b.len() implies t[pos + a.len() + i] == #[trigger] b[i] by {
        assert(s[a.len() + i] == b[i]);
    }
}

proof fn lemma_pin_read(t: Seq<Lexeme>, pos: int, p: PinId)
    requires
        holds_at(t, pos, pin_tokens(p)),
    ensures
        pin_at(t, pos) == Ok::<PinId, int>(p),
{
    let s = pin_tokens(p);
    assert(t[pos + 0] == s[0]);
    assert(t[pos + 1] == s[1]);
    assert(t[pos + 2] == s[2]);
}

proof fn lemma_chips_read(t: Seq<Lexeme>, pos: int, chips: Seq<Seq<char>>, done: Seq<Seq<char>>)
    requires
        holds_at(t, pos, chip_tokens(chips)),
        !is_at(t, pos + chip_tokens(chips).len(), Lexeme::Chip),
    ensures
        chips_from(t, pos, done) == Ok::<(Seq<Seq<char>>, int), int>(
            (done + chips, pos + chip_tokens(chips).len()),
        ),
    decreases chips.len(),
{
    if chips.len() == 0 {
        assert(done + chips =~= done);
    } else {
        let head = seq![Lexeme::Chip, Lexeme::Ident(chips[0]), Lexeme::Semicolon];
        let rest = chips.drop_first();
        lemma_holds_split(t, pos, head, chip_tokens(rest));
        assert(t[pos + 0] == head[0]);
        assert(t[pos + 1] == head[1]);
        assert(t[pos + 2] == head[2]);
        lemma_chips_read(t, pos + 3, rest, done.push(chips[0]));
        assert(done.push(chips[0]) + rest =~= done + chips);
    }
}

proof fn lemma_connections_read(
    t: Seq<Lexeme>,
    pos: int,
    connections: Seq<(PinId, PinId)>,
    done: Seq<(PinId, PinId)>,
)
    requires
        holds_at(t, pos, connection_tokens(connections)),
        ident_at(t, pos + connection_tokens(connections).len()) is None,
    ensures
        connections_from(t, pos, done) == Ok::<(Seq<(PinId, PinId)>, int), int>(
            (done + connections, pos + connection_tokens(connections).len()),
        ),
    decreases connections.len(),
{
    if connections.len() == 0 {
        assert(done + connections =~= done);
    } else {
        let c = connections[0];
        let rest = connections.drop_first();
        let a = pin_tokens(c.0);
        let dash = seq![Lexeme::Dash];
        let b = pin_tokens(c.1);
        let semi = seq![Lexeme::Semicolon];
        let tail = connection_tokens(rest);
        lemma_holds_split(t, pos, a + dash + b + semi, tail);
        lemma_holds_split(t, pos, a + dash + b, semi);
        lemma_holds_split(t, pos, a + dash, b);
        lemma_holds_split(t, pos, a, dash);
        lemma_pin_read(t, pos, c.0);
        lemma_pin_read(t, pos + 4, c.1);
        assert(t[pos + 3 + 0] == dash[0]);
        assert(t[pos + 7 + 0] == semi[0]);
        assert(t[pos + 0] == a[0]);
        assert(connection_at(t, pos) == Ok::<(PinId, PinId), int>(c));
        lemma_connections_read(t, pos + 8, rest, done.push(c));
        assert(done.push(c) + rest =~= done + connections);
    }
}

proof fn lemma_more_pins_read(t: Seq<Lexeme>, pos: int, pins: Seq<PinId>, done: Seq<PinId>)
    requires
        holds_at(t, pos, more_pin_tokens(pins)),
        !is_at(t, pos + more_pin_tokens(pins).len(), Lexeme::Comma),
    ensures
        pins_from(t, pos, done) == Ok::<(Seq<PinId>, int), int>(
            (done + pins, pos + more_pin_tokens(pins).len()),
        ),
    decreases pins.len(),
{
    if pins.len() == 0 {
        assert(done + pins =~= done);
    } else {
        let comma = seq![Lexeme::Comma];
        let rest = pins.drop_first();
        lemma_holds_split(t, pos, comma + pin_tokens(pins[0]), more_pin_tokens(rest));
        lemma_holds_split(t, pos, comma, pin_tokens(pins[0]));
        assert(t[pos + 0] == comma[0]);
        lemma_pin_read(t, pos + 1, pins[0]);
        lemma_more_pins_read(t, pos + 4, rest, done.push(pins[0]));
        assert(done.push(pins[0]) + rest =~= done + pins);
    }
}

proof fn lemma_expose_read(t: Seq<Lexeme>, pos: int, x: Exposure)
    requires
        holds_at(t, pos, expose_tokens(x)),
        x.pins.len() >= 1,
    ensures
        is_at(t, pos, Lexeme::Expose),
        expose_at(t, pos) == Ok::<(Exposure, int), int>((x, pos + expose_tokens(x).len())),
{
    let start = seq![Lexeme::Expose];
    let first = pin_tokens(x.pins[0]);
    let more = more_pin_tokens(x.pins.drop_first());
    let end = seq![Lexeme::As, Lexeme::Ident(x.as_name), Lexeme::Semicolon];
    lemma_holds_split(t, pos, start + first + more, end);
    lemma_holds_split(t, pos, start + first, more);
    lemma_holds_split(t, pos, start, first);
    assert(t[pos + 0] == start[0]);
    lemma_pin_read(t, pos + 1, x.pins[0]);
    let q = pos + 4 + more.len();
    assert(t[q + 0] == end[0]);
    assert(t[q + 1] == end[1]);
    assert(t[q + 2] == end[2]);
    lemma_more_pins_read(t, pos + 4, x.pins.drop_first(), seq![x.pins[0]]);
    assert(seq![x.pins[0]] + x.pins.drop_first() =~= x.pins);
}

proof fn lemma_exposes_read(t: Seq<Lexeme>, pos: int, exposes: Seq<Exposure>, done: Seq<Exposure>)
    requires
        holds_at(t, pos, exposes_tokens(exposes)),
        !is_at(t, pos + exposes_tokens(exposes).len(), Lexeme::Expose),
        forall|e: int| 0 <= e < exposes.len() ==> (#[trigger] exposes[e]).pins.len() >= 1,
    ensures
        exposes_from(t, pos, done) == Ok::<(Seq<Exposure>, int), int>(
            (done + exposes, pos + exposes_tokens(exposes).len()),
        ),
    decreases exposes.len(),
{
    if exposes.len() == 0 {
        assert(done + exposes =~= done);
    } else {
        let x = exposes[0];
        let rest = exposes.drop_first();
        lemma_holds_split(t, pos, expose_tokens(x), exposes_tokens(rest));
        lemma_expose_read(t, pos, x);
        assert forall|e: int| 0 <= e < rest.len() implies (#[trigger] rest[e]).pins.len() >= 1 by {
            assert(rest[e] == exposes[e + 1]);
        }
        lemma_exposes_read(t, pos + expose_tokens(x).len(), rest, done.push(x));
        assert(done.push(x) + rest =~= done + exposes);
    }
}

/// The first token of the connections is an identifier, where there are any.
proof fn lemma_connection_tokens_start(connections: Seq<(PinId, PinId)>)
    ensures
        connections.len() > 0 ==> connection_tokens(connections).len() > 0 && connection_tokens(
            connections,
        )[0] is Ident,
{
    if connections.len() > 0 {
        let s = connection_tokens(connections);
        assert(s[0] == pin_tokens(connections[0].0)[0]);
    }
}

/// The first token of the expose entries is `expose`, where there are any.
proof fn lemma_exposes_tokens_start(exposes: Seq<Exposure>)
    ensures
        exposes.len() > 0 ==> exposes_tokens(exposes).len() > 0 && exposes_tokens(exposes)[0]
            == Lexeme::Expose,
{
    if exposes.len() > 0 {
        let s = exposes_tokens(exposes);
        assert(s[0] == expose_tokens(exposes[0])[0]);
        assert(expose_tokens(exposes[0])[0] == Lexeme::Expose);
    }
}

/// The parts of a description stand in `t` one after the other, between
/// the name with an opening brace and a closing brace.
spec fn framed(t: Seq<Lexeme>, d: Description) -> bool {
    let p: int = 2int + chip_tokens(d.chips).len();
    let q: int = p + connection_tokens(d.connections).len();
    let r: int = q + exposes_tokens(d.exposes).len();
    &&& t.len() == r + 1
    &&& t[0] == Lexeme::Ident(d.name)
    &&& t[1] == Lexeme::LeftBrace
    &&& holds_at(t, 2, chip_tokens(d.chips))
    &&& holds_at(t, p, connection_tokens(d.connections))
    &&& holds_at(t, q, exposes_tokens(d.exposes))
    &&& t[r] == Lexeme::RightBrace
}

proof fn lemma_tokens_framed(d: Description)
    ensures
        framed(tokens_of(d), d),
{
    let t = tokens_of(d);
    let head = seq![Lexeme::Ident(d.name), Lexeme::LeftBrace];
    let chips = chip_tokens(d.chips);
    let connections = connection_tokens(d.connections);
    let exposes = exposes_tokens(d.exposes);
    let close = seq![Lexeme::RightBrace];
    assert(holds_at(t, 0, t));
    lemma_holds_split(t, 0, head + chips + connections + exposes, close);
    lemma_holds_split(t, 0, head + chips + connections, exposes);
    lemma_holds_split(t, 0, head + chips, connections);
    lemma_holds_split(t, 0, head, chips);
    assert(t[0int + 0] == head[0]);
    assert(t[0int + 1] == head[1]);
    let r: int = 2int + chips.len() + connections.len() + exposes.len();
    assert(t[r + 0] == close[0]);
}

proof fn lemma_framed_read(t: Seq<Lexeme>, d: Description)
    requires
        framed(t, d),
        forall|e: int| 0 <= e < d.exposes.len() ==> (#[trigger] d.exposes[e]).pins.len() >= 1,
    ensures
        syntax(t) == Ok::<Description, int>(d),
{
    let connections = connection_tokens(d.connections);
    let exposes = exposes_tokens(d.exposes);
    let p: int = 2int + chip_tokens(d.chips).len();
    let q: int = p + connections.len();
    let r: int = q + exposes.len();
    lemma_connection_tokens_start(d.connections);
    lemma_exposes_tokens_start(d.exposes);
    if d.connections.len() > 0 {
        assert(t[p + 0] == connections[0]);
    }
    if d.exposes.len() > 0 {
        assert(t[q + 0] == exposes[0]);
    }
    assert(!is_at(t, p, Lexeme::Chip));
    assert(ident_at(t, q) is None);
    assert(!is_at(t, r, Lexeme::Expose));
    lemma_chips_read(t, 2, d.chips, Seq::empty());
    lemma_connections_read(t, p, d.connections, Seq::empty());
    lemma_exposes_read(t, q, d.exposes, Seq::empty());
    assert(Seq::<Seq<char>>::empty() + d.chips =~= d.chips);
    assert(Seq::<(PinId, PinId)>::empty() + d.connections =~= d.connections);
    assert(Seq::<Exposure>::empty() + d.exposes =~= d.exposes);
}

/// Reading the tokens that spell a description gives the description back,
/// provided each of its expose entries names a pin.
pub proof fn lemma_syntax_of_tokens(d: Description)
    requires
        forall|e: int| 0 <= e < d.exposes.len() ==> (#[trigger] d.exposes[e]).pins.len() >= 1,
    ensures
        syntax(tokens_of(d)) == Ok::<Description, int>(d),
{
    lemma_tokens_framed(d);
    lemma_framed_read(tokens_of(d), d);
}

} // verus!
