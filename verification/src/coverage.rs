//! The plan of a board covers its connections: each plan entry holds exactly
//! the pins of its group, so every connection lies in one entry and no pin
//! lies in two.

use vstd::prelude::*;
use crate::board::{pin_spec, states};
use crate::builder::pin_maps;
use crate::plan::{consumers, group_plan, meta, plan_spec, planned, producers, PinMap};
use crate::traits::ChipInterface;
use crate::shorting::{components, is_endpoint, lemma_add_contains, share_group};
use crate::syntax::Description;
use crate::traits::{Connection, PinId, PinSpec};
use crate::uniformity::lemma_plan_iff_checks;
use crate::util::{classify, others, pin_ids};

verus! {

/// The pins that a connection joins.
pub open spec fn connection_pins(c: Connection) -> Seq<PinId> {
    match c {
        Connection::Pair { source, destination } => seq![source, destination],
        Connection::Broadcast { source, destinations } => seq![source] + destinations,
        Connection::Tristated { sources, destinations } => sources + destinations,
    }
}

/// The consuming pins of a group are its pins whose metadata says so.
pub proof fn lemma_consumers_hold(
    chips: Seq<Seq<char>>,
    maps: Seq<PinMap>,
    group: Seq<PinId>,
    x: (PinId, PinSpec),
)
    ensures
        consumers(chips, maps, group).contains(x) <==> group.contains(x.0) && meta(chips, maps, x.0)
            == Some(x.1) && x.1.consumes(),
    decreases group.len(),
{
    let all = consumers(chips, maps, group);
    if group.len() > 0 {
        let front = group.drop_last();
        let rest = consumers(chips, maps, front);
        lemma_consumers_hold(chips, maps, front, x);
        if front.contains(x.0) {
            let i = choose|i: int| 0 <= i < front.len() && front[i] == x.0;
            assert(group[i] == x.0);
        }
        if group.contains(x.0) {
            let i = choose|i: int| 0 <= i < group.len() && group[i] == x.0;
            if i < front.len() {
                assert(front[i] == x.0);
            }
        }
        if rest.contains(x) {
            let i = choose|i: int| 0 <= i < rest.len() && rest[i] == x;
            assert(all[i] == x);
        }
        if all.contains(x) {
            let i = choose|i: int| 0 <= i < all.len() && all[i] == x;
            if i < rest.len() {
                assert(rest[i] == x);
            }
        }
        match meta(chips, maps, group.last()) {
            Some(m) => {
                if m.consumes() {
                    assert(all[all.len() - 1] == (group.last(), m));
                }
            },
            None => {},
        }
        assert(group[group.len() - 1] == group.last());
    }
}

/// The producing pins of a group are its pins whose metadata says so.
pub proof fn lemma_producers_hold(
    chips: Seq<Seq<char>>,
    maps: Seq<PinMap>,
    group: Seq<PinId>,
    x: (PinId, PinSpec),
)
    ensures
        producers(chips, maps, group).contains(x) <==> group.contains(x.0) && meta(chips, maps, x.0)
            == Some(x.1) && x.1.produces(),
    decreases group.len(),
{
    let all = producers(chips, maps, group);
    if group.len() > 0 {
        let front = group.drop_last();
        let rest = producers(chips, maps, front);
        lemma_producers_hold(chips, maps, front, x);
        if front.contains(x.0) {
            let i = choose|i: int| 0 <= i < front.len() && front[i] == x.0;
            assert(group[i] == x.0);
        }
        if group.contains(x.0) {
            let i = choose|i: int| 0 <= i < group.len() && group[i] == x.0;
            if i < front.len() {
                assert(front[i] == x.0);
            }
        }
        if rest.contains(x) {
            let i = choose|i: int| 0 <= i < rest.len() && rest[i] == x;
            assert(all[i] == x);
        }
        if all.contains(x) {
            let i = choose|i: int| 0 <= i < all.len() && all[i] == x;
            if i < rest.len() {
                assert(rest[i] == x);
            }
        }
        match meta(chips, maps, group.last()) {
            Some(m) => {
                if m.produces() {
                    assert(all[all.len() - 1] == (group.last(), m));
                }
            },
            None => {},
        }
        assert(group[group.len() - 1] == group.last());
    }
}

/// The destinations of a broadcast are the consuming pins but the source.
pub proof fn lemma_others_hold(pins: Seq<(PinId, PinSpec)>, source: PinId, p: PinId)
    ensures
        others(pins, source).contains(p) <==> p != source && pin_ids(pins).contains(p),
    decreases pins.len(),
{
    let all = others(pins, source);
    let ids = pin_ids(pins);
    if pins.len() > 0 {
        let front = pins.drop_last();
        let rest = others(front, source);
        lemma_others_hold(front, source, p);
        if pin_ids(front).contains(p) {
            let i = choose|i: int| 0 <= i < pin_ids(front).len() && pin_ids(front)[i] == p;
            assert(ids[i] == p);
        }
        if ids.contains(p) {
            let i = choose|i: int| 0 <= i < ids.len() && ids[i] == p;
            if i < front.len() {
                assert(pin_ids(front)[i] == p);
            }
        }
        if rest.contains(p) {
            let i = choose|i: int| 0 <= i < rest.len() && rest[i] == p;
            assert(all[i] == p);
        }
        if all.contains(p) {
            let i = choose|i: int| 0 <= i < all.len() && all[i] == p;
            if i < rest.len() {
                assert(rest[i] == p);
            }
        }
        if pins.last().0 != source {
            assert(all[all.len() - 1] == pins.last().0);
        }
        assert(ids[ids.len() - 1] == pins.last().0);
    }
}

proof fn lemma_single_holds(s: Seq<PinId>, p: PinId)
    requires
        s.len() == 1,
    ensures
        s.contains(p) <==> p == s[0],
{
    if p == s[0] {
        assert(s[0] == p);
    }
}

/// A connection joins exactly the pins that it was made of: the consuming
/// and the producing pins of its group.
pub proof fn lemma_classify_pins(
    input: Seq<(PinId, PinSpec)>,
    output: Seq<(PinId, PinSpec)>,
    p: PinId,
)
    requires
        classify(input, output) is Ok,
    ensures
        connection_pins(classified(input, output)).contains(p) <==> pin_ids(input).contains(p)
            || pin_ids(output).contains(p),
{
    let c = classified(input, output);
    let ins = pin_ids(input);
    let outs = pin_ids(output);
    if input.len() == 1 && output.len() == 1 && input[0].0 != output[0].0 {
        let pins = seq![output[0].0, input[0].0];
        assert(connection_pins(c) == pins);
        lemma_single_holds(ins, p);
        lemma_single_holds(outs, p);
        assert(pins =~= seq![output[0].0] + seq![input[0].0]);
        lemma_add_contains(seq![output[0].0], seq![input[0].0], p);
        lemma_single_holds(seq![output[0].0], p);
        lemma_single_holds(seq![input[0].0], p);
    } else if output.len() == 1 {
        let source = output[0].0;
        assert(connection_pins(c) == seq![source] + others(input, source));
        lemma_add_contains(seq![source], others(input, source), p);
        lemma_single_holds(seq![source], p);
        lemma_single_holds(outs, p);
        lemma_others_hold(input, source, p);
    } else {
        assert(connection_pins(c) == outs + ins);
        lemma_add_contains(outs, ins, p);
    }
}

/// The connection that a group makes, where it makes one.
pub open spec fn classified(input: Seq<(PinId, PinSpec)>, output: Seq<(PinId, PinSpec)>) -> Connection {
    match classify(input, output) {
        Ok(c) => c,
        Err(_) => Connection::Tristated { sources: Seq::empty(), destinations: Seq::empty() },
    }
}

/// The consuming and the producing pins of a group are the pins of the
/// group that the board has.
pub proof fn lemma_partitions_hold(
    chips: Seq<Seq<char>>,
    maps: Seq<PinMap>,
    group: Seq<PinId>,
    p: PinId,
)
    ensures
        pin_ids(consumers(chips, maps, group)).contains(p) || pin_ids(
            producers(chips, maps, group),
        ).contains(p) <==> group.contains(p) && meta(chips, maps, p) is Some,
{
    let input = consumers(chips, maps, group);
    let output = producers(chips, maps, group);
    if pin_ids(input).contains(p) {
        let i = choose|i: int| 0 <= i < pin_ids(input).len() && pin_ids(input)[i] == p;
        assert(input.contains(input[i]));
        lemma_consumers_hold(chips, maps, group, input[i]);
    }
    if pin_ids(output).contains(p) {
        let i = choose|i: int| 0 <= i < pin_ids(output).len() && pin_ids(output)[i] == p;
        assert(output.contains(output[i]));
        lemma_producers_hold(chips, maps, group, output[i]);
    }
    if group.contains(p) && meta(chips, maps, p) is Some {
        let m = meta(chips, maps, p)->0;
        lemma_consumers_hold(chips, maps, group, (p, m));
        lemma_producers_hold(chips, maps, group, (p, m));
        assert(m.consumes() || m.produces());
        if input.contains((p, m)) {
            let i = choose|i: int| 0 <= i < input.len() && input[i] == (p, m);
            assert(pin_ids(input)[i] == p);
        } else {
            let i = choose|i: int| 0 <= i < output.len() && output[i] == (p, m);
            assert(pin_ids(output)[i] == p);
        }
    }
}

/// A plan entry holds exactly the pins of its group.
pub proof fn lemma_entry_holds_group(
    d: Description,
    groups: Seq<Seq<PinId>>,
    maps: Seq<PinMap>,
    g: int,
    p: PinId,
)
    requires
        components(d.connections, groups),
        plan_spec(d, groups, maps) is Ok,
        0 <= g < groups.len(),
    ensures
        connection_pins(planned(d, groups, maps)[g]).contains(p) <==> groups[g].contains(p),
{
    lemma_plan_iff_checks(d, groups, maps);
    let group = groups[g];
    let input = consumers(d.chips, maps, group);
    let output = producers(d.chips, maps, group);
    assert(group_plan(d.chips, maps, group) is Ok);
    assert(planned(d, groups, maps)[g] == classified(input, output));
    lemma_classify_pins(input, output, p);
    lemma_partitions_hold(d.chips, maps, group, p);
    if group.contains(p) {
        assert(is_endpoint(d.connections, p));
        let k = choose|k: int| 0 <= k < d.connections.len() && ((#[trigger] d.connections[k]).0
            == p || d.connections[k].1 == p);
        assert(crate::plan::fits(
            meta(d.chips, maps, d.connections[k].0),
            meta(d.chips, maps, d.connections[k].1),
        ));
    }
}

/// Every connection of the description is covered by a plan entry: some
/// entry holds both of its pins.
pub proof fn lemma_connection_covered(
    d: Description,
    groups: Seq<Seq<PinId>>,
    maps: Seq<PinMap>,
    k: int,
)
    requires
        components(d.connections, groups),
        plan_spec(d, groups, maps) is Ok,
        0 <= k < d.connections.len(),
    ensures
        exists|g: int|
            0 <= g < groups.len() && #[trigger] connection_pins(
                planned(d, groups, maps)[g],
            ).contains(d.connections[k].0) && connection_pins(
                planned(d, groups, maps)[g],
            ).contains(d.connections[k].1),
{
    assert(share_group(groups, d.connections[k]));
    let g = choose|g: int|
        0 <= g < groups.len() && #[trigger] groups[g].contains(d.connections[k].0)
            && groups[g].contains(d.connections[k].1);
    lemma_entry_holds_group(d, groups, maps, g, d.connections[k].0);
    lemma_entry_holds_group(d, groups, maps, g, d.connections[k].1);
}

/// No pin appears in two plan entries.
pub proof fn lemma_entries_disjoint(
    d: Description,
    groups: Seq<Seq<PinId>>,
    maps: Seq<PinMap>,
    g: int,
    h: int,
    p: PinId,
)
    requires
        components(d.connections, groups),
        plan_spec(d, groups, maps) is Ok,
        0 <= g < groups.len(),
        0 <= h < groups.len(),
        connection_pins(planned(d, groups, maps)[g]).contains(p),
        connection_pins(planned(d, groups, maps)[h]).contains(p),
    ensures
        g == h,
{
    lemma_entry_holds_group(d, groups, maps, g, p);
    lemma_entry_holds_group(d, groups, maps, h, p);
}

/// On a board that was built, every pin of the plan is a pin of one of the
/// board's chips, so that no value is lost on its way.
pub proof fn lemma_plan_pins_exist<C: ChipInterface>(
    d: Description,
    groups: Seq<Seq<PinId>>,
    chips: Seq<C>,
    g: int,
    p: PinId,
)
    requires
        components(d.connections, groups),
        plan_spec(d, groups, pin_maps(chips)) is Ok,
        0 <= g < groups.len(),
        connection_pins(planned(d, groups, pin_maps(chips))[g]).contains(p),
    ensures
        pin_spec::<C>(d.chips, states(chips), p) is Some,
{
    let maps = pin_maps(chips);
    lemma_entry_holds_group(d, groups, maps, g, p);
    lemma_plan_iff_checks(d, groups, maps);
    assert(is_endpoint(d.connections, p));
    let k = choose|k: int| 0 <= k < d.connections.len() && ((#[trigger] d.connections[k]).0 == p
        || d.connections[k].1 == p);
    assert(crate::plan::fits(
        meta(d.chips, maps, d.connections[k].0),
        meta(d.chips, maps, d.connections[k].1),
    ));
    assert(meta(d.chips, maps, p) is Some);
}

} // verus!
