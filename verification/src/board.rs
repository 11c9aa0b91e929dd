//! The board at run time: chips under their names, the connection plan, and
//! the tick that evaluates every chip and then carries values across the
//! connections.

use vstd::prelude::*;
use crate::description::{
    first_true, is_first_true, lemma_first_true, lemma_none_true, lemma_some_first,
};
use crate::plan::{name_flags, PinTable};
use crate::traits::lists;
use crate::plan::{lookup, lookup_pin, position, position_of};
use crate::syntax::{ExposedPins, Exposure};
use crate::traits::{
    BusContention, Chip, ChipInterface, ChipPin, ConnectedPins, Connection, HardwareModule, PinId,
    PinMetadata, PinSpec,
};

verus! {

/// The abstract states of a list of chips.
pub open spec fn states<C: ChipInterface>(chips: Seq<C>) -> Seq<C::State> {
    Seq::new(chips.len(), |i: int| chips[i].state())
}

/// Every chip of the list keeps its invariant.
pub open spec fn all_inv<C: ChipInterface>(chips: Seq<C::State>) -> bool {
    forall|i: int| 0 <= i < chips.len() ==> C::inv(#[trigger] chips[i])
}

/// Both lists hold as many chips, and each chip has the same pins in both.
pub open spec fn same_pins<C: ChipInterface>(a: Seq<C::State>, b: Seq<C::State>) -> bool {
    &&& a.len() == b.len()
    &&& forall|i: int| 0 <= i < a.len() ==> C::pins(#[trigger] a[i]) == C::pins(b[i])
}

/// The value on a pin of a board, if the board has such a pin. `names` holds
/// the name of each chip, `chips` the state of each.
pub open spec fn read_pin<C: ChipInterface>(
    names: Seq<Seq<char>>,
    chips: Seq<C::State>,
    p: PinId,
) -> Option<C::Value> {
    match position(names, p.0) {
        Some(i) => if i < chips.len() && C::pins(chips[i]).contains_key(p.1) {
            Some(C::value(chips[i], p.1))
        } else {
            None
        },
        None => None,
    }
}

/// The chips after `v` has been written to a pin of a board. Nothing changes
/// when no chip has the pin's chip name.
pub open spec fn write_pin<C: ChipInterface>(
    names: Seq<Seq<char>>,
    chips: Seq<C::State>,
    p: PinId,
    v: C::Value,
) -> Seq<C::State> {
    match position(names, p.0) {
        Some(i) => if i < chips.len() {
            chips.update(i, C::written(chips[i], p.1, v))
        } else {
            chips
        },
        None => chips,
    }
}

/// Reads the value on a pin of a board.
pub fn read<C: ChipInterface>(names: &Vec<String>, chips: &Vec<C>, p: &ChipPin) -> (r: Option<
    C::Value,
>)
    requires
        all_inv::<C>(states(chips@)),
    ensures
        r == read_pin::<C>(names.deep_view(), states(chips@), p@),
{
    match position_of(names, p.chip.as_str()) {
        Some(i) => {
            if i < chips.len() {
                assert(C::inv(states(chips@)[i as int]));
                chips[i].get_pin_value(p.pin.as_str())
            } else {
                None
            }
        },
        None => None,
    }
}

/// Writes a value to a pin of a board.
pub fn write<C: ChipInterface>(names: &Vec<String>, chips: &mut Vec<C>, p: &ChipPin, v: &C::Value)
    requires
        all_inv::<C>(states(old(chips)@)),
    ensures
        all_inv::<C>(states(final(chips)@)),
        final(chips)@.len() == old(chips)@.len(),
        same_pins::<C>(states(old(chips)@), states(final(chips)@)),
        states(final(chips)@) == write_pin::<C>(names.deep_view(), states(old(chips)@), p@, *v),
{
    match position_of(names, p.chip.as_str()) {
        Some(i) => {
            if i < chips.len() {
                let ghost before = states(chips@);
                assert(C::inv(before[i as int]));
                chips[i].set_pin_value(p.pin.as_str(), v);
                assert(states(chips@) =~= before.update(
                    i as int,
                    C::written(before[i as int], p@.1, *v),
                ));
            }
        },
        None => {},
    }
}

/// The chips after `v` has gone to the destinations from index `k` on, but
/// for the source itself.
pub open spec fn broadcast<C: ChipInterface>(
    names: Seq<Seq<char>>,
    chips: Seq<C::State>,
    source: PinId,
    destinations: Seq<PinId>,
    v: C::Value,
    k: int,
) -> Seq<C::State>
    decreases destinations.len() - k,
{
    if k < 0 || k >= destinations.len() {
        chips
    } else if destinations[k] == source {
        broadcast::<C>(names, chips, source, destinations, v, k + 1)
    } else {
        broadcast::<C>(
            names,
            write_pin::<C>(names, chips, destinations[k], v),
            source,
            destinations,
            v,
            k + 1,
        )
    }
}

/// The pin drives its bus: it is neither inactive nor oriented as an input.
pub open spec fn is_active<C: ChipInterface>(
    names: Seq<Seq<char>>,
    chips: Seq<C::State>,
    p: PinId,
) -> bool {
    match position(names, p.0) {
        Some(i) => i < chips.len() && !C::input_mode(chips[i], p.1) && !C::tristated(
            chips[i],
            p.1,
        ),
        None => false,
    }
}

/// The pin is currently inactive.
pub open spec fn is_tristated<C: ChipInterface>(
    names: Seq<Seq<char>>,
    chips: Seq<C::State>,
    p: PinId,
) -> bool {
    match position(names, p.0) {
        Some(i) => i < chips.len() && C::tristated(chips[i], p.1),
        None => false,
    }
}

/// The one active producer among the sources from index `k` on, given the
/// one found before them; or, where two are active, the first two of them.
pub open spec fn find_active<C: ChipInterface>(
    names: Seq<Seq<char>>,
    chips: Seq<C::State>,
    sources: Seq<PinId>,
    k: int,
    found: Option<PinId>,
) -> Result<Option<PinId>, (PinId, PinId)>
    decreases sources.len() - k,
{
    if k < 0 || k >= sources.len() {
        Ok(found)
    } else if is_active::<C>(names, chips, sources[k]) {
        match found {
            Some(a) => Err((a, sources[k])),
            None => find_active::<C>(names, chips, sources, k + 1, Some(sources[k])),
        }
    } else {
        find_active::<C>(names, chips, sources, k + 1, found)
    }
}

/// The chips after the value `v` of the active producer has gone to the
/// destinations from index `k` on, but for the producer itself and for the
/// destinations that are inactive when their turn comes.
pub open spec fn deliver<C: ChipInterface>(
    names: Seq<Seq<char>>,
    chips: Seq<C::State>,
    active: PinId,
    destinations: Seq<PinId>,
    v: C::Value,
    k: int,
) -> Seq<C::State>
    decreases destinations.len() - k,
{
    if k < 0 || k >= destinations.len() {
        chips
    } else if destinations[k] == active || is_tristated::<C>(names, chips, destinations[k]) {
        deliver::<C>(names, chips, active, destinations, v, k + 1)
    } else {
        deliver::<C>(
            names,
            write_pin::<C>(names, chips, destinations[k], v),
            active,
            destinations,
            v,
            k + 1,
        )
    }
}

/// The chips after values have travelled across one connection, and the two
/// producers of a tristated bus that were found active together, if any. A
/// pair copies its source to its destination; a broadcast copies its source
/// to every other pin; a tristated bus copies its one active producer to the
/// consumers that are not inactive, and does nothing when no producer is
/// active.
pub open spec fn carry<C: ChipInterface>(
    names: Seq<Seq<char>>,
    chips: Seq<C::State>,
    connection: Connection,
) -> (Seq<C::State>, Option<(PinId, PinId)>) {
    match connection {
        Connection::Pair { source, destination } => match read_pin::<C>(names, chips, source) {
            Some(v) => (write_pin::<C>(names, chips, destination, v), None),
            None => (chips, None),
        },
        Connection::Broadcast { source, destinations } => match read_pin::<C>(
            names,
            chips,
            source,
        ) {
            Some(v) => (broadcast::<C>(names, chips, source, destinations, v, 0), None),
            None => (chips, None),
        },
        Connection::Tristated { sources, destinations } => match find_active::<C>(
            names,
            chips,
            sources,
            0,
            None,
        ) {
            Err(f) => (chips, Some(f)),
            Ok(None) => (chips, None),
            Ok(Some(a)) => match read_pin::<C>(names, chips, a) {
                Some(v) => (deliver::<C>(names, chips, a, destinations, v, 0), None),
                None => (chips, None),
            },
        },
    }
}

/// The chips after values have travelled across the connections of a plan
/// from index `k` on, in the plan's order, up to the first bus contention.
pub open spec fn propagate<C: ChipInterface>(
    names: Seq<Seq<char>>,
    chips: Seq<C::State>,
    plan: Seq<Connection>,
    k: int,
) -> (Seq<C::State>, Option<(PinId, PinId)>)
    decreases plan.len() - k,
{
    if k < 0 || k >= plan.len() {
        (chips, None)
    } else {
        let (next, fault) = carry::<C>(names, chips, plan[k]);
        if fault is Some {
            (next, fault)
        } else {
            propagate::<C>(names, next, plan, k + 1)
        }
    }
}

/// The chips after each chip from index `i` on has ticked, in order, up to
/// the first chip whose tick fails.
pub open spec fn evaluate<C: HardwareModule>(chips: Seq<C::State>, i: int) -> (
    Seq<C::State>,
    Option<(PinId, PinId)>,
)
    decreases chips.len() - i,
{
    if i < 0 || i >= chips.len() {
        (chips, None)
    } else {
        let next = chips.update(i, C::ticked(chips[i]));
        if C::fault(chips[i]) is Some {
            (next, C::fault(chips[i]))
        } else {
            evaluate::<C>(next, i + 1)
        }
    }
}

/// One simulation step: every chip ticks, then values travel across the
/// connections. A failing tick or a bus contention ends the step at once.
pub open spec fn step<C: HardwareModule>(
    names: Seq<Seq<char>>,
    chips: Seq<C::State>,
    plan: Seq<Connection>,
) -> (Seq<C::State>, Option<(PinId, PinId)>) {
    let (evaluated, fault) = evaluate::<C>(chips, 0);
    if fault is Some {
        (evaluated, fault)
    } else {
        propagate::<C>(names, evaluated, plan, 0)
    }
}

fn broadcast_value<C: ChipInterface>(
    names: &Vec<String>,
    chips: &mut Vec<C>,
    source: &ChipPin,
    destinations: &Vec<ChipPin>,
    v: &C::Value,
)
    requires
        all_inv::<C>(states(old(chips)@)),
    ensures
        all_inv::<C>(states(final(chips)@)),
        final(chips)@.len() == old(chips)@.len(),
        same_pins::<C>(states(old(chips)@), states(final(chips)@)),
        states(final(chips)@) == broadcast::<C>(
            names.deep_view(),
            states(old(chips)@),
            source@,
            destinations.deep_view(),
            *v,
            0,
        ),
{
    let ghost start = states(chips@);
    let mut k: usize = 0;
    while k < destinations.len()
        invariant
            k <= destinations.len(),
            all_inv::<C>(states(chips@)),
            chips@.len() == old(chips)@.len(),
            same_pins::<C>(states(old(chips)@), states(chips@)),
            broadcast::<C>(names.deep_view(), start, source@, destinations.deep_view(), *v, 0)
                == broadcast::<C>(
                names.deep_view(),
                states(chips@),
                source@,
                destinations.deep_view(),
                *v,
                k as int,
            ),
        decreases destinations.len() - k,
    {
        if !(destinations[k] == *source) {
            write(names, chips, &destinations[k], v);
        }
        k = k + 1;
    }
}

fn pin_active<C: ChipInterface>(names: &Vec<String>, chips: &Vec<C>, p: &ChipPin) -> (r: bool)
    requires
        all_inv::<C>(states(chips@)),
    ensures
        r == is_active::<C>(names.deep_view(), states(chips@), p@),
{
    match position_of(names, p.chip.as_str()) {
        Some(i) => {
            if i < chips.len() {
                assert(C::inv(states(chips@)[i as int]));
                !chips[i].in_input_mode(p.pin.as_str()) && !chips[i].is_pin_tristated(
                    p.pin.as_str(),
                )
            } else {
                false
            }
        },
        None => false,
    }
}

fn pin_tristated<C: ChipInterface>(names: &Vec<String>, chips: &Vec<C>, p: &ChipPin) -> (r: bool)
    requires
        all_inv::<C>(states(chips@)),
    ensures
        r == is_tristated::<C>(names.deep_view(), states(chips@), p@),
        r ==> (pin_spec::<C>(names.deep_view(), states(chips@), p@) matches Some(m)
            && m.tristatable),
{
    match position_of(names, p.chip.as_str()) {
        Some(i) => {
            if i < chips.len() {
                assert(C::inv(states(chips@)[i as int]));
                chips[i].is_pin_tristated(p.pin.as_str())
            } else {
                false
            }
        },
        None => false,
    }
}

fn active_source<C: ChipInterface>(
    names: &Vec<String>,
    chips: &Vec<C>,
    sources: &Vec<ChipPin>,
) -> (r: Result<Option<usize>, BusContention>)
    requires
        all_inv::<C>(states(chips@)),
    ensures
        match r {
            Ok(Some(a)) => a < sources.len() && find_active::<C>(
                names.deep_view(),
                states(chips@),
                sources.deep_view(),
                0,
                None,
            ) == Ok::<Option<PinId>, (PinId, PinId)>(Some(sources@[a as int]@)),
            Ok(None) => find_active::<C>(
                names.deep_view(),
                states(chips@),
                sources.deep_view(),
                0,
                None,
            ) == Ok::<Option<PinId>, (PinId, PinId)>(None),
            Err(e) => find_active::<C>(
                names.deep_view(),
                states(chips@),
                sources.deep_view(),
                0,
                None,
            ) == Err::<Option<PinId>, (PinId, PinId)>(e@),
        },
{
    let mut found: Option<usize> = None;
    let mut k: usize = 0;
    while k < sources.len()
        invariant
            k <= sources.len(),
            all_inv::<C>(states(chips@)),
            found matches Some(a) ==> a < sources.len(),
            find_active::<C>(names.deep_view(), states(chips@), sources.deep_view(), 0, None)
                == find_active::<C>(
                names.deep_view(),
                states(chips@),
                sources.deep_view(),
                k as int,
                match found {
                    Some(a) => Some(sources@[a as int]@),
                    None => None,
                },
            ),
        decreases sources.len() - k,
    {
        if pin_active(names, chips, &sources[k]) {
            match found {
                Some(a) => {
                    return Err(
                        BusContention { active: sources[a].clone(), other: sources[k].clone() },
                    );
                },
                None => {
                    found = Some(k);
                },
            }
        }
        k = k + 1;
    }
    Ok(found)
}

fn deliver_value<C: ChipInterface>(
    names: &Vec<String>,
    chips: &mut Vec<C>,
    active: &ChipPin,
    destinations: &Vec<ChipPin>,
    v: &C::Value,
)
    requires
        all_inv::<C>(states(old(chips)@)),
    ensures
        all_inv::<C>(states(final(chips)@)),
        final(chips)@.len() == old(chips)@.len(),
        same_pins::<C>(states(old(chips)@), states(final(chips)@)),
        states(final(chips)@) == deliver::<C>(
            names.deep_view(),
            states(old(chips)@),
            active@,
            destinations.deep_view(),
            *v,
            0,
        ),
{
    let ghost start = states(chips@);
    let mut k: usize = 0;
    while k < destinations.len()
        invariant
            k <= destinations.len(),
            all_inv::<C>(states(chips@)),
            chips@.len() == old(chips)@.len(),
            same_pins::<C>(states(old(chips)@), states(chips@)),
            deliver::<C>(names.deep_view(), start, active@, destinations.deep_view(), *v, 0)
                == deliver::<C>(
                names.deep_view(),
                states(chips@),
                active@,
                destinations.deep_view(),
                *v,
                k as int,
            ),
        decreases destinations.len() - k,
    {
        if !(destinations[k] == *active) && !pin_tristated(names, chips, &destinations[k]) {
            write(names, chips, &destinations[k], v);
        }
        k = k + 1;
    }
}

/// Carries values across one connection.
pub fn carry_values<C: ChipInterface>(
    names: &Vec<String>,
    chips: &mut Vec<C>,
    connection: &ConnectedPins,
) -> (r: Result<(), BusContention>)
    requires
        all_inv::<C>(states(old(chips)@)),
    ensures
        all_inv::<C>(states(final(chips)@)),
        final(chips)@.len() == old(chips)@.len(),
        same_pins::<C>(states(old(chips)@), states(final(chips)@)),
        states(final(chips)@) == carry::<C>(names.deep_view(), states(old(chips)@), connection@).0,
        match r {
            Ok(_) => carry::<C>(names.deep_view(), states(old(chips)@), connection@).1 is None,
            Err(e) => carry::<C>(names.deep_view(), states(old(chips)@), connection@).1 == Some(
                e@,
            ),
        },
{
    match connection {
        ConnectedPins::Pair { source, destination } => {
            match read(names, chips, source) {
                Some(v) => {
                    write(names, chips, destination, &v);
                },
                None => {},
            }
            Ok(())
        },
        ConnectedPins::Broadcast { source, destinations } => {
            match read(names, chips, source) {
                Some(v) => {
                    broadcast_value(names, chips, source, destinations, &v);
                },
                None => {},
            }
            Ok(())
        },
        ConnectedPins::Tristated { sources, destinations } => {
            match active_source(names, chips, sources) {
                Err(e) => Err(e),
                Ok(None) => Ok(()),
                Ok(Some(a)) => {
                    match read(names, chips, &sources[a]) {
                        Some(v) => {
                            deliver_value(names, chips, &sources[a], destinations, &v);
                        },
                        None => {},
                    }
                    Ok(())
                },
            }
        },
    }
}

/// Carries values across the connections of a plan, in the plan's order.
pub fn run_plan<C: ChipInterface>(
    names: &Vec<String>,
    chips: &mut Vec<C>,
    plan: &Vec<ConnectedPins>,
) -> (r: Result<(), BusContention>)
    requires
        all_inv::<C>(states(old(chips)@)),
    ensures
        all_inv::<C>(states(final(chips)@)),
        final(chips)@.len() == old(chips)@.len(),
        same_pins::<C>(states(old(chips)@), states(final(chips)@)),
        states(final(chips)@) == propagate::<C>(
            names.deep_view(),
            states(old(chips)@),
            plan.deep_view(),
            0,
        ).0,
        match r {
            Ok(_) => propagate::<C>(
                names.deep_view(),
                states(old(chips)@),
                plan.deep_view(),
                0,
            ).1 is None,
            Err(e) => propagate::<C>(
                names.deep_view(),
                states(old(chips)@),
                plan.deep_view(),
                0,
            ).1 == Some(e@),
        },
{
    let ghost start = states(chips@);
    let mut k: usize = 0;
    while k < plan.len()
        invariant
            k <= plan.len(),
            all_inv::<C>(states(chips@)),
            chips@.len() == old(chips)@.len(),
            same_pins::<C>(states(old(chips)@), states(chips@)),
            start == states(old(chips)@),
            propagate::<C>(names.deep_view(), start, plan.deep_view(), 0) == propagate::<C>(
                names.deep_view(),
                states(chips@),
                plan.deep_view(),
                k as int,
            ),
        decreases plan.len() - k,
    {
        assert(plan.deep_view()[k as int] == plan@[k as int]@);
        match carry_values(names, chips, &plan[k]) {
            Ok(_) => {},
            Err(e) => {
                return Err(e);
            },
        }
        k = k + 1;
    }
    Ok(())
}

/// Lets every chip tick, in order.
pub fn tick_all<C: HardwareModule>(chips: &mut Vec<C>) -> (r: Result<(), BusContention>)
    requires
        all_inv::<C>(states(old(chips)@)),
    ensures
        all_inv::<C>(states(final(chips)@)),
        final(chips)@.len() == old(chips)@.len(),
        same_pins::<C>(states(old(chips)@), states(final(chips)@)),
        states(final(chips)@) == evaluate::<C>(states(old(chips)@), 0).0,
        match r {
            Ok(_) => evaluate::<C>(states(old(chips)@), 0).1 is None,
            Err(e) => evaluate::<C>(states(old(chips)@), 0).1 == Some(e@),
        },
{
    let ghost start = states(chips@);
    let mut i: usize = 0;
    while i < chips.len()
        invariant
            i <= chips.len(),
            all_inv::<C>(states(chips@)),
            chips@.len() == old(chips)@.len(),
            same_pins::<C>(states(old(chips)@), states(chips@)),
            start == states(old(chips)@),
            evaluate::<C>(start, 0) == evaluate::<C>(states(chips@), i as int),
        decreases chips.len() - i,
    {
        let ghost before = states(chips@);
        assert(C::inv(before[i as int]));
        let outcome = chips[i].tick();
        assert(states(chips@) =~= before.update(i as int, C::ticked(before[i as int])));
        match outcome {
            Ok(_) => {},
            Err(e) => {
                return Err(e);
            },
        }
        i = i + 1;
    }
    Ok(())
}

/// Chips wired together: the chips under their names, the connection plan,
/// and the pins shown on the board's own boundary.
pub struct Board<C> {
    pub names: Vec<String>,
    pub chips: Vec<C>,
    pub pin_connections: Vec<ConnectedPins>,
    pub exposed_pins: Vec<ExposedPins>,
}

/// What the contracts see of a board.
pub struct BoardState<S> {
    pub names: Seq<Seq<char>>,
    pub chips: Seq<S>,
    pub plan: Seq<Connection>,
    pub exposes: Seq<Exposure>,
}

/// For each expose entry, whether its external name is `name`.
pub open spec fn expose_flags(exposes: Seq<Exposure>, name: Seq<char>) -> Seq<bool> {
    Seq::new(exposes.len(), |e: int| exposes[e].as_name == name)
}

/// The metadata of a pin of a board, if the board has such a pin.
pub open spec fn pin_spec<C: ChipInterface>(
    names: Seq<Seq<char>>,
    chips: Seq<C::State>,
    p: PinId,
) -> Option<PinSpec> {
    match position(names, p.0) {
        Some(i) => if i < chips.len() && C::pins(chips[i]).contains_key(p.1) {
            Some(C::pins(chips[i])[p.1])
        } else {
            None
        },
        None => None,
    }
}

/// The pin is currently oriented as an input.
pub open spec fn is_input_mode<C: ChipInterface>(
    names: Seq<Seq<char>>,
    chips: Seq<C::State>,
    p: PinId,
) -> bool {
    match position(names, p.0) {
        Some(i) => i < chips.len() && C::input_mode(chips[i], p.1),
        None => false,
    }
}

/// The chips after `v` has been written to the pins from index `k` on that
/// are not inactive when their turn comes.
pub open spec fn forward<C: ChipInterface>(
    names: Seq<Seq<char>>,
    chips: Seq<C::State>,
    pins: Seq<PinId>,
    v: C::Value,
    k: int,
) -> Seq<C::State>
    decreases pins.len() - k,
{
    if k < 0 || k >= pins.len() {
        chips
    } else if is_tristated::<C>(names, chips, pins[k]) {
        forward::<C>(names, chips, pins, v, k + 1)
    } else {
        forward::<C>(names, write_pin::<C>(names, chips, pins[k], v), pins, v, k + 1)
    }
}

/// The expose entry that stands for the external name `name`: the first
/// entry under that name, provided the board has the entry's first pin.
pub open spec fn shown<C: ChipInterface>(s: BoardState<C::State>, name: Seq<char>) -> Option<int> {
    match first_true(expose_flags(s.exposes, name)) {
        Some(e) => if s.exposes[e].pins.len() > 0 && pin_spec::<C>(
            s.names,
            s.chips,
            s.exposes[e].pins[0],
        ) is Some {
            Some(e)
        } else {
            None
        },
        None => None,
    }
}

impl<C: ChipInterface> Board<C> {
    fn shown_entry(&self, name: &str) -> (r: Option<usize>)
        requires
            all_inv::<C>(states(self.chips@)),
        ensures
            match r {
                Some(e) => e < self.exposed_pins.len() && self.exposed_pins@[e as int].pins.len()
                    > 0 && shown::<C>(self.board_state(), name@) == Some(e as int),
                None => shown::<C>(self.board_state(), name@) is None,
            },
    {
        let ghost flags = expose_flags(self.exposed_pins.deep_view(), name@);
        let mut e: usize = 0;
        while e < self.exposed_pins.len()
            invariant
                e <= self.exposed_pins.len(),
                all_inv::<C>(states(self.chips@)),
                flags == expose_flags(self.exposed_pins.deep_view(), name@),
                forall|k: int| 0 <= k < e ==> !flags[k],
            decreases self.exposed_pins.len() - e,
        {
            if crate::text::same_text(self.exposed_pins[e].as_name.as_str(), name) {
                proof {
                    assert(is_first_true(flags, e as int));
                    lemma_first_true(flags, e as int);
                }
                let entry = &self.exposed_pins[e];
                if entry.pins.len() > 0 && read(&self.names, &self.chips, &entry.pins[0]).is_some() {
                    return Some(e);
                } else {
                    return None;
                }
            }
            e = e + 1;
        }
        proof {
            lemma_none_true(flags);
        }
        None
    }

    /// The board's abstract state.
    pub open spec fn board_state(&self) -> BoardState<C::State> {
        BoardState {
            names: self.names.deep_view(),
            chips: states(self.chips@),
            plan: self.pin_connections.deep_view(),
            exposes: self.exposed_pins.deep_view(),
        }
    }
}

/// Looking a name up in a chip's pin list gives what the chip's pins hold.
pub proof fn lemma_lookup_lists(table: PinTable, pins: Map<Seq<char>, PinSpec>, name: Seq<char>)
    requires
        lists(table, pins),
    ensures
        lookup(table, name) == if pins.contains_key(name) {
            Some(pins[name])
        } else {
            None
        },
{
    let flags = name_flags(table, name);
    if pins.contains_key(name) {
        let i = choose|i: int| 0 <= i < table.len() && #[trigger] table[i].0 == name;
        assert(flags[i]);
        lemma_some_first(flags, i);
        let c = first_true(flags)->0;
        assert(is_first_true(flags, c));
        assert(table[c].0 == name);
    } else {
        assert forall|j: int| 0 <= j < flags.len() implies !flags[j] by {
            if flags[j] {
                assert(pins.contains_key(table[j].0));
            }
        }
        lemma_none_true(flags);
    }
}

/// Finds the metadata of a pin of a board.
pub fn pin_metadata<C: ChipInterface>(names: &Vec<String>, chips: &Vec<C>, p: &ChipPin) -> (r:
    Option<PinMetadata>)
    requires
        all_inv::<C>(states(chips@)),
    ensures
        r.deep_view() == pin_spec::<C>(names.deep_view(), states(chips@), p@),
{
    match position_of(names, p.chip.as_str()) {
        Some(i) => {
            if i < chips.len() {
                assert(C::inv(states(chips@)[i as int]));
                let table = chips[i].get_pin_list();
                proof {
                    lemma_lookup_lists(table.deep_view(), C::pins(chips@[i as int].state()), p@.1);
                }
                lookup_pin(&table, p.pin.as_str())
            } else {
                None
            }
        },
        None => None,
    }
}

/// The pins that a board shows on its own boundary: one for each external
/// name, with the metadata of the first internal pin exposed under the name.
pub open spec fn board_pins<C: ChipInterface>(s: BoardState<C::State>) -> Map<Seq<char>, PinSpec> {
    Map::new(
        |name: Seq<char>| shown::<C>(s, name) is Some,
        |name: Seq<char>|
            pin_spec::<C>(
                s.names,
                s.chips,
                s.exposes[shown::<C>(s, name).unwrap()].pins[0],
            ).unwrap(),
    )
}

/// A board whose chips have the same pins shows the same pins.
pub proof fn lemma_board_pins_kept<C: ChipInterface>(
    a: BoardState<C::State>,
    b: BoardState<C::State>,
)
    requires
        a.names == b.names,
        a.exposes == b.exposes,
        same_pins::<C>(a.chips, b.chips),
    ensures
        board_pins::<C>(a) == board_pins::<C>(b),
        forall|name: Seq<char>| shown::<C>(a, name) == shown::<C>(b, name),
{
    assert forall|p: PinId| pin_spec::<C>(a.names, a.chips, p) == pin_spec::<C>(
        b.names,
        b.chips,
        p,
    ) by {
        match position(a.names, p.0) {
            Some(i) => {
                if i < a.chips.len() {
                    let flags = crate::plan::chip_flags(a.names, p.0);
                    assert(is_first_true(flags, i));
                    assert(C::pins(a.chips[i]) == C::pins(b.chips[i]));
                }
            },
            None => {},
        }
    }
    assert forall|name: Seq<char>| shown::<C>(a, name) == shown::<C>(b, name) by {}
    assert(board_pins::<C>(a) =~= board_pins::<C>(b));
}

fn forward_value<C: ChipInterface>(
    names: &Vec<String>,
    chips: &mut Vec<C>,
    pins: &Vec<ChipPin>,
    v: &C::Value,
)
    requires
        all_inv::<C>(states(old(chips)@)),
    ensures
        all_inv::<C>(states(final(chips)@)),
        final(chips)@.len() == old(chips)@.len(),
        same_pins::<C>(states(old(chips)@), states(final(chips)@)),
        states(final(chips)@) == forward::<C>(
            names.deep_view(),
            states(old(chips)@),
            pins.deep_view(),
            *v,
            0,
        ),
{
    let ghost start = states(chips@);
    let mut k: usize = 0;
    while k < pins.len()
        invariant
            k <= pins.len(),
            all_inv::<C>(states(chips@)),
            chips@.len() == old(chips)@.len(),
            same_pins::<C>(states(old(chips)@), states(chips@)),
            forward::<C>(names.deep_view(), start, pins.deep_view(), *v, 0) == forward::<C>(
                names.deep_view(),
                states(chips@),
                pins.deep_view(),
                *v,
                k as int,
            ),
        decreases pins.len() - k,
    {
        if !pin_tristated(names, chips, &pins[k]) {
            write(names, chips, &pins[k], v);
        }
        k = k + 1;
    }
}

impl<C: ChipInterface> ChipInterface for Board<C> {
    type Value = C::Value;

    type State = BoardState<C::State>;

    open spec fn state(&self) -> BoardState<C::State> {
        self.board_state()
    }

    open spec fn inv(s: BoardState<C::State>) -> bool {
        all_inv::<C>(s.chips)
    }

    open spec fn pins(s: BoardState<C::State>) -> Map<Seq<char>, PinSpec> {
        board_pins::<C>(s)
    }

    open spec fn value(s: BoardState<C::State>, name: Seq<char>) -> C::Value {
        match shown::<C>(s, name) {
            Some(e) => match read_pin::<C>(s.names, s.chips, s.exposes[e].pins[0]) {
                Some(v) => v,
                None => arbitrary(),
            },
            None => arbitrary(),
        }
    }

    open spec fn tristated(s: BoardState<C::State>, name: Seq<char>) -> bool {
        match shown::<C>(s, name) {
            Some(e) => s.exposes[e].pins.len() == 1 && is_tristated::<C>(
                s.names,
                s.chips,
                s.exposes[e].pins[0],
            ),
            None => false,
        }
    }

    open spec fn input_mode(s: BoardState<C::State>, name: Seq<char>) -> bool {
        match shown::<C>(s, name) {
            Some(e) => if s.exposes[e].pins.len() == 1 {
                is_input_mode::<C>(s.names, s.chips, s.exposes[e].pins[0])
            } else {
                true
            },
            None => false,
        }
    }

    open spec fn written(s: BoardState<C::State>, name: Seq<char>, v: C::Value) -> BoardState<
        C::State,
    > {
        match shown::<C>(s, name) {
            Some(e) => BoardState {
                names: s.names,
                chips: forward::<C>(s.names, s.chips, s.exposes[e].pins, v, 0),
                plan: s.plan,
                exposes: s.exposes,
            },
            None => s,
        }
    }

    /// Gives each external name with the metadata of the first internal pin
    /// exposed under it.
    fn get_pin_list(&self) -> (r: Vec<(String, PinMetadata)>) {
        let ghost s = self.board_state();
        let mut list: Vec<(String, PinMetadata)> = Vec::new();
        let ghost mut origin: Seq<int> = Seq::empty();
        let mut e: usize = 0;
        while e < self.exposed_pins.len()
            invariant
                e <= self.exposed_pins.len(),
                s == self.board_state(),
                all_inv::<C>(states(self.chips@)),
                origin.len() == list.len(),
                forall|k: int|
                    0 <= k < list.len() ==> shown::<C>(s, #[trigger] list.deep_view()[k].0) == Some(
                        origin[k],
                    ) && origin[k] < e && board_pins::<C>(s)[list.deep_view()[k].0]
                        == list.deep_view()[k].1,
                forall|j: int, k: int| 0 <= j < k < origin.len() ==> origin[j] < origin[k],
                forall|k: int| 0 <= k < origin.len() ==> #[trigger] origin[k] < e,
                forall|f: int|
                    0 <= f < e && shown::<C>(s, s.exposes[f].as_name) == Some(f) ==> exists|k: int|
                        0 <= k < list.len() && #[trigger] list.deep_view()[k].0
                            == s.exposes[f].as_name,
            decreases self.exposed_pins.len() - e,
        {
            let entry = &self.exposed_pins[e];
            let ghost before = list.deep_view();
            let found = self.shown_entry(entry.as_name.as_str());
            let mut added = false;
            match found {
                Some(f) => {
                    if f == e {
                        match pin_metadata(&self.names, &self.chips, &entry.pins[0]) {
                            Some(m) => {
                                list.push((entry.as_name.clone(), m));
                                proof {
                                    origin = origin.push(e as int);
                                    assert(list.deep_view() =~= before.push((entry.as_name@, m@)));
                                }
                                added = true;
                            },
                            None => {},
                        }
                    }
                },
                None => {},
            }
            proof {
                let now = list.deep_view();
                assert forall|f: int|
                    0 <= f < e + 1 && shown::<C>(s, s.exposes[f].as_name) == Some(
                        f,
                    ) implies exists|k: int|
                    0 <= k < now.len() && #[trigger] now[k].0 == s.exposes[f].as_name by {
                    if f < e {
                        let k = choose|k: int|
                            0 <= k < before.len() && #[trigger] before[k].0
                                == s.exposes[f].as_name;
                        assert(now[k].0 == s.exposes[f].as_name);
                    } else {
                        assert(added);
                        assert(now[now.len() - 1].0 == s.exposes[f].as_name);
                    }
                }
            }
            e = e + 1;
        }
        proof {
            let now = list.deep_view();
            let pins = board_pins::<C>(s);
            assert forall|name: Seq<char>| #[trigger] pins.contains_key(name) implies exists|
                k: int,
            |
                0 <= k < now.len() && #[trigger] now[k].0 == name by {
                let f = shown::<C>(s, name).unwrap();
                let flags = expose_flags(s.exposes, name);
                assert(is_first_true(flags, f));
                assert(s.exposes[f].as_name == name);
            }
            assert forall|j: int, k: int| 0 <= j < k < now.len() implies #[trigger] now[j].0
                != #[trigger] now[k].0 by {
                assert(origin[j] < origin[k]);
            }
        }
        list
    }

    /// Returns the value on the first internal pin exposed under a name.
    fn get_pin_value(&self, name: &str) -> (r: Option<C::Value>) {
        match self.shown_entry(name) {
            Some(e) => read(&self.names, &self.chips, &self.exposed_pins[e].pins[0]),
            None => None,
        }
    }

    /// Writes a value to every internal pin exposed under a name that is not
    /// currently inactive.
    fn set_pin_value(&mut self, name: &str, val: &C::Value) {
        let ghost before = self.board_state();
        match self.shown_entry(name) {
            Some(e) => {
                forward_value(&self.names, &mut self.chips, &self.exposed_pins[e].pins, val);
                proof {
                    lemma_board_pins_kept::<C>(before, self.board_state());
                }
            },
            None => {},
        }
    }

    /// Forwards to the internal pin where one pin is exposed under the name;
    /// a name that stands for several inputs is never inactive.
    fn is_pin_tristated(&self, name: &str) -> (r: bool) {
        match self.shown_entry(name) {
            Some(e) => {
                let entry = &self.exposed_pins[e];
                if entry.pins.len() == 1 {
                    pin_tristated(&self.names, &self.chips, &entry.pins[0])
                } else {
                    false
                }
            },
            None => false,
        }
    }

    /// Forwards to the internal pin where one pin is exposed under the name;
    /// a name that stands for several inputs is always oriented as an input.
    fn in_input_mode(&self, name: &str) -> (r: bool) {
        match self.shown_entry(name) {
            Some(e) => {
                let entry = &self.exposed_pins[e];
                if entry.pins.len() == 1 {
                    pin_input_mode(&self.names, &self.chips, &entry.pins[0])
                } else {
                    true
                }
            },
            None => false,
        }
    }
}

fn pin_input_mode<C: ChipInterface>(names: &Vec<String>, chips: &Vec<C>, p: &ChipPin) -> (r: bool)
    requires
        all_inv::<C>(states(chips@)),
    ensures
        r == is_input_mode::<C>(names.deep_view(), states(chips@), p@),
{
    match position_of(names, p.chip.as_str()) {
        Some(i) => {
            if i < chips.len() {
                assert(C::inv(states(chips@)[i as int]));
                chips[i].in_input_mode(p.pin.as_str())
            } else {
                false
            }
        },
        None => false,
    }
}

impl<C: HardwareModule> Chip for Board<C> {
    open spec fn ticked(s: BoardState<C::State>) -> BoardState<C::State> {
        BoardState {
            names: s.names,
            chips: step::<C>(s.names, s.chips, s.plan).0,
            plan: s.plan,
            exposes: s.exposes,
        }
    }

    open spec fn fault(s: BoardState<C::State>) -> Option<(PinId, PinId)> {
        step::<C>(s.names, s.chips, s.plan).1
    }

    /// Advances the board by one step: every chip ticks, in the order of the
    /// roster, and then values travel across the connections, in the order
    /// of the plan. The step ends at once, with what it has done so far,
    /// when a chip's tick fails or two producers of a tristated bus are
    /// active together.
    fn tick(&mut self) -> (r: Result<(), BusContention>) {
        let ghost before = self.board_state();
        match tick_all(&mut self.chips) {
            Ok(_) => {},
            Err(e) => {
                proof {
                    lemma_board_pins_kept::<C>(before, self.board_state());
                }
                return Err(e);
            },
        }
        let ghost evaluated = self.board_state();
        let r = run_plan(&self.names, &mut self.chips, &self.pin_connections);
        proof {
            let after = self.board_state();
            assert(same_pins::<C>(before.chips, after.chips)) by {
                assert forall|i: int| 0 <= i < before.chips.len() implies C::pins(
                    #[trigger] before.chips[i],
                ) == C::pins(after.chips[i]) by {
                    assert(C::pins(before.chips[i]) == C::pins(evaluated.chips[i]));
                    assert(C::pins(evaluated.chips[i]) == C::pins(after.chips[i]));
                }
            }
            lemma_board_pins_kept::<C>(before, after);
        }
        r
    }
}

impl<C: ChipInterface> Board<C> {
    /// The chip called `chip`, if the board has one.
    pub fn get_chip(&self, chip: &str) -> (r: Option<&C>)
        ensures
            match position(self.names.deep_view(), chip@) {
                Some(i) => if i < self.chips@.len() {
                    r == Some(&self.chips@[i])
                } else {
                    r is None
                },
                None => r is None,
            },
    {
        match position_of(&self.names, chip) {
            Some(i) => {
                if i < self.chips.len() {
                    Some(&self.chips[i])
                } else {
                    None
                }
            },
            None => None,
        }
    }

    /// The chip called `chip`, for changing it, if the board has one.
    pub fn get_chip_mut(&mut self, chip: &str) -> (r: Option<&mut C>)
        ensures
            final(self).names == old(self).names,
            final(self).pin_connections == old(self).pin_connections,
            final(self).exposed_pins == old(self).exposed_pins,
            match position(old(self).names.deep_view(), chip@) {
                Some(i) => if i < old(self).chips@.len() {
                    r matches Some(c) && *c == old(self).chips@[i] && final(self).chips@ == old(
                        self,
                    ).chips@.update(i, *final(c))
                } else {
                    r is None && final(self).chips == old(self).chips
                },
                None => r is None && final(self).chips == old(self).chips,
            },
    {
        match position_of(&self.names, chip) {
            Some(i) => {
                if i < self.chips.len() {
                    Some(&mut self.chips[i])
                } else {
                    None
                }
            },
            None => None,
        }
    }
}

} // verus!
