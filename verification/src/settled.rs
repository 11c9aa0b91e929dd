//! Steps that change nothing: a board whose chips do nothing on a tick, and
//! whose connections already hold the values that would travel across them,
//! stays as it is.

use vstd::prelude::*;
use crate::board::{
    broadcast, carry, deliver, evaluate, find_active, is_tristated, propagate, read_pin, step,
    write_pin,
};
use crate::traits::{ChipInterface, Connection, HardwareModule, PinId};

verus! {

/// Every chip does nothing on a tick, and its tick does not fail.
pub open spec fn idle<C: HardwareModule>(chips: Seq<C::State>) -> bool {
    forall|i: int|
        0 <= i < chips.len() ==> C::ticked(#[trigger] chips[i]) == chips[i] && C::fault(chips[i])
            is None
}

/// Every value that would travel across the connection is already there:
/// each write that carrying would make leaves the chips as they are, and no
/// two producers of a tristated bus are active together.
pub open spec fn settled_connection<C: ChipInterface>(
    names: Seq<Seq<char>>,
    chips: Seq<C::State>,
    connection: Connection,
) -> bool {
    match connection {
        Connection::Pair { source, destination } => match read_pin::<C>(names, chips, source) {
            Some(v) => write_pin::<C>(names, chips, destination, v) == chips,
            None => true,
        },
        Connection::Broadcast { source, destinations } => match read_pin::<C>(
            names,
            chips,
            source,
        ) {
            Some(v) => forall|k: int|
                0 <= k < destinations.len() && #[trigger] destinations[k] != source
                    ==> write_pin::<C>(names, chips, destinations[k], v) == chips,
            None => true,
        },
        Connection::Tristated { sources, destinations } => match find_active::<C>(
            names,
            chips,
            sources,
            0,
            None,
        ) {
            Err(_) => false,
            Ok(None) => true,
            Ok(Some(a)) => match read_pin::<C>(names, chips, a) {
                Some(v) => forall|k: int|
                    0 <= k < destinations.len() && #[trigger] destinations[k] != a
                        && !is_tristated::<C>(names, chips, destinations[k]) ==> write_pin::<C>(
                        names,
                        chips,
                        destinations[k],
                        v,
                    ) == chips,
                None => true,
            },
        },
    }
}

/// Every connection of the plan is settled.
pub open spec fn settled<C: ChipInterface>(
    names: Seq<Seq<char>>,
    chips: Seq<C::State>,
    plan: Seq<Connection>,
) -> bool {
    forall|k: int| 0 <= k < plan.len() ==> settled_connection::<C>(names, chips, #[trigger] plan[k])
}

/// Letting idle chips tick changes nothing.
pub proof fn lemma_evaluate_idle<C: HardwareModule>(chips: Seq<C::State>, i: int)
    requires
        idle::<C>(chips),
    ensures
        evaluate::<C>(chips, i) == (chips, None::<(PinId, PinId)>),
    decreases chips.len() - i,
{
    if 0 <= i < chips.len() {
        assert(chips.update(i, C::ticked(chips[i])) =~= chips);
        lemma_evaluate_idle::<C>(chips, i + 1);
    }
}

proof fn lemma_broadcast_quiet<C: ChipInterface>(
    names: Seq<Seq<char>>,
    chips: Seq<C::State>,
    source: PinId,
    destinations: Seq<PinId>,
    v: C::Value,
    k: int,
)
    requires
        forall|j: int|
            0 <= j < destinations.len() && #[trigger] destinations[j] != source ==> write_pin::<C>(
                names,
                chips,
                destinations[j],
                v,
            ) == chips,
    ensures
        broadcast::<C>(names, chips, source, destinations, v, k) == chips,
    decreases destinations.len() - k,
{
    if 0 <= k < destinations.len() {
        lemma_broadcast_quiet::<C>(names, chips, source, destinations, v, k + 1);
    }
}

proof fn lemma_deliver_quiet<C: ChipInterface>(
    names: Seq<Seq<char>>,
    chips: Seq<C::State>,
    active: PinId,
    destinations: Seq<PinId>,
    v: C::Value,
    k: int,
)
    requires
        forall|j: int|
            0 <= j < destinations.len() && #[trigger] destinations[j] != active
                && !is_tristated::<C>(names, chips, destinations[j]) ==> write_pin::<C>(
                names,
                chips,
                destinations[j],
                v,
            ) == chips,
    ensures
        deliver::<C>(names, chips, active, destinations, v, k) == chips,
    decreases destinations.len() - k,
{
    if 0 <= k < destinations.len() {
        lemma_deliver_quiet::<C>(names, chips, active, destinations, v, k + 1);
    }
}

/// Carrying values across a settled connection changes nothing.
pub proof fn lemma_carry_settled<C: ChipInterface>(
    names: Seq<Seq<char>>,
    chips: Seq<C::State>,
    connection: Connection,
)
    requires
        settled_connection::<C>(names, chips, connection),
    ensures
        carry::<C>(names, chips, connection) == (chips, None::<(PinId, PinId)>),
{
    match connection {
        Connection::Pair { source, destination } => {},
        Connection::Broadcast { source, destinations } => {
            match read_pin::<C>(names, chips, source) {
                Some(v) => {
                    lemma_broadcast_quiet::<C>(names, chips, source, destinations, v, 0);
                },
                None => {},
            }
        },
        Connection::Tristated { sources, destinations } => {
            match find_active::<C>(names, chips, sources, 0, None) {
                Ok(Some(a)) => {
                    match read_pin::<C>(names, chips, a) {
                        Some(v) => {
                            lemma_deliver_quiet::<C>(names, chips, a, destinations, v, 0);
                        },
                        None => {},
                    }
                },
                _ => {},
            }
        },
    }
}

/// Carrying values across a settled plan changes nothing.
pub proof fn lemma_propagate_settled<C: ChipInterface>(
    names: Seq<Seq<char>>,
    chips: Seq<C::State>,
    plan: Seq<Connection>,
    k: int,
)
    requires
        settled::<C>(names, chips, plan),
    ensures
        propagate::<C>(names, chips, plan, k) == (chips, None::<(PinId, PinId)>),
    decreases plan.len() - k,
{
    if 0 <= k < plan.len() {
        lemma_carry_settled::<C>(names, chips, plan[k]);
        lemma_propagate_settled::<C>(names, chips, plan, k + 1);
    }
}

/// A step of a settled board whose chips do nothing on a tick leaves every
/// chip, and so every pin value, as it is, and does not fail.
pub proof fn lemma_idle_step<C: HardwareModule>(
    names: Seq<Seq<char>>,
    chips: Seq<C::State>,
    plan: Seq<Connection>,
)
    requires
        idle::<C>(chips),
        settled::<C>(names, chips, plan),
    ensures
        step::<C>(names, chips, plan) == (chips, None::<(PinId, PinId)>),
{
    lemma_evaluate_idle::<C>(chips, 0);
    lemma_propagate_settled::<C>(names, chips, plan, 0);
}

/// A step of a board without connections only lets the chips tick.
pub proof fn lemma_step_without_connections<C: HardwareModule>(
    names: Seq<Seq<char>>,
    chips: Seq<C::State>,
    plan: Seq<Connection>,
)
    requires
        plan.len() == 0,
    ensures
        step::<C>(names, chips, plan) == evaluate::<C>(chips, 0),
{
}

} // verus!
