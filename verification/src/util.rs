//! Classification of a group of shorted pins into a connection.

use vstd::prelude::*;
use crate::traits::{ChipPin, ConnectedPins, Connection, PinId, PinMetadata, PinSpec};

verus! {

/// Why a group of shorted pins cannot be turned into a connection.
#[derive(Debug, Clone, Copy, PartialEq, Eq, Structural)]
pub enum GroupError {
    /// Several pins produce, and not every pin of the group is tristatable.
    MultipleDrivers,
    /// Some pins of the group are tristatable and some are not.
    MixedTristate,
}

/// The pin identities of a list of pins with their metadata.
pub open spec fn pin_ids(pins: Seq<(PinId, PinSpec)>) -> Seq<PinId> {
    Seq::new(pins.len(), |i: int| pins[i].0)
}

/// The pin identities of a list, in order, without those equal to `p`.
pub open spec fn others(pins: Seq<(PinId, PinSpec)>, p: PinId) -> Seq<PinId>
    decreases pins.len(),
{
    if pins.len() == 0 {
        Seq::empty()
    } else if pins.last().0 == p {
        others(pins.drop_last(), p)
    } else {
        others(pins.drop_last(), p).push(pins.last().0)
    }
}

/// Every pin of the list is tristatable.
pub open spec fn all_tristatable(pins: Seq<(PinId, PinSpec)>) -> bool {
    forall|i: int| 0 <= i < pins.len() ==> (#[trigger] pins[i]).1.tristatable
}

/// Some pin of the list is tristatable.
pub open spec fn any_tristatable(pins: Seq<(PinId, PinSpec)>) -> bool {
    exists|i: int| 0 <= i < pins.len() && (#[trigger] pins[i]).1.tristatable
}

/// The connection that a group of shorted pins makes, given its consuming
/// pins and its producing pins.
///
/// One consumer and one distinct producer make a pair. Otherwise several
/// producers need every pin to be tristatable, and tristatable pins do not mix
/// with others. A single producer then broadcasts to the other consumers, and
/// anything else is a tristated bus.
pub open spec fn classify(input: Seq<(PinId, PinSpec)>, output: Seq<(PinId, PinSpec)>) -> Result<
    Connection,
    GroupError,
> {
    let all = all_tristatable(input) && all_tristatable(output);
    let any = any_tristatable(input) || any_tristatable(output);
    if input.len() == 1 && output.len() == 1 && input[0].0 != output[0].0 {
        Ok(Connection::Pair { source: output[0].0, destination: input[0].0 })
    } else if output.len() > 1 && !all {
        Err(GroupError::MultipleDrivers)
    } else if any && !all {
        Err(GroupError::MixedTristate)
    } else if output.len() == 1 {
        Ok(Connection::Broadcast { source: output[0].0, destinations: others(input, output[0].0) })
    } else {
        Ok(Connection::Tristated { sources: pin_ids(output), destinations: pin_ids(input) })
    }
}

fn every_tristatable(pins: &Vec<(ChipPin, &PinMetadata)>) -> (r: bool)
    ensures
        r == all_tristatable(pins.deep_view()),
{
    let mut i: usize = 0;
    while i < pins.len()
        invariant
            i <= pins.len(),
            forall|k: int| 0 <= k < i ==> (#[trigger] pins.deep_view()[k]).1.tristatable,
        decreases pins.len() - i,
    {
        if !pins[i].1.tristatable {
            assert(!pins.deep_view()[i as int].1.tristatable);
            return false;
        }
        i = i + 1;
    }
    true
}

fn some_tristatable(pins: &Vec<(ChipPin, &PinMetadata)>) -> (r: bool)
    ensures
        r == any_tristatable(pins.deep_view()),
{
    let mut i: usize = 0;
    while i < pins.len()
        invariant
            i <= pins.len(),
            forall|k: int| 0 <= k < i ==> !(#[trigger] pins.deep_view()[k]).1.tristatable,
        decreases pins.len() - i,
    {
        if pins[i].1.tristatable {
            assert(pins.deep_view()[i as int].1.tristatable);
            return true;
        }
        i = i + 1;
    }
    false
}

fn collect_ids(pins: &Vec<(ChipPin, &PinMetadata)>) -> (r: Vec<ChipPin>)
    ensures
        r.deep_view() == pin_ids(pins.deep_view()),
{
    let mut r: Vec<ChipPin> = Vec::new();
    let mut i: usize = 0;
    while i < pins.len()
        invariant
            i <= pins.len(),
            r@.len() == i,
            forall|k: int| 0 <= k < i ==> (#[trigger] r@[k])@ == pins@[k].0@,
        decreases pins.len() - i,
    {
        r.push(pins[i].0.clone());
        i = i + 1;
    }
    assert(r.deep_view() =~= pin_ids(pins.deep_view()));
    r
}

fn collect_others(pins: &Vec<(ChipPin, &PinMetadata)>, p: &ChipPin) -> (r: Vec<ChipPin>)
    ensures
        r.deep_view() == others(pins.deep_view(), p@),
{
    let mut r: Vec<ChipPin> = Vec::new();
    let mut i: usize = 0;
    while i < pins.len()
        invariant
            i <= pins.len(),
            r.deep_view() == others(pins.deep_view().take(i as int), p@),
        decreases pins.len() - i,
    {
        let ghost before = r.deep_view();
        proof {
            let all = pins.deep_view();
            assert(all.take(i + 1).drop_last() =~= all.take(i as int));
            assert(all.take(i + 1).last().0 == pins@[i as int].0@);
        }
        if !(pins[i].0 == *p) {
            r.push(pins[i].0.clone());
            assert(r.deep_view() =~= before.push(pins@[i as int].0@));
        }
        i = i + 1;
    }
    assert(pins.deep_view().take(i as int) =~= pins.deep_view());
    r
}

/// Turns a group of shorted pins, given as its consuming pins and its
/// producing pins, into the connection that carries values across it.
pub fn get_pin_group(
    input: Vec<(ChipPin, &PinMetadata)>,
    output: Vec<(ChipPin, &PinMetadata)>,
) -> (r: Result<ConnectedPins, GroupError>)
    ensures
        match r {
            Ok(c) => classify(input.deep_view(), output.deep_view()) == Ok::<
                Connection,
                GroupError,
            >(c@),
            Err(e) => classify(input.deep_view(), output.deep_view()) == Err::<
                Connection,
                GroupError,
            >(e),
        },
{
    if input.len() == 1 && output.len() == 1 && !(input[0].0 == output[0].0) {
        return Ok(
            ConnectedPins::Pair { source: output[0].0.clone(), destination: input[0].0.clone() },
        );
    }
    let all = every_tristatable(&input) && every_tristatable(&output);
    let any = some_tristatable(&input) || some_tristatable(&output);
    if !all && output.len() > 1 {
        return Err(GroupError::MultipleDrivers);
    }
    if !all && any {
        return Err(GroupError::MixedTristate);
    }
    if output.len() == 1 {
        let source = output[0].0.clone();
        let destinations = collect_others(&input, &source);
        return Ok(ConnectedPins::Broadcast { source, destinations });
    }
    Ok(ConnectedPins::Tristated { sources: collect_ids(&output), destinations: collect_ids(&input) })
}

} // verus!
