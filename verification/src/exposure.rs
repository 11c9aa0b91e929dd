//! What holds of the exposed pins of a valid description: no internal pin is
//! exposed twice, and the pins exposed together under one name belong to no
//! group of shorted pins.

use vstd::prelude::*;
use crate::builder::{exposure_fault, fan_in, shorted_flags};
use crate::description::{exposed, lemma_no_first};
use crate::shorting::{components, lemma_grouped_iff_endpoint};
use crate::syntax::{Description, Exposure};
use crate::traits::PinId;

verus! {

/// Where the pin `j` of the expose entry `e` stands among all exposed pins.
pub open spec fn place(exposes: Seq<Exposure>, e: int, j: int) -> int
    decreases exposes.len(),
{
    if exposes.len() == 0 {
        0
    } else if e == exposes.len() - 1 {
        exposed(exposes.drop_last()).len() + j
    } else {
        place(exposes.drop_last(), e, j)
    }
}

/// At its place among all exposed pins stands the pin with its external name.
pub proof fn lemma_place(exposes: Seq<Exposure>, e: int, j: int)
    requires
        0 <= e < exposes.len(),
        0 <= j < exposes[e].pins.len(),
    ensures
        0 <= place(exposes, e, j) < exposed(exposes).len(),
        exposed(exposes)[place(exposes, e, j)] == (exposes[e].pins[j], exposes[e].as_name),
    decreases exposes.len(),
{
    if e < exposes.len() - 1 {
        lemma_place(exposes.drop_last(), e, j);
    }
}

/// Pins stand among all exposed pins in the order of the description.
pub proof fn lemma_place_order(exposes: Seq<Exposure>, e: int, j: int, f: int, k: int)
    requires
        0 <= e < exposes.len(),
        0 <= j < exposes[e].pins.len(),
        0 <= f < exposes.len(),
        0 <= k < exposes[f].pins.len(),
        e < f || (e == f && j < k),
    ensures
        place(exposes, e, j) < place(exposes, f, k),
    decreases exposes.len(),
{
    if f < exposes.len() - 1 {
        lemma_place_order(exposes.drop_last(), e, j, f, k);
    } else if e < f {
        lemma_place(exposes.drop_last(), e, j);
    }
}

/// In a valid description no internal pin is exposed twice, neither in two
/// expose entries nor twice in one.
pub proof fn lemma_exposed_once(d: Description, e: int, j: int, f: int, k: int)
    requires
        d.valid(),
        0 <= e < d.exposes.len(),
        0 <= j < d.exposes[e].pins.len(),
        0 <= f < d.exposes.len(),
        0 <= k < d.exposes[f].pins.len(),
        e != f || j != k,
    ensures
        d.exposes[e].pins[j] != d.exposes[f].pins[k],
{
    lemma_place(d.exposes, e, j);
    lemma_place(d.exposes, f, k);
    if e < f || (e == f && j < k) {
        lemma_place_order(d.exposes, e, j, f, k);
    } else {
        lemma_place_order(d.exposes, f, k, e, j);
    }
}

proof fn lemma_fan_in_holds(exposes: Seq<Exposure>, e: int, j: int)
    requires
        0 <= e < exposes.len(),
        0 <= j < exposes[e].pins.len(),
        exposes[e].pins.len() > 1,
    ensures
        fan_in(exposes).contains((exposes[e].pins[j], exposes[e].as_name)),
    decreases exposes.len(),
{
    let all = fan_in(exposes);
    let front = exposes.drop_last();
    let item = (exposes[e].pins[j], exposes[e].as_name);
    if e < exposes.len() - 1 {
        lemma_fan_in_holds(front, e, j);
        let i = choose|i: int| 0 <= i < fan_in(front).len() && fan_in(front)[i] == item;
        assert(all[i] == item);
    } else {
        assert(all[fan_in(front).len() + j] == item);
    }
}

/// Where a description has passed the check on its exposed pins, a pin that
/// is exposed together with others belongs to no group of shorted pins.
pub proof fn lemma_fan_in_unshorted(
    d: Description,
    groups: Seq<Seq<PinId>>,
    e: int,
    j: int,
    g: int,
)
    requires
        exposure_fault(d) is None,
        components(d.connections, groups),
        0 <= e < d.exposes.len(),
        0 <= j < d.exposes[e].pins.len(),
        d.exposes[e].pins.len() > 1,
        0 <= g < groups.len(),
    ensures
        !groups[g].contains(d.exposes[e].pins[j]),
{
    let list = fan_in(d.exposes);
    let flags = shorted_flags(d.connections, list);
    let item = (d.exposes[e].pins[j], d.exposes[e].as_name);
    lemma_fan_in_holds(d.exposes, e, j);
    let m = choose|m: int| 0 <= m < list.len() && list[m] == item;
    lemma_no_first(flags);
    assert(!flags[m]);
    lemma_grouped_iff_endpoint(d.connections, groups, item.0);
}

} // verus!
