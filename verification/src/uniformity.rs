//! What holds of the groups of a board that was built: the pins of a group
//! carry one type, agree on being tristatable, and have a single producer
//! unless all of them are tristatable.

use vstd::prelude::*;
use crate::description::{first_true, lemma_no_first};
use crate::coverage::{lemma_consumers_hold, lemma_producers_hold};
use crate::plan::{
    consumers, fits, group_flags, group_plan, member_flags, members, meta, missing_flags,
    plan_spec, producers, referenced, unfit_flags, BuildFault, PinMap,
};
use crate::shorting::{adjacent, components, connected, is_endpoint, is_path};
use crate::syntax::Description;
use crate::traits::{PinId, PinSpec};
use crate::util::{all_tristatable, any_tristatable, classify, GroupError};

verus! {

/// The checks that come before a plan have all passed: the board has every
/// pin that the description refers to, the two pins of every connection may
/// be wired together, every pin exposed together with others is an input of
/// the type of the first, and every group makes a connection.
pub open spec fn checks_pass(d: Description, groups: Seq<Seq<PinId>>, maps: Seq<PinMap>) -> bool {
    &&& forall|i: int|
        0 <= i < referenced(d).len() ==> meta(d.chips, maps, #[trigger] referenced(d)[i]) is Some
    &&& forall|k: int|
        0 <= k < d.connections.len() ==> fits(
            meta(d.chips, maps, (#[trigger] d.connections[k]).0),
            meta(d.chips, maps, d.connections[k].1),
        )
    &&& forall|m: int|
        0 <= m < members(d.exposes).len() ==> crate::plan::member_fault(
            d.chips,
            maps,
            #[trigger] members(d.exposes)[m],
        ) is None
    &&& forall|g: int|
        0 <= g < groups.len() ==> group_plan(d.chips, maps, #[trigger] groups[g]) is Ok
}

/// A plan exists exactly when every check passes, and it then holds the
/// connection of each group.
pub proof fn lemma_plan_iff_checks(d: Description, groups: Seq<Seq<PinId>>, maps: Seq<PinMap>)
    ensures
        plan_spec(d, groups, maps) is Ok <==> checks_pass(d, groups, maps),
        plan_spec(d, groups, maps) matches Ok(plan) ==> plan.len() == groups.len() && forall|
            g: int,
        |
            0 <= g < groups.len() ==> group_plan(d.chips, maps, groups[g]) == Ok::<
                crate::traits::Connection,
                crate::util::GroupError,
            >(#[trigger] plan[g]),
{
    let missing = missing_flags(d.chips, maps, referenced(d));
    let unfit = unfit_flags(d.chips, maps, d.connections);
    let bad = member_flags(d.chips, maps, members(d.exposes));
    let failing = group_flags(d.chips, maps, groups);
    if plan_spec(d, groups, maps) is Ok {
        assert(first_true(missing) is None);
        assert(first_true(unfit) is None);
        if first_true(bad) is Some {
            let m = first_true(bad)->0;
            assert(crate::description::is_first_true(bad, m));
        }
        if first_true(failing) is Some {
            let g = first_true(failing)->0;
            assert(crate::description::is_first_true(failing, g));
        }
        lemma_no_first(missing);
        lemma_no_first(unfit);
        lemma_no_first(bad);
        lemma_no_first(failing);
        assert forall|i: int| 0 <= i < referenced(d).len() implies meta(
            d.chips,
            maps,
            #[trigger] referenced(d)[i],
        ) is Some by {
            assert(!missing[i]);
        }
        assert forall|k: int| 0 <= k < d.connections.len() implies fits(
            meta(d.chips, maps, (#[trigger] d.connections[k]).0),
            meta(d.chips, maps, d.connections[k].1),
        ) by {
            assert(!unfit[k]);
        }
        assert forall|m: int| 0 <= m < members(d.exposes).len() implies crate::plan::member_fault(
            d.chips,
            maps,
            #[trigger] members(d.exposes)[m],
        ) is None by {
            assert(!bad[m]);
        }
        assert forall|g: int| 0 <= g < groups.len() implies group_plan(
            d.chips,
            maps,
            #[trigger] groups[g],
        ) is Ok by {
            assert(!failing[g]);
        }
    }
    if checks_pass(d, groups, maps) {
        crate::description::lemma_none_true(missing);
        crate::description::lemma_none_true(unfit);
        crate::description::lemma_none_true(bad);
        crate::description::lemma_none_true(failing);
    }
}

/// The two pins of every connection exist and may be wired together.
pub open spec fn all_fit(d: Description, maps: Seq<PinMap>) -> bool {
    forall|k: int|
        0 <= k < d.connections.len() ==> fits(
            meta(d.chips, maps, (#[trigger] d.connections[k]).0),
            meta(d.chips, maps, d.connections[k].1),
        )
}

/// The pins at the two ends of a chain of connections carry one type and
/// agree on being tristatable.
pub proof fn lemma_path_uniform(d: Description, maps: Seq<PinMap>, path: Seq<PinId>)
    requires
        all_fit(d, maps),
        is_path(d.connections, path),
        is_endpoint(d.connections, path[0]),
    ensures
        same_kind(meta(d.chips, maps, path[0]), meta(d.chips, maps, path.last())),
    decreases path.len(),
{
    let edges = d.connections;
    if path.len() == 1 {
        let k = choose|k: int| 0 <= k < edges.len() && ((#[trigger] edges[k]).0 == path[0]
            || edges[k].1 == path[0]);
        assert(fits(meta(d.chips, maps, edges[k].0), meta(d.chips, maps, edges[k].1)));
    } else {
        let front = path.drop_last();
        assert forall|n: int| 0 <= n < front.len() - 1 implies adjacent(
            edges,
            #[trigger] front[n],
            front[n + 1],
        ) by {
            assert(adjacent(edges, path[n], path[n + 1]));
        }
        lemma_path_uniform(d, maps, front);
        let u = front.last();
        let v = path.last();
        assert(adjacent(edges, path[path.len() - 2], path[path.len() - 2 + 1]));
        let k = choose|k: int|
            0 <= k < edges.len() && ((#[trigger] edges[k]).0 == u && edges[k].1 == v || edges[k].0
                == v && edges[k].1 == u);
        assert(fits(meta(d.chips, maps, edges[k].0), meta(d.chips, maps, edges[k].1)));
    }
}

/// Both pins exist, carry the same type, and both or neither are
/// tristatable.
pub open spec fn same_kind(a: Option<PinSpec>, b: Option<PinSpec>) -> bool {
    match (a, b) {
        (Some(x), Some(y)) => x.data_type == y.data_type && x.tristatable == y.tristatable,
        _ => false,
    }
}

/// Where every connection fits, any two pins of a group carry one type and
/// agree on being tristatable.
pub proof fn lemma_fit_uniform(
    d: Description,
    groups: Seq<Seq<PinId>>,
    maps: Seq<PinMap>,
    g: int,
    p: PinId,
    q: PinId,
)
    requires
        components(d.connections, groups),
        all_fit(d, maps),
        0 <= g < groups.len(),
        groups[g].contains(p),
        groups[g].contains(q),
    ensures
        same_kind(meta(d.chips, maps, p), meta(d.chips, maps, q)),
{
    assert(connected(d.connections, p, q));
    let path = choose|path: Seq<PinId>| #[trigger]
        is_path(d.connections, path) && path[0] == p && path.last() == q;
    assert(is_endpoint(d.connections, p));
    lemma_path_uniform(d, maps, path);
}

/// All pins of a group carry one type, and either all of them are
/// tristatable or none is.
pub proof fn lemma_group_uniform(
    d: Description,
    groups: Seq<Seq<PinId>>,
    maps: Seq<PinMap>,
    g: int,
    p: PinId,
    q: PinId,
)
    requires
        components(d.connections, groups),
        plan_spec(d, groups, maps) is Ok,
        0 <= g < groups.len(),
        groups[g].contains(p),
        groups[g].contains(q),
    ensures
        same_kind(meta(d.chips, maps, p), meta(d.chips, maps, q)),
{
    lemma_plan_iff_checks(d, groups, maps);
    lemma_fit_uniform(d, groups, maps, g, p, q);
}

/// A group has a single producer, unless all of its producers are
/// tristatable.
pub proof fn lemma_driver_count(
    d: Description,
    groups: Seq<Seq<PinId>>,
    maps: Seq<PinMap>,
    g: int,
)
    requires
        plan_spec(d, groups, maps) is Ok,
        0 <= g < groups.len(),
    ensures
        producers(d.chips, maps, groups[g]).len() == 1 || all_tristatable(
            producers(d.chips, maps, groups[g]),
        ),
{
    lemma_plan_iff_checks(d, groups, maps);
    assert(group_plan(d.chips, maps, groups[g]) is Ok);
}

/// Whether a plan exists, and which, depends on the chips only through
/// their pins: chips with the same pins give the same plan.
pub proof fn lemma_plan_of_pins(
    d: Description,
    groups: Seq<Seq<PinId>>,
    first: Seq<PinMap>,
    second: Seq<PinMap>,
)
    requires
        first.len() == second.len(),
        forall|i: int| 0 <= i < first.len() ==> #[trigger] first[i] =~= second[i],
    ensures
        plan_spec(d, groups, first) == plan_spec(d, groups, second),
{
    assert(first =~= second);
}

/// The groups of a description never mix tristatable pins with others
/// once every connection fits: building a board does not fail on mixed
/// tristate discipline.
pub proof fn lemma_no_mixed_tristate(d: Description, groups: Seq<Seq<PinId>>, maps: Seq<PinMap>)
    requires
        components(d.connections, groups),
    ensures
        !(plan_spec(d, groups, maps) matches Err(BuildFault::MixedTristate { .. })),
{
    if plan_spec(d, groups, maps) matches Err(BuildFault::MixedTristate { .. }) {
        let unfit = unfit_flags(d.chips, maps, d.connections);
        let bad = member_flags(d.chips, maps, members(d.exposes));
        let failing = group_flags(d.chips, maps, groups);
        if first_true(bad) is Some {
            assert(crate::description::is_first_true(bad, first_true(bad)->0));
        }
        assert(first_true(unfit) is None);
        lemma_no_first(unfit);
        assert forall|k: int| 0 <= k < d.connections.len() implies fits(
            meta(d.chips, maps, (#[trigger] d.connections[k]).0),
            meta(d.chips, maps, d.connections[k].1),
        ) by {
            assert(!unfit[k]);
        }
        let g = first_true(failing)->0;
        assert(crate::description::is_first_true(failing, g));
        let group = groups[g];
        let input = consumers(d.chips, maps, group);
        let output = producers(d.chips, maps, group);
        assert(classify(input, output) == Err::<crate::traits::Connection, GroupError>(
            GroupError::MixedTristate,
        ));
        assert(any_tristatable(input) || any_tristatable(output));
        let x = if any_tristatable(input) {
            let i = choose|i: int| 0 <= i < input.len() && (#[trigger] input[i]).1.tristatable;
            lemma_consumers_hold(d.chips, maps, group, input[i]);
            assert(input.contains(input[i]));
            input[i]
        } else {
            let i = choose|i: int| 0 <= i < output.len() && (#[trigger] output[i]).1.tristatable;
            lemma_producers_hold(d.chips, maps, group, output[i]);
            assert(output.contains(output[i]));
            output[i]
        };
        assert(group.contains(x.0) && meta(d.chips, maps, x.0) == Some(x.1) && x.1.tristatable);
        assert forall|i: int| 0 <= i < input.len() implies (#[trigger] input[i]).1.tristatable by {
            lemma_consumers_hold(d.chips, maps, group, input[i]);
            assert(input.contains(input[i]));
            lemma_fit_uniform(d, groups, maps, g, x.0, input[i].0);
        }
        assert forall|i: int| 0 <= i < output.len() implies (
        #[trigger] output[i]).1.tristatable by {
            lemma_producers_hold(d.chips, maps, group, output[i]);
            assert(output.contains(output[i]));
            lemma_fit_uniform(d, groups, maps, g, x.0, output[i].0);
        }
        assert(false);
    }
}

} // verus!
