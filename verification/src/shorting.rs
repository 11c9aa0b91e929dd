//! Groups of shorted pins: the connected components of the connections of a
//! board description.

use vstd::prelude::*;
use crate::syntax::PcbMacroInput;
use crate::traits::{ChipPin, PinId};

verus! {

/// Some connection joins `p` and `q`, in either direction.
pub open spec fn adjacent(edges: Seq<(PinId, PinId)>, p: PinId, q: PinId) -> bool {
    exists|k: int|
        0 <= k < edges.len() && ((#[trigger] edges[k]).0 == p && edges[k].1 == q || edges[k].0 == q
            && edges[k].1 == p)
}

/// `p` is one of the two pins of some connection.
pub open spec fn is_endpoint(edges: Seq<(PinId, PinId)>, p: PinId) -> bool {
    exists|k: int| 0 <= k < edges.len() && ((#[trigger] edges[k]).0 == p || edges[k].1 == p)
}

/// A chain of pins in which each is joined to the next by a connection.
pub open spec fn is_path(edges: Seq<(PinId, PinId)>, path: Seq<PinId>) -> bool {
    &&& path.len() > 0
    &&& forall|i: int| 0 <= i < path.len() - 1 ==> adjacent(edges, #[trigger] path[i], path[i + 1])
}

/// `p` and `q` are electrically connected: a chain of connections leads from
/// one to the other.
pub open spec fn connected(edges: Seq<(PinId, PinId)>, p: PinId, q: PinId) -> bool {
    exists|path: Seq<PinId>| #[trigger] is_path(edges, path) && path[0] == p && path.last() == q
}

/// Every pin is connected to itself.
pub proof fn lemma_connected_self(edges: Seq<(PinId, PinId)>, p: PinId)
    ensures
        connected(edges, p, p),
{
    let path = seq![p];
    assert(is_path(edges, path));
    assert(path[0] == p && path.last() == p);
}

/// The two pins of a connection are connected, in both directions.
pub proof fn lemma_connected_edge(edges: Seq<(PinId, PinId)>, k: int)
    requires
        0 <= k < edges.len(),
    ensures
        connected(edges, edges[k].0, edges[k].1),
        connected(edges, edges[k].1, edges[k].0),
{
    let p = edges[k].0;
    let q = edges[k].1;
    let there = seq![p, q];
    let back = seq![q, p];
    assert(adjacent(edges, p, q));
    assert(adjacent(edges, q, p));
    assert(is_path(edges, there));
    assert(there[0] == p && there.last() == q);
    assert(is_path(edges, back));
    assert(back[0] == q && back.last() == p);
}

/// Being connected is transitive.
pub proof fn lemma_connected_trans(edges: Seq<(PinId, PinId)>, p: PinId, q: PinId, r: PinId)
    requires
        connected(edges, p, q),
        connected(edges, q, r),
    ensures
        connected(edges, p, r),
{
    let a = choose|path: Seq<PinId>| #[trigger]
        is_path(edges, path) && path[0] == p && path.last() == q;
    let b = choose|path: Seq<PinId>| #[trigger]
        is_path(edges, path) && path[0] == q && path.last() == r;
    let c = a + b.drop_first();
    assert forall|i: int| 0 <= i < c.len() - 1 implies adjacent(edges, #[trigger] c[i], c[i + 1]) by {
        if i < a.len() - 1 {
            assert(c[i] == a[i] && c[i + 1] == a[i + 1]);
        } else if i == a.len() - 1 {
            assert(c[i] == a.last());
            assert(c[i + 1] == b[1]);
            assert(adjacent(edges, b[0], b[1]));
        } else {
            let j = i - a.len() + 1;
            assert(c[i] == b[j] && c[i + 1] == b[j + 1]);
            assert(adjacent(edges, b[j], b[j + 1]));
        }
    }
    assert(is_path(edges, c));
    assert(c[0] == p);
    if b.len() == 1 {
        assert(c =~= a);
        assert(q == r);
    } else {
        assert(c.last() == b.last());
    }
}

/// The group that a connection makes on its own: its two pins, or the one
/// pin of a connection from a pin to itself.
pub open spec fn fresh_group(edge: (PinId, PinId)) -> Seq<PinId> {
    if edge.0 == edge.1 {
        seq![edge.0]
    } else {
        seq![edge.0, edge.1]
    }
}

/// Some group holds both pins of the connection.
pub open spec fn share_group(groups: Seq<Seq<PinId>>, edge: (PinId, PinId)) -> bool {
    exists|i: int|
        0 <= i < groups.len() && #[trigger] groups[i].contains(edge.0) && groups[i].contains(edge.1)
}

/// The groups are the connected components of the first `k` connections:
/// every group is non-empty and lists each of its pins once; no pin is in two
/// groups; the two pins of each of those connections share a group; the pins
/// of a group are connected to one another; and every pin of a group belongs
/// to some connection.
pub open spec fn components_upto(
    edges: Seq<(PinId, PinId)>,
    groups: Seq<Seq<PinId>>,
    k: int,
) -> bool {
    &&& 0 <= k <= edges.len()
    &&& forall|i: int|
        0 <= i < groups.len() ==> (#[trigger] groups[i]).len() > 0 && groups[i].no_duplicates()
    &&& forall|i: int, j: int, p: PinId|
        0 <= i < groups.len() && 0 <= j < groups.len() && i != j && #[trigger] groups[i].contains(p)
            ==> !#[trigger] groups[j].contains(p)
    &&& forall|n: int| 0 <= n < k ==> share_group(groups, #[trigger] edges[n])
    &&& forall|i: int, p: PinId, q: PinId|
        0 <= i < groups.len() && #[trigger] groups[i].contains(p) && #[trigger] groups[i].contains(q)
            ==> connected(edges, p, q)
    &&& forall|i: int, p: PinId|
        0 <= i < groups.len() && #[trigger] groups[i].contains(p) ==> is_endpoint(edges, p)
}

/// The groups are the connected components of the connections.
pub open spec fn components(edges: Seq<(PinId, PinId)>, groups: Seq<Seq<PinId>>) -> bool {
    components_upto(edges, groups, edges.len() as int)
}

proof fn lemma_push_contains(s: Seq<PinId>, x: PinId, p: PinId)
    ensures
        s.push(x).contains(p) <==> s.contains(p) || p == x,
{
    let t = s.push(x);
    if s.contains(p) {
        let i = choose|i: int| 0 <= i < s.len() && s[i] == p;
        assert(t[i] == p);
    }
    if p == x {
        assert(t[s.len() as int] == p);
    }
    if t.contains(p) {
        let i = choose|i: int| 0 <= i < t.len() && t[i] == p;
        if i < s.len() {
            assert(s[i] == p);
        }
    }
}

/// A pin is in two lists put together when it is in one of them.
pub proof fn lemma_add_contains(s: Seq<PinId>, t: Seq<PinId>, p: PinId)
    ensures
        (s + t).contains(p) <==> s.contains(p) || t.contains(p),
{
    let u = s + t;
    if s.contains(p) {
        let i = choose|i: int| 0 <= i < s.len() && s[i] == p;
        assert(u[i] == p);
    }
    if t.contains(p) {
        let i = choose|i: int| 0 <= i < t.len() && t[i] == p;
        assert(u[s.len() + i] == p);
    }
    if u.contains(p) {
        let i = choose|i: int| 0 <= i < u.len() && u[i] == p;
        if i < s.len() {
            assert(s[i] == p);
        } else {
            assert(t[i - s.len()] == p);
        }
    }
}

/// A connection between two pins that no group holds yet starts a new group.
proof fn lemma_step_new(edges: Seq<(PinId, PinId)>, groups: Seq<Seq<PinId>>, k: int)
    requires
        components_upto(edges, groups, k),
        k < edges.len(),
        forall|i: int|
            0 <= i < groups.len() ==> !(#[trigger] groups[i]).contains(edges[k].0)
                && !groups[i].contains(edges[k].1),
    ensures
        components_upto(edges, groups.push(fresh_group(edges[k])), k + 1),
{
    let p = edges[k].0;
    let q = edges[k].1;
    let fresh = fresh_group(edges[k]);
    let next = groups.push(fresh);
    let last = groups.len() as int;
    assert(fresh.contains(p)) by {
        assert(fresh[0] == p);
    }
    assert(fresh.contains(q)) by {
        if p == q {
            assert(fresh[0] == q);
        } else {
            assert(fresh[1] == q);
        }
    }
    assert forall|x: PinId| fresh.contains(x) implies x == p || x == q by {}
    lemma_connected_self(edges, p);
    lemma_connected_self(edges, q);
    lemma_connected_edge(edges, k);
    assert(is_endpoint(edges, p) && is_endpoint(edges, q));
    assert forall|n: int| 0 <= n < k + 1 implies share_group(next, #[trigger] edges[n]) by {
        if n < k {
            let i = choose|i: int|
                0 <= i < groups.len() && #[trigger] groups[i].contains(edges[n].0)
                    && groups[i].contains(edges[n].1);
            assert(next[i] == groups[i]);
        } else {
            assert(next[last].contains(p) && next[last].contains(q));
        }
    }
    assert forall|i: int, j: int, x: PinId|
        0 <= i < next.len() && 0 <= j < next.len() && i != j && #[trigger] next[i].contains(
            x,
        ) implies !#[trigger] next[j].contains(x) by {
        if i < last && j < last {
            assert(groups[i].contains(x));
        } else if i == last {
            assert(x == p || x == q);
            assert(next[j] == groups[j]);
        } else {
            assert(next[i] == groups[i]);
            if next[j].contains(x) {
                assert(x == p || x == q);
            }
        }
    }
    assert forall|i: int, x: PinId, y: PinId|
        0 <= i < next.len() && #[trigger] next[i].contains(x) && #[trigger] next[i].contains(
            y,
        ) implies connected(edges, x, y) by {
        if i < last {
            assert(groups[i].contains(x) && groups[i].contains(y));
        }
    }
    assert forall|i: int, x: PinId| 0 <= i < next.len() && #[trigger] next[i].contains(
        x,
    ) implies is_endpoint(edges, x) by {
        if i < last {
            assert(groups[i].contains(x));
        }
    }
    assert forall|i: int| 0 <= i < next.len() implies (#[trigger] next[i]).len() > 0
        && next[i].no_duplicates() by {
        if i < last {
            assert(next[i] == groups[i]);
        }
    }
}

/// A connection from a pin of a group to a pin that no group holds yet adds
/// that pin to the group.
proof fn lemma_step_extend(
    edges: Seq<(PinId, PinId)>,
    groups: Seq<Seq<PinId>>,
    k: int,
    g: int,
    old_pin: PinId,
    new_pin: PinId,
)
    requires
        components_upto(edges, groups, k),
        k < edges.len(),
        0 <= g < groups.len(),
        edges[k] == (old_pin, new_pin) || edges[k] == (new_pin, old_pin),
        groups[g].contains(old_pin),
        forall|i: int| 0 <= i < groups.len() ==> !(#[trigger] groups[i]).contains(new_pin),
    ensures
        components_upto(edges, groups.update(g, groups[g].push(new_pin)), k + 1),
{
    let grown = groups[g].push(new_pin);
    let next = groups.update(g, grown);
    assert forall|x: PinId| grown.contains(x) <==> groups[g].contains(x) || x == new_pin by {
        lemma_push_contains(groups[g], new_pin, x);
    }
    lemma_connected_edge(edges, k);
    lemma_connected_self(edges, new_pin);
    assert(is_endpoint(edges, new_pin));
    assert forall|n: int| 0 <= n < k + 1 implies share_group(next, #[trigger] edges[n]) by {
        if n < k {
            let i = choose|i: int|
                0 <= i < groups.len() && #[trigger] groups[i].contains(edges[n].0)
                    && groups[i].contains(edges[n].1);
            if i == g {
                assert(next[g].contains(edges[n].0) && next[g].contains(edges[n].1));
            } else {
                assert(next[i] == groups[i]);
            }
        } else {
            assert(next[g].contains(old_pin) && next[g].contains(new_pin));
        }
    }
    assert forall|i: int, j: int, x: PinId|
        0 <= i < next.len() && 0 <= j < next.len() && i != j && #[trigger] next[i].contains(
            x,
        ) implies !#[trigger] next[j].contains(x) by {
        if i == g {
            assert(next[j] == groups[j]);
            if x != new_pin {
                assert(groups[g].contains(x));
            }
        } else if j == g {
            assert(next[i] == groups[i]);
            assert(groups[i].contains(x));
        } else {
            assert(next[i] == groups[i] && next[j] == groups[j]);
        }
    }
    assert forall|i: int, x: PinId, y: PinId|
        0 <= i < next.len() && #[trigger] next[i].contains(x) && #[trigger] next[i].contains(
            y,
        ) implies connected(edges, x, y) by {
        if i == g {
            if x == new_pin && y == new_pin {
            } else if x == new_pin {
                assert(groups[g].contains(y));
                assert(connected(edges, old_pin, y));
                lemma_connected_trans(edges, new_pin, old_pin, y);
            } else if y == new_pin {
                assert(groups[g].contains(x));
                assert(connected(edges, x, old_pin));
                lemma_connected_trans(edges, x, old_pin, new_pin);
            } else {
                assert(groups[g].contains(x) && groups[g].contains(y));
            }
        } else {
            assert(next[i] == groups[i]);
        }
    }
    assert forall|i: int, x: PinId| 0 <= i < next.len() && #[trigger] next[i].contains(
        x,
    ) implies is_endpoint(edges, x) by {
        if i == g {
            if x != new_pin {
                assert(groups[g].contains(x));
            }
        } else {
            assert(next[i] == groups[i]);
        }
    }
    assert forall|i: int| 0 <= i < next.len() implies (#[trigger] next[i]).len() > 0
        && next[i].no_duplicates() by {
        if i == g {
            assert(groups[g].no_duplicates());
            assert forall|a: int, b: int| 0 <= a < grown.len() && 0 <= b < grown.len() && a
                != b implies grown[a] != grown[b] by {
                if a < groups[g].len() && b < groups[g].len() {
                } else if a < groups[g].len() {
                    assert(groups[g].contains(grown[a]));
                } else {
                    assert(groups[g].contains(grown[b]));
                }
            }
        } else {
            assert(next[i] == groups[i]);
        }
    }
}

/// A connection between two pins of one group changes nothing.
proof fn lemma_step_same(edges: Seq<(PinId, PinId)>, groups: Seq<Seq<PinId>>, k: int, g: int)
    requires
        components_upto(edges, groups, k),
        k < edges.len(),
        0 <= g < groups.len(),
        groups[g].contains(edges[k].0),
        groups[g].contains(edges[k].1),
    ensures
        components_upto(edges, groups, k + 1),
{
    assert forall|n: int| 0 <= n < k + 1 implies share_group(groups, #[trigger] edges[n]) by {
        if n == k {
            assert(groups[g].contains(edges[k].0) && groups[g].contains(edges[k].1));
        }
    }
}

/// A connection between pins of two groups makes one group of the two.
proof fn lemma_step_merge(
    edges: Seq<(PinId, PinId)>,
    groups: Seq<Seq<PinId>>,
    k: int,
    g: int,
    h: int,
    a: PinId,
    b: PinId,
)
    requires
        components_upto(edges, groups, k),
        k < edges.len(),
        0 <= g < groups.len(),
        0 <= h < groups.len(),
        g != h,
        edges[k] == (a, b) || edges[k] == (b, a),
        groups[g].contains(a),
        groups[h].contains(b),
    ensures
        components_upto(edges, groups.update(g, groups[g] + groups[h]).remove(h), k + 1),
{
    let merged = groups[g] + groups[h];
    let next = groups.update(g, merged).remove(h);
    let g2 = if h < g {
        g - 1
    } else {
        g
    };
    assert(next[g2] == merged);
    assert forall|x: PinId| merged.contains(x) <==> groups[g].contains(x) || groups[h].contains(
        x,
    ) by {
        lemma_add_contains(groups[g], groups[h], x);
    }
    assert forall|t: int| 0 <= t < next.len() && t != g2 implies #[trigger] next[t] == groups[if t
        < h {
        t
    } else {
        t + 1
    }] by {}
    lemma_connected_edge(edges, k);
    assert(connected(edges, a, b) && connected(edges, b, a));
    assert forall|n: int| 0 <= n < k + 1 implies share_group(next, #[trigger] edges[n]) by {
        if n < k {
            let i = choose|i: int|
                0 <= i < groups.len() && #[trigger] groups[i].contains(edges[n].0)
                    && groups[i].contains(edges[n].1);
            if i == g || i == h {
                assert(next[g2].contains(edges[n].0) && next[g2].contains(edges[n].1));
            } else {
                let t = if i < h {
                    i
                } else {
                    i - 1
                };
                assert(next[t] == groups[i]);
                assert(next[t].contains(edges[n].0) && next[t].contains(edges[n].1));
            }
        } else {
            assert(next[g2].contains(a) && next[g2].contains(b));
        }
    }
    assert forall|i: int, j: int, x: PinId|
        0 <= i < next.len() && 0 <= j < next.len() && i != j && #[trigger] next[i].contains(
            x,
        ) implies !#[trigger] next[j].contains(x) by {
        let si = if i < h {
            i
        } else {
            i + 1
        };
        let sj = if j < h {
            j
        } else {
            j + 1
        };
        if i == g2 {
            assert(next[j] == groups[sj]);
            if groups[g].contains(x) {
                assert(!groups[sj].contains(x));
            } else {
                assert(groups[h].contains(x));
                assert(!groups[sj].contains(x));
            }
        } else if j == g2 {
            assert(next[i] == groups[si]);
            assert(groups[si].contains(x));
            assert(!groups[g].contains(x));
            assert(!groups[h].contains(x));
        } else {
            assert(next[i] == groups[si] && next[j] == groups[sj]);
            assert(groups[si].contains(x));
        }
    }
    assert forall|i: int, x: PinId, y: PinId|
        0 <= i < next.len() && #[trigger] next[i].contains(x) && #[trigger] next[i].contains(
            y,
        ) implies connected(edges, x, y) by {
        if i == g2 {
            if groups[g].contains(x) && groups[g].contains(y) {
            } else if groups[h].contains(x) && groups[h].contains(y) {
            } else if groups[g].contains(x) {
                assert(groups[h].contains(y));
                assert(connected(edges, x, a));
                assert(connected(edges, b, y));
                lemma_connected_trans(edges, x, a, b);
                lemma_connected_trans(edges, x, b, y);
            } else {
                assert(groups[h].contains(x) && groups[g].contains(y));
                assert(connected(edges, x, b));
                assert(connected(edges, a, y));
                lemma_connected_trans(edges, x, b, a);
                lemma_connected_trans(edges, x, a, y);
            }
        } else {
            let si = if i < h {
                i
            } else {
                i + 1
            };
            assert(next[i] == groups[si]);
        }
    }
    assert forall|i: int, x: PinId| 0 <= i < next.len() && #[trigger] next[i].contains(
        x,
    ) implies is_endpoint(edges, x) by {
        if i == g2 {
            if groups[g].contains(x) {
            } else {
                assert(groups[h].contains(x));
            }
        } else {
            let si = if i < h {
                i
            } else {
                i + 1
            };
            assert(next[i] == groups[si]);
        }
    }
    assert forall|i: int| 0 <= i < next.len() implies (#[trigger] next[i]).len() > 0
        && next[i].no_duplicates() by {
        if i == g2 {
            let s = groups[g];
            let t = groups[h];
            assert(s.len() > 0);
            assert forall|u: int, v: int| 0 <= u < merged.len() && 0 <= v < merged.len() && u
                != v implies merged[u] != merged[v] by {
                if u < s.len() && v < s.len() {
                } else if u >= s.len() && v >= s.len() {
                    assert(merged[u] == t[u - s.len()] && merged[v] == t[v - s.len()]);
                } else if u < s.len() {
                    assert(s.contains(merged[u]));
                    assert(t.contains(t[v - s.len()]));
                } else {
                    assert(s.contains(merged[v]));
                    assert(t.contains(t[u - s.len()]));
                }
            }
        } else {
            let si = if i < h {
                i
            } else {
                i + 1
            };
            assert(next[i] == groups[si]);
        }
    }
}

/// Two pins that a connection joins are in the same group.
pub proof fn lemma_adjacent_share_group(
    edges: Seq<(PinId, PinId)>,
    groups: Seq<Seq<PinId>>,
    p: PinId,
    q: PinId,
)
    requires
        components(edges, groups),
        adjacent(edges, p, q),
    ensures
        exists|i: int|
            0 <= i < groups.len() && #[trigger] groups[i].contains(p) && groups[i].contains(q),
{
    let k = choose|k: int|
        0 <= k < edges.len() && ((#[trigger] edges[k]).0 == p && edges[k].1 == q || edges[k].0 == q
            && edges[k].1 == p);
    assert(share_group(groups, edges[k]));
}

/// A group that holds the first pin of a chain of connections holds its last.
pub proof fn lemma_group_holds_path(
    edges: Seq<(PinId, PinId)>,
    groups: Seq<Seq<PinId>>,
    i: int,
    path: Seq<PinId>,
)
    requires
        components(edges, groups),
        0 <= i < groups.len(),
        is_path(edges, path),
        groups[i].contains(path[0]),
    ensures
        groups[i].contains(path.last()),
    decreases path.len(),
{
    if path.len() > 1 {
        let front = path.drop_last();
        assert forall|n: int| 0 <= n < front.len() - 1 implies adjacent(
            edges,
            #[trigger] front[n],
            front[n + 1],
        ) by {
            assert(adjacent(edges, path[n], path[n + 1]));
        }
        lemma_group_holds_path(edges, groups, i, front);
        let u = front.last();
        let v = path.last();
        assert(adjacent(edges, path[path.len() - 2], path[path.len() - 2 + 1]));
        lemma_adjacent_share_group(edges, groups, u, v);
        let j = choose|j: int|
            0 <= j < groups.len() && #[trigger] groups[j].contains(u) && groups[j].contains(v);
        if j != i {
            assert(!groups[j].contains(u));
        }
    }
}

/// A group holds every pin that is connected to one of its pins, so no group
/// is part of a larger set of connected pins.
pub proof fn lemma_group_closed(
    edges: Seq<(PinId, PinId)>,
    groups: Seq<Seq<PinId>>,
    i: int,
    p: PinId,
    q: PinId,
)
    requires
        components(edges, groups),
        0 <= i < groups.len(),
        groups[i].contains(p),
        connected(edges, p, q),
    ensures
        groups[i].contains(q),
{
    let path = choose|path: Seq<PinId>| #[trigger]
        is_path(edges, path) && path[0] == p && path.last() == q;
    lemma_group_holds_path(edges, groups, i, path);
}

/// No pin is in two groups.
pub proof fn lemma_groups_disjoint(
    edges: Seq<(PinId, PinId)>,
    groups: Seq<Seq<PinId>>,
    i: int,
    j: int,
    p: PinId,
)
    requires
        components(edges, groups),
        0 <= i < groups.len(),
        0 <= j < groups.len(),
        groups[i].contains(p),
        groups[j].contains(p),
    ensures
        i == j,
{
}

/// The groups of a description are determined up to their order and the
/// order of their pins: each group of one grouping has the same pins as some
/// group of any other.
pub proof fn lemma_groups_unique(
    edges: Seq<(PinId, PinId)>,
    first: Seq<Seq<PinId>>,
    second: Seq<Seq<PinId>>,
    i: int,
)
    requires
        components(edges, first),
        components(edges, second),
        0 <= i < first.len(),
    ensures
        exists|j: int|
            0 <= j < second.len() && forall|p: PinId|
                first[i].contains(p) <==> (#[trigger] second[j]).contains(p),
{
    let seed = first[i][0];
    assert(first[i].contains(seed));
    assert(is_endpoint(edges, seed));
    let k = choose|k: int| 0 <= k < edges.len() && ((#[trigger] edges[k]).0 == seed || edges[k].1
        == seed);
    assert(share_group(second, edges[k]));
    let j = choose|j: int|
        0 <= j < second.len() && #[trigger] second[j].contains(edges[k].0) && second[j].contains(
            edges[k].1,
        );
    assert(second[j].contains(seed));
    assert forall|p: PinId| first[i].contains(p) <==> second[j].contains(p) by {
        if first[i].contains(p) {
            assert(connected(edges, seed, p));
            lemma_group_closed(edges, second, j, seed, p);
        }
        if second[j].contains(p) {
            assert(connected(edges, seed, p));
            lemma_group_closed(edges, first, i, seed, p);
        }
    }
}

/// The pins of the groups are exactly the pins of the connections.
pub proof fn lemma_grouped_iff_endpoint(
    edges: Seq<(PinId, PinId)>,
    groups: Seq<Seq<PinId>>,
    p: PinId,
)
    requires
        components(edges, groups),
    ensures
        is_endpoint(edges, p) <==> exists|i: int|
            0 <= i < groups.len() && (#[trigger] groups[i]).contains(p),
{
    if is_endpoint(edges, p) {
        let k = choose|k: int| 0 <= k < edges.len() && ((#[trigger] edges[k]).0 == p || edges[k].1
            == p);
        assert(share_group(groups, edges[k]));
        let i = choose|i: int|
            0 <= i < groups.len() && #[trigger] groups[i].contains(edges[k].0)
                && groups[i].contains(edges[k].1);
        assert(groups[i].contains(p));
    }
}

fn group_has(group: &Vec<ChipPin>, p: &ChipPin) -> (r: bool)
    ensures
        r == group.deep_view().contains(p@),
{
    let mut i: usize = 0;
    while i < group.len()
        invariant
            i <= group.len(),
            forall|k: int| 0 <= k < i ==> group.deep_view()[k] != p@,
        decreases group.len() - i,
    {
        if group[i] == *p {
            assert(group.deep_view()[i as int] == p@);
            return true;
        }
        i = i + 1;
    }
    false
}

/// Finds the group that holds the pin `p`.
pub fn find_group(groups: &Vec<Vec<ChipPin>>, p: &ChipPin) -> (r: Option<usize>)
    ensures
        match r {
            Some(i) => i < groups.len() && groups.deep_view()[i as int].contains(p@),
            None => forall|i: int|
                0 <= i < groups.len() ==> !(#[trigger] groups.deep_view()[i]).contains(p@),
        },
{
    let mut i: usize = 0;
    while i < groups.len()
        invariant
            i <= groups.len(),
            forall|k: int| 0 <= k < i ==> !(#[trigger] groups.deep_view()[k]).contains(p@),
        decreases groups.len() - i,
    {
        if group_has(&groups[i], p) {
            return Some(i);
        }
        i = i + 1;
    }
    None
}

impl PcbMacroInput {
    /// Computes the groups of shorted pins: the connected components of the
    /// description's connections.
    pub fn get_short_pin_set(&self) -> (groups: Vec<Vec<ChipPin>>)
        ensures
            components(self@.connections, groups.deep_view()),
    {
        let ghost edges = self@.connections;
        let mut groups: Vec<Vec<ChipPin>> = Vec::new();
        let mut k: usize = 0;
        assert(groups.deep_view() =~= Seq::empty());
        while k < self.connections.len()
            invariant
                k <= self.connections.len(),
                edges == self@.connections,
                components_upto(edges, groups.deep_view(), k as int),
            decreases self.connections.len() - k,
        {
            let ghost before = groups.deep_view();
            let p = &self.connections[k].0;
            let q = &self.connections[k].1;
            assert(edges[k as int] == (p@, q@));
            let at_p = find_group(&groups, p);
            let at_q = find_group(&groups, q);
            match (at_p, at_q) {
                (None, None) => {
                    let mut fresh: Vec<ChipPin> = Vec::new();
                    fresh.push(p.clone());
                    if !(*p == *q) {
                        fresh.push(q.clone());
                    }
                    assert(fresh.deep_view() =~= fresh_group(edges[k as int]));
                    groups.push(fresh);
                    proof {
                        assert(groups.deep_view() =~= before.push(fresh_group(edges[k as int])));
                        lemma_step_new(edges, before, k as int);
                    }
                },
                (Some(g), None) => {
                    let ghost grown = before[g as int].push(q@);
                    let mut group = groups.remove(g);
                    group.push(q.clone());
                    assert(group.deep_view() =~= grown);
                    groups.insert(g, group);
                    proof {
                        assert(groups.deep_view() =~= before.update(g as int, grown));
                        lemma_step_extend(edges, before, k as int, g as int, p@, q@);
                    }
                },
                (None, Some(h)) => {
                    let ghost grown = before[h as int].push(p@);
                    let mut group = groups.remove(h);
                    group.push(p.clone());
                    assert(group.deep_view() =~= grown);
                    groups.insert(h, group);
                    proof {
                        assert(groups.deep_view() =~= before.update(h as int, grown));
                        lemma_step_extend(edges, before, k as int, h as int, q@, p@);
                    }
                },
                (Some(g), Some(h)) => {
                    if g == h {
                        proof {
                            lemma_step_same(edges, before, k as int, g as int);
                        }
                    } else {
                        let ghost merged = before[g as int] + before[h as int];
                        let mut moved = groups.remove(h);
                        let g2 = if h < g {
                            g - 1
                        } else {
                            g
                        };
                        let mut group = groups.remove(g2);
                        group.append(&mut moved);
                        assert(group.deep_view() =~= merged);
                        groups.insert(g2, group);
                        proof {
                            assert(groups.deep_view() =~= before.update(g as int, merged).remove(
                                h as int,
                            ));
                            lemma_step_merge(edges, before, k as int, g as int, h as int, p@, q@);
                        }
                    }
                },
            }
            k = k + 1;
        }
        groups
    }
}

} // verus!
