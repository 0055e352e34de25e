use vstd::prelude::*;
use crate::counting::{count_where, lemma_count_one, lemma_count_push, lemma_count_update};
use crate::graph::{Edge, Graph, GraphView, NodeId};

verus! {

/// `e` read in the other direction.
pub open spec fn flip(e: Edge) -> Edge {
    Edge { a: e.b, b: e.a, weight: e.weight }
}

/// `e`, traversed from `e.a` to `e.b`, is an edge of `g` in one orientation or the other.
pub open spec fn usable(g: GraphView, e: Edge) -> bool {
    exists|j: int| 0 <= j < g.edges.len() && (#[trigger] g.edges[j] == e || g.edges[j] == flip(e))
}

/// `w` is a walk from `s` to `t`: consecutive oriented edges of `g`, starting at `s`
/// and ending at `t`. The empty walk goes from a present node to itself.
pub open spec fn is_walk(g: GraphView, s: int, t: int, w: Seq<Edge>) -> bool
    decreases w.len(),
{
    if w.len() == 0 {
        s == t && g.live(s)
    } else {
        w.last().b.slot == t && usable(g, w.last()) && is_walk(
            g,
            s,
            w.last().a.slot as int,
            w.drop_last(),
        )
    }
}

pub open spec fn walk_weight(w: Seq<Edge>) -> nat
    decreases w.len(),
{
    if w.len() == 0 {
        0
    } else {
        walk_weight(w.drop_last()) + w.last().weight as nat
    }
}

/// The nodes that `w` visits, starting with `s`.
pub open spec fn walk_nodes(s: NodeId, w: Seq<Edge>) -> Seq<NodeId> {
    seq![s] + w.map_values(|e: Edge| e.b)
}

pub open spec fn reaches(g: GraphView, s: int, t: int, d: int) -> bool {
    exists|w: Seq<Edge>| #[trigger] is_walk(g, s, t, w) && walk_weight(w) == d
}

/// `d` is the least weight of a walk from `s` to `t`.
pub open spec fn is_shortest(g: GraphView, s: int, t: int, d: nat) -> bool {
    reaches(g, s, t, d as int) && forall|w: Seq<Edge>| #[trigger] is_walk(g, s, t, w) ==> d <= walk_weight(w)
}

/// The shortest distance from `s` to `t`, if `t` can be reached.
pub open spec fn distance(g: GraphView, s: int, t: int) -> Option<nat> {
    if exists|d: nat| is_shortest(g, s, t, d) {
        Some(choose|d: nat| is_shortest(g, s, t, d))
    } else {
        None
    }
}

/// The shortest distance as it is reported: a distance too large for `u64`
/// is reported as no path.
pub open spec fn fitted_distance(g: GraphView, s: int, t: int) -> Option<u64> {
    match distance(g, s, t) {
        Some(d) => if d <= u64::MAX {
            Some(d as u64)
        } else {
            None
        },
        None => None,
    }
}

pub proof fn lemma_shortest_unique(g: GraphView, s: int, t: int, d1: nat, d2: nat)
    requires
        is_shortest(g, s, t, d1),
        is_shortest(g, s, t, d2),
    ensures
        d1 == d2,
{
    let w1 = choose|w: Seq<Edge>| #[trigger] is_walk(g, s, t, w) && walk_weight(w) == d1;
    let w2 = choose|w: Seq<Edge>| #[trigger] is_walk(g, s, t, w) && walk_weight(w) == d2;
    assert(d2 <= walk_weight(w1));
    assert(d1 <= walk_weight(w2));
}

/// A reported distance that is witnessed by a walk and bounded by every walk that
/// fits in `u64` is the shortest distance.
pub proof fn lemma_fitted_from_bounds(g: GraphView, s: int, t: int, d: u64)
    requires
        reaches(g, s, t, d as int),
        forall|w: Seq<Edge>| #[trigger] is_walk(g, s, t, w) && walk_weight(w) <= u64::MAX ==> d <= walk_weight(w),
    ensures
        fitted_distance(g, s, t) == Some(d),
{
    assert forall|w: Seq<Edge>| #[trigger] is_walk(g, s, t, w) implies d <= walk_weight(w) by {
        if walk_weight(w) <= u64::MAX {
        }
    }
    assert(is_shortest(g, s, t, d as nat));
    let c = choose|c: nat| is_shortest(g, s, t, c);
    lemma_shortest_unique(g, s, t, c, d as nat);
}

/// With no walk that fits in `u64`, nothing is reported.
pub proof fn lemma_fitted_none(g: GraphView, s: int, t: int)
    requires
        forall|w: Seq<Edge>| #[trigger] is_walk(g, s, t, w) ==> walk_weight(w) > u64::MAX,
    ensures
        fitted_distance(g, s, t) is None,
{
    if exists|d: nat| is_shortest(g, s, t, d) {
        let c = choose|c: nat| is_shortest(g, s, t, c);
        let w = choose|w: Seq<Edge>| #[trigger] is_walk(g, s, t, w) && walk_weight(w) == c;
    }
}

/// The shortest distance from a present node to itself is zero.
pub proof fn lemma_distance_to_self(g: GraphView, x: int)
    requires
        g.live(x),
    ensures
        distance(g, x, x) == Some(0nat),
        fitted_distance(g, x, x) == Some(0u64),
{
    let empty = Seq::<Edge>::empty();
    assert(is_walk(g, x, x, empty));
    assert(walk_weight(empty) == 0);
    assert(is_shortest(g, x, x, 0nat));
    let c = choose|c: nat| is_shortest(g, x, x, c);
    lemma_shortest_unique(g, x, x, c, 0nat);
}

/// A reported distance is the least weight of a walk; nothing is reported only when
/// no walk of weight within `u64` exists.
pub proof fn lemma_reported_meaning(g: GraphView, s: int, t: int)
    ensures
        fitted_distance(g, s, t) is Some ==> is_shortest(g, s, t, fitted_distance(g, s, t)->Some_0 as nat),
        fitted_distance(g, s, t) is None ==> forall|w: Seq<Edge>|
            #[trigger] is_walk(g, s, t, w) ==> walk_weight(w) > u64::MAX,
{
    if exists|d: nat| is_shortest(g, s, t, d) {
        let c = choose|c: nat| is_shortest(g, s, t, c);
        if c > u64::MAX {
            assert forall|w: Seq<Edge>| #[trigger] is_walk(g, s, t, w) implies walk_weight(w) > u64::MAX by {
            }
        }
    } else {
        assert forall|w: Seq<Edge>| #[trigger] is_walk(g, s, t, w) implies walk_weight(w) > u64::MAX by {
            if walk_weight(w) <= u64::MAX {
                lemma_least_exists(g, s, t, w);
            }
        }
    }
}

/// Any walk leaves a least walk weight to be found.
proof fn lemma_least_exists(g: GraphView, s: int, t: int, w: Seq<Edge>)
    requires
        is_walk(g, s, t, w),
    ensures
        exists|d: nat| is_shortest(g, s, t, d),
    decreases walk_weight(w),
{
    if !is_shortest(g, s, t, walk_weight(w)) {
        let w2 = choose|w2: Seq<Edge>| #[trigger] is_walk(g, s, t, w2) && walk_weight(w2) < walk_weight(w);
        lemma_least_exists(g, s, t, w2);
    }
}

pub proof fn lemma_walk_push(g: GraphView, s: int, u: int, w: Seq<Edge>, e: Edge)
    requires
        is_walk(g, s, u, w),
        usable(g, e),
        e.a.slot == u,
    ensures
        is_walk(g, s, e.b.slot as int, w.push(e)),
        walk_weight(w.push(e)) == walk_weight(w) + e.weight,
{
    assert(w.push(e).drop_last() =~= w);
}

pub proof fn lemma_walk_prepend(g: GraphView, u: int, v: int, t: int, w: Seq<Edge>, e: Edge)
    requires
        is_walk(g, v, t, w),
        usable(g, e),
        e.a.slot == u,
        e.b.slot == v,
        g.live(u),
    ensures
        is_walk(g, u, t, seq![e] + w),
        walk_weight(seq![e] + w) == e.weight + walk_weight(w),
        walk_nodes(e.a, seq![e] + w) == seq![e.a] + walk_nodes(e.b, w),
    decreases w.len(),
{
    let ew = seq![e] + w;
    if w.len() == 0 {
        assert(ew =~= seq![e]);
        assert(ew.drop_last() =~= Seq::<Edge>::empty());
        assert(is_walk(g, u, u, ew.drop_last()));
        assert(walk_weight(ew.drop_last()) == 0);
    } else {
        let d = w.drop_last();
        assert(is_walk(g, v, w.last().a.slot as int, d));
        lemma_walk_prepend(g, u, v, w.last().a.slot as int, d, e);
        assert(ew.drop_last() =~= seq![e] + d);
        assert(ew.last() == w.last());
        assert(is_walk(g, u, w.last().a.slot as int, ew.drop_last()));
        assert(walk_weight(ew) == walk_weight(ew.drop_last()) + w.last().weight);
    }
    assert(ew.map_values(|x: Edge| x.b) =~= seq![e.b] + w.map_values(|x: Edge| x.b));
    assert(walk_nodes(e.a, ew) =~= seq![e.a] + walk_nodes(e.b, w));
}

/// Relaxing from `u` along an edge of weight `w` cannot improve `v`'s label.
spec fn bounded(dist: Seq<Option<u64>>, u: int, v: int, w: u64) -> bool {
    dist[u]->Some_0 + w <= u64::MAX ==> dist[v] is Some && dist[v]->Some_0 <= dist[u]->Some_0 + w
}

/// No edge at `u` can improve the label of its other end.
spec fn relaxed(g: GraphView, dist: Seq<Option<u64>>, u: int) -> bool {
    relaxed_upto(g, dist, u, g.edges.len() as int)
}

/// No edge at `u` among the first `m` can improve the label of its other end.
spec fn relaxed_upto(g: GraphView, dist: Seq<Option<u64>>, u: int, m: int) -> bool {
    forall|j: int|
        0 <= j < m ==> (#[trigger] g.edges[j].a.slot == u ==> bounded(
            dist,
            u,
            g.edges[j].b.slot as int,
            g.edges[j].weight,
        )) && (g.edges[j].b.slot == u ==> bounded(dist, u, g.edges[j].a.slot as int, g.edges[j].weight))
}

/// Labels at which no edge improves anything bound every walk from the source.
proof fn lemma_relaxed_walk(g: GraphView, s: int, dist: Seq<Option<u64>>, t: int, w: Seq<Edge>)
    requires
        g.well_formed(),
        dist.len() == g.nodes.len(),
        dist[s] == Some(0u64),
        forall|u: int| 0 <= u < dist.len() && (#[trigger] dist[u]) is Some ==> relaxed(g, dist, u),
        is_walk(g, s, t, w),
        walk_weight(w) <= u64::MAX,
    ensures
        dist[t] is Some,
        dist[t]->Some_0 <= walk_weight(w),
    decreases w.len(),
{
    if w.len() > 0 {
        let e = w.last();
        let p = w.drop_last();
        let u = e.a.slot as int;
        lemma_relaxed_walk(g, s, dist, u, p);
        let j = choose|j: int| 0 <= j < g.edges.len() && (#[trigger] g.edges[j] == e || g.edges[j] == flip(e));
        assert(g.live(g.edges[j].a.slot as int));
        assert(relaxed(g, dist, u));
        if g.edges[j] == e {
            assert(bounded(dist, u, e.b.slot as int, e.weight));
        } else {
            assert(bounded(dist, u, e.b.slot as int, e.weight));
        }
    }
}

/// `e`, the edge by which `v` got its label, leads from a labelled node and accounts for it.
spec fn back_ok(g: GraphView, dist: Seq<Option<u64>>, e: Edge, v: int) -> bool {
    &&& usable(g, e)
    &&& e.b.slot == v
    &&& 0 <= e.a.slot < dist.len()
    &&& dist[e.a.slot as int] is Some
    &&& dist[v]->Some_0 == dist[e.a.slot as int]->Some_0 + e.weight
}

/// The state that a search from `s` leaves behind.
struct Search {
    /// Shortest distance from the source, by slot.
    dist: Vec<Option<u64>>,
    /// For each labelled slot but the source, the last edge of a shortest walk.
    back: Vec<Edge>,
    /// The round at which each labelled slot was settled.
    rank: Vec<usize>,
}

spec fn search_done(g: GraphView, s: int, r: Search) -> bool {
    &&& r.dist@.len() == g.nodes.len()
    &&& r.back@.len() == g.nodes.len()
    &&& r.rank@.len() == g.nodes.len()
    &&& forall|t: int| 0 <= t < g.nodes.len() ==> #[trigger] r.dist@[t] == fitted_distance(g, s, t)
    &&& g.live(s) ==> r.dist@[s] == Some(0u64)
    &&& forall|v: int|
        0 <= v < g.nodes.len() && v != s && (#[trigger] r.dist@[v]) is Some ==> back_ok(
            g,
            r.dist@,
            r.back@[v],
            v,
        ) && r.rank@[r.back@[v].a.slot as int] < r.rank@[v]
}

spec fn not_set() -> spec_fn(bool) -> bool {
    |b: bool| !b
}

/// Every label is the weight of some walk from the source.
#[verifier::opaque]
spec fn inv_sound(g: GraphView, s: int, dist: Seq<Option<u64>>) -> bool {
    forall|v: int| 0 <= v < dist.len() && (#[trigger] dist[v]) is Some ==> reaches(g, s, v, dist[v]->Some_0 as int)
}

/// Settled nodes are labelled, ranked before `round`, and relaxed (`pending` up to `upto`).
#[verifier::opaque]
spec fn inv_settled(
    g: GraphView,
    dist: Seq<Option<u64>>,
    rank: Seq<usize>,
    settled: Seq<bool>,
    round: nat,
    pending: int,
    upto: int,
) -> bool {
    forall|v: int|
        0 <= v < settled.len() && #[trigger] settled[v] ==> dist[v] is Some && rank[v] < round && relaxed_upto(
            g,
            dist,
            v,
            if v == pending {
                upto
            } else {
                g.edges.len() as int
            },
        )
}

/// No settled label exceeds an unsettled one.
#[verifier::opaque]
spec fn inv_order(dist: Seq<Option<u64>>, settled: Seq<bool>) -> bool {
    forall|x: int, y: int|
        0 <= x < settled.len() && 0 <= y < settled.len() && #[trigger] settled[x] && !#[trigger] settled[y]
            && dist[y] is Some ==> dist[x]->Some_0 <= dist[y]->Some_0
}

/// Each label but the source's came through an edge from a node settled earlier.
#[verifier::opaque]
spec fn inv_tree(
    g: GraphView,
    s: int,
    dist: Seq<Option<u64>>,
    back: Seq<Edge>,
    rank: Seq<usize>,
    settled: Seq<bool>,
    round: nat,
) -> bool {
    forall|v: int|
        0 <= v < dist.len() && v != s && (#[trigger] dist[v]) is Some ==> back_ok(g, dist, back[v], v)
            && settled[back[v].a.slot as int] && rank[back[v].a.slot as int] < (if settled[v] {
            rank[v] as int
        } else {
            round as int
        })
}

/// Invariant of `search`; the edges of `pending` from `upto` on are still to be relaxed.
spec fn search_inv(
    g: GraphView,
    s: int,
    dist: Seq<Option<u64>>,
    back: Seq<Edge>,
    rank: Seq<usize>,
    settled: Seq<bool>,
    round: nat,
    pending: int,
    upto: int,
) -> bool {
    let n = g.nodes.len();
    &&& dist.len() == n && back.len() == n && rank.len() == n && settled.len() == n
    &&& round + count_where(settled, not_set()) == n
    &&& 0 <= s < n
    &&& dist[s] == Some(0u64)
    &&& inv_sound(g, s, dist)
    &&& inv_settled(g, dist, rank, settled, round, pending, upto)
    &&& inv_order(dist, settled)
    &&& inv_tree(g, s, dist, back, rank, settled, round)
}

/// The unsettled labelled slot with the smallest label, if any.
fn closest_unsettled(dist: &Vec<Option<u64>>, settled: &Vec<bool>) -> (r: Option<usize>)
    requires
        dist@.len() == settled@.len(),
    ensures
        r is Some ==> r->Some_0 < dist@.len() && !settled@[r->Some_0 as int] && dist@[r->Some_0 as int] is Some
            && forall|k: int|
            0 <= k < dist@.len() && !settled@[k] && (#[trigger] dist@[k]) is Some ==> dist@[r->Some_0 as int]->Some_0
                <= dist@[k]->Some_0,
        r is None ==> forall|k: int| 0 <= k < dist@.len() && (#[trigger] dist@[k]) is Some ==> settled@[k],
{
    let mut best: Option<usize> = None;
    let mut best_d: u64 = 0;
    let mut i: usize = 0;
    while i < dist.len()
        invariant
            dist@.len() == settled@.len(),
            i <= dist@.len(),
            best is Some ==> best->Some_0 < i && !settled@[best->Some_0 as int] && dist@[best->Some_0 as int]
                == Some(best_d) && forall|k: int|
                0 <= k < i && !settled@[k] && (#[trigger] dist@[k]) is Some ==> best_d <= dist@[k]->Some_0,
            best is None ==> forall|k: int| 0 <= k < i && (#[trigger] dist@[k]) is Some ==> settled@[k],
        decreases dist.len() - i,
    {
        if !settled[i] {
            match dist[i] {
                Some(d) => {
                    if best.is_none() || d < best_d {
                        best = Some(i);
                        best_d = d;
                    }
                },
                None => {},
            }
        }
        i = i + 1;
    }
    best
}

/// The labels after trying to reach `e.b` through `e` from a node labelled `du`.
spec fn improve_dist(dist: Seq<Option<u64>>, du: u64, e: Edge) -> Seq<Option<u64>> {
    if improves(dist, du, e) {
        dist.update(e.b.slot as int, Some((du + e.weight) as u64))
    } else {
        dist
    }
}

spec fn improve_back(dist: Seq<Option<u64>>, back: Seq<Edge>, du: u64, e: Edge) -> Seq<Edge> {
    if improves(dist, du, e) {
        back.update(e.b.slot as int, e)
    } else {
        back
    }
}

spec fn improves(dist: Seq<Option<u64>>, du: u64, e: Edge) -> bool {
    du + e.weight <= u64::MAX && (dist[e.b.slot as int] is None || du + e.weight < dist[e.b.slot as int]->Some_0)
}

/// Labels only go down, and a label once set stays set.
spec fn lowered(d: Seq<Option<u64>>, d2: Seq<Option<u64>>) -> bool {
    d2.len() == d.len() && forall|k: int|
        0 <= k < d.len() && (#[trigger] d[k]) is Some ==> d2[k] is Some && d2[k]->Some_0 <= d[k]->Some_0
}

/// Invariant while the edges of the node `u` just settled, with label `du`, are relaxed.
spec fn round_inv(
    g: GraphView,
    s: int,
    dist: Seq<Option<u64>>,
    back: Seq<Edge>,
    rank: Seq<usize>,
    settled: Seq<bool>,
    round: nat,
    u: int,
    du: u64,
    upto: int,
) -> bool {
    &&& 0 <= u < g.nodes.len()
    &&& 0 <= upto <= g.edges.len()
    &&& search_inv(g, s, dist, back, rank, settled, round, u, upto)
    &&& settled[u]
    &&& dist[u] == Some(du)
    &&& rank[u] + 1 == round
    &&& round_bounds(dist, settled, du)
}

/// `du` lies between the settled labels and the unsettled ones.
#[verifier::opaque]
spec fn round_bounds(dist: Seq<Option<u64>>, settled: Seq<bool>, du: u64) -> bool {
    &&& forall|x: int| 0 <= x < settled.len() && #[trigger] settled[x] ==> dist[x]->Some_0 <= du
    &&& forall|y: int|
        0 <= y < settled.len() && !#[trigger] settled[y] && dist[y] is Some ==> du <= dist[y]->Some_0
}

proof fn lemma_settle(
    g: GraphView,
    s: int,
    dist: Seq<Option<u64>>,
    back: Seq<Edge>,
    rank: Seq<usize>,
    settled: Seq<bool>,
    round: nat,
    u: int,
)
    requires
        search_inv(g, s, dist, back, rank, settled, round, -1, 0),
        g.nodes.len() <= usize::MAX,
        0 <= u < g.nodes.len(),
        !settled[u],
        dist[u] is Some,
        forall|k: int|
            0 <= k < dist.len() && !settled[k] && (#[trigger] dist[k]) is Some ==> dist[u]->Some_0 <= dist[k]->Some_0,
    ensures
        round < g.nodes.len(),
        round_inv(
            g,
            s,
            dist,
            back,
            rank.update(u, round as usize),
            settled.update(u, true),
            round + 1,
            u,
            dist[u]->Some_0,
            0,
        ),
{
    lemma_count_update(settled, u, true, not_set());
    lemma_count_one(settled, not_set(), u);
    let n = g.nodes.len();
    let rank2 = rank.update(u, round as usize);
    let settled2 = settled.update(u, true);
    let du = dist[u]->Some_0;
    assert(inv_settled(g, dist, rank2, settled2, round + 1, u, 0)) by {
        reveal(inv_settled);
        assert forall|v: int| 0 <= v < n && #[trigger] settled2[v] implies dist[v] is Some && rank2[v] < round
            + 1 && relaxed_upto(g, dist, v, if v == u { 0 } else { g.edges.len() as int }) by {
            if v != u {
                assert(settled[v]);
            }
        }
    }
    assert(inv_tree(g, s, dist, back, rank2, settled2, round + 1)) by {
        reveal(inv_tree);
        reveal(inv_settled);
        assert forall|v: int|
            0 <= v < n && v != s && (#[trigger] dist[v]) is Some implies back_ok(g, dist, back[v], v)
                && settled2[back[v].a.slot as int] && rank2[back[v].a.slot as int] < (if settled2[v] {
                rank2[v] as int
            } else {
                (round + 1) as int
            }) by {
            assert(settled[back[v].a.slot as int]);
            assert(back[v].a.slot != u);
        }
    }
    assert(inv_order(dist, settled2)) by {
        reveal(inv_order);
        assert forall|x: int, y: int|
            0 <= x < n && 0 <= y < n && #[trigger] settled2[x] && !#[trigger] settled2[y] && dist[y] is Some
                implies dist[x]->Some_0 <= dist[y]->Some_0 by {
            if x != u {
                assert(settled[x] && !settled[y]);
            }
        }
    }
    assert(round_bounds(dist, settled2, du)) by {
        reveal(round_bounds);
        reveal(inv_order);
        assert forall|x: int| 0 <= x < n && #[trigger] settled2[x] implies dist[x]->Some_0 <= du by {
            if x != u {
                assert(settled[x] && !settled[u]);
            }
        }
    }
}

proof fn lemma_improve(
    g: GraphView,
    s: int,
    dist: Seq<Option<u64>>,
    back: Seq<Edge>,
    rank: Seq<usize>,
    settled: Seq<bool>,
    round: nat,
    u: int,
    du: u64,
    upto: int,
    e: Edge,
)
    requires
        g.well_formed(),
        round_inv(g, s, dist, back, rank, settled, round, u, du, upto),
        usable(g, e),
        e.a.slot == u,
        0 <= e.b.slot < g.nodes.len(),
    ensures
        round_inv(
            g,
            s,
            improve_dist(dist, du, e),
            improve_back(dist, back, du, e),
            rank,
            settled,
            round,
            u,
            du,
            upto,
        ),
        bounded(improve_dist(dist, du, e), u, e.b.slot as int, e.weight),
        lowered(dist, improve_dist(dist, du, e)),
{
    if improves(dist, du, e) {
        let n = g.nodes.len();
        let v = e.b.slot as int;
        let c = (du + e.weight) as u64;
        let d2 = improve_dist(dist, du, e);
        let b2 = improve_back(dist, back, du, e);
        assert(!settled[v] && v != s && v != u) by {
            reveal(round_bounds);
            if settled[v] {
                assert(dist[v]->Some_0 <= du);
                reveal(inv_settled);
            }
        }
        assert(inv_sound(g, s, d2)) by {
            reveal(inv_sound);
            let wu = choose|w: Seq<Edge>| #[trigger] is_walk(g, s, u, w) && walk_weight(w) == du;
            lemma_walk_push(g, s, u, wu, e);
            assert(is_walk(g, s, v, wu.push(e)));
            assert(reaches(g, s, v, c as int));
            assert forall|k: int| 0 <= k < n && (#[trigger] d2[k]) is Some implies reaches(
                g,
                s,
                k,
                d2[k]->Some_0 as int,
            ) by {
                if k != v {
                    assert(dist[k] is Some);
                }
            }
        }
        assert(inv_settled(g, d2, rank, settled, round, u, upto)) by {
            reveal(inv_settled);
            assert forall|x: int| 0 <= x < n && #[trigger] settled[x] implies d2[x] is Some && rank[x] < round
                && relaxed_upto(g, d2, x, if x == u { upto } else { g.edges.len() as int }) by {
                let m = if x == u { upto } else { g.edges.len() as int };
                assert(relaxed_upto(g, dist, x, m));
                assert forall|j: int| 0 <= j < m implies (#[trigger] g.edges[j].a.slot == x ==> bounded(
                    d2,
                    x,
                    g.edges[j].b.slot as int,
                    g.edges[j].weight,
                )) && (g.edges[j].b.slot == x ==> bounded(d2, x, g.edges[j].a.slot as int, g.edges[j].weight)) by {
                    assert(g.live(g.edges[j].a.slot as int));
                }
            }
        }
        assert(inv_order(d2, settled)) by {
            reveal(inv_order);
            reveal(round_bounds);
            assert forall|x: int, y: int|
                0 <= x < n && 0 <= y < n && #[trigger] settled[x] && !#[trigger] settled[y] && d2[y] is Some
                    implies d2[x]->Some_0 <= d2[y]->Some_0 by {
                if y != v {
                    assert(dist[y] is Some);
                }
            }
        }
        assert(inv_tree(g, s, d2, b2, rank, settled, round)) by {
            reveal(inv_tree);
            assert forall|k: int|
                0 <= k < n && k != s && (#[trigger] d2[k]) is Some implies back_ok(g, d2, b2[k], k)
                    && settled[b2[k].a.slot as int] && rank[b2[k].a.slot as int] < (if settled[k] {
                    rank[k] as int
                } else {
                    round as int
                }) by {
                if k != v {
                    assert(dist[k] is Some);
                    assert(settled[back[k].a.slot as int]);
                }
            }
        }
        assert(round_bounds(d2, settled, du)) by {
            reveal(round_bounds);
            assert forall|y: int| 0 <= y < n && !#[trigger] settled[y] && d2[y] is Some implies du
                <= d2[y]->Some_0 by {
                if y != v {
                    assert(dist[y] is Some);
                }
            }
        }
    }
}

proof fn lemma_close_edge(
    g: GraphView,
    s: int,
    d1: Seq<Option<u64>>,
    d2: Seq<Option<u64>>,
    back: Seq<Edge>,
    rank: Seq<usize>,
    settled: Seq<bool>,
    round: nat,
    u: int,
    du: u64,
    j: int,
)
    requires
        g.well_formed(),
        0 <= j < g.edges.len(),
        round_inv(g, s, d2, back, rank, settled, round, u, du, j),
        lowered(d1, d2),
        d1[u] == d2[u],
        g.edges[j].a.slot == u ==> bounded(d1, u, g.edges[j].b.slot as int, g.edges[j].weight),
        g.edges[j].b.slot == u ==> bounded(d2, u, g.edges[j].a.slot as int, g.edges[j].weight),
    ensures
        round_inv(g, s, d2, back, rank, settled, round, u, du, j + 1),
{
    let n = g.nodes.len();
    assert(inv_settled(g, d2, rank, settled, round, u, j + 1)) by {
        reveal(inv_settled);
        assert forall|x: int| 0 <= x < n && #[trigger] settled[x] implies d2[x] is Some && rank[x] < round
            && relaxed_upto(g, d2, x, if x == u { j + 1 } else { g.edges.len() as int }) by {
            if x == u {
                assert(relaxed_upto(g, d2, x, j));
                assert forall|k: int| 0 <= k < j + 1 implies (#[trigger] g.edges[k].a.slot == x ==> bounded(
                    d2,
                    x,
                    g.edges[k].b.slot as int,
                    g.edges[k].weight,
                )) && (g.edges[k].b.slot == x ==> bounded(d2, x, g.edges[k].a.slot as int, g.edges[k].weight))
                    by {
                    if k == j && g.edges[j].a.slot == u {
                        let v = g.edges[j].b.slot as int;
                        if d1[u]->Some_0 + g.edges[j].weight <= u64::MAX {
                            assert(d1[v] is Some);
                        }
                    }
                }
            }
        }
    }
}

proof fn lemma_end_round(
    g: GraphView,
    s: int,
    dist: Seq<Option<u64>>,
    back: Seq<Edge>,
    rank: Seq<usize>,
    settled: Seq<bool>,
    round: nat,
    u: int,
    du: u64,
)
    requires
        round_inv(g, s, dist, back, rank, settled, round, u, du, g.edges.len() as int),
    ensures
        search_inv(g, s, dist, back, rank, settled, round, -1, 0),
{
    reveal(inv_settled);
}

proof fn lemma_search_done(
    g: GraphView,
    s: int,
    dist: Seq<Option<u64>>,
    back: Seq<Edge>,
    rank: Seq<usize>,
    settled: Seq<bool>,
    round: nat,
)
    requires
        g.well_formed(),
        search_inv(g, s, dist, back, rank, settled, round, -1, 0),
        forall|v: int| 0 <= v < g.nodes.len() && (#[trigger] dist[v]) is Some ==> settled[v],
    ensures
        forall|t: int| 0 <= t < g.nodes.len() ==> #[trigger] dist[t] == fitted_distance(g, s, t),
        dist[s] == Some(0u64),
        forall|v: int|
            0 <= v < g.nodes.len() && v != s && (#[trigger] dist[v]) is Some ==> back_ok(g, dist, back[v], v)
                && rank[back[v].a.slot as int] < rank[v],
{
    reveal(inv_sound);
    reveal(inv_settled);
    reveal(inv_tree);
    let n = g.nodes.len();
    assert forall|u: int| 0 <= u < dist.len() && (#[trigger] dist[u]) is Some implies relaxed(g, dist, u) by {
        assert(settled[u]);
    }
    assert forall|t: int| 0 <= t < n implies #[trigger] dist[t] == fitted_distance(g, s, t) by {
        if dist[t] is Some {
            let d = dist[t]->Some_0;
            assert forall|w: Seq<Edge>| #[trigger] is_walk(g, s, t, w) && walk_weight(w) <= u64::MAX implies d
                <= walk_weight(w) by {
                lemma_relaxed_walk(g, s, dist, t, w);
            }
            lemma_fitted_from_bounds(g, s, t, d);
        } else {
            assert forall|w: Seq<Edge>| #[trigger] is_walk(g, s, t, w) implies walk_weight(w) > u64::MAX by {
                if walk_weight(w) <= u64::MAX {
                    lemma_relaxed_walk(g, s, dist, t, w);
                }
            }
            lemma_fitted_none(g, s, t);
        }
    }
    assert forall|v: int|
        0 <= v < n && v != s && (#[trigger] dist[v]) is Some implies back_ok(g, dist, back[v], v)
            && rank[back[v].a.slot as int] < rank[v] by {
        assert(settled[v]);
    }
}

/// Lowers the label of `e.b` to `du` plus `e.weight`, if that is smaller and fits,
/// recording `e` as the way there.
fn improve(dist: &mut Vec<Option<u64>>, back: &mut Vec<Edge>, du: u64, e: Edge)
    requires
        old(dist)@.len() == old(back)@.len(),
        e.b.slot < old(dist)@.len(),
    ensures
        final(dist)@ == improve_dist(old(dist)@, du, e),
        final(back)@ == improve_back(old(dist)@, old(back)@, du, e),
{
    match du.checked_add(e.weight) {
        Some(c) => {
            let better = match dist[e.b.slot] {
                Some(d) => c < d,
                None => true,
            };
            if better {
                dist.set(e.b.slot, Some(c));
                back.set(e.b.slot, e);
            }
        },
        None => {},
    }
}

/// Dijkstra's search from `s`: settles labelled nodes in order of distance and relaxes
/// the edges of each as it is settled.
fn search(g: &Graph, s: NodeId) -> (r: Search)
    requires
        g@.well_formed(),
        g@.live(s.slot as int),
    ensures
        search_done(g@, s.slot as int, r),
{
    let n = g.slot_count();
    let edges = g.edge_list();
    let ghost gv = g@;
    let mut dist: Vec<Option<u64>> = Vec::new();
    let mut back: Vec<Edge> = Vec::new();
    let mut rank: Vec<usize> = Vec::new();
    let mut settled: Vec<bool> = Vec::new();
    let mut i: usize = 0;
    while i < n
        invariant
            i <= n,
            n == gv.nodes.len(),
            dist@.len() == i,
            back@.len() == i,
            rank@.len() == i,
            settled@.len() == i,
            forall|k: int| 0 <= k < i ==> (#[trigger] dist@[k]) is None && !settled@[k],
            count_where(settled@, not_set()) == i,
        decreases n - i,
    {
        proof {
            lemma_count_push(settled@, false, not_set());
        }
        dist.push(None);
        back.push(Edge { a: s, b: s, weight: 0 });
        rank.push(0);
        settled.push(false);
        i = i + 1;
    }
    dist.set(s.slot, Some(0));
    proof {
        let empty = Seq::<Edge>::empty();
        assert(is_walk(gv, s.slot as int, s.slot as int, empty));
        assert(walk_weight(empty) == 0);
        reveal(inv_sound);
        reveal(inv_settled);
        reveal(inv_order);
        reveal(inv_tree);
        assert(search_inv(gv, s.slot as int, dist@, back@, rank@, settled@, 0, -1, 0));
    }
    let mut round: usize = 0;
    loop
        invariant
            gv == g@,
            gv.well_formed(),
            edges@ == gv.edges,
            n == gv.nodes.len(),
            dist@.len() == n,
            back@.len() == n,
            rank@.len() == n,
            settled@.len() == n,
            search_inv(gv, s.slot as int, dist@, back@, rank@, settled@, round as nat, -1, 0),
        ensures
            search_inv(gv, s.slot as int, dist@, back@, rank@, settled@, round as nat, -1, 0),
            forall|v: int| 0 <= v < n && (#[trigger] dist@[v]) is Some ==> settled@[v],
        decreases count_where(settled@, not_set()),
    {
        let best = closest_unsettled(&dist, &settled);
        let u = match best {
            None => break,
            Some(u) => u,
        };
        let du = match dist[u] {
            Some(d) => d,
            None => 0,
        };
        proof {
            lemma_settle(gv, s.slot as int, dist@, back@, rank@, settled@, round as nat, u as int);
            lemma_count_update(settled@, u as int, true, not_set());
        }
        settled.set(u, true);
        rank.set(u, round);
        round = round + 1;
        let mut j: usize = 0;
        while j < edges.len()
            invariant
                gv == g@,
                gv.well_formed(),
                edges@ == gv.edges,
                n == gv.nodes.len(),
                dist@.len() == n,
                back@.len() == n,
                j <= edges@.len(),
                u < n,
                round_inv(gv, s.slot as int, dist@, back@, rank@, settled@, round as nat, u as int, du, j as int),
            decreases edges.len() - j,
        {
            let e = edges[j];
            proof {
                assert(gv.edges[j as int] == e);
                assert(gv.live(e.a.slot as int) && gv.live(e.b.slot as int));
            }
            let ghost d0 = dist@;
            if e.a.slot == u {
                proof {
                    assert(usable(gv, e));
                    lemma_improve(gv, s.slot as int, dist@, back@, rank@, settled@, round as nat, u as int, du, j as int, e);
                }
                improve(&mut dist, &mut back, du, e);
            }
            let ghost d1 = dist@;
            if e.b.slot == u {
                let f = Edge { a: e.b, b: e.a, weight: e.weight };
                proof {
                    assert(gv.edges[j as int] == flip(f));
                    assert(usable(gv, f));
                    lemma_improve(gv, s.slot as int, dist@, back@, rank@, settled@, round as nat, u as int, du, j as int, f);
                }
                improve(&mut dist, &mut back, du, f);
            }
            proof {
                if e.a.slot == u {
                    assert(bounded(d1, u as int, e.b.slot as int, e.weight));
                } else {
                    assert(d1 == d0);
                }
                if e.b.slot != u {
                    assert(dist@ == d1);
                }
                lemma_close_edge(gv, s.slot as int, d1, dist@, back@, rank@, settled@, round as nat, u as int, du, j as int);
            }
            j = j + 1;
        }
        proof {
            lemma_end_round(gv, s.slot as int, dist@, back@, rank@, settled@, round as nat, u as int, du);
        }
    }
    proof {
        lemma_search_done(gv, s.slot as int, dist@, back@, rank@, settled@, round as nat);
    }
    Search { dist, back, rank }
}

/// A walk only joins nodes that are present.
pub proof fn lemma_walk_ends_live(g: GraphView, s: int, t: int, w: Seq<Edge>)
    requires
        g.well_formed(),
        is_walk(g, s, t, w),
    ensures
        g.live(s),
        g.live(t),
    decreases w.len(),
{
    if w.len() > 0 {
        lemma_walk_ends_live(g, s, w.last().a.slot as int, w.drop_last());
        let j = choose|j: int| 0 <= j < g.edges.len() && (#[trigger] g.edges[j] == w.last() || g.edges[j] == flip(w.last()));
        assert(g.live(g.edges[j].a.slot as int));
    }
}

/// Nothing is reported towards or from a slot that holds no node.
proof fn lemma_absent_unreported(g: GraphView, s: int, t: int)
    requires
        g.well_formed(),
        !g.live(s) || !g.live(t),
    ensures
        fitted_distance(g, s, t) is None,
{
    assert forall|w: Seq<Edge>| #[trigger] is_walk(g, s, t, w) implies walk_weight(w) > u64::MAX by {
        lemma_walk_ends_live(g, s, t, w);
    }
    lemma_fitted_none(g, s, t);
}

/// Shortest distances from `start` to every slot (`None` where unreachable or absent).
pub fn distances_from(g: &Graph, start: NodeId) -> (d: Vec<Option<u64>>)
    requires
        g@.well_formed(),
    ensures
        d@.len() == g@.nodes.len(),
        forall|t: int| 0 <= t < d@.len() ==> #[trigger] d@[t] == fitted_distance(g@, start.slot as int, t),
{
    if g.contains(start) {
        search(g, start).dist
    } else {
        let mut d: Vec<Option<u64>> = Vec::new();
        let n = g.slot_count();
        let mut i: usize = 0;
        while i < n
            invariant
                n == g@.nodes.len(),
                !g@.live(start.slot as int),
                g@.well_formed(),
                i <= n,
                d@.len() == i,
                forall|t: int| 0 <= t < i ==> #[trigger] d@[t] == fitted_distance(g@, start.slot as int, t),
            decreases n - i,
        {
            proof {
                lemma_absent_unreported(g@, start.slot as int, i as int);
            }
            d.push(None);
            i = i + 1;
        }
        d
    }
}

/// The length of a shortest walk from `start` to `end`; `None` if there is none
/// (or if either node is absent).
pub fn shortest_distance(g: &Graph, start: NodeId, end: NodeId) -> (r: Option<u64>)
    requires
        g@.well_formed(),
    ensures
        r == fitted_distance(g@, start.slot as int, end.slot as int),
{
    if !g.contains(start) || !g.contains(end) {
        proof {
            lemma_absent_unreported(g@, start.slot as int, end.slot as int);
        }
        return None;
    }
    let d = search(g, start).dist;
    d[end.slot]
}

/// A shortest walk from `start` to `end`: its length and the nodes it visits,
/// `start` first and `end` last.
pub fn shortest_path(g: &Graph, start: NodeId, end: NodeId) -> (r: Option<(u64, Vec<NodeId>)>)
    requires
        g@.well_formed(),
    ensures
        r is Some == fitted_distance(g@, start.slot as int, end.slot as int) is Some,
        r is Some ==> Some(r->Some_0.0) == fitted_distance(g@, start.slot as int, end.slot as int),
        r is Some ==> exists|w: Seq<Edge>|
            #[trigger] is_walk(g@, start.slot as int, end.slot as int, w) && walk_weight(w) == r->Some_0.0
                && r->Some_0.1@ == walk_nodes(start, w),
{
    if !g.contains(start) || !g.contains(end) {
        proof {
            lemma_absent_unreported(g@, start.slot as int, end.slot as int);
        }
        return None;
    }
    let ghost gv = g@;
    let ghost s = start.slot as int;
    let found = search(g, start);
    let total = match found.dist[end.slot] {
        Some(d) => d,
        None => {
            return None;
        },
    };
    let mut path: Vec<NodeId> = Vec::new();
    path.push(end);
    let mut cur: usize = end.slot;
    let ghost mut tail: Seq<Edge> = Seq::empty();
    proof {
        assert(path@ =~= walk_nodes(end, tail));
    }
    while cur != start.slot
        invariant
            gv == g@,
            gv.well_formed(),
            s == start.slot as int,
            search_done(gv, s, found),
            found.dist@[end.slot as int] == Some(total),
            0 <= cur < gv.nodes.len(),
            gv.live(cur as int),
            found.dist@[cur as int] is Some,
            is_walk(gv, cur as int, end.slot as int, tail),
            walk_weight(tail) + found.dist@[cur as int]->Some_0 == total,
            path@ == walk_nodes(NodeId { slot: cur }, tail),
        decreases found.rank@[cur as int],
    {
        let e = found.back[cur];
        proof {
            assert(back_ok(gv, found.dist@, e, cur as int));
            let j = choose|j: int| 0 <= j < gv.edges.len() && (#[trigger] gv.edges[j] == e || gv.edges[j] == flip(e));
            assert(gv.live(gv.edges[j].a.slot as int) && gv.live(gv.edges[j].b.slot as int));
            lemma_walk_prepend(gv, e.a.slot as int, cur as int, end.slot as int, tail, e);
            tail = seq![e] + tail;
        }
        path.insert(0, e.a);
        cur = e.a.slot;
    }
    Some((total, path))
}

} // verus!
