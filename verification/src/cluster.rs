//! Intersection detection and connectivity clustering for one name group.
//!
//! Positions into the group's segment list serve as graph nodes; an edge
//! joins two positions whose segments are distinct (by way identifier) and
//! whose polylines intersect. Clusters are the connected components of
//! that graph, computed by repeatedly merging label classes, the
//! union-find scheme recommended for component finding here.
//!
//! The detector tests every pair of segments exactly, with no spatial
//! index in front of it. An envelope-overlap broad phase is purely an
//! optimization: it can only be sound because polylines that share a
//! point have overlapping envelopes, and rather than prove or assume that
//! geometric fact, the detector's correctness rests on the exact test
//! alone. The envelope predicates in the geometry module state what such
//! a filter would query.

use vstd::prelude::*;
use vstd::pervasive::VecAdditionalExecFns;
use crate::geom::{polylines_intersect, polylines_intersect_exec, lemma_polylines_intersect_symmetric};
use crate::store::{Segment, seg_like};

verus! {

/// Positions `a` and `b` of the group hold distinct segments whose
/// polylines share at least one point. Irreflexive by construction: a
/// segment is never paired with itself.
pub open spec fn linked(segs: Seq<Segment>, a: int, b: int) -> bool {
    &&& 0 <= a && a < segs.len() && 0 <= b && b < segs.len()
    &&& a != b
    &&& segs[a].way_id != segs[b].way_id
    &&& polylines_intersect(segs[a].points@, segs[b].points@)
}

/// The pairwise link relation is symmetric.
pub proof fn lemma_linked_symmetric(segs: Seq<Segment>, a: int, b: int)
    ensures
        linked(segs, a, b) == linked(segs, b, a),
{
    if 0 <= a && a < segs.len() && 0 <= b && b < segs.len() {
        lemma_polylines_intersect_symmetric(segs[a].points@, segs[b].points@);
    }
}

/// The pairwise link relation never pairs a position with itself.
pub proof fn lemma_linked_irreflexive(segs: Seq<Segment>, a: int)
    ensures
        !linked(segs, a, a),
{
}

/// `p` visits positions of the group in order, starting at `a`, ending at
/// `b`, every consecutive pair linked.
pub open spec fn is_chain(segs: Seq<Segment>, p: Seq<int>, a: int, b: int) -> bool {
    &&& p.len() >= 1
    &&& p[0] == a
    &&& p[p.len() - 1] == b
    &&& forall|k: int| 0 <= k && k < p.len() ==> 0 <= #[trigger] p[k] && p[k] < segs.len()
    &&& forall|k: int| 0 <= k && k < p.len() - 1 ==> linked(segs, #[trigger] p[k], p[k + 1])
}

/// Transitive closure of the link relation: some chain of pairwise
/// intersecting segments joins the two positions.
pub open spec fn connected(segs: Seq<Segment>, a: int, b: int) -> bool {
    exists|p: Seq<int>| #[trigger] is_chain(segs, p, a, b)
}

/// Every position is connected to itself.
pub proof fn lemma_connected_refl(segs: Seq<Segment>, a: int)
    requires
        0 <= a && a < segs.len(),
    ensures
        connected(segs, a, a),
{
    let p = seq![a];
    assert(is_chain(segs, p, a, a));
}

/// An edge list entry joins `a` and `b`, in either orientation.
pub open spec fn edge_joins(edges: Seq<(usize, usize)>, a: int, b: int) -> bool {
    exists|k: int|
        0 <= k && k < edges.len() && {
            let e = #[trigger] edges[k];
            ((e.0 as int == a && e.1 as int == b) || (e.0 as int == b && e.1 as int == a))
        }
}

/// A chain over an explicit edge list, with positions below `n`.
pub open spec fn is_edge_chain(
    edges: Seq<(usize, usize)>,
    n: int,
    p: Seq<int>,
    a: int,
    b: int,
) -> bool {
    &&& p.len() >= 1
    &&& p[0] == a
    &&& p[p.len() - 1] == b
    &&& forall|k: int| 0 <= k && k < p.len() ==> 0 <= #[trigger] p[k] && p[k] < n
    &&& forall|k: int| 0 <= k && k < p.len() - 1 ==> edge_joins(edges, #[trigger] p[k], p[k + 1])
}

/// Connectivity over an explicit edge list.
pub open spec fn edge_connected(edges: Seq<(usize, usize)>, n: int, a: int, b: int) -> bool {
    exists|p: Seq<int>| #[trigger] is_edge_chain(edges, n, p, a, b)
}

proof fn lemma_edge_connected_refl(edges: Seq<(usize, usize)>, n: int, a: int)
    requires
        0 <= a && a < n,
    ensures
        edge_connected(edges, n, a, a),
{
    let p = seq![a];
    assert(is_edge_chain(edges, n, p, a, a));
}

proof fn lemma_edge_connected_sym(edges: Seq<(usize, usize)>, n: int, a: int, b: int)
    requires
        edge_connected(edges, n, a, b),
    ensures
        edge_connected(edges, n, b, a),
{
    let p = choose|p: Seq<int>| #[trigger] is_edge_chain(edges, n, p, a, b);
    let q = Seq::new(p.len(), |i: int| p[p.len() - 1 - i]);
    assert forall|k: int| 0 <= k && k < q.len() - 1 implies edge_joins(
        edges,
        #[trigger] q[k],
        q[k + 1],
    ) by {
        assert(edge_joins(edges, p[p.len() - 2 - k], p[p.len() - 1 - k]));
    }
    assert(is_edge_chain(edges, n, q, b, a));
}

proof fn lemma_edge_connected_trans(edges: Seq<(usize, usize)>, n: int, a: int, b: int, c: int)
    requires
        edge_connected(edges, n, a, b),
        edge_connected(edges, n, b, c),
    ensures
        edge_connected(edges, n, a, c),
{
    let p = choose|p: Seq<int>| #[trigger] is_edge_chain(edges, n, p, a, b);
    let q = choose|q: Seq<int>| #[trigger] is_edge_chain(edges, n, q, b, c);
    let r = p + q.skip(1);
    assert(r[0] == a);
    assert(r[r.len() - 1] == c);
    assert forall|k: int| 0 <= k && k < r.len() - 1 implies edge_joins(
        edges,
        #[trigger] r[k],
        r[k + 1],
    ) by {
        if k < p.len() - 1 {
            assert(edge_joins(edges, p[k], p[k + 1]));
        } else if k == p.len() - 1 {
            assert(r[k] == p[p.len() - 1]);
            assert(r[k + 1] == q[1]);
            assert(edge_joins(edges, q[0], q[1]));
        } else {
            assert(r[k] == q[k - p.len() + 1]);
            assert(r[k + 1] == q[k - p.len() + 2]);
            assert(edge_joins(edges, q[k - p.len() + 1], q[k - p.len() + 2]));
        }
    }
    assert(is_edge_chain(edges, n, r, a, c));
}

/// A single listed edge joins connected endpoints.
proof fn lemma_edge_step(edges: Seq<(usize, usize)>, n: int, a: int, b: int)
    requires
        0 <= a && a < n,
        0 <= b && b < n,
        edge_joins(edges, a, b),
    ensures
        edge_connected(edges, n, a, b),
{
    let p = seq![a, b];
    assert(is_edge_chain(edges, n, p, a, b));
}

/// Growing the edge list keeps every connection.
proof fn lemma_edge_connected_mono(edges: Seq<(usize, usize)>, n: int, t: int, a: int, b: int)
    requires
        0 <= t && t <= edges.len(),
        edge_connected(edges.take(t), n, a, b),
    ensures
        edge_connected(edges, n, a, b),
{
    let p = choose|p: Seq<int>| #[trigger] is_edge_chain(edges.take(t), n, p, a, b);
    assert forall|k: int| 0 <= k && k < p.len() - 1 implies edge_joins(
        edges,
        #[trigger] p[k],
        p[k + 1],
    ) by {
        assert(edge_joins(edges.take(t), p[k], p[k + 1]));
        let e = choose|e: int|
            0 <= e && e < edges.take(t).len() && {
                let ed = #[trigger] edges.take(t)[e];
                ((ed.0 as int == p[k] && ed.1 as int == p[k + 1]) || (ed.0 as int == p[k + 1]
                    && ed.1 as int == p[k]))
            };
        assert(edges.take(t)[e] == edges[e]);
    }
    assert(is_edge_chain(edges, n, p, a, b));
}

/// Any chain over the first `t + 1` edges decomposes against the edge
/// added last: either it never needs that edge, or it reaches one of the
/// edge's endpoints using earlier edges only.
proof fn lemma_chain_decompose(
    edges: Seq<(usize, usize)>,
    n: int,
    t: int,
    p: Seq<int>,
    a: int,
    b: int,
)
    requires
        0 <= t && t < edges.len(),
        is_edge_chain(edges.take(t + 1), n, p, a, b),
    ensures
        ({
            let u = edges[t].0 as int;
            let v = edges[t].1 as int;
            ||| edge_connected(edges.take(t), n, a, b)
            ||| (edge_connected(edges.take(t), n, a, u) && edge_connected(edges.take(t), n, v, b))
            ||| (edge_connected(edges.take(t), n, a, v) && edge_connected(edges.take(t), n, u, b))
        }),
    decreases p.len(),
{
    let u = edges[t].0 as int;
    let v = edges[t].1 as int;
    let old_edges = edges.take(t);
    if p.len() == 1 {
        lemma_edge_connected_refl(old_edges, n, a);
    } else {
        let tail = p.skip(1);
        let m = p[1];
        assert(tail[0] == m);
        assert(tail[tail.len() - 1] == b);
        assert forall|k: int| 0 <= k && k < tail.len() - 1 implies edge_joins(
            edges.take(t + 1),
            #[trigger] tail[k],
            tail[k + 1],
        ) by {
            assert(tail[k] == p[k + 1]);
            assert(tail[k + 1] == p[k + 2]);
            assert(edge_joins(edges.take(t + 1), p[k + 1], p[k + 2]));
        }
        assert(is_edge_chain(edges.take(t + 1), n, tail, m, b));
        lemma_chain_decompose(edges, n, t, tail, m, b);
        // The chain's first step joins a and m within the first t + 1 edges.
        assert(edge_joins(edges.take(t + 1), p[0], p[1]));
        let e = choose|e: int|
            0 <= e && e < edges.take(t + 1).len() && {
                let ed = #[trigger] edges.take(t + 1)[e];
                ((ed.0 as int == a && ed.1 as int == m) || (ed.0 as int == m && ed.1 as int == a))
            };
        assert(edges.take(t + 1)[e] == edges[e]);
        if e < t {
            // The first step uses an earlier edge.
            assert(edges.take(t)[e] == edges[e]);
            assert(edge_joins(old_edges, a, m));
            lemma_edge_step(old_edges, n, a, m);
            if edge_connected(old_edges, n, m, b) {
                lemma_edge_connected_trans(old_edges, n, a, m, b);
            } else if edge_connected(old_edges, n, m, u) && edge_connected(old_edges, n, v, b) {
                lemma_edge_connected_trans(old_edges, n, a, m, u);
            } else {
                lemma_edge_connected_trans(old_edges, n, a, m, v);
            }
        } else {
            // The first step is the edge added last: a and m are its endpoints.
            assert((a == u && m == v) || (a == v && m == u));
            lemma_edge_connected_refl(old_edges, n, a);
            // With a connected to itself, each case the tail gives for (m, b)
            // yields one of the three goal cases for (a, b): when the tail
            // reaches b from m using earlier edges only, a (one endpoint)
            // is connected to itself and the other endpoint m reaches b;
            // when the tail itself falls into a mixed case, its pieces
            // recombine the same way.
        }
    }
}


/// The edge list is exactly the link relation: every listed pair is
/// linked, and every linked pair appears.
pub open spec fn edges_match(segs: Seq<Segment>, edges: Seq<(usize, usize)>) -> bool {
    &&& forall|k: int|
        0 <= k && k < edges.len() ==> linked(
            segs,
            (#[trigger] edges[k]).0 as int,
            edges[k].1 as int,
        )
    &&& forall|a: int, b: int|
        0 <= a && a < b && b < segs.len() && #[trigger] linked(segs, a, b) ==> edge_joins(
            edges,
            a,
            b,
        )
}

/// Detects all intersecting pairs of the group by exact pairwise testing.
/// Each unordered pair is stored exactly once, ordered by way identifier
/// (lower first), so the same edge set results whatever order pairs are
/// discovered in, and no position is ever paired with itself.
#[verifier::rlimit(50)]
pub fn get_intersections(segs: &Vec<Segment>) -> (res: Vec<(usize, usize)>)
    ensures
        edges_match(segs@, res@),
        forall|k: int|
            0 <= k && k < res@.len() ==> segs@[(#[trigger] res@[k]).0 as int].way_id < segs@[
                res@[k].1 as int].way_id,
        forall|k1: int, k2: int|
            0 <= k1 && k1 < k2 && k2 < res@.len() ==> !(((#[trigger] res@[k1]).0 == (
            #[trigger] res@[k2]).0 && res@[k1].1 == res@[k2].1) || (res@[k1].0 == res@[k2].1
                && res@[k1].1 == res@[k2].0)),
{
    let n = segs.len();
    let mut res: Vec<(usize, usize)> = Vec::new();
    let mut i: usize = 0;
    while i < n
        invariant
            n == segs@.len(),
            i <= n,
            forall|k: int|
                0 <= k && k < res@.len() ==> linked(
                    segs@,
                    (#[trigger] res@[k]).0 as int,
                    res@[k].1 as int,
                ) && segs@[res@[k].0 as int].way_id < segs@[res@[k].1 as int].way_id,
            forall|k: int|
                0 <= k && k < res@.len() ==> ({
                    let lo = if (#[trigger] res@[k]).0 <= res@[k].1 {
                        res@[k].0
                    } else {
                        res@[k].1
                    };
                    (lo as int) < i
                }),
            forall|k1: int, k2: int|
                0 <= k1 && k1 < k2 && k2 < res@.len() ==> ({
                    let lo1 = if (#[trigger] res@[k1]).0 <= res@[k1].1 {
                        res@[k1].0
                    } else {
                        res@[k1].1
                    };
                    let hi1 = if res@[k1].0 <= res@[k1].1 {
                        res@[k1].1
                    } else {
                        res@[k1].0
                    };
                    let lo2 = if (#[trigger] res@[k2]).0 <= res@[k2].1 {
                        res@[k2].0
                    } else {
                        res@[k2].1
                    };
                    let hi2 = if res@[k2].0 <= res@[k2].1 {
                        res@[k2].1
                    } else {
                        res@[k2].0
                    };
                    lo1 < lo2 || (lo1 == lo2 && hi1 < hi2)
                }),
            forall|a: int, b: int|
                0 <= a && a < b && b < n && a < i && #[trigger] linked(segs@, a, b)
                    ==> edge_joins(res@, a, b),
        decreases n - i,
    {
        let mut j: usize = i + 1;
        while j < n
            invariant
                n == segs@.len(),
                i < n,
                i < j,
                forall|k: int|
                    0 <= k && k < res@.len() ==> linked(
                        segs@,
                        (#[trigger] res@[k]).0 as int,
                        res@[k].1 as int,
                    ) && segs@[res@[k].0 as int].way_id < segs@[res@[k].1 as int].way_id,
                forall|k: int|
                    0 <= k && k < res@.len() ==> ({
                        let lo = if (#[trigger] res@[k]).0 <= res@[k].1 {
                            res@[k].0
                        } else {
                            res@[k].1
                        };
                        let hi = if res@[k].0 <= res@[k].1 {
                            res@[k].1
                        } else {
                            res@[k].0
                        };
                        (lo as int) < i || (lo == i && (hi as int) < j)
                    }),
                forall|k1: int, k2: int|
                    0 <= k1 && k1 < k2 && k2 < res@.len() ==> ({
                        let lo1 = if (#[trigger] res@[k1]).0 <= res@[k1].1 {
                            res@[k1].0
                        } else {
                            res@[k1].1
                        };
                        let hi1 = if res@[k1].0 <= res@[k1].1 {
                            res@[k1].1
                        } else {
                            res@[k1].0
                        };
                        let lo2 = if (#[trigger] res@[k2]).0 <= res@[k2].1 {
                            res@[k2].0
                        } else {
                            res@[k2].1
                        };
                        let hi2 = if res@[k2].0 <= res@[k2].1 {
                            res@[k2].1
                        } else {
                            res@[k2].0
                        };
                        lo1 < lo2 || (lo1 == lo2 && hi1 < hi2)
                    }),
                forall|a: int, b: int|
                    0 <= a && a < b && b < n && a < i && #[trigger] linked(segs@, a, b)
                        ==> edge_joins(res@, a, b),
                forall|b: int|
                    i < b && b < j && #[trigger] linked(segs@, i as int, b) ==> edge_joins(
                        res@,
                        i as int,
                        b,
                    ),
            decreases n - j,
        {
            let ghost pre = res@;
            if segs[i].way_id != segs[j].way_id && polylines_intersect_exec(
                &segs[i].points,
                &segs[j].points,
            ) {
                let pair = if segs[i].way_id < segs[j].way_id {
                    (i, j)
                } else {
                    (j, i)
                };
                res.push(pair);
                proof {
                    lemma_linked_symmetric(segs@, i as int, j as int);
                    assert(linked(segs@, i as int, j as int));
                    assert(linked(segs@, pair.0 as int, pair.1 as int));
                }
            }
            proof {
                assert forall|a: int, b: int|
                    0 <= a && a < b && b < n && a < i && #[trigger] linked(segs@, a, b) implies edge_joins(
                    res@,
                    a,
                    b,
                ) by {
                    assert(edge_joins(pre, a, b));
                    let k = choose|k: int|
                        0 <= k && k < pre.len() && {
                            let e = #[trigger] pre[k];
                            ((e.0 as int == a && e.1 as int == b) || (e.0 as int == b && e.1
                                as int == a))
                        };
                    assert(res@[k] == pre[k]);
                }
                assert forall|b: int|
                    i < b && b < j + 1 && #[trigger] linked(segs@, i as int, b) implies edge_joins(
                    res@,
                    i as int,
                    b,
                ) by {
                    if b < j {
                        assert(edge_joins(pre, i as int, b));
                        let k = choose|k: int|
                            0 <= k && k < pre.len() && {
                                let e = #[trigger] pre[k];
                                ((e.0 as int == i as int && e.1 as int == b) || (e.0 as int == b
                                    && e.1 as int == i as int))
                            };
                        assert(res@[k] == pre[k]);
                    } else {
                        let e = res@[res@.len() - 1];
                        assert((e.0 as int == i as int && e.1 as int == b) || (e.0 as int == b
                            && e.1 as int == i as int));
                    }
                }
            }
            j = j + 1;
        }
        i = i + 1;
    }
    res
}

/// Chains over the link relation and chains over a matching edge list
/// reach the same positions.
proof fn lemma_connected_iff_edge_connected(
    segs: Seq<Segment>,
    edges: Seq<(usize, usize)>,
    a: int,
    b: int,
)
    requires
        edges_match(segs, edges),
        segs.len() <= usize::MAX,
    ensures
        connected(segs, a, b) == edge_connected(edges, segs.len() as int, a, b),
{
    let n = segs.len() as int;
    if connected(segs, a, b) {
        let p = choose|p: Seq<int>| #[trigger] is_chain(segs, p, a, b);
        assert forall|k: int| 0 <= k && k < p.len() - 1 implies edge_joins(
            edges,
            #[trigger] p[k],
            p[k + 1],
        ) by {
            let x = p[k];
            let y = p[k + 1];
            assert(linked(segs, x, y));
            lemma_linked_symmetric(segs, x, y);
            if x < y {
                assert(edge_joins(edges, x, y));
            } else {
                assert(linked(segs, y, x));
                assert(edge_joins(edges, y, x));
            }
        }
        assert(is_edge_chain(edges, n, p, a, b));
    }
    if edge_connected(edges, n, a, b) {
        let p = choose|p: Seq<int>| #[trigger] is_edge_chain(edges, n, p, a, b);
        assert forall|k: int| 0 <= k && k < p.len() - 1 implies linked(
            segs,
            #[trigger] p[k],
            p[k + 1],
        ) by {
            assert(edge_joins(edges, p[k], p[k + 1]));
            let e = choose|e: int|
                0 <= e && e < edges.len() && {
                    let ed = #[trigger] edges[e];
                    ((ed.0 as int == p[k] && ed.1 as int == p[k + 1]) || (ed.0 as int == p[k + 1]
                        && ed.1 as int == p[k]))
                };
            assert(linked(segs, edges[e].0 as int, edges[e].1 as int));
            lemma_linked_symmetric(segs, edges[e].0 as int, edges[e].1 as int);
        }
        assert(is_chain(segs, p, a, b));
    }
}

/// Computes a component label for every position: two positions carry the
/// same label exactly when a chain of pairwise intersecting segments joins
/// them. Labels are merged one detected edge at a time.
pub fn component_labels(segs: &Vec<Segment>, edges: &Vec<(usize, usize)>) -> (labels: Vec<usize>)
    requires
        edges_match(segs@, edges@),
    ensures
        labels@.len() == segs@.len(),
        forall|a: int, b: int|
            0 <= a && a < segs@.len() && 0 <= b && b < segs@.len() ==> ((labels@[a] == labels@[b])
                <==> connected(segs@, a, b)),
{
    let n = segs.len();
    let mut labels: Vec<usize> = Vec::new();
    let mut i: usize = 0;
    while i < n
        invariant
            i <= n,
            labels@.len() == i,
            forall|k: int| 0 <= k && k < i ==> #[trigger] labels@[k] == k,
        decreases n - i,
    {
        labels.push(i);
        i = i + 1;
    }
    proof {
        // With no edge processed, only a position and itself are joined.
        assert forall|a: int, b: int|
            0 <= a && a < n && 0 <= b && b < n implies ((labels@[a] == labels@[b])
            <==> edge_connected(edges@.take(0), n as int, a, b)) by {
            if labels@[a] == labels@[b] {
                lemma_edge_connected_refl(edges@.take(0), n as int, a);
            }
            if edge_connected(edges@.take(0), n as int, a, b) {
                let p = choose|p: Seq<int>|
                    #[trigger] is_edge_chain(edges@.take(0), n as int, p, a, b);
                if p.len() >= 2 {
                    assert(edge_joins(edges@.take(0), p[0], p[1]));
                    assert(false);
                }
            }
        }
    }
    let mut t: usize = 0;
    while t < edges.len()
        invariant
            t <= edges@.len(),
            n == segs@.len(),
            edges_match(segs@, edges@),
            labels@.len() == n,
            forall|a: int, b: int|
                0 <= a && a < n && 0 <= b && b < n ==> ((#[trigger] labels@[a] == #[trigger] labels@[b])
                    <==> edge_connected(edges@.take(t as int), n as int, a, b)),
        decreases edges@.len() - t,
    {
        let u = edges[t].0;
        let v = edges[t].1;
        proof {
            assert(linked(segs@, edges@[t as int].0 as int, edges@[t as int].1 as int));
        }
        let lu = labels[u];
        let lv = labels[v];
        let ghost old_labels = labels@;
        if lu != lv {
            let mut k: usize = 0;
            while k < n
                invariant
                    k <= n,
                    labels@.len() == n,
                    old_labels.len() == n,
                    forall|x: int|
                        0 <= x && x < n ==> #[trigger] labels@[x] == (if x < k && old_labels[x]
                            == lv {
                            lu as usize
                        } else {
                            old_labels[x]
                        }),
                decreases n - k,
            {
                if labels[k] == lv {
                    labels.set(k, lu);
                }
                k = k + 1;
            }
        }
        proof {
            let nn = n as int;
            let tt = t as int;
            let uu = u as int;
            let vv = v as int;
            let old_e = edges@.take(tt);
            let new_e = edges@.take(tt + 1);
            // Every position's new label follows one rewrite rule.
            assert forall|x: int|
                0 <= x && x < nn implies #[trigger] labels@[x] == (if old_labels[x] == lv {
                lu as usize
            } else {
                old_labels[x]
            }) by {}
            // The new edge joins u and v among the first t + 1 edges.
            assert(new_e[tt] == edges@[tt]);
            assert(edge_joins(new_e, uu, vv)) by {
                assert(0 <= tt && tt < new_e.len() && ((new_e[tt].0 as int == uu && new_e[tt].1
                    as int == vv) || (new_e[tt].0 as int == vv && new_e[tt].1 as int == uu)));
            }
            lemma_edge_step(new_e, nn, uu, vv);
            assert forall|a: int, b: int|
                0 <= a && a < nn && 0 <= b && b < nn implies ((#[trigger] labels@[a]
                == #[trigger] labels@[b]) <==> edge_connected(new_e, nn, a, b)) by {
                if labels@[a] == labels@[b] {
                    if old_labels[a] == old_labels[b] {
                        assert(edge_connected(old_e, nn, a, b));
                        assert(edge_connected(new_e, nn, a, b)) by {
                            assert(old_e =~= new_e.take(tt));
                            lemma_edge_connected_mono(new_e, nn, tt, a, b);
                        }
                    } else if old_labels[a] == lv && old_labels[b] == lu {
                        // a was relabeled onto b's class: a ~ v, u ~ b.
                        assert(edge_connected(old_e, nn, a, vv));
                        assert(edge_connected(old_e, nn, uu, b));
                        assert(old_e =~= new_e.take(tt));
                        lemma_edge_connected_mono(new_e, nn, tt, a, vv);
                        lemma_edge_connected_mono(new_e, nn, tt, uu, b);
                        lemma_edge_connected_sym(new_e, nn, uu, vv);
                        lemma_edge_connected_trans(new_e, nn, a, vv, uu);
                        lemma_edge_connected_trans(new_e, nn, a, uu, b);
                    } else {
                        // b was relabeled onto a's class: a ~ u, v ~ b.
                        assert(old_labels[b] == lv && old_labels[a] == lu);
                        assert(edge_connected(old_e, nn, a, uu));
                        assert(edge_connected(old_e, nn, vv, b));
                        assert(old_e =~= new_e.take(tt));
                        lemma_edge_connected_mono(new_e, nn, tt, a, uu);
                        lemma_edge_connected_mono(new_e, nn, tt, vv, b);
                        lemma_edge_connected_trans(new_e, nn, a, uu, vv);
                        lemma_edge_connected_trans(new_e, nn, a, vv, b);
                    }
                }
                if edge_connected(new_e, nn, a, b) {
                    let p = choose|p: Seq<int>| #[trigger] is_edge_chain(new_e, nn, p, a, b);
                    lemma_chain_decompose(edges@, nn, tt, p, a, b);
                    if edge_connected(old_e, nn, a, b) {
                        assert(old_labels[a] == old_labels[b]);
                    } else if edge_connected(old_e, nn, a, uu) && edge_connected(old_e, nn, vv, b) {
                        assert(old_labels[a] == old_labels[uu]);
                        assert(old_labels[b] == old_labels[vv]);
                    } else {
                        assert(edge_connected(old_e, nn, a, vv) && edge_connected(old_e, nn, uu, b));
                        assert(old_labels[a] == old_labels[vv]);
                        assert(old_labels[b] == old_labels[uu]);
                    }
                }
            }
        }
        t = t + 1;
    }
    proof {
        assert(edges@.take(edges@.len() as int) =~= edges@);
        assert forall|a: int, b: int|
            0 <= a && a < segs@.len() && 0 <= b && b < segs@.len() implies ((labels@[a]
            == labels@[b]) <==> connected(segs@, a, b)) by {
            lemma_connected_iff_edge_connected(segs@, edges@, a, b);
        }
    }
    labels
}

/// Some part of the partition names position `i`.
pub open spec fn part_covers(comps: Seq<Seq<int>>, i: int) -> bool {
    exists|c: int, k: int|
        0 <= c && c < comps.len() && 0 <= k && k < comps[c].len() && #[trigger] comps[c][k] == i
}

/// A partition of the group's positions into its connected components:
/// parts are nonempty, strictly increasing position lists; every position
/// appears in some part; two positions share a part exactly when a chain
/// of pairwise intersecting segments joins them.
pub open spec fn is_clustering(segs: Seq<Segment>, comps: Seq<Seq<int>>) -> bool {
    &&& forall|c: int| 0 <= c && c < comps.len() ==> (#[trigger] comps[c]).len() > 0
    &&& forall|c: int, k: int|
        0 <= c && c < comps.len() && 0 <= k && k < comps[c].len() ==> 0 <= #[trigger] comps[c][k]
            && comps[c][k] < segs.len()
    &&& forall|c: int, k1: int, k2: int|
        0 <= c && c < comps.len() && 0 <= k1 && k1 < k2 && k2 < comps[c].len()
            ==> #[trigger] comps[c][k1] < #[trigger] comps[c][k2]
    &&& forall|i: int| 0 <= i && i < segs.len() ==> #[trigger] part_covers(comps, i)
    &&& forall|c: int, k1: int, k2: int|
        0 <= c && c < comps.len() && 0 <= k1 && k1 < comps[c].len() && 0 <= k2 && k2
            < comps[c].len() ==> connected(segs, #[trigger] comps[c][k1], #[trigger] comps[c][k2])
    &&& forall|c1: int, k1: int, c2: int, k2: int|
        0 <= c1 && c1 < comps.len() && 0 <= k1 && k1 < comps[c1].len() && 0 <= c2 && c2
            < comps.len() && 0 <= k2 && k2 < comps[c2].len() && c1 != c2 ==> !connected(
            segs,
            #[trigger] comps[c1][k1],
            #[trigger] comps[c2][k2],
        )
}

/// The emitted clusters carry, part by part and in order, segments equal
/// in identifier and geometry to the group segments the partition names.
pub open spec fn cluster_contents(
    segs: Seq<Segment>,
    comps: Seq<Seq<int>>,
    out: Seq<Vec<Segment>>,
) -> bool {
    &&& out.len() == comps.len()
    &&& forall|c: int| 0 <= c && c < out.len() ==> (#[trigger] out[c])@.len() == comps[c].len()
    &&& forall|c: int, k: int|
        0 <= c && c < out.len() && 0 <= k && k < comps[c].len() ==> seg_like(
            #[trigger] out[c]@[k],
            segs[comps[c][k]],
        )
}

/// The positions carrying a given label, in increasing order, together
/// with a ghost map giving each such position its slot in the list.
fn positions_with_label(labels: &Vec<usize>, rc: usize) -> (r: (Vec<usize>, Ghost<Seq<int>>))
    ensures
        forall|k: int|
            0 <= k && k < r.0@.len() ==> (#[trigger] r.0@[k] as int) < labels@.len()
                && labels@[r.0@[k] as int] == rc,
        forall|k1: int, k2: int|
            0 <= k1 && k1 < k2 && k2 < r.0@.len() ==> #[trigger] r.0@[k1] < #[trigger] r.0@[k2],
        r.1@.len() == labels@.len(),
        forall|y: int|
            #![trigger r.1@[y]]
            0 <= y && y < labels@.len() && labels@[y] == rc ==> 0 <= r.1@[y] && r.1@[y]
                < r.0@.len() && r.0@[r.1@[y]] as int == y,
{
    let n = labels.len();
    let mut b: Vec<usize> = Vec::new();
    let ghost mut inv: Seq<int> = Seq::new(labels@.len(), |y: int| -1);
    let mut x: usize = 0;
    while x < n
        invariant
            n == labels@.len(),
            x <= n,
            inv.len() == n,
            forall|k: int|
                0 <= k && k < b@.len() ==> (#[trigger] b@[k] as int) < x && labels@[b@[k] as int]
                    == rc,
            forall|k1: int, k2: int|
                0 <= k1 && k1 < k2 && k2 < b@.len() ==> #[trigger] b@[k1] < #[trigger] b@[k2],
            forall|y: int|
                #![trigger inv[y]]
                0 <= y && y < x && labels@[y] == rc ==> 0 <= inv[y] && inv[y] < b@.len()
                    && b@[inv[y]] as int == y,
        decreases n - x,
    {
        if labels[x] == rc {
            b.push(x);
            proof {
                inv = inv.update(x as int, b@.len() - 1);
            }
        }
        x = x + 1;
    }
    (b, Ghost(inv))
}

/// Groups the positions by label: one bucket per distinct label, in
/// first-occurrence order, positions within a bucket in increasing order.
/// Also returns a ghost map giving each position its bucket and slot.
#[verifier::rlimit(50)]
fn group_by_label(labels: &Vec<usize>) -> (r: (Vec<Vec<usize>>, Ghost<Seq<(int, int)>>))
    ensures
        forall|c: int| 0 <= c && c < r.0@.len() ==> (#[trigger] r.0@[c])@.len() > 0,
        forall|c: int, k: int|
            0 <= c && c < r.0@.len() && 0 <= k && k < r.0@[c]@.len()
                ==> (#[trigger] r.0@[c]@[k] as int) < labels@.len(),
        forall|c: int, k1: int, k2: int|
            0 <= c && c < r.0@.len() && 0 <= k1 && k1 < k2 && k2 < r.0@[c]@.len()
                ==> #[trigger] r.0@[c]@[k1] < #[trigger] r.0@[c]@[k2],
        forall|c: int, k1: int, k2: int|
            0 <= c && c < r.0@.len() && 0 <= k1 && k1 < r.0@[c]@.len() && 0 <= k2 && k2
                < r.0@[c]@.len() ==> labels@[#[trigger] r.0@[c]@[k1] as int] == labels@[
                #[trigger] r.0@[c]@[k2] as int],
        forall|c1: int, k1: int, c2: int, k2: int|
            0 <= c1 && c1 < r.0@.len() && 0 <= k1 && k1 < r.0@[c1]@.len() && 0 <= c2 && c2
                < r.0@.len() && 0 <= k2 && k2 < r.0@[c2]@.len() && c1 != c2 ==> labels@[
                #[trigger] r.0@[c1]@[k1] as int] != labels@[#[trigger] r.0@[c2]@[k2] as int],
        r.1@.len() == labels@.len(),
        forall|x: int|
            #![trigger r.1@[x]]
            0 <= x && x < labels@.len() ==> 0 <= r.1@[x].0 && r.1@[x].0 < r.0@.len() && 0
                <= r.1@[x].1 && r.1@[x].1 < r.0@[r.1@[x].0]@.len() && r.0@[r.1@[x].0]@[r.1@[x].1]
                as int == x,
{
    let n = labels.len();
    let mut buckets: Vec<Vec<usize>> = Vec::new();
    // Ghost record of each bucket's first-occurrence position, of each
    // bucket's position-to-slot map, and of each position's bucket/slot.
    let ghost mut firsts: Seq<int> = Seq::empty();
    let ghost mut invs: Seq<Seq<int>> = Seq::empty();
    let ghost mut slot: Seq<(int, int)> = Seq::new(labels@.len(), |y: int| (-1, -1));
    let mut i: usize = 0;
    while i < n
        invariant
            n == labels@.len(),
            i <= n,
            firsts.len() == buckets@.len(),
            invs.len() == buckets@.len(),
            slot.len() == n,
            forall|cc: int|
                0 <= cc && cc < firsts.len() ==> 0 <= #[trigger] firsts[cc] && firsts[cc] < i,
            forall|cc: int|
                0 <= cc && cc < invs.len() ==> (#[trigger] invs[cc]).len() == n,
            forall|cc: int, j: int|
                #![trigger firsts[cc], labels@[j]]
                0 <= cc && cc < firsts.len() && 0 <= j && j < firsts[cc] ==> labels@[j]
                    != labels@[firsts[cc]],
            forall|c1: int, c2: int|
                0 <= c1 && c1 < c2 && c2 < firsts.len() ==> #[trigger] firsts[c1]
                    < #[trigger] firsts[c2],
            forall|cc: int| 0 <= cc && cc < buckets@.len() ==> (#[trigger] buckets@[cc])@.len() > 0,
            forall|cc: int, k: int|
                0 <= cc && cc < buckets@.len() && 0 <= k && k < buckets@[cc]@.len()
                    ==> (#[trigger] buckets@[cc]@[k] as int) < n && labels@[buckets@[cc]@[k]
                    as int] == labels@[firsts[cc]],
            forall|cc: int, k1: int, k2: int|
                0 <= cc && cc < buckets@.len() && 0 <= k1 && k1 < k2 && k2 < buckets@[cc]@.len()
                    ==> #[trigger] buckets@[cc]@[k1] < #[trigger] buckets@[cc]@[k2],
            forall|cc: int, y: int|
                #![trigger invs[cc][y]]
                0 <= cc && cc < buckets@.len() && 0 <= y && y < n && labels@[y]
                    == labels@[firsts[cc]] ==> 0 <= invs[cc][y] && invs[cc][y]
                    < buckets@[cc]@.len() && buckets@[cc]@[invs[cc][y]] as int == y,
            forall|x: int|
                #![trigger slot[x]]
                0 <= x && x < i ==> 0 <= slot[x].0 && slot[x].0 < buckets@.len() && 0 <= slot[x].1
                    && slot[x].1 < buckets@[slot[x].0]@.len() && buckets@[slot[x].0]@[slot[x].1]
                    as int == x,
        decreases n - i,
    {
        let li = labels[i];
        let mut dup = false;
        let ghost mut hit: int = -1;
        let mut j: usize = 0;
        while j < i
            invariant
                j <= i,
                i < n,
                n == labels@.len(),
                li == labels@[i as int],
                dup ==> 0 <= hit && hit < j && labels@[hit] == li,
                !dup ==> forall|jj: int| 0 <= jj && jj < j ==> #[trigger] labels@[jj] != li,
            decreases i - j,
        {
            if labels[j] == li {
                dup = true;
                proof {
                    hit = j as int;
                }
            }
            j = j + 1;
        }
        if !dup {
            let (b, binv) = positions_with_label(labels, li);
            buckets.push(b);
            proof {
                assert(binv@.len() == labels@.len());
                assert(forall|k: int|
                    0 <= k && k < b@.len() ==> (#[trigger] b@[k] as int) < n && labels@[b@[k]
                        as int] == li);
                firsts = firsts.push(i as int);
                invs = invs.push(binv@);
                assert(firsts.len() == buckets@.len());
                assert forall|cc2: int|
                    0 <= cc2 && cc2 < firsts.len() implies 0 <= #[trigger] firsts[cc2]
                        && firsts[cc2] < i + 1 by {
                    if cc2 < firsts.len() - 1 {
                        assert(firsts[cc2] < i);
                    } else {
                        assert(firsts[cc2] == i as int);
                    }
                }
                assert forall|c1: int, c2: int|
                    0 <= c1 && c1 < c2 && c2 < firsts.len() implies #[trigger] firsts[c1]
                        < #[trigger] firsts[c2] by {
                    if c2 < firsts.len() - 1 {
                    } else {
                        assert(firsts[c1] < i);
                        assert(firsts[c2] == i as int);
                    }
                }
                let cc = buckets@.len() - 1;
                assert(buckets@[cc] == b);
                assert(binv@[i as int] >= 0 && buckets@[cc]@[binv@[i as int]] as int
                    == i as int);
                slot = slot.update(i as int, (cc, binv@[i as int]));
            }
        } else {
            proof {
                // The position at `hit` shares this label and is already
                // placed; its bucket holds every position with the label.
                let cc = slot[hit].0;
                assert(buckets@[cc]@[slot[hit].1] as int == hit);
                assert(labels@[hit] == labels@[firsts[cc]]);
                assert(0 <= invs[cc][i as int] && buckets@[cc]@[invs[cc][i as int]] as int
                    == i as int);
                slot = slot.update(i as int, (cc, invs[cc][i as int]));
            }
        }
        i = i + 1;
    }
    proof {
        // Buckets carry pairwise different labels: each label first occurs
        // at its own bucket's first-occurrence position.
        assert forall|c1: int, k1: int, c2: int, k2: int|
            0 <= c1 && c1 < buckets@.len() && 0 <= k1 && k1 < buckets@[c1]@.len() && 0 <= c2 && c2
                < buckets@.len() && 0 <= k2 && k2 < buckets@[c2]@.len() && c1 != c2 implies labels@[
            #[trigger] buckets@[c1]@[k1] as int] != labels@[#[trigger] buckets@[c2]@[k2] as int] by {
            if c1 < c2 {
                assert(firsts[c1] < firsts[c2]);
                assert(labels@[firsts[c1]] != labels@[firsts[c2]]);
            } else {
                assert(firsts[c2] < firsts[c1]);
                assert(labels@[firsts[c2]] != labels@[firsts[c1]]);
            }
        }
    }
    (buckets, Ghost(slot))
}

/// Partitions the group's segments into maximal connected clusters: an
/// undirected graph is formed with one node per segment and one edge per
/// detected intersection, and each connected component becomes one
/// cluster. A segment with no intersections forms a singleton cluster.
pub fn get_clusters(segments: Vec<Segment>) -> (res: Vec<Vec<Segment>>)
    ensures
        exists|comps: Seq<Seq<int>>|
            #[trigger] is_clustering(segments@, comps) && cluster_contents(
                segments@,
                comps,
                res@,
            ),
{
    let edges = get_intersections(&segments);
    let labels = component_labels(&segments, &edges);
    let (buckets, slot) = group_by_label(&labels);
    let mut res: Vec<Vec<Segment>> = Vec::new();
    let mut c: usize = 0;
    while c < buckets.len()
        invariant
            c <= buckets@.len(),
            res@.len() == c,
            labels@.len() == segments@.len(),
            forall|cc: int, k: int|
                0 <= cc && cc < buckets@.len() && 0 <= k && k < buckets@[cc]@.len()
                    ==> (#[trigger] buckets@[cc]@[k] as int) < labels@.len(),
            forall|cc: int| 0 <= cc && cc < c ==> (#[trigger] res@[cc])@.len() == buckets@[cc]@.len(),
            forall|cc: int, k: int|
                0 <= cc && cc < c && 0 <= k && k < buckets@[cc]@.len() ==> seg_like(
                    #[trigger] res@[cc]@[k],
                    segments@[buckets@[cc]@[k] as int],
                ),
        decreases buckets@.len() - c,
    {
        let bc = buckets[c].len();
        let mut cl: Vec<Segment> = Vec::new();
        let mut k: usize = 0;
        while k < bc
            invariant
                bc == buckets@[c as int]@.len(),
                c < buckets@.len(),
                k <= bc,
                labels@.len() == segments@.len(),
                forall|cc: int, kk: int|
                    0 <= cc && cc < buckets@.len() && 0 <= kk && kk < buckets@[cc]@.len()
                        ==> (#[trigger] buckets@[cc]@[kk] as int) < labels@.len(),
                cl@.len() == k,
                forall|kk: int|
                    0 <= kk && kk < k ==> seg_like(
                        #[trigger] cl@[kk],
                        segments@[buckets@[c as int]@[kk] as int],
                    ),
            decreases bc - k,
        {
            let idx = buckets[c][k];
            cl.push(segments[idx].clone());
            k = k + 1;
        }
        res.push(cl);
        c = c + 1;
    }
    proof {
        let comps = Seq::new(
            buckets@.len(),
            |c: int| Seq::new(buckets@[c]@.len(), |k: int| buckets@[c]@[k] as int),
        );
        assert forall|i: int|
            0 <= i && i < segments@.len() implies #[trigger] part_covers(comps, i) by {
            let (cc, kk): (int, int) = slot@[i];
            assert(buckets@[cc]@[kk] as int == i);
            assert(comps[cc][kk] == i);
        }
        assert forall|c: int, k1: int, k2: int|
            0 <= c && c < comps.len() && 0 <= k1 && k1 < comps[c].len() && 0 <= k2 && k2
                < comps[c].len() implies connected(
            segments@,
            #[trigger] comps[c][k1],
            #[trigger] comps[c][k2],
        ) by {
            let x = buckets@[c]@[k1] as int;
            let y = buckets@[c]@[k2] as int;
            assert(labels@[x] == labels@[y]);
            assert(connected(segments@, x, y));
        }
        assert forall|c1: int, k1: int, c2: int, k2: int|
            0 <= c1 && c1 < comps.len() && 0 <= k1 && k1 < comps[c1].len() && 0 <= c2 && c2
                < comps.len() && 0 <= k2 && k2 < comps[c2].len() && c1 != c2 implies !connected(
            segments@,
            #[trigger] comps[c1][k1],
            #[trigger] comps[c2][k2],
        ) by {
            let x = buckets@[c1]@[k1] as int;
            let y = buckets@[c2]@[k2] as int;
            assert(labels@[x] != labels@[y]);
            assert(!connected(segments@, x, y));
        }
        assert(forall|c: int| 0 <= c && c < comps.len() ==> (#[trigger] comps[c]).len() > 0);
        assert(forall|c: int, k: int|
            0 <= c && c < comps.len() && 0 <= k && k < comps[c].len() ==> 0 <= #[trigger] comps[c][k]
                && comps[c][k] < segments@.len());
        assert(forall|c: int, k1: int, k2: int|
            0 <= c && c < comps.len() && 0 <= k1 && k1 < k2 && k2 < comps[c].len()
                ==> #[trigger] comps[c][k1] < #[trigger] comps[c][k2]);
        assert(is_clustering(segments@, comps));
        assert(cluster_contents(segments@, comps, res@));
    }
    res
}


/// Two position lists hold the same members.
pub open spec fn same_members(p: Seq<int>, q: Seq<int>) -> bool {
    forall|x: int| p.contains(x) <==> q.contains(x)
}

/// Part `c1` of the first partition appears, with the same members, in
/// the second.
pub open spec fn has_matching_part(comps1: Seq<Seq<int>>, comps2: Seq<Seq<int>>, c1: int) -> bool {
    exists|c2: int|
        0 <= c2 && c2 < comps2.len() && #[trigger] same_members(comps1[c1], comps2[c2])
}

/// The connected components of a group are unique: any two clusterings of
/// the same segments partition the positions into the same parts, so
/// reconstruction gives the same set of clusters however often it runs.
pub proof fn lemma_clustering_canonical(
    segs: Seq<Segment>,
    comps1: Seq<Seq<int>>,
    comps2: Seq<Seq<int>>,
)
    requires
        is_clustering(segs, comps1),
        is_clustering(segs, comps2),
    ensures
        forall|c1: int|
            0 <= c1 && c1 < comps1.len() ==> #[trigger] has_matching_part(comps1, comps2, c1),
{
    assert forall|c1: int|
        0 <= c1 && c1 < comps1.len() implies #[trigger] has_matching_part(comps1, comps2, c1) by {
        let i = comps1[c1][0];
        assert(part_covers(comps2, i));
        let (c2, k2): (int, int) = choose|c: int, k: int|
            0 <= c && c < comps2.len() && 0 <= k && k < comps2[c].len() && #[trigger] comps2[c][k]
                == i;
        assert forall|x: int| comps1[c1].contains(x) implies comps2[c2].contains(x) by {
            let kx = choose|k: int| 0 <= k && k < comps1[c1].len() && comps1[c1][k] == x;
            assert(connected(segs, i, x));
            assert(part_covers(comps2, x));
            let (cx, kkx): (int, int) = choose|c: int, k: int|
                0 <= c && c < comps2.len() && 0 <= k && k < comps2[c].len()
                    && #[trigger] comps2[c][k] == x;
            if cx != c2 {
                assert(!connected(segs, comps2[c2][k2], comps2[cx][kkx]));
                assert(false);
            }
            assert(comps2[c2][kkx] == x);
        }
        assert forall|x: int| comps2[c2].contains(x) implies comps1[c1].contains(x) by {
            let kx = choose|k: int| 0 <= k && k < comps2[c2].len() && comps2[c2][k] == x;
            assert(connected(segs, i, x)) by {
                assert(connected(segs, comps2[c2][k2], comps2[c2][kx]));
            }
            assert(part_covers(comps1, x));
            let (cy, ky): (int, int) = choose|c: int, k: int|
                0 <= c && c < comps1.len() && 0 <= k && k < comps1[c].len()
                    && #[trigger] comps1[c][k] == x;
            if cy != c1 {
                assert(!connected(segs, comps1[c1][0], comps1[cy][ky]));
                assert(false);
            }
            assert(comps1[c1][ky] == x);
        }
        assert(same_members(comps1[c1], comps2[c2]));
    }
}

} // verus!
