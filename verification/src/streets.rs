//! Street assembly: ways are grouped by the exact value of their name
//! attribute, each group is turned into segments, clustered by
//! connectivity, and every cluster becomes one named street. Groups are
//! mutually independent: segments are only ever compared against segments
//! sharing their exact name string.

use vstd::prelude::*;
use crate::store::{ObjectStore, Segment, Way, Node, line_of, surviving, get_segments, seg_like};
use crate::cluster::{get_clusters, is_clustering, cluster_contents, part_covers};

verus! {

/// One reconstructed street: a name and the segments of one connected
/// component of that name's group.
#[derive(Debug)]
pub struct Street {
    pub name: String,
    pub segments: Vec<Segment>,
}

/// A street is sound for a store: it carries a nonempty name, at least one
/// segment, and every segment is well formed and derived from some way of
/// the store carrying exactly the street's name.
pub open spec fn street_ok(store: ObjectStore, st: Street) -> bool {
    &&& st.name@.len() > 0
    &&& st.segments@.len() > 0
    &&& forall|k: int|
        0 <= k && k < st.segments@.len() ==> (#[trigger] st.segments@[k]).wf() && exists|w: int|
            0 <= w && w < store.ways@.len() && ((#[trigger] store.ways@[w]).name matches Some(nm)
                && nm@ == st.name@ && st.segments@[k].way_id == store.ways@[w].id
                && st.segments@[k].points@ == line_of(store.nodes@, store.ways@[w].nodes@))
}

/// Positions of the ways carrying exactly this name, in store order.
pub open spec fn named_idxs(ways: Seq<Way>, name: Seq<char>) -> Seq<int>
    decreases ways.len(),
{
    if ways.len() == 0 {
        Seq::empty()
    } else {
        let rest = named_idxs(ways.drop_last(), name);
        if ways.last().name matches Some(nm) && nm@ == name {
            rest.push(ways.len() - 1)
        } else {
            rest
        }
    }
}

/// A way carrying the name stands somewhere in its name's position list.
proof fn lemma_named_idxs_has(ways: Seq<Way>, name: Seq<char>, w: int)
    requires
        0 <= w && w < ways.len(),
        ways[w].name matches Some(nm) && nm@ == name,
    ensures
        exists|j: int|
            0 <= j && j < named_idxs(ways, name).len() && #[trigger] named_idxs(ways, name)[j]
                == w,
    decreases ways.len(),
{
    let s = named_idxs(ways, name);
    if w == ways.len() - 1 {
        assert(s[s.len() - 1] == w);
    } else {
        lemma_named_idxs_has(ways.drop_last(), name, w);
        let s0 = named_idxs(ways.drop_last(), name);
        let j = choose|j: int| 0 <= j && j < s0.len() && #[trigger] s0[j] == w;
        assert(s[j] == w);
    }
}

/// Every listed position is in bounds, carries the name, and the list is
/// strictly increasing.
proof fn lemma_named_idxs_shape(ways: Seq<Way>, name: Seq<char>)
    ensures
        forall|j: int|
            0 <= j && j < named_idxs(ways, name).len() ==> 0 <= #[trigger] named_idxs(
                ways,
                name,
            )[j] && named_idxs(ways, name)[j] < ways.len() && (ways[named_idxs(ways, name)[j]].name matches Some(
                nm,
            ) && nm@ == name),
        forall|j1: int, j2: int|
            0 <= j1 && j1 < j2 && j2 < named_idxs(ways, name).len() ==> #[trigger] named_idxs(
                ways,
                name,
            )[j1] < #[trigger] named_idxs(ways, name)[j2],
    decreases ways.len(),
{
    if ways.len() > 0 {
        lemma_named_idxs_shape(ways.drop_last(), name);
        assert forall|j: int|
            0 <= j && j < named_idxs(ways.drop_last(), name).len() implies named_idxs(
            ways.drop_last(),
            name,
        )[j] < ways.len() - 1 && ways.drop_last()[named_idxs(ways.drop_last(), name)[j]]
            == ways[named_idxs(ways.drop_last(), name)[j]] by {}
    }
}

/// Some group carries this name.
pub open spec fn has_group(groups: Seq<(String, Vec<usize>)>, name: Seq<char>) -> bool {
    exists|g: int| 0 <= g && g < groups.len() && (#[trigger] groups[g]).0@ == name
}

/// Groups ways by the exact value of their name attribute: one entry per
/// distinct nonempty name, in first-occurrence order. Each entry holds
/// exactly the positions of the ways carrying its name, in store order;
/// ways without a name, or with an empty one, take part in no group.
#[verifier::rlimit(50)]
pub fn get_name_groups(ways: &Vec<Way>) -> (groups: Vec<(String, Vec<usize>)>)
    ensures
        forall|g: int|
            0 <= g && g < groups@.len() ==> (#[trigger] groups@[g]).0@.len() > 0
                && groups@[g].1@.len() > 0 && groups@[g].1@.map_values(|u: usize| u as int)
                == named_idxs(ways@, groups@[g].0@),
        forall|g: int, j: int|
            0 <= g && g < groups@.len() && 0 <= j && j < groups@[g].1@.len()
                ==> (#[trigger] groups@[g].1@[j] as int) < ways@.len() && (ways@[groups@[g].1@[j]
                as int].name matches Some(nm) && nm@ == groups@[g].0@),
        forall|g1: int, g2: int|
            0 <= g1 && g1 < g2 && g2 < groups@.len() ==> (#[trigger] groups@[g1]).0@ != (
            #[trigger] groups@[g2]).0@,
        forall|w: int|
            #![trigger ways@[w]]
            0 <= w && w < ways@.len() ==> (ways@[w].name matches Some(nm) ==> (nm@.len() > 0
                ==> has_group(groups@, nm@))),
{
    let n = ways.len();
    let mut groups: Vec<(String, Vec<usize>)> = Vec::new();
    // Ghost record of the position whose way started each group.
    let ghost mut firsts: Seq<int> = Seq::empty();
    let mut i: usize = 0;
    while i < n
        invariant
            n == ways@.len(),
            i <= n,
            firsts.len() == groups@.len(),
            forall|g: int|
                0 <= g && g < firsts.len() ==> 0 <= #[trigger] firsts[g] && firsts[g] < i,
            forall|g1: int, g2: int|
                0 <= g1 && g1 < g2 && g2 < firsts.len() ==> #[trigger] firsts[g1]
                    < #[trigger] firsts[g2],
            forall|g: int|
                0 <= g && g < firsts.len() ==> (ways@[#[trigger] firsts[g]].name matches Some(nm)
                    && nm@ == groups@[g].0@),
            forall|g: int, j: int|
                #![trigger firsts[g], ways@[j]]
                0 <= g && g < firsts.len() && 0 <= j && j < firsts[g]
                    ==> (ways@[j].name matches Some(nm) ==> nm@ != groups@[g].0@),
            forall|g: int|
                0 <= g && g < groups@.len() ==> (#[trigger] groups@[g]).0@.len() > 0
                    && groups@[g].1@.len() > 0 && groups@[g].1@.map_values(|u: usize| u as int)
                    == named_idxs(ways@, groups@[g].0@),
            forall|g: int, j: int|
                0 <= g && g < groups@.len() && 0 <= j && j < groups@[g].1@.len()
                    ==> (#[trigger] groups@[g].1@[j] as int) < n && (ways@[groups@[g].1@[j]
                    as int].name matches Some(nm) && nm@ == groups@[g].0@),
            forall|w: int|
                #![trigger ways@[w]]
                0 <= w && w < i ==> (ways@[w].name matches Some(nm) ==> (nm@.len() > 0
                    ==> has_group(groups@, nm@))),
        decreases n - i,
    {
        // Ghost record of an earlier position carrying the same name.
        let ghost mut prior: int = -1;
        let has_new_name: bool = match &ways[i].name {
            None => false,
            Some(nm) => {
                if nm.as_str().is_empty() {
                    false
                } else {
                    // Only the first way of each name starts a group.
                    let mut dup = false;
                    let mut j: usize = 0;
                    while j < i
                        invariant
                            j <= i,
                            i < n,
                            n == ways@.len(),
                            ways@[i as int].name matches Some(m) && m == nm,
                            !dup ==> forall|jj: int|
                                0 <= jj && jj < j ==> ((#[trigger] ways@[jj]).name matches Some(o)
                                    ==> o@ != nm@),
                            dup ==> 0 <= prior && prior < j && (ways@[prior].name matches Some(o)
                                && o@ == nm@),
                        decreases i - j,
                    {
                        match &ways[j].name {
                            None => (),
                            Some(other) => {
                                if other.eq(nm) {
                                    dup = true;
                                    proof {
                                        prior = j as int;
                                    }
                                }
                            },
                        }
                        j = j + 1;
                    }
                    !dup
                }
            },
        };
        if has_new_name {
            let name: String = match &ways[i].name {
                Some(nm) => nm.clone(),
                None => String::new(),
            };
            let mut idxs: Vec<usize> = Vec::new();
            let mut x: usize = 0;
            while x < n
                invariant
                    n == ways@.len(),
                    x <= n,
                    i < n,
                    ways@[i as int].name matches Some(m) && m@ == name@,
                    name@.len() > 0,
                    idxs@.map_values(|u: usize| u as int) == named_idxs(
                        ways@.take(x as int),
                        name@,
                    ),
                    forall|j: int|
                        0 <= j && j < idxs@.len() ==> (#[trigger] idxs@[j] as int) < n && (
                        ways@[idxs@[j] as int].name matches Some(nm) && nm@ == name@),
                decreases n - x,
            {
                proof {
                    assert(ways@.take(x + 1).drop_last() =~= ways@.take(x as int));
                    assert(ways@.take(x + 1).last() == ways@[x as int]);
                }
                match &ways[x].name {
                    None => (),
                    Some(other) => {
                        if other.eq(&name) {
                            let ghost pre = idxs@;
                            idxs.push(x);
                            proof {
                                assert(idxs@[idxs@.len() - 1] == x);
                                assert(ways@[x as int].name matches Some(nm) && nm@ == name@);
                                assert(idxs@.map_values(|u: usize| u as int) =~= pre.map_values(
                                    |u: usize| u as int,
                                ).push(x as int));
                            }
                        }
                    },
                }
                x = x + 1;
            }
            proof {
                assert(ways@.take(n as int) =~= ways@);
                lemma_named_idxs_has(ways@, name@, i as int);
                assert(idxs@.map_values(|u: usize| u as int).len() == named_idxs(
                    ways@,
                    name@,
                ).len());
            }
            let ghost pre_groups = groups@;
            groups.push((name, idxs));
            proof {
                firsts = firsts.push(i as int);
                // Earlier ways never carry this name: the duplicate scan
                // came back empty.
                assert forall|g: int, j: int|
                    #![trigger firsts[g], ways@[j]]
                    0 <= g && g < firsts.len() && 0 <= j && j < firsts[g] implies (ways@[j].name matches Some(
                    nm,
                ) ==> nm@ != groups@[g].0@) by {
                    if g < firsts.len() - 1 {
                        assert(groups@[g] == pre_groups[g]);
                    }
                }
                assert forall|w: int|
                    #![trigger ways@[w]]
                    0 <= w && w < i + 1 implies (ways@[w].name matches Some(nm) ==> (nm@.len() > 0
                    ==> has_group(groups@, nm@))) by {
                    if w < i {
                        if ways@[w].name matches Some(nm) && nm@.len() > 0 {
                            let g = choose|g: int|
                                0 <= g && g < pre_groups.len() && (#[trigger] pre_groups[g]).0@
                                    == ways@[w].name.unwrap()@;
                            assert(groups@[g].0@ == ways@[w].name.unwrap()@);
                        }
                    } else {
                        assert(groups@[groups@.len() - 1].0@ == ways@[i as int].name.unwrap()@);
                    }
                }
            }
        } else {
            proof {
                assert forall|w: int|
                    #![trigger ways@[w]]
                    0 <= w && w < i + 1 implies (ways@[w].name matches Some(nm) ==> (nm@.len() > 0
                    ==> has_group(groups@, nm@))) by {
                    if w == i {
                        if ways@[w].name is Some && ways@[w].name.unwrap()@.len() > 0 {
                            // This name was seen before: the position the
                            // duplicate scan found already has a group.
                            assert(0 <= prior && prior < i);
                            assert(ways@[prior].name is Some && ways@[prior].name.unwrap()@
                                == ways@[i as int].name.unwrap()@);
                            assert(ways@[prior] == ways@[prior]);
                            assert(has_group(groups@, ways@[i as int].name.unwrap()@));
                        }
                    }
                }
            }
        }
        i = i + 1;
    }
    proof {
        // Group names are pairwise distinct: each is first carried at its
        // own group's starting position.
        assert forall|g1: int, g2: int|
            0 <= g1 && g1 < g2 && g2 < groups@.len() implies (#[trigger] groups@[g1]).0@ != (
        #[trigger] groups@[g2]).0@ by {
            assert(firsts[g1] < firsts[g2]);
            assert(ways@[firsts[g1]].name matches Some(nm) && nm@ == groups@[g1].0@);
            assert(ways@[firsts[g1]].name matches Some(nm) ==> nm@ != groups@[g2].0@);
        }
    }
    groups
}

/// Every surviving position carries a value taken from the index list it
/// was filtered out of.
proof fn lemma_surviving_from(nodes: Seq<Node>, ways: Seq<Way>, idxs: Seq<int>)
    ensures
        forall|k: int|
            #![trigger surviving(nodes, ways, idxs)[k]]
            0 <= k && k < surviving(nodes, ways, idxs).len() ==> exists|j: int|
                0 <= j && j < idxs.len() && #[trigger] idxs[j] == surviving(nodes, ways, idxs)[k],
    decreases idxs.len(),
{
    if idxs.len() > 0 {
        lemma_surviving_from(nodes, ways, idxs.drop_last());
        let s = surviving(nodes, ways, idxs);
        let s0 = surviving(nodes, ways, idxs.drop_last());
        assert forall|k: int| #![trigger s[k]] 0 <= k && k < s.len() implies exists|j: int|
            0 <= j && j < idxs.len() && #[trigger] idxs[j] == s[k] by {
            if k < s0.len() {
                let j = choose|j: int|
                    0 <= j && j < idxs.drop_last().len() && #[trigger] idxs.drop_last()[j]
                        == s0[k];
                assert(idxs[j] == s[k]);
            } else {
                assert(s[k] == idxs.last());
                assert(idxs[idxs.len() - 1] == s[k]);
            }
        }
    }
}

/// A listed way whose polyline resolves to at least one point survives.
proof fn lemma_surviving_contains(nodes: Seq<Node>, ways: Seq<Way>, idxs: Seq<int>, w: int)
    requires
        idxs.contains(w),
        0 <= w && w < ways.len(),
        line_of(nodes, ways[w].nodes@).len() > 0,
    ensures
        surviving(nodes, ways, idxs).contains(w),
    decreases idxs.len(),
{
    let j = choose|j: int| 0 <= j && j < idxs.len() && idxs[j] == w;
    let s = surviving(nodes, ways, idxs);
    if j == idxs.len() - 1 {
        assert(s[s.len() - 1] == w);
    } else {
        assert(idxs.drop_last()[j] == w);
        assert(idxs.drop_last().contains(w));
        lemma_surviving_contains(nodes, ways, idxs.drop_last(), w);
        let s0 = surviving(nodes, ways, idxs.drop_last());
        let k = choose|k: int| 0 <= k && k < s0.len() && s0[k] == w;
        assert(s[k] == w);
    }
}

/// Filtering a strictly increasing index list keeps it strictly
/// increasing.
proof fn lemma_surviving_increasing(nodes: Seq<Node>, ways: Seq<Way>, idxs: Seq<int>)
    requires
        forall|j1: int, j2: int|
            0 <= j1 && j1 < j2 && j2 < idxs.len() ==> #[trigger] idxs[j1] < #[trigger] idxs[j2],
    ensures
        forall|k1: int, k2: int|
            0 <= k1 && k1 < k2 && k2 < surviving(nodes, ways, idxs).len() ==> #[trigger] surviving(
                nodes,
                ways,
                idxs,
            )[k1] < #[trigger] surviving(nodes, ways, idxs)[k2],
    decreases idxs.len(),
{
    if idxs.len() > 0 {
        lemma_surviving_increasing(nodes, ways, idxs.drop_last());
        lemma_surviving_from(nodes, ways, idxs.drop_last());
        let s = surviving(nodes, ways, idxs);
        let s0 = surviving(nodes, ways, idxs.drop_last());
        assert forall|k1: int, k2: int|
            0 <= k1 && k1 < k2 && k2 < s.len() implies #[trigger] s[k1] < #[trigger] s[k2] by {
            if k2 < s0.len() {
            } else {
                assert(s[k2] == idxs.last());
                assert(s[k1] == s0[k1]);
                let j = choose|j: int|
                    0 <= j && j < idxs.drop_last().len() && #[trigger] idxs.drop_last()[j]
                        == s0[k1];
                assert(idxs[j] == s0[k1]);
                assert(idxs[j] < idxs[idxs.len() - 1]);
            }
        }
    }
}

/// The surviving positions of a name's group: the ways carrying exactly
/// the name whose polylines resolve to at least one point.
pub open spec fn surv_named(store: ObjectStore, name: Seq<char>) -> Seq<int> {
    surviving(store.nodes@, store.ways@, named_idxs(store.ways@, name))
}

/// Two ways hold distinct identifiers and intersecting polylines.
pub open spec fn ways_linked(store: ObjectStore, w1: int, w2: int) -> bool {
    &&& 0 <= w1 && w1 < store.ways@.len()
    &&& 0 <= w2 && w2 < store.ways@.len()
    &&& store.ways@[w1].id != store.ways@[w2].id
    &&& crate::geom::polylines_intersect(
        line_of(store.nodes@, store.ways@[w1].nodes@),
        line_of(store.nodes@, store.ways@[w2].nodes@),
    )
}

/// A chain of pairwise intersecting surviving ways of one name group.
pub open spec fn group_chain(
    store: ObjectStore,
    name: Seq<char>,
    p: Seq<int>,
    w1: int,
    w2: int,
) -> bool {
    &&& p.len() >= 1
    &&& p[0] == w1
    &&& p[p.len() - 1] == w2
    &&& forall|k: int| 0 <= k && k < p.len() ==> surv_named(store, name).contains(#[trigger] p[k])
    &&& forall|k: int| 0 <= k && k < p.len() - 1 ==> ways_linked(store, #[trigger] p[k], p[k + 1])
}

/// Transitive closure of the intersection relation within a name group.
pub open spec fn group_connected(store: ObjectStore, name: Seq<char>, w1: int, w2: int) -> bool {
    exists|p: Seq<int>| #[trigger] group_chain(store, name, p, w1, w2)
}

/// The segment is derived from this surviving way of the name's group.
pub open spec fn seg_source(store: ObjectStore, name: Seq<char>, seg: Segment, w: int) -> bool {
    &&& surv_named(store, name).contains(w)
    &&& 0 <= w && w < store.ways@.len()
    &&& seg.way_id == store.ways@[w].id
    &&& seg.points@ == line_of(store.nodes@, store.ways@[w].nodes@)
}

/// The segment is derived from some surviving way of the name's group.
pub open spec fn has_source(store: ObjectStore, name: Seq<char>, seg: Segment) -> bool {
    exists|w: int| #[trigger] seg_source(store, name, seg, w)
}

/// Some returned street of this name holds a segment of this way.
pub open spec fn street_with(streets: Seq<Street>, name: Seq<char>, id: i64) -> bool {
    exists|s: int, k: int|
        0 <= s && s < streets.len() && 0 <= k && k < streets[s].segments@.len() && streets[s].name@
            == name && (#[trigger] streets[s].segments@[k]).way_id == id
}

/// One street is internally right: it is sound, every segment has a
/// surviving source way in its name's group, no way appears twice, and
/// any two of its segments' source ways are joined by a chain of pairwise
/// intersecting same-named segments.
pub open spec fn street_sound(store: ObjectStore, st: Street) -> bool {
    &&& street_ok(store, st)
    &&& forall|k: int|
        0 <= k && k < st.segments@.len() ==> has_source(store, st.name@, #[trigger] st.segments@[k])
    &&& forall|k1: int, k2: int|
        0 <= k1 && k1 < st.segments@.len() && 0 <= k2 && k2 < st.segments@.len() && k1 != k2
            ==> (#[trigger] st.segments@[k1]).way_id != (#[trigger] st.segments@[k2]).way_id
    &&& forall|k1: int, k2: int, w1: int, w2: int|
        0 <= k1 && k1 < st.segments@.len() && 0 <= k2 && k2 < st.segments@.len()
            && #[trigger] seg_source(store, st.name@, st.segments@[k1], w1)
            && #[trigger] seg_source(store, st.name@, st.segments@[k2], w2) ==> group_connected(
            store,
            st.name@,
            w1,
            w2,
        )
}

/// Two distinct streets never share a way, and when they carry the same
/// name, no chain of pairwise intersecting same-named segments joins
/// their source ways: each street is a maximal connected component.
pub open spec fn streets_separate(store: ObjectStore, s1: Street, s2: Street) -> bool {
    &&& forall|k1: int, k2: int|
        0 <= k1 && k1 < s1.segments@.len() && 0 <= k2 && k2 < s2.segments@.len()
            ==> (#[trigger] s1.segments@[k1]).way_id != (#[trigger] s2.segments@[k2]).way_id
    &&& forall|k1: int, k2: int, w1: int, w2: int|
        0 <= k1 && k1 < s1.segments@.len() && 0 <= k2 && k2 < s2.segments@.len() && s1.name@
            == s2.name@ && #[trigger] seg_source(store, s1.name@, s1.segments@[k1], w1)
            && #[trigger] seg_source(store, s2.name@, s2.segments@[k2], w2) ==> !group_connected(
            store,
            s1.name@,
            w1,
            w2,
        ) && !group_connected(store, s1.name@, w2, w1)
}

/// The whole reconstruction contract: every returned street is internally
/// right; distinct streets are disjoint and, within one name, mutually
/// unreachable; and every way carrying a nonempty name whose polyline
/// resolves to at least one point appears in some street of its name.
pub open spec fn reconstruction_ok(store: ObjectStore, streets: Seq<Street>) -> bool {
    &&& forall|s: int| 0 <= s && s < streets.len() ==> street_sound(store, #[trigger] streets[s])
    &&& forall|s1: int, s2: int|
        0 <= s1 && s1 < streets.len() && 0 <= s2 && s2 < streets.len() && s1 != s2
            ==> streets_separate(store, #[trigger] streets[s1], #[trigger] streets[s2])
    &&& forall|w: int|
        #![trigger store.ways@[w]]
        0 <= w && w < store.ways@.len() ==> (store.ways@[w].name matches Some(nm) ==> ((nm@.len()
            > 0 && line_of(store.nodes@, store.ways@[w].nodes@).len() > 0) ==> street_with(
            streets,
            nm@,
            store.ways@[w].id,
        )))
}

/// Every surviving entry has a nonempty resolved polyline.
proof fn lemma_surviving_entry_line(nodes: Seq<Node>, ways: Seq<Way>, idxs: Seq<int>)
    ensures
        forall|k: int|
            #![trigger surviving(nodes, ways, idxs)[k]]
            0 <= k && k < surviving(nodes, ways, idxs).len() ==> 0 <= surviving(nodes, ways, idxs)[k]
                && surviving(nodes, ways, idxs)[k] < ways.len() && line_of(
                nodes,
                ways[surviving(nodes, ways, idxs)[k]].nodes@,
            ).len() > 0,
    decreases idxs.len(),
{
    if idxs.len() > 0 {
        lemma_surviving_entry_line(nodes, ways, idxs.drop_last());
    }
}

/// A member of a name group's surviving list is a way of the store that
/// carries the name and resolves to a nonempty polyline.
proof fn lemma_surv_named_entry(store: ObjectStore, name: Seq<char>, w: int)
    requires
        surv_named(store, name).contains(w),
    ensures
        0 <= w && w < store.ways@.len(),
        store.ways@[w].name matches Some(nm) && nm@ == name,
        line_of(store.nodes@, store.ways@[w].nodes@).len() > 0,
{
    let idxs = named_idxs(store.ways@, name);
    let survs = surv_named(store, name);
    let pos = choose|pos: int| 0 <= pos && pos < survs.len() && survs[pos] == w;
    lemma_surviving_from(store.nodes@, store.ways@, idxs);
    lemma_surviving_entry_line(store.nodes@, store.ways@, idxs);
    lemma_named_idxs_shape(store.ways@, name);
    let j = choose|j: int| 0 <= j && j < idxs.len() && #[trigger] idxs[j] == survs[pos];
    assert(named_idxs(store.ways@, name)[j] == w);
}

/// Some segment of the street carries this way identifier.
pub open spec fn has_id(st: Street, id: i64) -> bool {
    exists|k: int|
        0 <= k && k < st.segments@.len() && (#[trigger] st.segments@[k]).way_id == id
}

/// The two streets hold exactly the same way identifiers.
pub open spec fn same_ids(a: Street, b: Street) -> bool {
    forall|id: i64| #[trigger] has_id(a, id) <==> #[trigger] has_id(b, id)
}

/// Some street of the collection carries this street's name and exactly
/// its way identifiers.
pub open spec fn street_matched(streets: Seq<Street>, st: Street) -> bool {
    exists|s: int|
        0 <= s && s < streets.len() && (#[trigger] streets[s]).name@ == st.name@ && same_ids(
            streets[s],
            st,
        )
}

/// Reconstruction is canonical: any two street collections satisfying the
/// reconstruction contract for one store agree as sets of
/// (name, way-identifier-set) pairs, so running reconstruction twice on
/// the same store yields equal results in that sense.
pub proof fn lemma_reconstruction_canonical(store: ObjectStore, r1: Seq<Street>, r2: Seq<Street>)
    requires
        store.wf(),
        reconstruction_ok(store, r1),
        reconstruction_ok(store, r2),
    ensures
        forall|s: int| 0 <= s && s < r1.len() ==> #[trigger] street_matched(r2, r1[s]),
{
    assert forall|s: int| 0 <= s && s < r1.len() implies #[trigger] street_matched(r2, r1[s]) by {
        let st1 = r1[s];
        assert(street_sound(store, st1));
        let name = st1.name@;
        // The anchor: the source way of the street's first segment.
        assert(has_source(store, name, st1.segments@[0]));
        let w0 = choose|w: int| #[trigger] seg_source(store, name, st1.segments@[0], w);
        lemma_surv_named_entry(store, name, w0);
        assert(store.ways@[w0] == store.ways@[w0]);
        assert(street_with(r2, name, store.ways@[w0].id));
        let (s2, k2): (int, int) = choose|s2: int, k2: int|
            0 <= s2 && s2 < r2.len() && 0 <= k2 && k2 < r2[s2].segments@.len() && r2[s2].name@
                == name && (#[trigger] r2[s2].segments@[k2]).way_id == store.ways@[w0].id;
        let st2 = r2[s2];
        // The anchor segment of the counterpart also stems from w0.
        assert(has_source(store, name, st2.segments@[k2]));
        let w0b = choose|w: int| #[trigger] seg_source(store, name, st2.segments@[k2], w);
        lemma_wf_unique_way(store, w0b, w0);
        assert forall|id: i64| #[trigger] has_id(st1, id) implies #[trigger] has_id(st2, id) by {
            let k = choose|k: int|
                0 <= k && k < st1.segments@.len() && (#[trigger] st1.segments@[k]).way_id == id;
            assert(has_source(store, name, st1.segments@[k]));
            let w = choose|wx: int| #[trigger] seg_source(store, name, st1.segments@[k], wx);
            assert(group_connected(store, name, w0, w));
            lemma_surv_named_entry(store, name, w);
            assert(store.ways@[w] == store.ways@[w]);
            assert(street_with(r2, name, store.ways@[w].id));
            let (s3, k3): (int, int) = choose|s3: int, k3: int|
                0 <= s3 && s3 < r2.len() && 0 <= k3 && k3 < r2[s3].segments@.len() && r2[s3].name@
                    == name && (#[trigger] r2[s3].segments@[k3]).way_id == store.ways@[w].id;
            assert(has_source(store, name, r2[s3].segments@[k3]));
            let wb = choose|wx: int| #[trigger] seg_source(store, name, r2[s3].segments@[k3], wx);
            lemma_wf_unique_way(store, wb, w);
            if s3 != s2 {
                assert(streets_separate(store, r2[s2], r2[s3]));
                assert(!group_connected(store, name, w0, w));
                assert(false);
            }
            assert(st2.segments@[k3].way_id == id);
        }
        assert forall|id: i64| #[trigger] has_id(st2, id) implies #[trigger] has_id(st1, id) by {
            let k = choose|k: int|
                0 <= k && k < st2.segments@.len() && (#[trigger] st2.segments@[k]).way_id == id;
            assert(has_source(store, name, st2.segments@[k]));
            let w = choose|wx: int| #[trigger] seg_source(store, name, st2.segments@[k], wx);
            assert(group_connected(store, name, w0, w));
            lemma_surv_named_entry(store, name, w);
            assert(store.ways@[w] == store.ways@[w]);
            assert(street_with(r1, name, store.ways@[w].id));
            let (s4, k4): (int, int) = choose|s4: int, k4: int|
                0 <= s4 && s4 < r1.len() && 0 <= k4 && k4 < r1[s4].segments@.len() && r1[s4].name@
                    == name && (#[trigger] r1[s4].segments@[k4]).way_id == store.ways@[w].id;
            assert(has_source(store, name, r1[s4].segments@[k4]));
            let wb = choose|wx: int| #[trigger] seg_source(store, name, r1[s4].segments@[k4], wx);
            lemma_wf_unique_way(store, wb, w);
            if s4 != s {
                assert(streets_separate(store, r1[s], r1[s4]));
                // The anchor's source in st1 is w0 and the found street's
                // source is w, yet the group joins them.
                let wa = choose|wx: int| #[trigger] seg_source(store, name, st1.segments@[0], wx);
                lemma_wf_unique_way(store, wa, w0);
                assert(!group_connected(store, name, w0, w));
                assert(false);
            }
            assert(st1.segments@[k4].way_id == id);
        }
        assert(same_ids(st2, st1));
        assert(street_matched(r2, st1));
    }
}

/// In a store with unique identifiers, a way index is determined by its
/// identifier.
proof fn lemma_wf_unique_way(store: ObjectStore, w1: int, w2: int)
    requires
        store.wf(),
        0 <= w1 && w1 < store.ways@.len(),
        0 <= w2 && w2 < store.ways@.len(),
        store.ways@[w1].id == store.ways@[w2].id,
    ensures
        w1 == w2,
{
    if w1 < w2 {
        assert(store.ways@[w1].id != store.ways@[w2].id);
    } else if w2 < w1 {
        assert(store.ways@[w2].id != store.ways@[w1].id);
    }
}

/// The context tying one name group's segment list to the store: entry k
/// of the list is built from the k-th surviving way of the group.
spec fn group_ctx(store: ObjectStore, name: Seq<char>, segsv: Seq<Segment>) -> bool {
    &&& store.wf()
    &&& segsv.len() == surv_named(store, name).len()
    &&& forall|k: int|
        0 <= k && k < segsv.len() ==> 0 <= #[trigger] surv_named(store, name)[k] && surv_named(
            store,
            name,
        )[k] < store.ways@.len()
    &&& forall|k: int|
        0 <= k && k < segsv.len() ==> (#[trigger] segsv[k]).way_id == store.ways@[surv_named(
            store,
            name,
        )[k]].id && segsv[k].points@ == line_of(
            store.nodes@,
            store.ways@[surv_named(store, name)[k]].nodes@,
        )
    &&& forall|k1: int, k2: int|
        0 <= k1 && k1 < k2 && k2 < segsv.len() ==> #[trigger] surv_named(store, name)[k1]
            < #[trigger] surv_named(store, name)[k2]
}

/// A chain over group positions becomes a chain over the group's ways.
proof fn lemma_pos_to_way_conn(
    store: ObjectStore,
    name: Seq<char>,
    segsv: Seq<Segment>,
    a: int,
    b: int,
)
    requires
        group_ctx(store, name, segsv),
        0 <= a && a < segsv.len(),
        0 <= b && b < segsv.len(),
        crate::cluster::connected(segsv, a, b),
    ensures
        group_connected(store, name, surv_named(store, name)[a], surv_named(store, name)[b]),
{
    let survs = surv_named(store, name);
    let p = choose|p: Seq<int>| #[trigger] crate::cluster::is_chain(segsv, p, a, b);
    let q = Seq::new(p.len(), |k: int| survs[p[k]]);
    assert forall|k: int| 0 <= k && k < q.len() implies survs.contains(#[trigger] q[k]) by {
        assert(survs[p[k]] == q[k]);
    }
    assert forall|k: int| 0 <= k && k < q.len() - 1 implies ways_linked(
        store,
        #[trigger] q[k],
        q[k + 1],
    ) by {
        assert(crate::cluster::linked(segsv, p[k], p[k + 1]));
    }
    assert(group_chain(store, name, q, survs[a], survs[b]));
}

/// A chain over the group's ways becomes a chain over group positions.
proof fn lemma_way_to_pos_conn(
    store: ObjectStore,
    name: Seq<char>,
    segsv: Seq<Segment>,
    a: int,
    b: int,
)
    requires
        group_ctx(store, name, segsv),
        0 <= a && a < segsv.len(),
        0 <= b && b < segsv.len(),
        group_connected(store, name, surv_named(store, name)[a], surv_named(store, name)[b]),
    ensures
        crate::cluster::connected(segsv, a, b),
{
    let survs = surv_named(store, name);
    let q = choose|q: Seq<int>|
        #[trigger] group_chain(store, name, q, survs[a], survs[b]);
    let r = Seq::new(q.len(), |k: int| choose|pos: int| 0 <= pos && pos < survs.len() && survs[pos] == q[k]);
    assert forall|k: int|
        0 <= k && k < r.len() implies 0 <= #[trigger] r[k] && r[k] < segsv.len() && survs[r[k]]
        == q[k] by {
        assert(survs.contains(q[k]));
        let pos = choose|pos: int| 0 <= pos && pos < survs.len() && survs[pos] == q[k];
        assert(r[k] == pos);
    }
    // Positions are recovered uniquely: the surviving list is strictly
    // increasing, so equal values force equal positions.
    assert(survs[r[0]] == survs[a]);
    assert(r[0] == a) by {
        if r[0] < a {
            assert(survs[r[0]] < survs[a]);
        } else if a < r[0] {
            assert(survs[a] < survs[r[0]]);
        }
    }
    assert(survs[r[r.len() - 1]] == survs[b]);
    assert(r[r.len() - 1] == b) by {
        if r[r.len() - 1] < b {
            assert(survs[r[r.len() - 1]] < survs[b]);
        } else if b < r[r.len() - 1] {
            assert(survs[b] < survs[r[r.len() - 1]]);
        }
    }
    assert forall|k: int| 0 <= k && k < r.len() - 1 implies crate::cluster::linked(
        segsv,
        #[trigger] r[k],
        r[k + 1],
    ) by {
        assert(ways_linked(store, q[k], q[k + 1]));
        assert(segsv[r[k]].way_id == store.ways@[q[k]].id);
        assert(segsv[r[k + 1]].way_id == store.ways@[q[k + 1]].id);
        assert(segsv[r[k]].way_id != segsv[r[k + 1]].way_id);
    }
    assert(crate::cluster::is_chain(segsv, r, a, b));
}

/// A street already listed stays listed when the collection grows at the
/// end.
proof fn lemma_street_with_prefix(
    streets1: Seq<Street>,
    streets2: Seq<Street>,
    name: Seq<char>,
    id: i64,
)
    requires
        street_with(streets1, name, id),
        streets1.len() <= streets2.len(),
        forall|s: int| 0 <= s && s < streets1.len() ==> #[trigger] streets2[s] == streets1[s],
    ensures
        street_with(streets2, name, id),
{
    let (s, k): (int, int) = choose|s: int, k: int|
        0 <= s && s < streets1.len() && 0 <= k && k < streets1[s].segments@.len()
            && streets1[s].name@ == name && (#[trigger] streets1[s].segments@[k]).way_id == id;
    assert(streets2[s] == streets1[s]);
    assert((streets2[s].segments@[k]).way_id == id);
}

/// Name isolation: in a store with unique feature identifiers, two sound
/// streets carrying different names never share a way, however their
/// geometries relate: clustering never merges across name groups.
pub proof fn lemma_name_isolation(
    store: ObjectStore,
    st1: Street,
    st2: Street,
    k1: int,
    k2: int,
)
    requires
        store.wf(),
        street_ok(store, st1),
        street_ok(store, st2),
        st1.name@ != st2.name@,
        0 <= k1 && k1 < st1.segments@.len(),
        0 <= k2 && k2 < st2.segments@.len(),
    ensures
        st1.segments@[k1].way_id != st2.segments@[k2].way_id,
{
    let w1 = choose|w: int|
        0 <= w && w < store.ways@.len() && ((#[trigger] store.ways@[w]).name matches Some(nm)
            && nm@ == st1.name@ && st1.segments@[k1].way_id == store.ways@[w].id
            && st1.segments@[k1].points@ == line_of(store.nodes@, store.ways@[w].nodes@));
    let w2 = choose|w: int|
        0 <= w && w < store.ways@.len() && ((#[trigger] store.ways@[w]).name matches Some(nm)
            && nm@ == st2.name@ && st2.segments@[k2].way_id == store.ways@[w].id
            && st2.segments@[k2].points@ == line_of(store.nodes@, store.ways@[w].nodes@));
    if st1.segments@[k1].way_id == st2.segments@[k2].way_id {
        lemma_wf_unique_way(store, w1, w2);
        assert(false);
    }
}

/// Reconstructs all streets of the store: ways are grouped by name, each
/// group's segments are clustered by geometric connectivity, and each
/// cluster becomes one street. Malformed or unresolvable ways contribute
/// nothing; no failure is exposed.
#[verifier::loop_isolation(false)]
#[verifier::rlimit(100)]
pub fn get_streets(store: &ObjectStore) -> (res: Vec<Street>)
    requires
        store.wf(),
    ensures
        reconstruction_ok(*store, res@),
{
    let mut groups = get_name_groups(&store.ways);
    let mut res: Vec<Street> = Vec::new();
    while groups.len() > 0
        invariant
            forall|g: int|
                0 <= g && g < groups@.len() ==> (#[trigger] groups@[g]).0@.len() > 0
                    && groups@[g].1@.len() > 0 && groups@[g].1@.map_values(|u: usize| u as int)
                    == named_idxs(store.ways@, groups@[g].0@),
            forall|g: int, j: int|
                0 <= g && g < groups@.len() && 0 <= j && j < groups@[g].1@.len()
                    ==> (#[trigger] groups@[g].1@[j] as int) < store.ways@.len() && (
                store.ways@[groups@[g].1@[j] as int].name matches Some(nm) && nm@
                    == groups@[g].0@),
            forall|g1: int, g2: int|
                0 <= g1 && g1 < g2 && g2 < groups@.len() ==> (#[trigger] groups@[g1]).0@ != (
                #[trigger] groups@[g2]).0@,
            forall|s: int| 0 <= s && s < res@.len() ==> street_sound(*store, #[trigger] res@[s]),
            forall|s1: int, s2: int|
                0 <= s1 && s1 < s2 && s2 < res@.len() ==> streets_separate(
                    *store,
                    #[trigger] res@[s1],
                    #[trigger] res@[s2],
                ),
            forall|s: int, g: int|
                0 <= s && s < res@.len() && 0 <= g && g < groups@.len()
                    ==> (#[trigger] res@[s]).name@ != (#[trigger] groups@[g]).0@,
            forall|w: int|
                #![trigger store.ways@[w]]
                0 <= w && w < store.ways@.len() ==> (store.ways@[w].name matches Some(nm) ==> (
                nm@.len() > 0 ==> (has_group(groups@, nm@) || (line_of(
                    store.nodes@,
                    store.ways@[w].nodes@,
                ).len() > 0 ==> street_with(res@, nm@, store.ways@[w].id))))),
        decreases groups@.len(),
    {
        let ghost pre_groups = groups@;
        let group = groups.pop().unwrap();
        let (name, idxs) = group;
        proof {
            assert(pre_groups[pre_groups.len() - 1].0@ == name@);
            assert(pre_groups[pre_groups.len() - 1].1@ == idxs@);
        }
        let segments = get_segments(store, &idxs);
        let ghost segsv = segments@;
        let ghost iidxs = idxs@.map_values(|u: usize| u as int);
        let ghost survs = surv_named(*store, name@);
        proof {
            assert(iidxs == named_idxs(store.ways@, name@));
            assert(survs == surviving(store.nodes@, store.ways@, iidxs));
            lemma_named_idxs_shape(store.ways@, name@);
            lemma_surviving_from(store.nodes@, store.ways@, iidxs);
            lemma_surviving_increasing(store.nodes@, store.ways@, iidxs);
            assert forall|k: int|
                0 <= k && k < survs.len() implies 0 <= #[trigger] survs[k] && survs[k]
                < store.ways@.len() && (store.ways@[survs[k]].name matches Some(nm) && nm@
                == name@) by {
                let j = choose|j: int| 0 <= j && j < iidxs.len() && #[trigger] iidxs[j] == survs[k];
                assert(named_idxs(store.ways@, name@)[j] == survs[k]);
            }
            assert(group_ctx(*store, name@, segsv));
        }
        let mut clusters = get_clusters(segments);
        let ghost allcl = clusters@;
        let ghost comps = choose|comps: Seq<Seq<int>>|
            #[trigger] is_clustering(segsv, comps) && cluster_contents(segsv, comps, allcl);
        let ghost res0 = res@;
        proof {
            assert forall|pos: int|
                #![trigger segsv[pos]]
                0 <= pos && pos < segsv.len() implies exists|c2: int, k: int|
                0 <= c2 && c2 < allcl.len() && 0 <= k && k < comps[c2].len()
                    && #[trigger] comps[c2][k] == pos by {
                assert(crate::cluster::part_covers(comps, pos));
                let (c2, k): (int, int) = choose|c2: int, k: int|
                    0 <= c2 && c2 < comps.len() && 0 <= k && k < comps[c2].len()
                        && #[trigger] comps[c2][k] == pos;
                assert(comps[c2][k] == pos);
            }
        }
        while clusters.len() > 0
            invariant
                clusters@.len() <= allcl.len(),
                clusters@ == allcl.take(clusters@.len() as int),
                res@.len() == res0.len() + (allcl.len() - clusters@.len()),
                forall|s: int| 0 <= s && s < res0.len() ==> #[trigger] res@[s] == res0[s],
                forall|s: int|
                    res0.len() <= s && s < res@.len() ==> (#[trigger] res@[s]).name@ == name@
                        && res@[s].segments@.len() == comps[allcl.len() - 1 - (s
                        - res0.len())].len(),
                forall|s: int, k: int|
                    res0.len() <= s && s < res@.len() && 0 <= k && k < comps[allcl.len() - 1 - (s
                        - res0.len())].len() ==> seg_like(
                        (#[trigger] res@[s].segments@[k]),
                        segsv[comps[allcl.len() - 1 - (s - res0.len())][k]],
                    ),
                forall|s: int| 0 <= s && s < res@.len() ==> street_sound(*store, #[trigger] res@[s]),
                forall|s1: int, s2: int|
                    0 <= s1 && s1 < s2 && s2 < res@.len() ==> streets_separate(
                        *store,
                        #[trigger] res@[s1],
                        #[trigger] res@[s2],
                    ),
                forall|pos: int|
                    #![trigger segsv[pos]]
                    0 <= pos && pos < segsv.len() ==> ((exists|c: int, k: int|
                        0 <= c && c < clusters@.len() && 0 <= k && k < comps[c].len()
                            && #[trigger] comps[c][k] == pos) || street_with(
                        res@,
                        name@,
                        segsv[pos].way_id,
                    )),
            decreases clusters@.len(),
        {
            let ghost c = clusters@.len() - 1;
            let cl = clusters.pop().unwrap();
            proof {
                assert(cl == allcl[c]);
                assert(allcl.take(c + 1).drop_last() =~= allcl.take(c));
            }
            let st = Street { name: name.clone(), segments: cl };
            proof {
                // The street's segments match its cluster's positions.
                assert(st.segments@.len() == comps[c].len());
                assert forall|k: int|
                    0 <= k && k < st.segments@.len() implies seg_like(
                    #[trigger] st.segments@[k],
                    segsv[comps[c][k]],
                ) by {}
                // Sources: segment k comes from the surviving way at its
                // position, and no other (identifiers are unique).
                assert forall|k: int|
                    0 <= k && k < st.segments@.len() implies seg_source(
                    *store,
                    name@,
                    #[trigger] st.segments@[k],
                    survs[comps[c][k]],
                ) by {
                    let pos = comps[c][k];
                    assert(seg_like(st.segments@[k], segsv[pos]));
                    assert(survs[pos] == survs[pos]);
                    assert(survs.contains(survs[pos]));
                }
                assert forall|k: int, w: int|
                    0 <= k && k < st.segments@.len() && #[trigger] seg_source(
                    *store,
                    name@,
                    st.segments@[k],
                    w,
                ) implies w == survs[comps[c][k]] by {
                    lemma_wf_unique_way(*store, w, survs[comps[c][k]]);
                }
                // street_ok: each segment is built from a named way.
                assert forall|k: int|
                    0 <= k && k < st.segments@.len() implies (#[trigger] st.segments@[k]).wf()
                    && exists|w: int|
                    0 <= w && w < store.ways@.len() && ((#[trigger] store.ways@[w]).name matches Some(
                        nm,
                    ) && nm@ == st.name@ && st.segments@[k].way_id == store.ways@[w].id
                        && st.segments@[k].points@ == line_of(
                        store.nodes@,
                        store.ways@[w].nodes@,
                    )) by {
                    let pos = comps[c][k];
                    assert(seg_like(st.segments@[k], segsv[pos]));
                    assert(segsv[pos].wf());
                    let w = survs[pos];
                    assert(store.ways@[w].name matches Some(nm) && nm@ == name@);
                    assert(st.segments@[k].way_id == store.ways@[w].id);
                }
                assert(street_ok(*store, st));
                // Internal connectivity and distinctness.
                assert forall|k1: int, k2: int|
                    0 <= k1 && k1 < st.segments@.len() && 0 <= k2 && k2 < st.segments@.len() && k1
                        != k2 implies (#[trigger] st.segments@[k1]).way_id
                    != (#[trigger] st.segments@[k2]).way_id by {
                    if k1 < k2 {
                        assert(comps[c][k1] < comps[c][k2]);
                        assert(survs[comps[c][k1]] < survs[comps[c][k2]]);
                    } else {
                        assert(comps[c][k2] < comps[c][k1]);
                        assert(survs[comps[c][k2]] < survs[comps[c][k1]]);
                    }
                }
                assert forall|k1: int, k2: int, w1: int, w2: int|
                    0 <= k1 && k1 < st.segments@.len() && 0 <= k2 && k2 < st.segments@.len()
                        && #[trigger] seg_source(*store, st.name@, st.segments@[k1], w1)
                        && #[trigger] seg_source(*store, st.name@, st.segments@[k2], w2) implies group_connected(
                    *store,
                    st.name@,
                    w1,
                    w2,
                ) by {
                    let p1 = comps[c][k1];
                    let p2 = comps[c][k2];
                    assert(w1 == survs[p1] && w2 == survs[p2]);
                    assert(crate::cluster::connected(segsv, p1, p2));
                    lemma_pos_to_way_conn(*store, name@, segsv, p1, p2);
                }
                assert(street_sound(*store, st));
            }
            let ghost pre_res = res@;
            res.push(st);
            proof {
                // The new street is separate from every earlier one.
                assert forall|s: int|
                    0 <= s && s < pre_res.len() implies streets_separate(
                    *store,
                    #[trigger] res@[s],
                    res@[res@.len() - 1],
                ) && streets_separate(*store, res@[res@.len() - 1], res@[s]) by {
                    let old_st = pre_res[s];
                    assert(res@[s] == old_st);
                    assert(res@[res@.len() - 1] == st);
                    if s < res0.len() {
                        // An earlier group: the names differ, so the ways
                        // differ by name, hence by identifier.
                        assert(old_st.name@ != name@);
                        assert forall|k1: int, k2: int|
                            0 <= k1 && k1 < old_st.segments@.len() && 0 <= k2 && k2
                                < st.segments@.len() implies (#[trigger] old_st.segments@[k1]).way_id
                            != (#[trigger] st.segments@[k2]).way_id by {
                            lemma_name_isolation(*store, old_st, st, k1, k2);
                        }
                    } else {
                        // An earlier cluster of the same group.
                        let c2 = allcl.len() - 1 - (s - res0.len());
                        assert(c < c2);
                        assert forall|k1: int, k2: int|
                            0 <= k1 && k1 < old_st.segments@.len() && 0 <= k2 && k2
                                < st.segments@.len() implies (#[trigger] old_st.segments@[k1]).way_id
                            != (#[trigger] st.segments@[k2]).way_id by {
                            let pa = comps[c2][k1];
                            let pb = comps[c][k2];
                            assert(seg_like(res@[s].segments@[k1], segsv[pa]));
                            assert(seg_like(old_st.segments@[k1], segsv[pa]));
                            assert(seg_like(st.segments@[k2], segsv[pb]));
                            if pa == pb {
                                crate::cluster::lemma_connected_refl(segsv, pa);
                                assert(!crate::cluster::connected(segsv, pa, pb));
                                assert(false);
                            }
                            if pa < pb {
                                assert(survs[pa] < survs[pb]);
                            } else {
                                assert(survs[pb] < survs[pa]);
                            }
                        }
                        assert forall|k1: int, k2: int, w1: int, w2: int|
                            0 <= k1 && k1 < old_st.segments@.len() && 0 <= k2 && k2
                                < st.segments@.len() && old_st.name@ == st.name@
                                && #[trigger] seg_source(*store, old_st.name@, old_st.segments@[k1], w1)
                                && #[trigger] seg_source(*store, st.name@, st.segments@[k2], w2) implies !group_connected(
                            *store,
                            old_st.name@,
                            w1,
                            w2,
                        ) && !group_connected(*store, old_st.name@, w2, w1) by {
                            let pa = comps[c2][k1];
                            let pb = comps[c][k2];
                            assert(seg_like(res@[s].segments@[k1], segsv[pa]));
                            assert(seg_like(old_st.segments@[k1], segsv[pa]));
                            assert(seg_like(st.segments@[k2], segsv[pb]));
                            lemma_wf_unique_way(*store, w1, survs[pa]);
                            lemma_wf_unique_way(*store, w2, survs[pb]);
                            assert(!crate::cluster::connected(segsv, pa, pb));
                            assert(!crate::cluster::connected(segsv, pb, pa));
                            if group_connected(*store, name@, w1, w2) {
                                lemma_way_to_pos_conn(*store, name@, segsv, pa, pb);
                                assert(false);
                            }
                            if group_connected(*store, name@, w2, w1) {
                                lemma_way_to_pos_conn(*store, name@, segsv, pb, pa);
                                assert(false);
                            }
                        }
                    }
                }
                // Every position is either still pending or now listed.
                assert forall|pos: int|
                    #![trigger segsv[pos]]
                    0 <= pos && pos < segsv.len() implies ((exists|c2: int, k: int|
                        0 <= c2 && c2 < clusters@.len() && 0 <= k && k < comps[c2].len()
                            && #[trigger] comps[c2][k] == pos) || street_with(
                        res@,
                        name@,
                        segsv[pos].way_id,
                    )) by {
                    if exists|c2: int, k: int|
                        0 <= c2 && c2 < c + 1 && 0 <= k && k < comps[c2].len()
                            && #[trigger] comps[c2][k] == pos {
                        let (c2, k): (int, int) = choose|c2: int, k: int|
                            0 <= c2 && c2 < c + 1 && 0 <= k && k < comps[c2].len()
                                && #[trigger] comps[c2][k] == pos;
                        if c2 == c {
                            assert(res@[res@.len() - 1].segments@[k].way_id == segsv[pos].way_id);
                            assert(street_with(res@, name@, segsv[pos].way_id));
                        }
                    } else {
                        assert(street_with(pre_res, name@, segsv[pos].way_id));
                        lemma_street_with_prefix(pre_res, res@, name@, segsv[pos].way_id);
                    }
                }
            }
        }
        proof {
            assert(allcl.take(0) =~= Seq::<Vec<Segment>>::empty());
            // Re-establish the pending-coverage invariant: this group's
            // name is done, every other named way keeps its group.
            assert forall|w: int|
                #![trigger store.ways@[w]]
                0 <= w && w < store.ways@.len() implies (store.ways@[w].name matches Some(nm) ==> (
            nm@.len() > 0 ==> (has_group(groups@, nm@) || (line_of(
                store.nodes@,
                store.ways@[w].nodes@,
            ).len() > 0 ==> street_with(res@, nm@, store.ways@[w].id))))) by {
                if store.ways@[w].name is Some && store.ways@[w].name.unwrap()@.len() > 0 {
                    let nmv = store.ways@[w].name.unwrap()@;
                    if nmv == name@ {
                        if line_of(store.nodes@, store.ways@[w].nodes@).len() > 0 {
                            lemma_named_idxs_has(store.ways@, name@, w);
                            let j = choose|j: int|
                                0 <= j && j < named_idxs(store.ways@, name@).len()
                                    && #[trigger] named_idxs(store.ways@, name@)[j] == w;
                            assert(iidxs[j] == w);
                            assert(iidxs.contains(w));
                            lemma_surviving_contains(store.nodes@, store.ways@, iidxs, w);
                            let pos = choose|pos: int|
                                0 <= pos && pos < survs.len() && survs[pos] == w;
                            assert(segsv[pos].way_id == store.ways@[w].id);
                            assert(street_with(res@, name@, store.ways@[w].id));
                        }
                    } else {
                        if has_group(pre_groups, nmv) {
                            let g = choose|g: int|
                                0 <= g && g < pre_groups.len() && (#[trigger] pre_groups[g]).0@
                                    == nmv;
                            assert(g < pre_groups.len() - 1);
                            assert(groups@[g].0@ == nmv);
                            assert(has_group(groups@, nmv));
                        } else {
                            if line_of(store.nodes@, store.ways@[w].nodes@).len() > 0 {
                                assert(street_with(res0, nmv, store.ways@[w].id));
                                lemma_street_with_prefix(res0, res@, nmv, store.ways@[w].id);
                            }
                        }
                    }
                }
            }
            // New streets carry this group's name, which no remaining
            // group carries.
            assert forall|s: int, g: int|
                0 <= s && s < res@.len() && 0 <= g && g < groups@.len() implies (
            #[trigger] res@[s]).name@ != (#[trigger] groups@[g]).0@ by {
                if s < res0.len() {
                    assert(res@[s] == res0[s]);
                } else {
                    assert(res@[s].name@ == name@);
                    assert(pre_groups[g].0@ != pre_groups[pre_groups.len() - 1].0@);
                }
            }
        }
    }
    proof {
        assert forall|s1: int, s2: int|
            0 <= s1 && s1 < res@.len() && 0 <= s2 && s2 < res@.len() && s1 != s2 implies streets_separate(
            *store,
            #[trigger] res@[s1],
            #[trigger] res@[s2],
        ) by {
            if s1 < s2 {
            } else {
                assert(streets_separate(*store, res@[s2], res@[s1]));
            }
        }
        assert(reconstruction_ok(*store, res@));
    }
    res
}

} // verus!
