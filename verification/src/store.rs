//! The in-memory map-data model and segment extraction.
//!
//! The loader hands the engine a read-only snapshot of point features
//! (nodes) and polyline features (ways). Extraction resolves each way's
//! point references into an ordered polyline, skipping references that do
//! not resolve, and pairs it with its bounding envelope; a way whose
//! polyline comes out empty yields no segment at all.

use vstd::prelude::*;
use crate::geom::{Coord, BoundingBox, bbox_of, is_bbox_of};

verus! {

/// A point feature: a stable identifier and its coordinate.
#[derive(Clone, Copy, Debug)]
pub struct Node {
    pub id: i64,
    pub coord: Coord,
}

/// A polyline feature: identifier, the value of its name attribute if it
/// carries one, and the ordered list of point identifiers it references.
#[derive(Debug)]
pub struct Way {
    pub id: i64,
    pub name: Option<String>,
    pub nodes: Vec<i64>,
}

/// A read-only snapshot of loaded map data.
#[derive(Debug)]
pub struct ObjectStore {
    pub nodes: Vec<Node>,
    pub ways: Vec<Way>,
}

impl ObjectStore {
    /// Feature identifiers are stable keys: no two nodes and no two ways
    /// share one.
    pub open spec fn wf(self) -> bool {
        &&& forall|i: int, j: int|
            0 <= i && i < j && j < self.nodes@.len() ==> (#[trigger] self.nodes@[i]).id != (
            #[trigger] self.nodes@[j]).id
        &&& forall|i: int, j: int|
            0 <= i && i < j && j < self.ways@.len() ==> (#[trigger] self.ways@[i]).id != (
            #[trigger] self.ways@[j]).id
    }
}

/// The coordinate of the first node carrying `id`, if any.
pub open spec fn lookup_node(nodes: Seq<Node>, id: i64) -> Option<Coord>
    decreases nodes.len(),
{
    if nodes.len() == 0 {
        None
    } else if nodes[0].id == id {
        Some(nodes[0].coord)
    } else {
        lookup_node(nodes.skip(1), id)
    }
}

proof fn lemma_lookup_node_step(nodes: Seq<Node>, id: i64, i: int)
    requires
        0 <= i && i < nodes.len(),
    ensures
        nodes[i].id == id ==> lookup_node(nodes.skip(i), id) == Some(nodes[i].coord),
        nodes[i].id != id ==> lookup_node(nodes.skip(i), id) == lookup_node(nodes.skip(i + 1), id),
{
    assert(nodes.skip(i)[0] == nodes[i]);
    assert(nodes.skip(i).skip(1) =~= nodes.skip(i + 1));
}

/// Finds a referenced point's coordinate by scanning the node list.
pub fn find_node(nodes: &Vec<Node>, id: i64) -> (res: Option<Coord>)
    ensures
        res == lookup_node(nodes@, id),
{
    let mut i: usize = 0;
    proof {
        assert(nodes@.skip(0) =~= nodes@);
    }
    while i < nodes.len()
        invariant
            i <= nodes@.len(),
            lookup_node(nodes@, id) == lookup_node(nodes@.skip(i as int), id),
        decreases nodes@.len() - i,
    {
        proof {
            lemma_lookup_node_step(nodes@, id, i as int);
        }
        if nodes[i].id == id {
            return Some(nodes[i].coord);
        }
        i = i + 1;
    }
    proof {
        assert(nodes@.skip(nodes@.len() as int) =~= Seq::<Node>::empty());
    }
    None
}

/// The polyline a list of point references resolves to: the referenced
/// coordinates in reference order, with unresolved references omitted.
pub open spec fn line_of(nodes: Seq<Node>, refs: Seq<i64>) -> Seq<Coord>
    decreases refs.len(),
{
    if refs.len() == 0 {
        Seq::empty()
    } else {
        let rest = line_of(nodes, refs.drop_last());
        match lookup_node(nodes, refs.last()) {
            Some(c) => rest.push(c),
            None => rest,
        }
    }
}

/// Resolves a way's point references into its polyline.
pub fn get_line_string(way: &Way, store: &ObjectStore) -> (res: Vec<Coord>)
    ensures
        res@ == line_of(store.nodes@, way.nodes@),
{
    let mut out: Vec<Coord> = Vec::new();
    let mut i: usize = 0;
    while i < way.nodes.len()
        invariant
            i <= way.nodes@.len(),
            out@ == line_of(store.nodes@, way.nodes@.take(i as int)),
        decreases way.nodes@.len() - i,
    {
        proof {
            assert(way.nodes@.take(i + 1).drop_last() =~= way.nodes@.take(i as int));
            assert(way.nodes@.take(i + 1).last() == way.nodes@[i as int]);
        }
        match find_node(&store.nodes, way.nodes[i]) {
            Some(c) => out.push(c),
            None => (),
        }
        i = i + 1;
    }
    proof {
        assert(way.nodes@.take(way.nodes@.len() as int) =~= way.nodes@);
    }
    out
}

/// A per-way derived polyline together with its bounding envelope.
/// Identity is the way identifier alone; the geometry is never mutated
/// after construction.
#[derive(Debug)]
#[verifier::ext_equal]
pub struct Segment {
    pub way_id: i64,
    pub points: Vec<Coord>,
    pub bbox: BoundingBox,
}

impl Segment {
    /// Internal consistency: a nonempty polyline and its minimal envelope.
    pub open spec fn wf(self) -> bool {
        self.points@.len() > 0 && is_bbox_of(self.bbox, self.points@)
    }

    /// This segment is the one the given way yields against `nodes`.
    pub open spec fn is_built_from(self, nodes: Seq<Node>, way: Way) -> bool {
        self.way_id == way.id && self.points@ == line_of(nodes, way.nodes@)
    }

    /// Builds the segment for a way. Fails exactly when no point
    /// reference resolves, leaving an empty polyline with no envelope.
    pub fn new(way: &Way, store: &ObjectStore) -> (res: Option<Segment>)
        ensures
            res is Some <==> line_of(store.nodes@, way.nodes@).len() > 0,
            res matches Some(seg) ==> seg.wf() && seg.is_built_from(store.nodes@, *way),
    {
        let points = get_line_string(way, store);
        Segment::from_points(way.id, points)
    }

    /// Builds a segment directly from an already-resolved polyline.
    pub fn from_points(way_id: i64, points: Vec<Coord>) -> (res: Option<Segment>)
        ensures
            res is Some <==> points@.len() > 0,
            res matches Some(seg)
                ==> seg.way_id == way_id && seg.points@ == points@ && seg.wf(),
    {
        match bbox_of(&points) {
            None => None,
            Some(bb) => Some(Segment { way_id, points, bbox: bb }),
        }
    }
}

impl Clone for Segment {
    /// A clone keeps the identifier, the polyline and the envelope.
    fn clone(&self) -> (res: Self)
        ensures
            seg_like(res, *self),
    {
        let mut points: Vec<Coord> = Vec::new();
        let mut i: usize = 0;
        while i < self.points.len()
            invariant
                i <= self.points@.len(),
                points@ == self.points@.take(i as int),
            decreases self.points@.len() - i,
        {
            points.push(self.points[i]);
            proof {
                assert(self.points@.take(i + 1) =~= self.points@.take(i as int).push(
                    self.points@[i as int],
                ));
            }
            i = i + 1;
        }
        proof {
            assert(self.points@.take(self.points@.len() as int) =~= self.points@);
        }
        Segment { way_id: self.way_id, points, bbox: self.bbox }
    }
}

/// Two segment values carry the same identifier and the same geometry.
pub open spec fn seg_like(a: Segment, b: Segment) -> bool {
    a.way_id == b.way_id && a.points@ == b.points@ && a.bbox == b.bbox
}

/// The group positions that survive extraction: the sub-list of `idxs`
/// whose ways resolve to a nonempty polyline.
pub open spec fn surviving(nodes: Seq<Node>, ways: Seq<Way>, idxs: Seq<int>) -> Seq<int>
    decreases idxs.len(),
{
    if idxs.len() == 0 {
        Seq::empty()
    } else {
        let rest = surviving(nodes, ways, idxs.drop_last());
        if 0 <= idxs.last() && idxs.last() < ways.len() && line_of(
            nodes,
            ways[idxs.last()].nodes@,
        ).len() > 0 {
            rest.push(idxs.last())
        } else {
            rest
        }
    }
}

/// Builds the segments of one name group: one segment per way of the
/// group whose polyline resolves to at least one point, in group order.
pub fn get_segments(store: &ObjectStore, idxs: &Vec<usize>) -> (res: Vec<Segment>)
    requires
        forall|k: int| 0 <= k && k < idxs@.len() ==> (#[trigger] idxs@[k]) < store.ways@.len(),
    ensures
        res@.len() == surviving(store.nodes@, store.ways@, idxs@.map_values(|u: usize| u as int)).len(),
        forall|k: int|
            0 <= k && k < res@.len() ==> (#[trigger] res@[k]).wf() && res@[k].is_built_from(
                store.nodes@,
                store.ways@[surviving(
                    store.nodes@,
                    store.ways@,
                    idxs@.map_values(|u: usize| u as int),
                )[k]],
            ),
{
    let ghost iidxs = idxs@.map_values(|u: usize| u as int);
    let mut res: Vec<Segment> = Vec::new();
    let mut i: usize = 0;
    while i < idxs.len()
        invariant
            i <= idxs@.len(),
            iidxs == idxs@.map_values(|u: usize| u as int),
            forall|k: int| 0 <= k && k < idxs@.len() ==> (#[trigger] idxs@[k]) < store.ways@.len(),
            res@.len() == surviving(store.nodes@, store.ways@, iidxs.take(i as int)).len(),
            forall|k: int|
                0 <= k && k < res@.len() ==> (#[trigger] res@[k]).wf() && res@[k].is_built_from(
                    store.nodes@,
                    store.ways@[surviving(store.nodes@, store.ways@, iidxs.take(i as int))[k]],
                ),
        decreases idxs@.len() - i,
    {
        proof {
            assert(iidxs.take(i + 1).drop_last() =~= iidxs.take(i as int));
            assert(iidxs.take(i + 1).last() == iidxs[i as int]);
        }
        match Segment::new(&store.ways[idxs[i]], store) {
            Some(seg) => {
                res.push(seg);
            },
            None => (),
        }
        i = i + 1;
    }
    proof {
        assert(iidxs.take(iidxs.len() as int) =~= iidxs);
    }
    res
}

} // verus!
