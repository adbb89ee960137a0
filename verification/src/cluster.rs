//! Clustering of segments by spatial adjacency.
//!
//! The bounding boxes of the segments, each grown by a tolerance, go into a
//! spatial index. Two segments are neighbours when their grown boxes meet
//! and their polylines share a point. The neighbours are the edges of a
//! graph, and its connected components are the clusters.

use crate::chainable::rows;
use crate::geo::{
    bounds_of, boxes_meet, common_vertex, lemma_common_vertex_boxes, padded, polylines_cross,
    BoundingBox,
};
use crate::graph::{
    adjacent, connected, graph_add_edge, graph_add_node, graph_components, graph_edges,
    graph_new, graph_nodes, is_components, is_partition, is_path, together,
};
use crate::items::{segment_views, Segment};
use crate::spatial::{load_boxes, locate_meeting, tree_boxes, BoxTree};
use vstd::prelude::*;

verus! {

/// The tolerance by which bounding boxes are grown before they are compared:
/// a thousandth of a degree.
pub const RTREE_PADDING: i32 = 10_000;

/// The bounding box of a polyline, grown by the tolerance.
pub open spec fn padded_bounds(points: Seq<(i32, i32)>) -> (int, int, int, int) {
    padded(bounds_of(points), RTREE_PADDING as int)
}

/// Whether the segments at two different places are neighbours: their grown
/// bounding boxes meet and their polylines share a point.
pub open spec fn linked(segments: Seq<(i64, Seq<(i32, i32)>)>, a: int, b: int) -> bool {
    &&& 0 <= a < segments.len()
    &&& 0 <= b < segments.len()
    &&& a != b
    &&& boxes_meet(padded_bounds(segments[a].1), padded_bounds(segments[b].1))
    &&& if a < b {
        polylines_cross(segments[a].1, segments[b].1)
    } else {
        polylines_cross(segments[b].1, segments[a].1)
    }
}

/// Whether the segments at two different places have a point in common.
pub open spec fn touching(segments: Seq<(i64, Seq<(i32, i32)>)>, a: int, b: int) -> bool {
    &&& 0 <= a < segments.len()
    &&& 0 <= b < segments.len()
    &&& a != b
    &&& common_vertex(segments[a].1, segments[b].1)
}

/// Whether each place of `path` but the first is a neighbour of the one
/// before it.
pub open spec fn is_chain(segments: Seq<(i64, Seq<(i32, i32)>)>, path: Seq<int>) -> bool {
    &&& path.len() > 0
    &&& forall|k: int| 0 <= k < path.len() - 1 ==> linked(segments, #[trigger] path[k], path[k + 1])
}

/// Whether a chain of neighbours leads from place `a` to place `b`.
pub open spec fn joined(segments: Seq<(i64, Seq<(i32, i32)>)>, a: int, b: int) -> bool {
    exists|path: Seq<int>| #[trigger]
        is_chain(segments, path) && path.first() == a && path.last() == b
}

/// Whether `parts` groups the places of `segments` into streets: each place
/// is in one group, and two places share a group exactly when a chain of
/// neighbours joins them.
pub open spec fn is_clustering(segments: Seq<(i64, Seq<(i32, i32)>)>, parts: Seq<Seq<usize>>) -> bool {
    &&& is_partition(parts, segments.len())
    &&& forall|a: usize, b: usize|
        a < segments.len() && b < segments.len() ==> (#[trigger] together(parts, a, b) <==> joined(
            segments,
            a as int,
            b as int,
        ))
}

/// Pairs of places as pairs of integers.
pub open spec fn edge_pairs(pairs: Seq<(usize, usize)>) -> Seq<(int, int)> {
    pairs.map_values(|p: (usize, usize)| (p.0 as int, p.1 as int))
}

/// The grown bounding boxes of the segments, in their order.
pub open spec fn padded_boxes(segments: Seq<(i64, Seq<(i32, i32)>)>) -> Seq<(int, int, int, int)> {
    segments.map_values(|s: (i64, Seq<(i32, i32)>)| padded_bounds(s.1))
}

proof fn lemma_push_contains<T>(s: Seq<T>, v: T, x: T)
    ensures
        s.push(v).contains(x) <==> s.contains(x) || x == v,
{
    if s.contains(x) {
        let i = choose|i: int| 0 <= i < s.len() && s[i] == x;
        assert(s.push(v)[i] == x);
    }
    if x == v {
        assert(s.push(v)[s.len() as int] == x);
    }
    if s.push(v).contains(x) {
        let i = choose|i: int| 0 <= i < s.push(v).len() && s.push(v)[i] == x;
        if i < s.len() {
            assert(s[i] == x);
        }
    }
}

/// Whether `b` is among the first `k` places of `found`.
pub open spec fn seen(found: Seq<usize>, k: int, b: int) -> bool {
    exists|j: int| 0 <= j < k && #[trigger] found[j] == b
}

/// The pairs of neighbours among the segments, each pair once, the lower
/// place first. `tree` holds the grown bounding boxes of the segments.
fn get_intersections(segments: &Vec<Segment>, tree: &BoxTree) -> (pairs: Vec<(usize, usize)>)
    requires
        tree_boxes(*tree) == padded_boxes(segment_views(segments@)),
    ensures
        forall|a: int, b: int|
            #![trigger edge_pairs(pairs@).contains((a, b))]
            #![trigger linked(segment_views(segments@), a, b)]
            edge_pairs(pairs@).contains((a, b)) <==> a < b && linked(segment_views(segments@), a, b),
        forall|a: int, b: int|
            a < b && #[trigger] touching(segment_views(segments@), a, b) ==> linked(
                segment_views(segments@),
                a,
                b,
            ),
        forall|k: int|
            0 <= k < pairs@.len() ==> (#[trigger] pairs@[k]).0 < segments@.len() && pairs@[k].1
                < segments@.len(),
{
    let ghost views = segment_views(segments@);
    let mut pairs: Vec<(usize, usize)> = Vec::new();
    let mut at: usize = 0;
    while at < segments.len()
        invariant
            at <= segments@.len(),
            views == segment_views(segments@),
            tree_boxes(*tree) == padded_boxes(views),
            forall|a: int, b: int|
                #![trigger edge_pairs(pairs@).contains((a, b))]
                #![trigger linked(views, a, b)]
                edge_pairs(pairs@).contains((a, b)) <==> a < at && a < b && linked(views, a, b),
            forall|a: int, b: int|
                a < at && a < b && #[trigger] touching(views, a, b) ==> linked(views, a, b),
            forall|k: int|
                0 <= k < pairs@.len() ==> (#[trigger] pairs@[k]).0 < segments@.len() && pairs@[k].1
                    < segments@.len(),
        decreases segments@.len() - at,
    {
        let corners = segments[at].geometry.padded_sw_ne(RTREE_PADDING);
        let query = BoundingBox { sw: corners.0, ne: corners.1 };
        let found = locate_meeting(tree, &query);
        let ghost before = edge_pairs(pairs@);
        assert(views[at as int] == segments@[at as int]@);
        let mut k: usize = 0;
        while k < found.len()
            invariant
                k <= found@.len(),
                at < segments@.len(),
                views == segment_views(segments@),
                tree_boxes(*tree) == padded_boxes(views),
                query.corners() == padded_bounds(views[at as int].1),
                forall|i: usize|
                    found@.contains(i) <==> (i < tree_boxes(*tree).len() && boxes_meet(
                        tree_boxes(*tree)[i as int],
                        query.corners(),
                    )),
                forall|a: int, b: int|
                    #![trigger before.contains((a, b))]
                    #![trigger linked(views, a, b)]
                    before.contains((a, b)) <==> a < at && a < b && linked(views, a, b),
                forall|a: int, b: int|
                    #![trigger edge_pairs(pairs@).contains((a, b))]
                    #![trigger linked(views, a, b)]
                    edge_pairs(pairs@).contains((a, b)) <==> before.contains((a, b)) || (a == at
                        && a < b && linked(views, a, b) && seen(found@, k as int, b)),
                forall|b: int|
                    at < b && #[trigger] touching(views, at as int, b) && seen(found@, k as int, b)
                        ==> linked(views, at as int, b),
                forall|k: int|
                    0 <= k < pairs@.len() ==> (#[trigger] pairs@[k]).0 < segments@.len()
                        && pairs@[k].1 < segments@.len(),
            decreases found@.len() - k,
        {
            let other: usize = found[k];
            let ghost old_pairs = edge_pairs(pairs@);
            let mut added = false;
            proof {
                assert(found@.contains(other));
                assert(views[at as int] == segments@[at as int]@);
                assert(views[other as int] == segments@[other as int]@);
                assert(tree_boxes(*tree)[other as int] == padded_bounds(views[other as int].1));
            }
            if at < other {
                if segments[at].geometry.intersects(&segments[other].geometry) {
                    pairs.push((at, other));
                    added = true;
                }
            }
            proof {
                let new_pairs = edge_pairs(pairs@);
                assert(added <==> linked(views, at as int, other as int) && at < other);
                if added {
                    assert(new_pairs =~= old_pairs.push((at as int, other as int)));
                } else {
                    assert(new_pairs =~= old_pairs);
                }
                assert forall|a: int, b: int|
                    #![trigger new_pairs.contains((a, b))]
                    #![trigger linked(views, a, b)]
                    new_pairs.contains((a, b)) <==> before.contains((a, b)) || (a == at && a < b
                        && linked(views, a, b) && seen(found@, k as int + 1, b)) by {
                    if added {
                        lemma_push_contains(old_pairs, (at as int, other as int), (a, b));
                    }
                    if new_pairs.contains((a, b)) {
                        if old_pairs.contains((a, b)) {
                            if !before.contains((a, b)) {
                                let j = choose|j: int| 0 <= j < k && #[trigger] found@[j] == b;
                                assert(0 <= j < k + 1 && found@[j] == b);
                            }
                        } else {
                            assert(found@[k as int] == b);
                        }
                    }
                    if !before.contains((a, b)) && a == at && a < b && linked(views, a, b) && seen(
                        found@,
                        k as int + 1,
                        b,
                    ) {
                        let j = choose|j: int| 0 <= j < k + 1 && #[trigger] found@[j] == b;
                        if j < k {
                            assert(seen(found@, k as int, b));
                        } else {
                            assert(b == other);
                        }
                    }
                }
                assert forall|b: int|
                    at < b && #[trigger] touching(views, at as int, b) && seen(
                        found@,
                        k as int + 1,
                        b,
                    ) implies linked(views, at as int, b) by {
                    let j = choose|j: int| 0 <= j < k + 1 && #[trigger] found@[j] == b;
                    if j < k {
                        assert(seen(found@, k as int, b));
                    } else {
                        assert(b == other);
                    }
                }
            }
            k = k + 1;
        }
        proof {
            assert forall|a: int, b: int|
                #![trigger edge_pairs(pairs@).contains((a, b))]
                #![trigger linked(views, a, b)]
                edge_pairs(pairs@).contains((a, b)) <==> a < at + 1 && a < b && linked(
                    views,
                    a,
                    b,
                ) by {
                if a == at && a < b && linked(views, a, b) {
                    assert(tree_boxes(*tree)[b] == padded_bounds(views[b].1));
                    assert(found@.contains(b as usize));
                    let j = choose|j: int| 0 <= j < found@.len() && found@[j] == b as usize;
                    assert(0 <= j < k && found@[j] == b);
                }
            }
            assert forall|a: int, b: int|
                a < at + 1 && a < b && #[trigger] touching(views, a, b) implies linked(
                views,
                a,
                b,
            ) by {
                if a == at {
                    lemma_common_vertex_boxes(views[b].1, views[a].1, RTREE_PADDING as int);
                    assert(tree_boxes(*tree)[b] == padded_bounds(views[b].1));
                    assert(found@.contains(b as usize));
                    let j = choose|j: int| 0 <= j < found@.len() && found@[j] == b as usize;
                    assert(0 <= j < k && found@[j] == b);
                    assert(seen(found@, k as int, b));
                }
            }
        }
        at = at + 1;
    }
    pairs
}

/// The grown bounding boxes of the segments.
fn grown_boxes(segments: &Vec<Segment>) -> (boxes: Vec<BoundingBox>)
    ensures
        boxes@.map_values(|b: BoundingBox| b.corners()) == padded_boxes(segment_views(segments@)),
{
    let mut boxes: Vec<BoundingBox> = Vec::new();
    let mut k: usize = 0;
    while k < segments.len()
        invariant
            k <= segments@.len(),
            boxes@.len() == k,
            forall|i: int|
                0 <= i < k ==> (#[trigger] boxes@[i]).corners() == padded_bounds(
                    segments@[i].geometry@,
                ),
        decreases segments@.len() - k,
    {
        let corners = segments[k].geometry.padded_sw_ne(RTREE_PADDING);
        boxes.push(BoundingBox { sw: corners.0, ne: corners.1 });
        k = k + 1;
    }
    assert(boxes@.map_values(|b: BoundingBox| b.corners()) =~= padded_boxes(
        segment_views(segments@),
    ));
    boxes
}

/// Where the edges of a graph are the pairs of neighbours, its connected
/// components are the clustering of the segments.
proof fn lemma_components_cluster(
    segments: Seq<(i64, Seq<(i32, i32)>)>,
    edges: Seq<(int, int)>,
    parts: Seq<Seq<usize>>,
)
    requires
        forall|a: int, b: int|
            #![trigger edges.contains((a, b))]
            #![trigger linked(segments, a, b)]
            edges.contains((a, b)) <==> a < b && linked(segments, a, b),
        is_components(parts, segments.len(), edges),
    ensures
        is_clustering(segments, parts),
{
    assert forall|a: int, b: int| adjacent(edges, a, b) <==> linked(segments, a, b) by {
        assert(linked(segments, a, b) <==> linked(segments, b, a));
    }
    assert forall|path: Seq<int>| is_path(edges, path) <==> #[trigger] is_chain(
        segments,
        path,
    ) by {
        if is_path(edges, path) {
            assert forall|k: int| 0 <= k < path.len() - 1 implies linked(
                segments,
                #[trigger] path[k],
                path[k + 1],
            ) by {
                assert(adjacent(edges, path[k], path[k + 1]));
            }
        }
        if is_chain(segments, path) {
            assert forall|k: int| 0 <= k < path.len() - 1 implies adjacent(
                edges,
                #[trigger] path[k],
                path[k + 1],
            ) by {
                assert(linked(segments, path[k], path[k + 1]));
            }
        }
    }
    assert forall|a: usize, b: usize| a < segments.len() && b < segments.len() implies (
    #[trigger] together(parts, a, b) <==> joined(segments, a as int, b as int)) by {
        if connected(edges, a as int, b as int) {
            let path = choose|path: Seq<int>| #[trigger]
                is_path(edges, path) && path.first() == a && path.last() == b;
            assert(is_chain(segments, path));
        }
        if joined(segments, a as int, b as int) {
            let path = choose|path: Seq<int>| #[trigger]
                is_chain(segments, path) && path.first() == a && path.last() == b;
            assert(is_path(edges, path));
        }
    }
}

/// Neighbours are in one group of a clustering.
pub proof fn lemma_neighbours_together(
    segments: Seq<(i64, Seq<(i32, i32)>)>,
    parts: Seq<Seq<usize>>,
    a: usize,
    b: usize,
)
    requires
        is_clustering(segments, parts),
        linked(segments, a as int, b as int),
    ensures
        together(parts, a, b),
{
    let path = seq![a as int, b as int];
    assert(is_chain(segments, path)) by {
        assert forall|k: int| 0 <= k < path.len() - 1 implies linked(
            segments,
            #[trigger] path[k],
            path[k + 1],
        ) by {
            assert(k == 0);
        }
    }
    assert(path.first() == a && path.last() == b);
    assert(joined(segments, a as int, b as int));
}

/// Two segments that are no neighbours stay apart: where their grown
/// bounding boxes do not meet, or where the boxes meet but the polylines
/// share no point, a clustering of the two alone has two groups of one
/// segment each.
pub proof fn lemma_apart_segments(segments: Seq<(i64, Seq<(i32, i32)>)>, parts: Seq<Seq<usize>>)
    requires
        segments.len() == 2,
        is_clustering(segments, parts),
        !boxes_meet(padded_bounds(segments[0].1), padded_bounds(segments[1].1)) || !polylines_cross(
            segments[0].1,
            segments[1].1,
        ),
    ensures
        parts.len() == 2,
        parts[0].len() == 1,
        parts[1].len() == 1,
        parts[0][0] != parts[1][0],
{
    assert(!joined(segments, 0, 1)) by {
        if joined(segments, 0, 1) {
            let path = choose|path: Seq<int>| #[trigger]
                is_chain(segments, path) && path.first() == 0 && path.last() == 1;
            assert(path.len() >= 2);
            assert(linked(segments, path[0], path[1]));
        }
    }
    assert(together(parts, 0usize, 0usize));
    assert(together(parts, 1usize, 1usize));
    assert(!together(parts, 0usize, 1usize));
    let c0 = choose|c: int| 0 <= c < parts.len() && (#[trigger] parts[c]).contains(0usize);
    let c1 = choose|c: int| 0 <= c < parts.len() && (#[trigger] parts[c]).contains(1usize);
    assert(c0 != c1);
    let k0 = choose|k: int| 0 <= k < parts[c0].len() && parts[c0][k] == 0usize;
    let k1 = choose|k: int| 0 <= k < parts[c1].len() && parts[c1][k] == 1usize;
    assert forall|c: int, k: int|
        0 <= c < parts.len() && 0 <= k < parts[c].len() && (#[trigger] parts[c][k]) < 2 implies (c
        == c0 && k == k0) || (c == c1 && k == k1) by {
        let x = parts[c][k];
        if x == 0 {
            assert(parts[c][k] == parts[c0][k0]);
        } else {
            assert(parts[c][k] == parts[c1][k1]);
        }
    }
    assert forall|c: int| 0 <= c < parts.len() && (#[trigger] parts[c]).len() > 0 implies c == c0
        || c == c1 by {
        let x = parts[c][0];
    }
    assert(parts[c0].len() == 1) by {
        if parts[c0].len() > 1 {
            let k = if k0 == 0 { 1int } else { 0int };
            let x = parts[c0][k];
        }
    }
    assert(parts[c1].len() == 1) by {
        if parts[c1].len() > 1 {
            let k = if k1 == 0 { 1int } else { 0int };
            let x = parts[c1][k];
        }
    }
    assert(parts.len() == 2) by {
        if parts.len() > 2 {
            let c = if c0 != 0 && c1 != 0 { 0int } else if c0 != 1 && c1 != 1 { 1int } else { 2int };
            assert(parts[c].len() > 0);
            assert(c == c0 || c == c1);
        }
    }
}

/// Groups the places of the segments into streets. Two segments are
/// neighbours when their bounding boxes, each grown by the tolerance, meet
/// and their polylines share a point; a street is a maximal set of segments
/// that chains of neighbours join. Segments with a point in common are
/// neighbours, so they are in one group. The order of the groups and within
/// them is that of the component search.
pub fn cluster_indices(segments: &Vec<Segment>) -> (parts: Vec<Vec<usize>>)
    ensures
        is_clustering(segment_views(segments@), rows(parts@)),
        forall|a: usize, b: usize| #[trigger]
            touching(segment_views(segments@), a as int, b as int) ==> together(
                rows(parts@),
                a,
                b,
            ),
{
    let boxes = grown_boxes(segments);
    let tree = load_boxes(&boxes);
    let pairs = get_intersections(segments, &tree);
    let mut graph = graph_new();
    let mut k: usize = 0;
    while k < segments.len()
        invariant
            k <= segments@.len(),
            graph_nodes(graph) == k,
            graph_edges(graph) == Seq::<(int, int)>::empty(),
        decreases segments@.len() - k,
    {
        graph_add_node(&mut graph);
        k = k + 1;
    }
    let mut e: usize = 0;
    while e < pairs.len()
        invariant
            e <= pairs@.len(),
            graph_nodes(graph) == segments@.len(),
            graph_edges(graph) == edge_pairs(pairs@.take(e as int)),
            forall|k: int|
                0 <= k < pairs@.len() ==> (#[trigger] pairs@[k]).0 < segments@.len() && pairs@[k].1
                    < segments@.len(),
        decreases pairs@.len() - e,
    {
        let pair = pairs[e];
        graph_add_edge(&mut graph, pair.0, pair.1);
        e = e + 1;
        assert(edge_pairs(pairs@.take(e as int)) =~= edge_pairs(pairs@.take(e as int - 1)).push(
            (pair.0 as int, pair.1 as int),
        ));
    }
    assert(pairs@.take(e as int) =~= pairs@);
    let parts = graph_components(&graph);
    proof {
        let views = segment_views(segments@);
        lemma_components_cluster(views, edge_pairs(pairs@), rows(parts@));
        assert forall|a: usize, b: usize| #[trigger]
            touching(views, a as int, b as int) implies together(rows(parts@), a, b) by {
            if a < b {
                assert(linked(views, a as int, b as int));
            } else {
                assert(touching(views, b as int, a as int)) by {
                    let (i, j) = choose|i: int, j: int|
                        0 <= i < views[a as int].1.len() && 0 <= j < views[b as int].1.len()
                            && #[trigger] views[a as int].1[i] == #[trigger] views[b as int].1[j];
                    assert(views[b as int].1[j] == views[a as int].1[i]);
                }
                assert(linked(views, b as int, a as int));
                assert(linked(views, a as int, b as int));
            }
            lemma_neighbours_together(views, rows(parts@), a, b);
        }
    }
    parts
}

/// Whether one of the segments comes from the way `id`.
pub open spec fn has_way(segments: Seq<(i64, Seq<(i32, i32)>)>, id: i64) -> bool {
    exists|j: int| 0 <= j < segments.len() && (#[trigger] segments[j]).0 == id
}

/// The segments without those whose way came before: of the segments of
/// one way the first stays.
pub open spec fn distinct(segments: Seq<(i64, Seq<(i32, i32)>)>) -> Seq<(i64, Seq<(i32, i32)>)>
    decreases segments.len(),
{
    if segments.len() == 0 {
        Seq::empty()
    } else {
        let rest = distinct(segments.drop_last());
        if has_way(segments.drop_last(), segments.last().0) {
            rest
        } else {
            rest.push(segments.last())
        }
    }
}

/// Drops the segments whose way came before.
pub fn distinct_segments(segments: Vec<Segment>) -> (kept: Vec<Segment>)
    ensures
        segment_views(kept@) == distinct(segment_views(segments@)),
{
    let ghost views = segment_views(segments@);
    let mut kept: Vec<Segment> = Vec::new();
    let mut k: usize = 0;
    while k < segments.len()
        invariant
            k <= segments@.len(),
            views == segment_views(segments@),
            segment_views(kept@) == distinct(views.take(k as int)),
        decreases segments@.len() - k,
    {
        let id = segments[k].way_id;
        let ghost before = views.take(k as int);
        let mut seen = false;
        let mut j: usize = 0;
        while j < k && !seen
            invariant
                j <= k,
                k < segments@.len(),
                views == segment_views(segments@),
                before == views.take(k as int),
                id == segments@[k as int].way_id,
                seen ==> has_way(before, id),
                !seen ==> forall|i: int| 0 <= i < j ==> (#[trigger] before[i]).0 != id,
            decreases k - j + if seen { 0int } else { 1int },
        {
            assert(before[j as int] == segments@[j as int]@);
            if segments[j].way_id == id {
                seen = true;
            } else {
                j = j + 1;
            }
        }
        proof {
            assert(views.take(k as int + 1).drop_last() =~= before);
            assert(views.take(k as int + 1).last() == segments@[k as int]@);
        }
        if !seen {
            let ghost held = segment_views(kept@);
            let segment = segments[k].clone();
            kept.push(segment);
            assert(segment_views(kept@) =~= held.push(segment@));
        }
        k = k + 1;
    }
    assert(views.take(k as int) =~= views);
    kept
}

/// The views of the segments of each cluster.
pub open spec fn cluster_views(clusters: Seq<Vec<Segment>>) -> Seq<Seq<(i64, Seq<(i32, i32)>)>> {
    clusters.map_values(|c: Vec<Segment>| segment_views(c@))
}

/// Whether the clusters hold, group by group and place by place, the
/// segments that `parts` names.
pub open spec fn picked(
    clusters: Seq<Seq<(i64, Seq<(i32, i32)>)>>,
    segments: Seq<(i64, Seq<(i32, i32)>)>,
    parts: Seq<Seq<usize>>,
) -> bool {
    &&& clusters.len() == parts.len()
    &&& forall|c: int| 0 <= c < parts.len() ==> (#[trigger] clusters[c]).len() == parts[c].len()
    &&& forall|c: int, k: int|
        0 <= c < parts.len() && 0 <= k < parts[c].len() ==> (#[trigger] clusters[c][k])
            == segments[parts[c][k] as int]
}

/// The segments that `part` names, in its order.
pub fn pick_segments(segments: &Vec<Segment>, part: &Vec<usize>) -> (cluster: Vec<Segment>)
    requires
        forall|k: int| 0 <= k < part@.len() ==> (#[trigger] part@[k]) < segments@.len(),
    ensures
        cluster@.len() == part@.len(),
        forall|k: int| 0 <= k < part@.len() ==> (#[trigger] cluster@[k])@ == segments@[part@[k] as int]@,
{
    let mut cluster: Vec<Segment> = Vec::new();
    let mut k: usize = 0;
    while k < part.len()
        invariant
            k <= part@.len(),
            cluster@.len() == k,
            forall|k: int| 0 <= k < part@.len() ==> (#[trigger] part@[k]) < segments@.len(),
            forall|j: int| 0 <= j < k ==> (#[trigger] cluster@[j])@ == segments@[part@[j] as int]@,
        decreases part@.len() - k,
    {
        cluster.push(segments[part[k]].clone());
        k = k + 1;
    }
    cluster
}

/// Clusters the segments of one name into streets. Of the segments of one
/// way only the first counts. There is one cluster for each maximal set of
/// segments that chains of neighbours join, and each segment is in one
/// cluster.
pub fn get_clusters(segments: Vec<Segment>) -> (clusters: Vec<Vec<Segment>>)
    ensures
        exists|parts: Seq<Seq<usize>>|
            #![trigger is_clustering(distinct(segment_views(segments@)), parts)]
            {
                &&& is_clustering(distinct(segment_views(segments@)), parts)
                &&& picked(cluster_views(clusters@), distinct(segment_views(segments@)), parts)
                &&& forall|a: usize, b: usize| #[trigger]
                    touching(distinct(segment_views(segments@)), a as int, b as int) ==> together(
                        parts,
                        a,
                        b,
                    )
            },
{
    let ghost given = segment_views(segments@);
    let segments = distinct_segments(segments);
    assert(segment_views(segments@) == distinct(given));
    let parts = cluster_indices(&segments);
    let mut clusters: Vec<Vec<Segment>> = Vec::new();
    let mut c: usize = 0;
    while c < parts.len()
        invariant
            c <= parts@.len(),
            clusters@.len() == c,
            is_clustering(segment_views(segments@), rows(parts@)),
            forall|a: usize, b: usize| #[trigger]
                touching(segment_views(segments@), a as int, b as int) ==> together(
                    rows(parts@),
                    a,
                    b,
                ),
            forall|d: int|
                0 <= d < c ==> (#[trigger] clusters@[d])@.len() == parts@[d]@.len(),
            forall|d: int, k: int|
                0 <= d < c && 0 <= k < parts@[d]@.len() ==> (#[trigger] clusters@[d]@[k])@
                    == segments@[parts@[d]@[k] as int]@,
        decreases parts@.len() - c,
    {
        proof {
            assert(rows(parts@)[c as int] == parts@[c as int]@);
            assert forall|k: int| 0 <= k < parts@[c as int]@.len() implies (
            #[trigger] parts@[c as int]@[k]) < segments@.len() by {
                assert(rows(parts@)[c as int][k] < segments@.len());
            }
        }
        let cluster = pick_segments(&segments, &parts[c]);
        clusters.push(cluster);
        c = c + 1;
    }
    proof {
        let views = cluster_views(clusters@);
        let named = rows(parts@);
        assert forall|d: int| 0 <= d < named.len() implies (#[trigger] views[d]).len()
            == named[d].len() by {
            assert(clusters@[d]@.len() == parts@[d]@.len());
        }
        assert forall|d: int, k: int| 0 <= d < named.len() && 0 <= k < named[d].len() implies (
        #[trigger] views[d][k]) == segment_views(segments@)[named[d][k] as int] by {
            assert(clusters@[d]@[k]@ == segments@[parts@[d]@[k] as int]@);
        }
        assert(picked(views, segment_views(segments@), named));
    }
    clusters
}

} // verus!
