//! A spatial index over bounding boxes, kept in an R-tree.

use crate::geo::{boxes_meet, BoundingBox};
use vstd::prelude::*;

verus! {

/// An `rstar::RTree` of rectangles on the integer grid, each labelled with a
/// number. The tree is held as it is; what it holds is known through
/// `tree_boxes` alone.
#[verifier::external_body]
pub struct BoxTree {
    tree: rstar::RTree<
        rstar::primitives::GeomWithData<rstar::primitives::Rectangle<[i64; 2]>, usize>,
    >,
}

/// The boxes that an index holds. Each entry carries its position in this
/// sequence as its label; a box is `(lon, lat, lon, lat)` of two opposite
/// corners.
pub uninterp spec fn tree_boxes(tree: BoxTree) -> Seq<(int, int, int, int)>;

/// `rstar::RTree::bulk_load` on one rectangle per box, labelled with the
/// box's position. The index then holds exactly the given boxes.
#[verifier::external_body]
pub(crate) fn load_boxes(boxes: &Vec<BoundingBox>) -> (tree: BoxTree)
    ensures
        tree_boxes(tree) == boxes@.map_values(|b: BoundingBox| b.corners()),
{
    let entries = boxes.iter().enumerate().map(
        |(at, b)|
            rstar::primitives::GeomWithData::new(
                rstar::primitives::Rectangle::from_corners([b.sw.0, b.sw.1], [b.ne.0, b.ne.1]),
                at,
            ),
    ).collect();
    BoxTree { tree: rstar::RTree::bulk_load(entries) }
}

/// `rstar::RTree::locate_in_envelope_intersecting`, handing out the labels of
/// the entries found. Each entry whose rectangle shares a point with the
/// query rectangle is found once, and no other; the order is the tree's.
#[verifier::external_body]
pub(crate) fn locate_meeting(
    tree: &BoxTree,
    query: &BoundingBox,
) -> (found: Vec<usize>)
    ensures
        found@.no_duplicates(),
        forall|at: usize|
            found@.contains(at) <==> (at < tree_boxes(*tree).len() && boxes_meet(
                tree_boxes(*tree)[at as int],
                query.corners(),
            )),
{
    tree.tree.locate_in_envelope_intersecting(
        rstar::AABB::from_corners([query.sw.0, query.sw.1], [query.ne.0, query.ne.1]),
    ).map(|entry| entry.data).collect()
}

} // verus!
