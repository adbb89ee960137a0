//! Assignment of streets to the administrative boundaries they lie in.

use crate::admin::BoundaryTree;
use crate::geo::{bounds_of, boxes_meet, lemma_bounds_concat, BoundingBox};
use crate::items::{AdminBoundaryView, Street, StreetView};
use crate::streets::street_views;
use vstd::prelude::*;

verus! {

/// The points of all segments, segment after segment.
pub open spec fn street_points(segments: Seq<(i64, Seq<(i32, i32)>)>) -> Seq<(i32, i32)>
    decreases segments.len(),
{
    if segments.len() == 0 {
        Seq::empty()
    } else {
        street_points(segments.drop_last()) + segments.last().1
    }
}

/// Whether the boundary at place `at` matches a street: the street has a
/// segment, and the bounding box of all its points shares a point with the
/// boundary's bounding box.
pub open spec fn boundary_match(street: StreetView, boundaries: Seq<AdminBoundaryView>, at: int) -> bool {
    &&& 0 <= at < boundaries.len()
    &&& street.segments.len() > 0
    &&& boxes_meet(boundaries[at].bounds(), bounds_of(street_points(street.segments)))
}

/// The street with its boundary set to `name`.
pub open spec fn with_boundary(street: StreetView, name: Seq<char>) -> StreetView {
    StreetView { name: street.name, segments: street.segments, boundary: Some(name) }
}

/// The streets that come of one street and the places of its matching
/// boundaries: the street itself where there is none, else one copy for
/// each place, in their order, with that boundary's name.
pub open spec fn assigned(
    street: StreetView,
    boundaries: Seq<AdminBoundaryView>,
    matches: Seq<usize>,
) -> Seq<StreetView> {
    if matches.len() == 0 {
        seq![street]
    } else {
        Seq::new(matches.len(), |k: int| with_boundary(street, boundaries[matches[k] as int].name))
    }
}

impl Street {
    /// The bounding box of all points of the street; none for a street
    /// without segments.
    pub fn envelope(&self) -> (envelope: Option<BoundingBox>)
        ensures
            self@.segments.len() == 0 <==> envelope.is_none(),
            envelope.is_some() ==> envelope.unwrap().corners() == bounds_of(
                street_points(self@.segments),
            ),
    {
        if self.segments.len() == 0 {
            return None;
        }
        let mut west: i64 = i32::MAX as i64;
        let mut south: i64 = i32::MAX as i64;
        let mut east: i64 = i32::MIN as i64;
        let mut north: i64 = i32::MIN as i64;
        let mut k: usize = 0;
        while k < self.segments.len()
            invariant
                k <= self.segments@.len(),
                (west as int, south as int, east as int, north as int) == bounds_of(
                    street_points(self@.segments.take(k as int)),
                ),
            decreases self.segments@.len() - k,
        {
            let next = self.segments[k].geometry.sw_ne();
            proof {
                let views = self@.segments;
                assert(views.take(k as int + 1).drop_last() =~= views.take(k as int));
                assert(views.take(k as int + 1).last().1 == self.segments@[k as int].geometry@);
                lemma_bounds_concat(
                    street_points(views.take(k as int)),
                    self.segments@[k as int].geometry@,
                );
            }
            if next.0.0 < west {
                west = next.0.0;
            }
            if next.0.1 < south {
                south = next.0.1;
            }
            if next.1.0 > east {
                east = next.1.0;
            }
            if next.1.1 > north {
                north = next.1.1;
            }
            k = k + 1;
        }
        assert(self@.segments.take(k as int) =~= self@.segments);
        Some(BoundingBox { sw: (west, south), ne: (east, north) })
    }

    /// The places in `tree` of the boundaries that match the street: each
    /// such place once, and no other.
    pub fn boundary_matches(&self, tree: &BoundaryTree) -> (matches: Vec<usize>)
        ensures
            matches@.no_duplicates(),
            forall|at: usize| matches@.contains(at) <==> boundary_match(self@, tree@, at as int),
    {
        match self.envelope() {
            Some(envelope) => tree.locate_in_envelope_intersecting(&envelope),
            None => Vec::new(),
        }
    }

    /// Sets the boundary of the street to `name`.
    pub fn set_boundary(&mut self, name: &str)
        ensures
            final(self)@ == with_boundary(old(self)@, name@),
    {
        self.boundary = Some(name.to_owned());
    }

    /// The streets that come of this street and the places of its matching
    /// boundaries. With no place the street is left as it is. With one, its
    /// boundary is set to that boundary's name. With more, there is one
    /// copy of the street for each place, in their order, each with the
    /// same segments and with the name of its boundary.
    pub fn assign_boundaries(self, tree: &BoundaryTree, matches: &Vec<usize>) -> (streets: Vec<Street>)
        requires
            forall|k: int| 0 <= k < matches@.len() ==> (#[trigger] matches@[k]) < tree@.len(),
        ensures
            street_views(streets@) == assigned(self@, tree@, matches@),
    {
        let mut street = self;
        let mut streets: Vec<Street> = Vec::new();
        if matches.len() == 0 {
            streets.push(street);
            assert(street_views(streets@) =~= assigned(self@, tree@, matches@));
        } else if matches.len() == 1 {
            let boundary = tree.get(matches[0]);
            street.set_boundary(boundary.name.as_str());
            streets.push(street);
            assert(street_views(streets@) =~= assigned(self@, tree@, matches@));
        } else {
            let mut k: usize = 0;
            while k < matches.len()
                invariant
                    k <= matches@.len(),
                    street@ == self@,
                    streets@.len() == k,
                    forall|k: int| 0 <= k < matches@.len() ==> (#[trigger] matches@[k]) < tree@.len(),
                    forall|j: int|
                        0 <= j < k ==> (#[trigger] streets@[j])@ == with_boundary(
                            self@,
                            tree@[matches@[j] as int].name,
                        ),
                decreases matches@.len() - k,
            {
                let boundary = tree.get(matches[k]);
                let mut new_street = street.clone();
                new_street.set_boundary(boundary.name.as_str());
                streets.push(new_street);
                k = k + 1;
            }
            assert(street_views(streets@) =~= assigned(self@, tree@, matches@));
        }
        streets
    }

    /// Assigns the street to the boundaries that match it. Where none
    /// matches, the street is returned as it is; else there is one street
    /// for each matching boundary, with the same name and segments and with
    /// that boundary's name, each matching boundary once. The order is the
    /// index's.
    pub fn split_by_boundaries(self, tree: &BoundaryTree) -> (streets: Vec<Street>)
        ensures
            exists|matches: Seq<usize>|
                #![trigger assigned(self@, tree@, matches)]
                {
                    &&& matches.no_duplicates()
                    &&& forall|at: usize|
                        matches.contains(at) <==> boundary_match(self@, tree@, at as int)
                    &&& street_views(streets@) == assigned(self@, tree@, matches)
                },
    {
        let matches = self.boundary_matches(tree);
        proof {
            assert forall|k: int| 0 <= k < matches@.len() implies (#[trigger] matches@[k])
                < tree@.len() by {
                assert(matches@.contains(matches@[k]));
            }
        }
        self.assign_boundaries(tree, &matches)
    }
}

/// A street with matching boundaries comes out once for each of them, with
/// its own name and segments and with a boundary; with exactly one it comes
/// out once, with that boundary's name.
pub proof fn lemma_assigned_streets(
    street: StreetView,
    boundaries: Seq<AdminBoundaryView>,
    matches: Seq<usize>,
)
    requires
        matches.len() > 0,
    ensures
        assigned(street, boundaries, matches).len() == matches.len(),
        forall|k: int|
            0 <= k < matches.len() ==> {
                &&& (#[trigger] assigned(street, boundaries, matches)[k]).name == street.name
                &&& assigned(street, boundaries, matches)[k].segments == street.segments
                &&& assigned(street, boundaries, matches)[k].boundary == Some(
                    boundaries[matches[k] as int].name,
                )
            },
        matches.len() == 1 ==> assigned(street, boundaries, matches) == seq![
            with_boundary(street, boundaries[matches[0] as int].name),
        ],
{
    if matches.len() == 1 {
        assert(assigned(street, boundaries, matches) =~= seq![
            with_boundary(street, boundaries[matches[0] as int].name),
        ]);
    }
}

/// The streets that come of a list of streets, street after street, where
/// `matches` holds for each street the places of its boundaries.
pub open spec fn all_assigned(
    streets: Seq<StreetView>,
    boundaries: Seq<AdminBoundaryView>,
    matches: Seq<Seq<usize>>,
) -> Seq<StreetView>
    decreases streets.len(),
{
    if streets.len() == 0 || matches.len() == 0 {
        Seq::empty()
    } else {
        all_assigned(streets.drop_last(), boundaries, matches.drop_last()) + assigned(
            streets.last(),
            boundaries,
            matches.last(),
        )
    }
}

/// Whether `matches` holds, for each street, the places of the boundaries
/// that match it, each once.
pub open spec fn all_matches(
    streets: Seq<StreetView>,
    boundaries: Seq<AdminBoundaryView>,
    matches: Seq<Seq<usize>>,
) -> bool {
    &&& matches.len() == streets.len()
    &&& forall|s: int|
        0 <= s < streets.len() ==> (#[trigger] matches[s]).no_duplicates() && forall|at: usize|
            matches[s].contains(at) <==> boundary_match(streets[s], boundaries, at as int)
}

/// Assigns each street to the boundaries that match it: a street that none
/// matches stays as it is, and one that several match comes out once for
/// each. The streets keep their order.
pub fn split_streets(streets: Vec<Street>, tree: &BoundaryTree) -> (split: Vec<Street>)
    ensures
        exists|matches: Seq<Seq<usize>>|
            #![trigger all_matches(street_views(streets@), tree@, matches)]
            all_matches(street_views(streets@), tree@, matches) && street_views(split@)
                == all_assigned(street_views(streets@), tree@, matches),
{
    let ghost views = street_views(streets@);
    let ghost mut found: Seq<Seq<usize>> = Seq::empty();
    let mut split: Vec<Street> = Vec::new();
    let mut k: usize = 0;
    while k < streets.len()
        invariant
            k <= streets@.len(),
            views == street_views(streets@),
            all_matches(views.take(k as int), tree@, found),
            street_views(split@) == all_assigned(views.take(k as int), tree@, found),
        decreases streets@.len() - k,
    {
        let street = &streets[k];
        assert(views[k as int] == street@);
        let matches = street.boundary_matches(tree);
        proof {
            assert forall|j: int| 0 <= j < matches@.len() implies (#[trigger] matches@[j])
                < tree@.len() by {
                assert(matches@.contains(matches@[j]));
            }
        }
        let mut pieces = street.clone().assign_boundaries(tree, &matches);
        let ghost before = street_views(split@);
        let ghost added = street_views(pieces@);
        split.append(&mut pieces);
        proof {
            assert(street_views(split@) =~= before + added);
            let grown = found.push(matches@);
            assert(views.take(k as int + 1).drop_last() =~= views.take(k as int));
            assert(views.take(k as int + 1).last() == street@);
            assert(grown.drop_last() =~= found);
            assert forall|s: int| 0 <= s < k + 1 implies (#[trigger] grown[s]).no_duplicates()
                && forall|at: usize|
                grown[s].contains(at) <==> boundary_match(
                    views.take(k as int + 1)[s],
                    tree@,
                    at as int,
                ) by {
                if s < k {
                    assert(grown[s] == found[s]);
                    assert(views.take(k as int + 1)[s] == views.take(k as int)[s]);
                }
            }
            found = grown;
        }
        k = k + 1;
    }
    assert(views.take(k as int) =~= views);
    split
}

} // verus!
