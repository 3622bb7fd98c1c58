//! Spatial index over the deduplicated input points.
//!
//! The points are bulk-loaded into an R-tree keyed by their coordinates; a
//! radius query first sweeps a conservative latitude slab of the tree and
//! then filters the swept candidates with the precise distance test.  Since
//! the radius enters only at query time, the same index serves both the
//! coverage radius and the doubled neighbor radius.  The R-tree itself comes
//! from the `rstar` crate and is trusted only to return exactly the stored
//! elements inside an axis-aligned box.

use vstd::prelude::*;
use vstd::multiset::Multiset;
use crate::geo::LON_LIMIT;
use crate::geo::Point;
use crate::geo::lemma_lat_band;
use crate::geo::within;
use crate::geo::within_spec;
use crate::pointset::dedup_first;
use crate::pointset::dedup_points;

verus! {

broadcast use {
    vstd::std_specs::hash::group_hash_axioms,
    vstd::multiset::group_multiset_axioms,
    vstd::seq_lib::group_to_multiset_ensures,
};

/// An R-tree of coordinate/index elements from the `rstar` crate, held
/// opaquely: Verus sees its contents only through [`tree_contents`] and the
/// trusted wrappers below.
#[verifier::external_body]
pub struct ElementTree {
    tree: rstar::RTree<rstar::primitives::GeomWithData<[i64; 2], usize>>,
}

/// The multiset of elements stored in the R-tree; each element is a point's
/// latitude, longitude, and its index in the arena.
pub uninterp spec fn tree_contents(t: &ElementTree) -> Multiset<(i64, i64, usize)>;

/// The tree elements that describe an arena of points: one element per point,
/// carrying its coordinates and index.
pub open spec fn item_seq(pts: Seq<Point>) -> Seq<(i64, i64, usize)> {
    Seq::new(pts.len(), |i: int| (pts[i].lat, pts[i].lon, i as usize))
}

/// Membership in an axis-aligned coordinate box, bounds inclusive.
pub open spec fn rect_pred(min_lat: int, max_lat: int, min_lon: int, max_lon: int) -> spec_fn(
    (i64, i64, usize),
) -> bool {
    |e: (i64, i64, usize)| min_lat <= e.0 <= max_lat && min_lon <= e.1 <= max_lon
}

/// Relies on rstar::RTree::bulk_load: the tree stores exactly the loaded
/// elements, here one element per arena point with its coordinates and index.
#[verifier::external_body]
fn tree_build(pts: &Vec<Point>) -> (t: ElementTree)
    ensures
        tree_contents(&t) == item_seq(pts@).to_multiset(),
{
    ElementTree {
        tree: rstar::RTree::bulk_load(
            pts.iter().enumerate().map(
                |(i, p): (usize, &Point)| rstar::primitives::GeomWithData::new([p.lat, p.lon], i),
            ).collect(),
        ),
    }
}

/// Relies on rstar::RTree::locate_in_envelope with an axis-aligned box: it
/// returns exactly the stored elements whose coordinates lie inside the box,
/// bounds inclusive, in unspecified order.  The bounds must be ordered:
/// rstar's box constructor reorders inverted corners, which would query a
/// different box than the stated filter.
#[verifier::external_body]
fn tree_query_rect(
    t: &ElementTree,
    min_lat: i64,
    max_lat: i64,
    min_lon: i64,
    max_lon: i64,
) -> (found: Vec<(i64, i64, usize)>)
    requires
        min_lat <= max_lat,
        min_lon <= max_lon,
    ensures
        found@.to_multiset() == tree_contents(t).filter(
            rect_pred(min_lat as int, max_lat as int, min_lon as int, max_lon as int),
        ),
{
    t.tree
        .locate_in_envelope(rstar::AABB::from_corners([min_lat, min_lon], [max_lat, max_lon]))
        .map(|g| (g.geom()[0], g.geom()[1], g.data))
        .collect()
}

/// A read-only arena of distinct, valid points together with an R-tree over
/// their coordinates.
pub struct PointIndex {
    pts: Vec<Point>,
    tree: ElementTree,
}

impl PointIndex {
    /// The arena holds distinct valid points and the tree holds exactly one
    /// element per arena point.
    pub closed spec fn wf(&self) -> bool {
        &&& forall|i: int| 0 <= i < self.pts@.len() ==> (#[trigger] self.pts@[i]).is_valid()
        &&& self.pts@.no_duplicates()
        &&& tree_contents(&self.tree) == item_seq(self.pts@).to_multiset()
    }

    /// The points held by the index, in arena order.
    pub closed spec fn points_view(&self) -> Seq<Point> {
        self.pts@
    }

    /// A well-formed index holds distinct valid points.
    pub proof fn lemma_wf_facts(&self)
        requires
            self.wf(),
        ensures
            forall|i: int|
                0 <= i < self.points_view().len() ==> (#[trigger] self.points_view()[i]).is_valid(),
            self.points_view().no_duplicates(),
    {
    }

    /// Builds the index from an input list: duplicates are dropped (keeping
    /// first occurrences) and the remaining points are bulk-loaded.
    pub fn new(points: &Vec<Point>) -> (idx: PointIndex)
        requires
            forall|i: int| 0 <= i < points@.len() ==> points@[i].is_valid(),
        ensures
            idx.wf(),
            idx.points_view() == dedup_first(points@),
    {
        let pts = dedup_points(points);
        let tree = tree_build(&pts);
        PointIndex { pts, tree }
    }

    /// Number of points in the arena.
    pub fn len(&self) -> (n: usize)
        ensures
            n == self.points_view().len(),
    {
        self.pts.len()
    }

    /// The point at an arena index.
    pub fn point_at(&self, i: usize) -> (p: Point)
        requires
            i < self.points_view().len(),
        ensures
            p == self.points_view()[i as int],
    {
        self.pts[i]
    }

    /// Arena indices of all points within `r_um` micrometers of `c`.
    ///
    /// `scratch` is a caller-provided all-false marker buffer of arena size;
    /// it is returned all false again.  The result lists each covered index
    /// exactly once, in unspecified order.
    pub fn within_indices(&self, c: Point, r_um: u64, scratch: &mut Vec<bool>) -> (out: Vec<
        usize,
    >)
        requires
            self.wf(),
            c.is_valid(),
            old(scratch)@.len() == self.points_view().len(),
            forall|i: int| 0 <= i < old(scratch)@.len() ==> !old(scratch)@[i],
        ensures
            final(scratch)@.len() == old(scratch)@.len(),
            forall|i: int| 0 <= i < final(scratch)@.len() ==> !final(scratch)@[i],
            out@.no_duplicates(),
            forall|k: int|
                0 <= k < out@.len() ==> out@[k] < self.points_view().len() && within_spec(
                    c,
                    self.points_view()[out@[k] as int],
                    r_um as int,
                ),
            forall|i: int|
                0 <= i < self.points_view().len() && within_spec(
                    c,
                    self.points_view()[i],
                    r_um as int,
                ) ==> out@.contains(i as usize),
    {
        let ghost pts = self.pts@;
        let ghost items = item_seq(pts);
        let n: usize = self.pts.len();
        let delta: u64 = r_um / 111_195;
        assert(delta <= 170_000_000_000_000) by (nonlinear_arith)
            requires
                delta == r_um / 111_195,
                r_um <= 0xffff_ffff_ffff_ffff,
        ;
        let min_lat: i64 = c.lat - (delta as i64);
        let max_lat: i64 = c.lat + (delta as i64);
        let raw = tree_query_rect(&self.tree, min_lat, max_lat, -LON_LIMIT, LON_LIMIT);
        let ghost pred = rect_pred(min_lat as int, max_lat as int, -LON_LIMIT as int, LON_LIMIT as int);
        proof {
            // Every covered point's element is inside the queried slab.
            assert forall|i: int|
                0 <= i < n && within_spec(c, pts[i], r_um as int) implies raw@.contains(
                items[i],
            ) by {
                lemma_lat_band(c, pts[i], r_um as int);
                assert(pred(items[i]));
                assert(items.to_multiset().count(items[i]) > 0);
                assert(raw@.to_multiset().count(items[i]) == tree_contents(
                    &self.tree,
                ).filter(pred).count(items[i]));
                assert(raw@.to_multiset().count(items[i]) > 0);
            }
        }
        let mut found: Vec<usize> = Vec::new();
        let m_end: usize = raw.len();
        for m in 0..m_end
            invariant
                m_end == raw@.len(),
                n == pts.len(),
                pts == self.pts@,
                items == item_seq(pts),
                self.wf(),
                c.is_valid(),
                scratch@.len() == n,
                found@.no_duplicates(),
                forall|k: int|
                    0 <= k < found@.len() ==> found@[k] < n && within_spec(
                        c,
                        pts[found@[k] as int],
                        r_um as int,
                    ),
                forall|k: int| 0 <= k < found@.len() ==> scratch@[found@[k] as int],
                forall|i: int| 0 <= i < n && scratch@[i] ==> found@.contains(i as usize),
                forall|i: int|
                    0 <= i < n && within_spec(c, pts[i], r_um as int) && !scratch@[i]
                        ==> exists|j: int| m <= j < raw@.len() && raw@[j] == items[i],
                raw@.to_multiset() == tree_contents(&self.tree).filter(pred),
        {
            let e = raw[m];
            proof {
                assert(raw@.contains(e));
                assert(raw@.to_multiset().count(e) > 0);
                assert(tree_contents(&self.tree).filter(pred).count(e) > 0);
                assert(tree_contents(&self.tree).count(e) > 0);
                assert(items.to_multiset().count(e) > 0);
                assert(items.contains(e));
                let i = choose|i: int| 0 <= i < items.len() && items[i] == e;
                assert(e.2 == i as usize);
                assert(pts[i].lat == e.0 && pts[i].lon == e.1);
            }
            let idx: usize = e.2;
            assert(idx < n);
            let p = self.pts[idx];
            assert(p.lat == e.0 && p.lon == e.1);
            if within(c, p, r_um) {
                if !scratch[idx] {
                    let ghost old_found = found@;
                    scratch[idx] = true;
                    found.push(idx);
                    proof {
                        assert forall|i: int|
                            0 <= i < n && scratch@[i] implies found@.contains(i as usize) by {
                            if i == idx {
                                assert(found@[found@.len() - 1] == idx);
                            } else {
                                assert(old_found.contains(i as usize));
                                let k = choose|k: int|
                                    0 <= k < old_found.len() && old_found[k] == i as usize;
                                assert(found@[k] == i as usize);
                            }
                        }
                        assert(!old_found.contains(idx));
                        assert(found@.no_duplicates());
                    }
                }
            }
            proof {
                assert forall|i: int|
                    0 <= i < n && within_spec(c, pts[i], r_um as int) && !scratch@[i]
                        implies exists|j: int|
                        m + 1 <= j < raw@.len() && raw@[j] == items[i] by {
                    let j = choose|j: int| m <= j < raw@.len() && raw@[j] == items[i];
                    if j == m {
                        assert(raw@[m as int] == items[i]);
                        assert(e.2 == i as usize);
                        assert(pts[i] == p);
                        assert(scratch@[i]);
                    }
                }
            }
        }
        proof {
            assert forall|i: int|
                0 <= i < n && within_spec(c, pts[i], r_um as int) implies found@.contains(
                i as usize,
            ) by {
                if !scratch@[i] {
                    let j = choose|j: int| m_end <= j < raw@.len() && raw@[j] == items[i];
                    assert(false);
                }
            }
        }
        // Reset the marker buffer.
        let ghost found_snap = found@;
        let f_end: usize = found.len();
        for t in 0..f_end
            invariant
                f_end == found@.len(),
                found@ == found_snap,
                n == pts.len(),
                scratch@.len() == n,
                found@.no_duplicates(),
                forall|k: int|
                    0 <= k < found@.len() ==> found@[k] < n && within_spec(
                        c,
                        pts[found@[k] as int],
                        r_um as int,
                    ),
                forall|i: int|
                    0 <= i < n && within_spec(c, pts[i], r_um as int) ==> found_snap.contains(
                        i as usize,
                    ),
                forall|i: int|
                    0 <= i < n && scratch@[i] ==> exists|k: int|
                        t <= k < found@.len() && found@[k] == i as usize,
        {
            let idx = found[t];
            scratch[idx] = false;
            proof {
                assert forall|i: int|
                    0 <= i < n && scratch@[i] implies exists|k: int|
                    t + 1 <= k < found@.len() && found@[k] == i as usize by {
                    let k = choose|k: int| t <= k < found@.len() && found@[k] == i as usize;
                    assert(k != t);
                }
            }
        }
        found
    }
}

} // verus!
