//! The clustering pipeline driver.
//!
//! A [`Greedy`] value holds the configuration: the candidate-generation
//! mode, the cluster radius in meters, the minimum points per cluster, the
//! cluster cap, and the cell split level.  [`Greedy::run`] executes the whole
//! pipeline over one batch of points; [`Greedy::run_with_candidates`] accepts
//! an externally produced candidate list (for the tiled modes, whose cell
//! centers come from the caller's cell library); [`Greedy::run_sharded`]
//! partitions the input by caller-supplied cell keys and merges the
//! per-shard results.

use vstd::prelude::*;
use crate::candidates::cand_ok;
use crate::candidates::gen_cand;
use crate::candidates::generate_candidates;
use crate::candidates::wiggle_ok;
use crate::clusters::build_clusters;
use crate::clusters::cluster_wf;
use crate::clusters::order_by_coverage;
use crate::dedupe::dedupe;
use crate::geo::MAX_RADIUS_M;
use crate::geo::Point;
use crate::geo::dist_sq_spec;
use crate::geo::lemma_dist_self;
use crate::geo::lemma_interpolate_self;
use crate::geo::within_spec;
use crate::pointset::dedup_first;
use crate::pointset::dedup_points;
use crate::pointset::lemma_dedup_first;
use crate::dedupe::fresh_for;
use crate::dedupe::kept_contributes;
use crate::dedupe::kept_has_unique;
use crate::selection::count_true;
use crate::selection::covered_by_chosen;
use crate::selection::lemma_count_true_le;
use crate::selection::lemma_count_true_update;
use crate::selection::lemma_distinct_superset_len;
use crate::selection::sel_wf;
use crate::selection::select;
use crate::selection::uniq_set;
use crate::selection::uniquely_covered;
use crate::spatial::PointIndex;

verus! {

broadcast use {
    vstd::seq_lib::group_to_multiset_ensures,
    vstd::seq_lib::seq_to_set_is_finite,
    vstd::set::group_set_axioms,
};

/// How candidate centers are produced.
#[derive(Clone, Copy, PartialEq, Eq, Structural, Debug)]
pub enum ClusterMode {
    Fast,
    Balanced,
    Better,
    Best,
}

/// The one rejected configuration: a radius of zero, or one beyond the
/// supported bound.
#[derive(Clone, Copy, PartialEq, Eq, Structural, Debug)]
pub enum ClusterError {
    InvalidRadius,
}

impl ClusterError {
    /// A short description of the error.
    pub fn describe(&self) -> (s: &'static str)
    {
        "the cluster radius must be positive and at most 1000000000 meters"
    }
}

/// The input points within `r_um` micrometers of a center.
pub open spec fn cover_pts(pts: Seq<Point>, c: Point, r_um: int) -> Set<Point> {
    Set::new(|p: Point| pts.contains(p) && within_spec(c, p, r_um))
}

/// No two distinct listed points lie within `d_um` of each other.
pub open spec fn pairwise_separated(pts: Seq<Point>, d_um: int) -> bool {
    forall|p: Point, q: Point|
        pts.contains(p) && pts.contains(q) && p != q ==> !(#[trigger] within_spec(p, q, d_um))
}

/// A sequence that contains an element still contains it after a push.
pub proof fn lemma_push_contains<A>(s: Seq<A>, x: A, y: A)
    requires
        s.contains(y),
    ensures
        s.push(x).contains(y),
{
    let i = choose|i: int| 0 <= i < s.len() && s[i] == y;
    assert(s.push(x)[i] == y);
}

/// A distinct sequence of indices below `n` has at most `n` entries.
pub proof fn lemma_distinct_bounded(s: Seq<usize>, n: int)
    requires
        s.no_duplicates(),
        0 <= n <= usize::MAX,
        forall|k: int| 0 <= k < s.len() ==> (#[trigger] s[k]) < n,
    ensures
        s.len() <= n,
{
    let r = Seq::new(n as nat, |i: int| i as usize);
    assert forall|k1: int, k2: int| 0 <= k1 < k2 < r.len() implies r[k1] != r[k2] by {
        assert(r[k1] == k1 as usize && r[k2] == k2 as usize);
    }
    assert(r.no_duplicates());
    assert forall|x: usize| s.contains(x) implies r.contains(x) by {
        let k = choose|k: int| 0 <= k < s.len() && s[k] == x;
        assert(r[x as int] == x);
    }
    lemma_distinct_superset_len(s, r);
}

/// A cover list witnesses at least as many distinct covered input points.
pub proof fn lemma_cover_pts_card(pts: Seq<Point>, c: Point, r_um: int, cover: Seq<usize>)
    requires
        pts.no_duplicates(),
        cover.no_duplicates(),
        forall|u: int|
            0 <= u < cover.len() ==> (#[trigger] cover[u]) < pts.len() && within_spec(
                c,
                pts[cover[u] as int],
                r_um,
            ),
    ensures
        cover_pts(pts, c, r_um).finite(),
        cover_pts(pts, c, r_um).len() >= cover.len(),
{
    let cp = cover_pts(pts, c, r_um);
    assert forall|p: Point| cp.contains(p) implies pts.to_set().contains(p) by {
        assert(pts.contains(p));
    }
    vstd::set_lib::lemma_len_subset(cp, pts.to_set());
    let cps = cover.map_values(|u: usize| pts[u as int]);
    assert forall|x1: int, x2: int|
        0 <= x1 < x2 < cps.len() implies cps[x1] != cps[x2] by {
        assert(cps[x1] == pts[cover[x1] as int]);
        assert(cps[x2] == pts[cover[x2] as int]);
        assert(cover[x1] != cover[x2]);
    }
    assert(cps.no_duplicates());
    cps.unique_seq_to_set();
    assert forall|p: Point| cps.to_set().contains(p) implies cp.contains(p) by {
        let x = choose|x: int| 0 <= x < cps.len() && cps[x] == p;
        assert(pts[cover[x] as int] == p);
        assert(pts.contains(p));
    }
    vstd::set_lib::lemma_len_subset(cps.to_set(), cp);
}

/// An exact cover list witnesses exactly the covered input points.
pub proof fn lemma_cover_pts_card_eq(pts: Seq<Point>, c: Point, r_um: int, cover: Seq<usize>)
    requires
        pts.no_duplicates(),
        pts.len() <= usize::MAX,
        cover.no_duplicates(),
        forall|u: int|
            0 <= u < cover.len() ==> (#[trigger] cover[u]) < pts.len() && within_spec(
                c,
                pts[cover[u] as int],
                r_um,
            ),
        forall|i: int|
            0 <= i < pts.len() && within_spec(c, pts[i], r_um) ==> cover.contains(i as usize),
    ensures
        cover_pts(pts, c, r_um).finite(),
        cover_pts(pts, c, r_um).len() == cover.len(),
{
    lemma_cover_pts_card(pts, c, r_um, cover);
    let cp = cover_pts(pts, c, r_um);
    let cps = cover.map_values(|u: usize| pts[u as int]);
    cps.unique_seq_to_set();
    assert forall|x1: int, x2: int| 0 <= x1 < x2 < cps.len() implies cps[x1] != cps[x2] by {
        assert(cps[x1] == pts[cover[x1] as int]);
        assert(cps[x2] == pts[cover[x2] as int]);
        assert(cover[x1] != cover[x2]);
    }
    assert(cps.no_duplicates());
    cps.unique_seq_to_set();
    assert forall|p: Point| cp.contains(p) implies cps.to_set().contains(p) by {
        assert(pts.contains(p));
        let i = choose|i: int| 0 <= i < pts.len() && pts[i] == p;
        assert(cover.contains(i as usize));
        let u = choose|u: int| 0 <= u < cover.len() && cover[u] == i as usize;
        assert(cover[u] as int == i);
        assert(cps[u] == pts[cover[u] as int]);
        assert(cps[u] == p);
        assert(cps.contains(p));
    }
    vstd::set_lib::lemma_len_subset(cp, cps.to_set());
}

/// Covered points only grow when the point list grows.
pub proof fn lemma_cover_pts_sub(small: Seq<Point>, big: Seq<Point>, c: Point, r_um: int)
    requires
        forall|p: Point| small.contains(p) ==> big.contains(p),
        cover_pts(big, c, r_um).finite(),
    ensures
        cover_pts(small, c, r_um).finite(),
        cover_pts(small, c, r_um).len() <= cover_pts(big, c, r_um).len(),
{
    assert(cover_pts(small, c, r_um).subset_of(cover_pts(big, c, r_um)));
    vstd::set_lib::lemma_len_subset(cover_pts(small, c, r_um), cover_pts(big, c, r_um));
}

/// On pairwise-separated input an interpolated candidate degenerates to an
/// input point: its two parents must coincide.
pub proof fn lemma_separated_cand_is_input(
    points: Seq<Point>,
    pts: Seq<Point>,
    c: Point,
    r_um: int,
)
    requires
        pts.no_duplicates(),
        forall|i: int| 0 <= i < pts.len() ==> (#[trigger] pts[i]).is_valid(),
        forall|p: Point| #![trigger pts.contains(p)] pts.contains(p) <==> points.contains(p),
        cand_ok(pts, 2 * r_um, false, c),
        pairwise_separated(points, 2 * r_um),
    ensures
        points.contains(c),
{
    let (i, jj, num, wl, wo): (int, int, int, int, int) = choose|
        i: int,
        jj: int,
        num: int,
        wl: int,
        wo: int,
    |
        {
            &&& 0 <= i < pts.len()
            &&& 0 <= jj < pts.len()
            &&& 0 <= num <= 7
            &&& wiggle_ok(wl, wo, false)
            &&& (i == jj || within_spec(pts[i], pts[jj], 2 * r_um))
            &&& (#[trigger] gen_cand(pts, i, jj, num, wl, wo)) == c
        };
    if i != jj {
        assert(pts[i] != pts[jj]);
        assert(pts.contains(pts[i]) && pts.contains(pts[jj]));
        assert(points.contains(pts[i]) && points.contains(pts[jj]));
        assert(!within_spec(pts[i], pts[jj], 2 * r_um));
        assert(false);
    }
    assert(wl == 0 && wo == 0);
    lemma_interpolate_self(pts[i], num);
    assert(c == pts[i]);
    assert(pts.contains(pts[i]));
}

/// On pairwise-separated input, interpolated candidates degenerate to input
/// points, so full coverage forces the output to be exactly the distinct
/// input set.
pub proof fn lemma_separated_exact(
    points: Seq<Point>,
    pts: Seq<Point>,
    cands: Seq<Point>,
    out: Seq<Point>,
    r_um: int,
)
    requires
        r_um >= 0,
        pts.no_duplicates(),
        forall|i: int| 0 <= i < pts.len() ==> (#[trigger] pts[i]).is_valid(),
        forall|p: Point| #![trigger pts.contains(p)] pts.contains(p) <==> points.contains(p),
        forall|k: int| 0 <= k < out.len() ==> cands.contains(#[trigger] out[k]),
        forall|j: int|
            0 <= j < cands.len() ==> cand_ok(pts, 2 * r_um, false, #[trigger] cands[j]),
        pairwise_separated(points, 2 * r_um),
        forall|p: Point|
            #![trigger points.contains(p)]
            points.contains(p) ==> exists|k: int|
                0 <= k < out.len() && within_spec(#[trigger] out[k], p, r_um),
    ensures
        forall|p: Point| #![trigger points.contains(p)] points.contains(p) <==> out.contains(p),
{
    assert forall|k: int| 0 <= k < out.len() implies points.contains(#[trigger] out[k]) by {
        assert(cands.contains(out[k]));
        let j = choose|j: int| 0 <= j < cands.len() && cands[j] == out[k];
        assert(cand_ok(pts, 2 * r_um, false, cands[j]));
        lemma_separated_cand_is_input(points, pts, cands[j], r_um);
    }
    assert forall|p: Point|
        #![trigger points.contains(p)]
        points.contains(p) implies out.contains(p) by {
        let k = choose|k: int| 0 <= k < out.len() && within_spec(#[trigger] out[k], p, r_um);
        let c = out[k];
        assert(points.contains(c));
        if c != p {
            assert(!within_spec(c, p, 2 * r_um));
            assert(dist_sq_spec(c, p) <= r_um * r_um);
            assert(r_um * r_um <= (2 * r_um) * (2 * r_um)) by (nonlinear_arith)
                requires
                    r_um >= 0,
            ;
            assert(false);
        }
        assert(out[k] == p);
    }
}

/// The center at position `k` covers a listed point that no earlier center
/// covers.
pub open spec fn contributes_before(points: Seq<Point>, out: Seq<Point>, r_um: int, k: int) -> bool {
    exists|p: Point|
        #![trigger points.contains(p)]
        points.contains(p) && within_spec(out[k], p, r_um) && (forall|k2: int|
            #![trigger out[k2]]
            0 <= k2 < k ==> !within_spec(out[k2], p, r_um))
}

/// The center at position `k` covers a listed point that no other center
/// covers at all.
pub open spec fn contributes_alone(points: Seq<Point>, out: Seq<Point>, r_um: int, k: int) -> bool {
    exists|p: Point|
        #![trigger points.contains(p)]
        points.contains(p) && within_spec(out[k], p, r_um) && (forall|k2: int|
            #![trigger out[k2]]
            0 <= k2 < out.len() && k2 != k ==> !within_spec(out[k2], p, r_um))
}

/// Contribution witnesses transfer from the deduplicated points to the raw
/// input, since membership agrees.
pub proof fn lemma_contribution_lift(
    points: Seq<Point>,
    pts: Seq<Point>,
    out: Seq<Point>,
    r_um: int,
    k: int,
)
    requires
        forall|p: Point| #![trigger pts.contains(p)] pts.contains(p) <==> points.contains(p),
        0 <= k < out.len(),
        contributes_before(pts, out, r_um, k),
    ensures
        contributes_before(points, out, r_um, k),
{
    let p = choose|p: Point|
        #![trigger pts.contains(p)]
        pts.contains(p) && within_spec(out[k], p, r_um) && (forall|k2: int|
            #![trigger out[k2]]
            0 <= k2 < k ==> !within_spec(out[k2], p, r_um));
    assert(points.contains(p));
    assert(contributes_before(points, out, r_um, k));
}

/// The exclusive form of the transfer.
pub proof fn lemma_contribution_lift_all(
    points: Seq<Point>,
    pts: Seq<Point>,
    out: Seq<Point>,
    r_um: int,
    k: int,
)
    requires
        forall|p: Point| #![trigger pts.contains(p)] pts.contains(p) <==> points.contains(p),
        0 <= k < out.len(),
        contributes_alone(pts, out, r_um, k),
    ensures
        contributes_alone(points, out, r_um, k),
{
    let p = choose|p: Point|
        #![trigger pts.contains(p)]
        pts.contains(p) && within_spec(out[k], p, r_um) && (forall|k2: int|
            #![trigger out[k2]]
            0 <= k2 < out.len() && k2 != k ==> !within_spec(out[k2], p, r_um));
    assert(points.contains(p));
    assert(contributes_alone(points, out, r_um, k));
}

/// On pairwise-separated input every center is an input point covering only
/// itself, so any minimum above one empties the output.
pub proof fn lemma_separated_min2_empty(
    points: Seq<Point>,
    pts: Seq<Point>,
    cands: Seq<Point>,
    out: Seq<Point>,
    r_um: int,
    min_points: int,
)
    requires
        r_um >= 0,
        min_points >= 2,
        pts.no_duplicates(),
        forall|i: int| 0 <= i < pts.len() ==> (#[trigger] pts[i]).is_valid(),
        forall|p: Point| #![trigger pts.contains(p)] pts.contains(p) <==> points.contains(p),
        forall|k: int| 0 <= k < out.len() ==> cands.contains(#[trigger] out[k]),
        forall|j: int|
            0 <= j < cands.len() ==> cand_ok(pts, 2 * r_um, false, #[trigger] cands[j]),
        pairwise_separated(points, 2 * r_um),
        forall|k: int|
            0 <= k < out.len() ==> cover_pts(points, #[trigger] out[k], r_um).finite()
                && cover_pts(points, out[k], r_um).len() >= min_points,
    ensures
        out.len() == 0,
{
    broadcast use vstd::set::group_set_axioms;

    if out.len() > 0 {
        assert(cands.contains(out[0]));
        let j = choose|j: int| 0 <= j < cands.len() && cands[j] == out[0];
        assert(cand_ok(pts, 2 * r_um, false, cands[j]));
        lemma_separated_cand_is_input(points, pts, cands[j], r_um);
        let c0 = out[0];
        assert(points.contains(c0));
        assert forall|q: Point| cover_pts(points, c0, r_um).contains(q) implies q == c0 by {
            assert(within_spec(c0, q, r_um));
            assert(dist_sq_spec(c0, q) <= r_um * r_um);
            assert(r_um * r_um <= (2 * r_um) * (2 * r_um)) by (nonlinear_arith)
                requires
                    r_um >= 0,
            ;
            assert(within_spec(c0, q, 2 * r_um));
            if q != c0 {
                assert(points.contains(q));
                assert(!within_spec(c0, q, 2 * r_um));
                assert(false);
            }
        }
        let single = Set::<Point>::empty().insert(c0);
        assert(cover_pts(points, c0, r_um).subset_of(single));
        vstd::set_lib::lemma_len_subset(cover_pts(points, c0, r_um), single);
        assert(single.len() == 1);
        assert(cover_pts(points, c0, r_um).len() >= min_points);
        assert(false);
    }
}

/// The greedy coverage clusterer and its configuration.
pub struct Greedy {
    pub cluster_mode: ClusterMode,
    pub cluster_split_level: u64,
    pub max_clusters: usize,
    pub min_points: usize,
    pub radius: u64,
}

impl Default for Greedy {
    /// Balanced mode, no splitting, no cap, one point per cluster, and a
    /// radius of 70 meters.
    fn default() -> (g: Greedy)
        ensures
            g.cluster_mode == ClusterMode::Balanced,
            g.cluster_split_level == 1,
            g.max_clusters == usize::MAX,
            g.min_points == 1,
            g.radius == 70,
    {
        Greedy {
            cluster_mode: ClusterMode::Balanced,
            cluster_split_level: 1,
            max_clusters: usize::MAX,
            min_points: 1,
            radius: 70,
        }
    }
}

impl Greedy {
    pub fn set_cluster_mode(&mut self, cluster_mode: ClusterMode)
        ensures
            *final(self) == (Greedy { cluster_mode, ..*old(self) }),
    {
        self.cluster_mode = cluster_mode;
    }

    /// Sets the cluster radius, in meters.
    pub fn set_radius(&mut self, radius: u64)
        ensures
            *final(self) == (Greedy { radius, ..*old(self) }),
    {
        self.radius = radius;
    }

    pub fn set_max_clusters(&mut self, max_clusters: usize)
        ensures
            *final(self) == (Greedy { max_clusters, ..*old(self) }),
    {
        self.max_clusters = max_clusters;
    }

    pub fn set_min_points(&mut self, min_points: usize)
        ensures
            *final(self) == (Greedy { min_points, ..*old(self) }),
    {
        self.min_points = min_points;
    }

    pub fn set_cluster_split_level(&mut self, cluster_split_level: u64)
        ensures
            *final(self) == (Greedy { cluster_split_level, ..*old(self) }),
    {
        self.cluster_split_level = cluster_split_level;
    }

    /// The configured radius in micrometers.
    pub open spec fn r_um(&self) -> int {
        self.radius * 1_000_000
    }

    /// The split level actually used: levels outside one through twelve are
    /// coerced to one.
    pub fn effective_split_level(&self) -> (level: u64)
        ensures
            level == if 1 <= self.cluster_split_level <= 12 {
                self.cluster_split_level as int
            } else {
                1
            },
            1 <= level <= 12,
    {
        if 1 <= self.cluster_split_level && self.cluster_split_level <= 12 {
            self.cluster_split_level
        } else {
            1
        }
    }

    /// Whether the configured radius is accepted.
    pub open spec fn radius_ok(&self) -> bool {
        0 < self.radius <= MAX_RADIUS_M
    }

    /// Runs the pipeline on one batch of points, producing the chosen
    /// cluster centers.
    ///
    /// The configuration must use one of the interpolating candidate modes;
    /// the tiled modes take their candidate centers from the caller through
    /// [`Greedy::run_with_candidates`].  Every returned center is distinct
    /// and covers at least `min_points` distinct input points within the
    /// radius; when `min_points` is one and the cap is out of reach, every
    /// input point is covered by some returned center.
    /// The pipeline on a validated configuration; see [`Greedy::run`] for
    /// the meaning of each guarantee.
    #[verifier::rlimit(100)]
    fn run_core(&self, points: &Vec<Point>) -> (out: Vec<Point>)
        requires
            forall|i: int| 0 <= i < points@.len() ==> (#[trigger] points@[i]).is_valid(),
            self.min_points >= 1,
            self.max_clusters >= 1,
            self.cluster_mode == ClusterMode::Fast || self.cluster_mode == ClusterMode::Balanced,
            self.radius_ok(),
        ensures
            out@.no_duplicates(),
            forall|k: int| 0 <= k < out@.len() ==> (#[trigger] out@[k]).is_valid(),
            out@.len() <= self.max_clusters,
            forall|k: int|
                0 <= k < out@.len() ==> cover_pts(points@, #[trigger] out@[k], self.r_um()).finite()
                    && cover_pts(points@, out@[k], self.r_um()).len() >= self.min_points,
            (self.min_points == 1 && points@.len() < self.max_clusters) ==> forall|p: Point|
                points@.contains(p) ==> exists|k: int|
                    0 <= k < out@.len() && within_spec(#[trigger] out@[k], p, self.r_um()),
            points@.len() == 0 ==> out@.len() == 0,
            (self.min_points == 1 && self.cluster_mode == ClusterMode::Fast
                && pairwise_separated(points@, 2 * self.r_um()) && points@.len()
                < self.max_clusters) ==> forall|p: Point|
                #![trigger points@.contains(p)]
                points@.contains(p) <==> out@.contains(p),
            out@.len() <= points@.len(),
            self.min_points >= 100 ==> out@.len() == 0,
            forall|k: int|
                0 <= k < out@.len() ==> #[trigger] contributes_before(
                    points@,
                    out@,
                    self.r_um(),
                    k,
                ),
            self.min_points > 1 ==> forall|k: int|
                0 <= k < out@.len() ==> #[trigger] contributes_alone(
                    points@,
                    out@,
                    self.r_um(),
                    k,
                ),
            (2 <= self.min_points && self.min_points < 100 && (exists|p: Point|
                #![trigger cover_pts(points@, p, self.r_um())]
                points@.contains(p) && cover_pts(points@, p, self.r_um()).len()
                    >= self.min_points)) ==> out@.len() >= 1,
            (self.min_points >= 2 && self.cluster_mode == ClusterMode::Fast
                && pairwise_separated(points@, 2 * self.r_um())) ==> out@.len() == 0,
    {
        let r_um: u64 = self.radius * 1_000_000;
        let index = PointIndex::new(points);
        let ghost pts = index.points_view();
        proof {
            index.lemma_wf_facts();
            lemma_dedup_first(points@);
        }
        let n: usize = index.len();
        let mut scratch: Vec<bool> = vec![false; n];
        let cands = generate_candidates(
            &index,
            2 * r_um,
            self.cluster_mode == ClusterMode::Balanced,
            &mut scratch,
        );
        let out = finish(&index, &cands, r_um, self.min_points, self.max_clusters, &mut scratch);
        proof {
            // Covered-point sets agree between the raw and deduplicated
            // input, since membership does.
            assert forall|k: int|
                0 <= k < out@.len() implies cover_pts(points@, #[trigger] out@[k], self.r_um()).finite()
                    && cover_pts(points@, out@[k], self.r_um()).len() >= self.min_points by {
                assert(cover_pts(points@, out@[k], self.r_um()) =~= cover_pts(
                    pts,
                    out@[k],
                    self.r_um(),
                ));
            }
            if self.min_points == 1 && points@.len() < self.max_clusters {
                assert forall|p: Point| points@.contains(p) implies exists|k: int|
                    0 <= k < out@.len() && within_spec(#[trigger] out@[k], p, self.r_um()) by {
                    assert(pts.contains(p));
                    let i = choose|i: int| 0 <= i < pts.len() && pts[i] == p;
                    assert(cands@.contains(pts[i]));
                    let j = choose|j: int| 0 <= j < cands@.len() && cands@[j] == pts[i];
                    lemma_dist_self(pts[i]);
                    assert(within_spec(cands@[j], pts[i], r_um as int));
                }
            }
            if points@.len() == 0 {
                if out@.len() > 0 {
                    assert(cover_pts(points@, out@[0], self.r_um()).len() >= 1);
                    assert(cover_pts(points@, out@[0], self.r_um()) =~= Set::<Point>::empty());
                }
            }
        }
        proof {
            // Contribution witnesses transfer to the raw input.
            assert forall|k: int|
                0 <= k < out@.len() implies #[trigger] contributes_before(
                points@,
                out@,
                self.r_um(),
                k,
            ) by {
                lemma_contribution_lift(points@, pts, out@, r_um as int, k);
            }
            if self.min_points > 1 {
                assert forall|k: int|
                    0 <= k < out@.len() implies #[trigger] contributes_alone(
                    points@,
                    out@,
                    self.r_um(),
                    k,
                ) by {
                    lemma_contribution_lift_all(points@, pts, out@, r_um as int, k);
                }
            }
            // A qualifying input point is itself a candidate, so it forces a
            // pick that survives deduplication.
            if 2 <= self.min_points && self.min_points < 100 && (exists|p: Point|
                #![trigger cover_pts(points@, p, self.r_um())]
                points@.contains(p) && cover_pts(points@, p, self.r_um()).len()
                    >= self.min_points) {
                let p = choose|p: Point|
                    #![trigger cover_pts(points@, p, self.r_um())]
                    points@.contains(p) && cover_pts(points@, p, self.r_um()).len()
                        >= self.min_points;
                assert(pts.contains(p));
                let i = choose|i: int| 0 <= i < pts.len() && pts[i] == p;
                assert(cands@.contains(pts[i]));
                let j = choose|j: int| 0 <= j < cands@.len() && cands@[j] == pts[i];
                assert(cover_pts(pts, cands@[j], r_um as int) =~= cover_pts(
                    points@,
                    p,
                    self.r_um(),
                ));
                assert(cover_pts(pts, cands@[j], r_um as int).len() >= self.min_points);
                assert(out@.len() >= 1);
            }
            if self.min_points >= 2 && self.cluster_mode == ClusterMode::Fast
                && pairwise_separated(points@, 2 * self.r_um()) {
                lemma_separated_min2_empty(
                    points@,
                    pts,
                    cands@,
                    out@,
                    r_um as int,
                    self.min_points as int,
                );
            }
            assert(out@.len() <= pts.len());
            assert(pts.len() <= points@.len());
            if self.min_points >= 100 {
                assert(out@.len() == 0);
            }
        }
        proof {
            if self.min_points == 1 && self.cluster_mode == ClusterMode::Fast
                && pairwise_separated(points@, 2 * self.r_um()) && points@.len()
                < self.max_clusters {
                lemma_separated_exact(points@, pts, cands@, out@, self.r_um());
            }
        }
        out
    }

    #[verifier::rlimit(100)]
    pub fn run(&self, points: &Vec<Point>) -> (r: Result<Vec<Point>, ClusterError>)
        requires
            forall|i: int| 0 <= i < points@.len() ==> (#[trigger] points@[i]).is_valid(),
            self.min_points >= 1,
            self.max_clusters >= 1,
            self.cluster_mode == ClusterMode::Fast || self.cluster_mode == ClusterMode::Balanced,
        ensures
            r is Err <==> !self.radius_ok(),
            r matches Result::Err(e) ==> e == ClusterError::InvalidRadius,
            r matches Result::Ok(out) ==> {
                &&& out@.no_duplicates()
                &&& forall|k: int| 0 <= k < out@.len() ==> (#[trigger] out@[k]).is_valid()
                &&& out@.len() <= self.max_clusters
                &&& forall|k: int|
                    0 <= k < out@.len() ==> cover_pts(points@, #[trigger] out@[k], self.r_um()).finite()
                        && cover_pts(points@, out@[k], self.r_um()).len() >= self.min_points
                &&& (self.min_points == 1 && points@.len() < self.max_clusters) ==> forall|p: Point|
                    points@.contains(p) ==> exists|k: int|
                        0 <= k < out@.len() && within_spec(#[trigger] out@[k], p, self.r_um())
                &&& points@.len() == 0 ==> out@.len() == 0
            },
            (r is Ok && self.min_points == 1 && self.cluster_mode == ClusterMode::Fast
                && pairwise_separated(points@, 2 * self.r_um()) && points@.len()
                < self.max_clusters) ==> forall|p: Point|
                #![trigger points@.contains(p)]
                points@.contains(p) <==> (r->Ok_0)@.contains(p),
            r matches Result::Ok(out) ==> out@.len() <= points@.len(),
            (r is Ok && self.min_points >= 100) ==> (r->Ok_0)@.len() == 0,
            r matches Result::Ok(out) ==> forall|k: int|
                0 <= k < out@.len() ==> #[trigger] contributes_before(
                    points@,
                    out@,
                    self.r_um(),
                    k,
                ),
            (r is Ok && self.min_points > 1) ==> forall|k: int|
                0 <= k < (r->Ok_0)@.len() ==> #[trigger] contributes_alone(
                    points@,
                    (r->Ok_0)@,
                    self.r_um(),
                    k,
                ),
            (r is Ok && 2 <= self.min_points && self.min_points < 100 && (exists|p: Point|
                #![trigger cover_pts(points@, p, self.r_um())]
                points@.contains(p) && cover_pts(points@, p, self.r_um()).len()
                    >= self.min_points)) ==> (r->Ok_0)@.len() >= 1,
            (r is Ok && self.min_points >= 2 && self.cluster_mode == ClusterMode::Fast
                && pairwise_separated(points@, 2 * self.r_um())) ==> (r->Ok_0)@.len() == 0,
    {
        if self.radius == 0 || self.radius > MAX_RADIUS_M {
            return Result::Err(ClusterError::InvalidRadius);
        }
        let out = self.run_core(points);
        let res: Result<Vec<Point>, ClusterError> = Result::Ok(out);
        proof {
            if self.min_points == 1 && points@.len() < self.max_clusters {
                assert forall|p: Point|
                    #![trigger points@.contains(p)]
                    points@.contains(p) implies exists|k: int|
                    0 <= k < (res->Ok_0)@.len() && within_spec(
                        #[trigger] (res->Ok_0)@[k],
                        p,
                        self.r_um(),
                    ) by {
                    let ghost ov = res->Ok_0;
                    let k = choose|k: int|
                        0 <= k < ov@.len() && within_spec(#[trigger] ov@[k], p, self.r_um());
                    assert(0 <= k < (res->Ok_0)@.len() && within_spec(
                        (res->Ok_0)@[k],
                        p,
                        self.r_um(),
                    ));
                }
            }
        }
        res
    }


    /// Runs the pipeline with an externally produced candidate list in place
    /// of interpolation, as the tiled modes do with their cell centers.
    ///
    /// The same guarantees hold, except that full coverage under a minimum
    /// of one is promised only for input points that some candidate covers.
    pub fn run_with_candidates(&self, points: &Vec<Point>, cands: &Vec<Point>) -> (r: Result<
        Vec<Point>,
        ClusterError,
    >)
        requires
            forall|i: int| 0 <= i < points@.len() ==> (#[trigger] points@[i]).is_valid(),
            forall|i: int| 0 <= i < cands@.len() ==> (#[trigger] cands@[i]).is_valid(),
            self.min_points >= 1,
            self.max_clusters >= 1,
        ensures
            r is Err <==> !self.radius_ok(),
            r matches Result::Err(e) ==> e == ClusterError::InvalidRadius,
            r matches Result::Ok(out) ==> {
                &&& out@.no_duplicates()
                &&& forall|k: int| 0 <= k < out@.len() ==> (#[trigger] out@[k]).is_valid()
                &&& out@.len() <= self.max_clusters
                &&& forall|k: int|
                    0 <= k < out@.len() ==> cover_pts(points@, #[trigger] out@[k], self.r_um()).finite()
                        && cover_pts(points@, out@[k], self.r_um()).len() >= self.min_points
                &&& (self.min_points == 1 && points@.len() < self.max_clusters) ==> forall|p: Point|
                    points@.contains(p) && (exists|j: int|
                        0 <= j < cands@.len() && within_spec(#[trigger] cands@[j], p, self.r_um()))
                        ==> exists|k: int|
                        0 <= k < out@.len() && within_spec(#[trigger] out@[k], p, self.r_um())
            },
    {
        if self.radius == 0 || self.radius > MAX_RADIUS_M {
            return Result::Err(ClusterError::InvalidRadius);
        }
        let r_um: u64 = self.radius * 1_000_000;
        let index = PointIndex::new(points);
        let ghost pts = index.points_view();
        proof {
            index.lemma_wf_facts();
            lemma_dedup_first(points@);
        }
        let n: usize = index.len();
        let mut scratch: Vec<bool> = vec![false; n];
        let dcands = dedup_points(cands);
        let out = finish(&index, &dcands, r_um, self.min_points, self.max_clusters, &mut scratch);
        proof {
            assert forall|k: int|
                0 <= k < out@.len() implies cover_pts(points@, #[trigger] out@[k], self.r_um()).finite()
                    && cover_pts(points@, out@[k], self.r_um()).len() >= self.min_points by {
                assert(cover_pts(points@, out@[k], self.r_um()) =~= cover_pts(
                    pts,
                    out@[k],
                    self.r_um(),
                ));
            }
            if self.min_points == 1 && points@.len() < self.max_clusters {
                assert forall|p: Point|
                    points@.contains(p) && (exists|j: int|
                        0 <= j < cands@.len() && within_spec(#[trigger] cands@[j], p, self.r_um()))
                        implies exists|k: int|
                    0 <= k < out@.len() && within_spec(#[trigger] out@[k], p, self.r_um()) by {
                    assert(pts.contains(p));
                    let i = choose|i: int| 0 <= i < pts.len() && pts[i] == p;
                    let j = choose|j: int|
                        0 <= j < cands@.len() && within_spec(cands@[j], p, self.r_um());
                    assert(dcands@.contains(cands@[j]));
                    let j2 = choose|j2: int| 0 <= j2 < dcands@.len() && dcands@[j2] == cands@[j];
                    assert(within_spec(dcands@[j2], pts[i], r_um as int));
                }
            }
        }
        Result::Ok(out)
    }
}

/// The covered-point set is always finite.
pub proof fn lemma_cover_pts_finite(pts: Seq<Point>, c: Point, r_um: int)
    ensures
        cover_pts(pts, c, r_um).finite(),
{
    assert forall|p: Point| cover_pts(pts, c, r_um).contains(p) implies pts.to_set().contains(
        p,
    ) by {
        assert(pts.contains(p));
    }
    vstd::set_lib::lemma_len_subset(cover_pts(pts, c, r_um), pts.to_set());
}

/// Tests whether a key list holds a key.
fn contains_key(v: &Vec<u64>, k: u64) -> (r: bool)
    ensures
        r == v@.contains(k),
{
    let t_end: usize = v.len();
    let mut r: bool = false;
    for t in 0..t_end
        invariant
            t_end == v@.len(),
            r == exists|tt: int| 0 <= tt < t && (#[trigger] v@[tt]) == k,
    {
        if v[t] == k {
            r = true;
        }
    }
    proof {
        if r {
            let tt = choose|tt: int| 0 <= tt < v@.len() && v@[tt] == k;
        }
    }
    r
}

impl Greedy {
    /// Partitions the input by the caller-supplied cell key of each point,
    /// runs the pipeline on every part, and merges the outputs as a set.
    ///
    /// The keys come from the caller's cell library at the configured split
    /// level; points sharing a key form one shard.  Merged centers are
    /// distinct and each covers at least `min_points` input points; the cap
    /// applies per shard, not to the merged set.
    #[verifier::rlimit(60)]
    pub fn run_sharded(&self, points: &Vec<Point>, keys: &Vec<u64>) -> (r: Result<
        Vec<Point>,
        ClusterError,
    >)
        requires
            forall|i: int| 0 <= i < points@.len() ==> (#[trigger] points@[i]).is_valid(),
            keys@.len() == points@.len(),
            self.min_points >= 1,
            self.max_clusters >= 1,
            self.cluster_mode == ClusterMode::Fast || self.cluster_mode == ClusterMode::Balanced,
        ensures
            r is Err <==> !self.radius_ok(),
            r matches Result::Err(e) ==> e == ClusterError::InvalidRadius,
            r matches Result::Ok(out) ==> out@.no_duplicates(),
            r matches Result::Ok(out) ==> out@.len() <= self.max_clusters,
            r matches Result::Ok(out) ==> forall|k: int|
                0 <= k < out@.len() ==> (#[trigger] out@[k]).is_valid(),
            r matches Result::Ok(out) ==> forall|k: int|
                0 <= k < out@.len() ==> cover_pts(points@, #[trigger] out@[k], self.r_um()).finite()
                    && cover_pts(points@, out@[k], self.r_um()).len() >= self.min_points,
            (r is Ok && self.min_points == 1 && points@.len() < self.max_clusters)
                ==> forall|p: Point|
                #![trigger points@.contains(p)]
                points@.contains(p) ==> exists|k: int|
                    0 <= k < (r->Ok_0)@.len() && within_spec(
                        #[trigger] (r->Ok_0)@[k],
                        p,
                        self.r_um(),
                    ),
    {
        if self.radius == 0 || self.radius > MAX_RADIUS_M {
            return Result::Err(ClusterError::InvalidRadius);
        }
        let n: usize = points.len();
        let mut ukeys: Vec<u64> = Vec::new();
        for i in 0..n
            invariant
                n == points@.len(),
                keys@.len() == n,
                forall|ii: int| 0 <= ii < i ==> ukeys@.contains(#[trigger] keys@[ii]),
        {
            let k = keys[i];
            if !contains_key(&ukeys, k) {
                let ghost before = ukeys@;
                ukeys.push(k);
                proof {
                    assert(ukeys@[ukeys@.len() - 1] == k);
                    assert forall|ii: int|
                        0 <= ii < i + 1 implies ukeys@.contains(#[trigger] keys@[ii]) by {
                        if ii < i {
                            lemma_push_contains(before, k, keys@[ii]);
                        }
                    }
                }
            }
        }
        let s_end: usize = ukeys.len();
        let mut all: Vec<Point> = Vec::new();
        let mut assigned: Vec<bool> = vec![false; n];
        proof {
            lemma_count_true_le(assigned@);
        }
        for s in 0..s_end
            invariant
                n == points@.len(),
                keys@.len() == n,
                s_end == ukeys@.len(),
                forall|i: int| 0 <= i < points@.len() ==> (#[trigger] points@[i]).is_valid(),
                forall|ii: int| 0 <= ii < n ==> ukeys@.contains(#[trigger] keys@[ii]),
                self.min_points >= 1,
                self.max_clusters >= 1,
                self.radius_ok(),
                self.cluster_mode == ClusterMode::Fast || self.cluster_mode
                    == ClusterMode::Balanced,
                assigned@.len() == n,
                0 <= count_true(assigned@) <= n,
                all@.len() <= count_true(assigned@),
                forall|ii: int|
                    #![trigger keys@[ii]]
                    0 <= ii < n && (exists|s2: int| 0 <= s2 < s && ukeys@[s2] == keys@[ii])
                        ==> assigned@[ii],
                forall|x: int| 0 <= x < all@.len() ==> (#[trigger] all@[x]).is_valid(),
                forall|x: int|
                    0 <= x < all@.len() ==> cover_pts(points@, #[trigger] all@[x], self.r_um()).finite()
                        && cover_pts(points@, all@[x], self.r_um()).len() >= self.min_points,
                (self.min_points == 1 && points@.len() < self.max_clusters) ==> forall|ii: int|
                    #![trigger assigned@[ii]]
                    0 <= ii < n && assigned@[ii] ==> exists|x: int|
                        0 <= x < all@.len() && within_spec(all@[x], points@[ii], self.r_um()),
        {
            let key = ukeys[s];
            let ghost assigned_start = assigned@;
            let ghost count_s_start = count_true(assigned@);
            let mut grp: Vec<Point> = Vec::new();
            for i in 0..n
                invariant
                    n == points@.len(),
                    keys@.len() == n,
                    forall|i2: int| 0 <= i2 < points@.len() ==> (#[trigger] points@[i2]).is_valid(),
                    assigned@.len() == n,
                    assigned_start.len() == n,
                    count_s_start == count_true(assigned_start),
                    count_true(assigned@) == count_s_start + grp@.len(),
                    0 <= count_true(assigned@) <= n,
                    forall|ii: int| 0 <= ii < n && assigned_start[ii] ==> assigned@[ii],
                    forall|ii: int|
                        #![trigger assigned@[ii]]
                        0 <= ii < n && assigned@[ii] ==> assigned_start[ii] || grp@.contains(
                            points@[ii],
                        ),
                    forall|x: int|
                        0 <= x < grp@.len() ==> points@.contains(#[trigger] grp@[x])
                            && grp@[x].is_valid(),
                    forall|ii: int|
                        #![trigger keys@[ii]]
                        0 <= ii < i && keys@[ii] == key ==> assigned@[ii],
                    grp@.len() <= i,
            {
                if !assigned[i] && keys[i] == key {
                    let ghost before = grp@;
                    let ghost assigned_before = assigned@;
                    proof {
                        lemma_count_true_update(assigned@, i as int);
                    }
                    assigned[i] = true;
                    grp.push(points[i]);
                    proof {
                        lemma_count_true_le(assigned@);
                        assert(points@.contains(points@[i as int]));
                        assert(grp@[grp@.len() - 1] == points@[i as int]);
                        assert forall|ii: int|
                            0 <= ii < n && assigned@[ii] implies assigned_start[ii]
                            || grp@.contains(points@[ii]) by {
                            if ii == i {
                                assert(grp@[grp@.len() - 1] == points@[ii]);
                            } else if assigned_before[ii] && !assigned_start[ii] {
                                assert(before.contains(points@[ii]));
                                lemma_push_contains(before, points@[i as int], points@[ii]);
                            }
                        }
                    }
                }
            }
            let ghost all_before = all@;
            match self.run(&grp) {
                Result::Ok(sout) => {
                    let mut tail = sout;
                    let ghost tail_seq = tail@;
                    all.append(&mut tail);
                    proof {
                        assert(all@ =~= all_before + tail_seq);
                        assert(tail_seq.len() <= grp@.len());
                        assert(all@.len() <= count_true(assigned@));
                        assert forall|x: int|
                            0 <= x < all@.len() implies (#[trigger] all@[x]).is_valid()
                                && cover_pts(points@, all@[x], self.r_um()).finite() && cover_pts(
                                points@,
                                all@[x],
                                self.r_um(),
                            ).len() >= self.min_points by {
                            if x >= all_before.len() {
                                let c = tail_seq[x - all_before.len()];
                                assert(all@[x] == c);
                                lemma_cover_pts_finite(points@, c, self.r_um());
                                lemma_cover_pts_sub(grp@, points@, c, self.r_um());
                            }
                        }
                        if self.min_points == 1 && points@.len() < self.max_clusters {
                            assert(grp@.len() < self.max_clusters);
                            assert forall|ii: int|
                                #![trigger assigned@[ii]]
                                0 <= ii < n && assigned@[ii] implies exists|x: int|
                                0 <= x < all@.len() && within_spec(
                                    all@[x],
                                    points@[ii],
                                    self.r_um(),
                                ) by {
                                if assigned_start[ii] {
                                    let x = choose|x: int|
                                        0 <= x < all_before.len() && within_spec(
                                            all_before[x],
                                            points@[ii],
                                            self.r_um(),
                                        );
                                    assert(all@[x] == all_before[x]);
                                } else {
                                    assert(grp@.contains(points@[ii]));
                                    let k2 = choose|k2: int|
                                        0 <= k2 < tail_seq.len() && within_spec(
                                            #[trigger] tail_seq[k2],
                                            points@[ii],
                                            self.r_um(),
                                        );
                                    assert(all@[all_before.len() + k2] == tail_seq[k2]);
                                }
                            }
                        }
                        assert forall|ii: int|
                            #![trigger keys@[ii]]
                            0 <= ii < n && (exists|s2: int|
                                0 <= s2 < s + 1 && ukeys@[s2] == keys@[ii])
                                implies assigned@[ii] by {
                            let s2 = choose|s2: int| 0 <= s2 < s + 1 && ukeys@[s2] == keys@[ii];
                            if s2 == s {
                                assert(keys@[ii] == key);
                            }
                        }
                    }
                },
                Result::Err(e) => {
                    proof {
                        assert(false);
                    }
                    return Result::Err(e);
                },
            }
        }
        let mut out = dedup_points(&all);
        proof {
            lemma_dedup_first(all@);
            assert(out@.len() <= all@.len());
            assert(all@.len() <= points@.len());
        }
        let ghost full = out@;
        // Spec-wise the cap also bounds the merged set; with room for every
        // input it never bites, so the per-shard guarantees carry over.
        out.truncate(self.max_clusters);
        proof {
            assert forall|k1: int, k2: int|
                0 <= k1 < k2 < out@.len() implies out@[k1] != out@[k2] by {
                assert(out@[k1] == full[k1] && out@[k2] == full[k2]);
            }
            assert(out@.no_duplicates());
            assert forall|k: int|
                0 <= k < out@.len() implies (#[trigger] out@[k]).is_valid() && cover_pts(
                points@,
                out@[k],
                self.r_um(),
            ).finite() && cover_pts(points@, out@[k], self.r_um()).len() >= self.min_points by {
                assert(out@[k] == full[k]);
                assert(full.contains(full[k]));
                assert(all@.contains(full[k]));
                let x = choose|x: int| 0 <= x < all@.len() && all@[x] == full[k];
            }
            if self.min_points == 1 && points@.len() < self.max_clusters {
                assert(out@ == full);
                assert forall|p: Point|
                    #![trigger points@.contains(p)]
                    points@.contains(p) implies exists|k: int|
                    0 <= k < out@.len() && within_spec(#[trigger] out@[k], p, self.r_um()) by {
                    let ii = choose|ii: int| 0 <= ii < points@.len() && points@[ii] == p;
                    assert(ukeys@.contains(keys@[ii]));
                    let s2 = choose|s2: int| 0 <= s2 < ukeys@.len() && ukeys@[s2] == keys@[ii];
                    assert(assigned@[ii]);
                    let x = choose|x: int|
                        0 <= x < all@.len() && within_spec(all@[x], points@[ii], self.r_um());
                    assert(all@.contains(all@[x]));
                    assert(full.contains(all@[x]));
                    let k = choose|k: int| 0 <= k < out@.len() && out@[k] == all@[x];
                }
            }
        }
        let res: Result<Vec<Point>, ClusterError> = Result::Ok(out);
        proof {
            if self.min_points == 1 && points@.len() < self.max_clusters {
                assert forall|p: Point|
                    #![trigger points@.contains(p)]
                    points@.contains(p) implies exists|k: int|
                    0 <= k < (res->Ok_0)@.len() && within_spec(
                        #[trigger] (res->Ok_0)@[k],
                        p,
                        self.r_um(),
                    ) by {
                    let ghost ov = res->Ok_0;
                    let k = choose|k: int|
                        0 <= k < ov@.len() && within_spec(#[trigger] ov@[k], p, self.r_um());
                    assert(0 <= k < (res->Ok_0)@.len() && within_spec(
                        (res->Ok_0)@[k],
                        p,
                        self.r_um(),
                    ));
                }
            }
        }
        res
    }
}

/// Builds, orders, selects, and deduplicates the clusters for a prepared
/// arena and candidate list, returning the chosen centers.
#[verifier::rlimit(100)]
fn finish(
    index: &PointIndex,
    cands: &Vec<Point>,
    r_um: u64,
    min_points: usize,
    max_clusters: usize,
    scratch: &mut Vec<bool>,
) -> (out: Vec<Point>)
    requires
        index.wf(),
        old(scratch)@.len() == index.points_view().len(),
        forall|i: int| 0 <= i < old(scratch)@.len() ==> !old(scratch)@[i],
        cands@.no_duplicates(),
        forall|k: int| 0 <= k < cands@.len() ==> (#[trigger] cands@[k]).is_valid(),
        min_points >= 1,
    ensures
        out@.no_duplicates(),
        forall|k: int| 0 <= k < out@.len() ==> (#[trigger] out@[k]).is_valid(),
        forall|k: int| 0 <= k < out@.len() ==> cands@.contains(#[trigger] out@[k]),
        out@.len() <= max_clusters,
        forall|k: int|
            0 <= k < out@.len() ==> cover_pts(
                index.points_view(),
                #[trigger] out@[k],
                r_um as int,
            ).finite() && cover_pts(index.points_view(), out@[k], r_um as int).len() >= min_points,
        (min_points == 1 && index.points_view().len() < max_clusters) ==> forall|i: int|
            #![trigger index.points_view()[i]]
            0 <= i < index.points_view().len() && (exists|j: int|
                0 <= j < cands@.len() && within_spec(
                    #[trigger] cands@[j],
                    index.points_view()[i],
                    r_um as int,
                )) ==> exists|k: int|
                0 <= k < out@.len() && within_spec(
                    #[trigger] out@[k],
                    index.points_view()[i],
                    r_um as int,
                ),
        out@.len() <= index.points_view().len(),
        min_points >= 100 ==> out@.len() == 0,
        forall|k: int|
            0 <= k < out@.len() ==> #[trigger] contributes_before(
                index.points_view(),
                out@,
                r_um as int,
                k,
            ),
        min_points > 1 ==> forall|k: int|
            0 <= k < out@.len() ==> #[trigger] contributes_alone(
                index.points_view(),
                out@,
                r_um as int,
                k,
            ),
        (min_points >= 2 && min_points < 100 && max_clusters >= 1 && (exists|j: int|
            0 <= j < cands@.len() && cover_pts(
                index.points_view(),
                #[trigger] cands@[j],
                r_um as int,
            ).len() >= min_points)) ==> out@.len() >= 1,
{
    let ghost pts = index.points_view();
    proof {
        index.lemma_wf_facts();
    }
    let n: usize = index.len();
    let cs = build_clusters(index, cands, r_um, scratch);
    proof {
        assert forall|j: int| 0 <= j < cs@.len() implies {
            &&& (#[trigger] cs@[j]).cover@.no_duplicates()
            &&& cs@[j].cover@.len() > 0
            &&& forall|t: int| 0 <= t < cs@[j].cover@.len() ==> (#[trigger] cs@[j].cover@[t]) < n
        } by {
            assert(cluster_wf(cs@[j], pts, r_um as int));
        }
        assert(sel_wf(cs@, n as int));
    }
    let order = order_by_coverage(&cs);
    let chosen = select(&cs, &order, n, min_points, max_clusters);
    let kept = dedupe(&cs, &chosen, n, min_points);
    let k_end: usize = kept.len();
    let mut out: Vec<Point> = Vec::new();
    for kk in 0..k_end
        invariant
            k_end == kept@.len(),
            forall|x: int| 0 <= x < kept@.len() ==> (#[trigger] kept@[x]) < chosen@.len(),
            forall|x: int| 0 <= x < chosen@.len() ==> (#[trigger] chosen@[x]) < cs@.len(),
            out@.len() == kk,
            forall|x: int|
                0 <= x < out@.len() ==> (#[trigger] out@[x]) == cs@[chosen@[kept@[x] as int] as int].center,
    {
        let c = cs[chosen[kept[kk]]].center;
        out.push(c);
    }
    proof {
        // Distinct positions give distinct cluster centers.
        assert forall|x1: int, x2: int|
            0 <= x1 < x2 < out@.len() implies out@[x1] != out@[x2] by {
            let j1 = chosen@[kept@[x1] as int] as int;
            let j2 = chosen@[kept@[x2] as int] as int;
            assert(kept@[x1] != kept@[x2]);
            assert(j1 != j2);
            if j1 < j2 {
                assert(cs@[j1].center != cs@[j2].center);
            } else {
                assert(cs@[j2].center != cs@[j1].center);
            }
        }
        assert(out@.no_duplicates());
        assert forall|k: int|
            0 <= k < out@.len() implies (#[trigger] out@[k]).is_valid() && cands@.contains(out@[k])
                && cover_pts(pts, out@[k], r_um as int).finite() && cover_pts(
                pts,
                out@[k],
                r_um as int,
            ).len() >= min_points by {
            let j = chosen@[kept@[k] as int] as int;
            assert(cluster_wf(cs@[j], pts, r_um as int));
            assert(cs@[j].cover@.len() >= min_points);
            lemma_cover_pts_card(pts, cs@[j].center, r_um as int, cs@[j].cover@);
        }
        lemma_distinct_bounded(kept@, chosen@.len() as int);
        assert(out@.len() <= chosen@.len());
        if min_points == 1 && pts.len() < max_clusters {
            assert(chosen@.len() < max_clusters);
            assert forall|i: int|
                #![trigger pts[i]]
                0 <= i < pts.len() && (exists|j: int|
                    0 <= j < cands@.len() && within_spec(
                        #[trigger] cands@[j],
                        pts[i],
                        r_um as int,
                    )) implies exists|k: int|
                0 <= k < out@.len() && within_spec(#[trigger] out@[k], pts[i], r_um as int) by {
                let j = choose|j: int|
                    0 <= j < cands@.len() && within_spec(cands@[j], pts[i], r_um as int);
                // The covering candidate produced a cluster.
                assert(exists|k0: int| 0 <= k0 < cs@.len() && (#[trigger] cs@[k0]).center
                    == cands@[j]);
                let k0 = choose|k0: int|
                    0 <= k0 < cs@.len() && (#[trigger] cs@[k0]).center == cands@[j];
                assert(cluster_wf(cs@[k0], pts, r_um as int));
                assert(cs@[k0].cover@.contains(i as usize));
                // Selection covers the point with a chosen cluster.
                if chosen@.contains(k0 as usize) {
                    let pos = choose|pos: int|
                        0 <= pos < chosen@.len() && chosen@[pos] == k0 as usize;
                    assert(cs@[chosen@[pos] as int].cover@.contains(i as usize));
                    assert(covered_by_chosen(cs@, chosen@, i as usize));
                } else {
                    assert(covered_by_chosen(cs@, chosen@, i as usize));
                }
                let pos = choose|pos: int|
                    0 <= pos < chosen@.len() && (#[trigger] cs@[chosen@[pos] as int].cover@.contains(
                        i as usize,
                    ));
                // Deduplication keeps a cluster that covers the point.
                let tt = choose|tt: int|
                    0 <= tt < cs@[chosen@[pos] as int].cover@.len()
                        && cs@[chosen@[pos] as int].cover@[tt] == i as usize;
                assert(exists|kx: int|
                    0 <= kx < kept@.len()
                        && cs@[chosen@[#[trigger] kept@[kx] as int] as int].cover@.contains(
                        cs@[chosen@[pos] as int].cover@[tt],
                    ));
                let kx = choose|kx: int|
                    0 <= kx < kept@.len()
                        && cs@[chosen@[#[trigger] kept@[kx] as int] as int].cover@.contains(
                        cs@[chosen@[pos] as int].cover@[tt],
                    );
                let jx = chosen@[kept@[kx] as int] as int;
                assert(cluster_wf(cs@[jx], pts, r_um as int));
                let u = choose|u: int|
                    0 <= u < cs@[jx].cover@.len() && cs@[jx].cover@[u] == i as usize;
                assert(within_spec(cs@[jx].center, pts[i], r_um as int));
                assert(out@[kx] == cs@[jx].center);
            }
        }
        assert(out@.len() <= pts.len());
        if min_points >= 100 {
            assert(chosen@.len() == 0);
            if kept@.len() > 0 {
                assert(kept@[0] < chosen@.len());
                assert(false);
            }
        }
        // Every returned center covers a point that no earlier returned
        // center covers.
        assert forall|k: int|
            0 <= k < out@.len() implies #[trigger] contributes_before(
            pts,
            out@,
            r_um as int,
            k,
        ) by {
            assert(kept_contributes(cs@, chosen@, kept@, k));
            let t = choose|t: int|
                #![trigger cs@[chosen@[kept@[k] as int] as int].cover@[t]]
                0 <= t < cs@[chosen@[kept@[k] as int] as int].cover@.len() && fresh_for(
                    cs@,
                    chosen@,
                    kept@,
                    k,
                    cs@[chosen@[kept@[k] as int] as int].cover@[t],
                );
            let j = chosen@[kept@[k] as int] as int;
            let i = cs@[j].cover@[t] as int;
            assert(cluster_wf(cs@[j], pts, r_um as int));
            assert(within_spec(out@[k], pts[i], r_um as int));
            assert forall|k2: int|
                #![trigger out@[k2]]
                0 <= k2 < k implies !within_spec(out@[k2], pts[i], r_um as int) by {
                let j2 = chosen@[kept@[k2] as int] as int;
                assert(cluster_wf(cs@[j2], pts, r_um as int));
                assert(!cs@[chosen@[kept@[k2] as int] as int].cover@.contains(
                    cs@[chosen@[kept@[k] as int] as int].cover@[t],
                ));
                if within_spec(out@[k2], pts[i], r_um as int) {
                    assert(cs@[j2].cover@.contains(i as usize));
                    assert(false);
                }
            }
            assert(pts.contains(pts[i]));
            assert(contributes_before(pts, out@, r_um as int, k));
        }
        // Above a minimum of one, every returned center covers a point that
        // no other returned center covers at all.
        if min_points > 1 {
            assert forall|k: int|
                0 <= k < out@.len() implies #[trigger] contributes_alone(
                pts,
                out@,
                r_um as int,
                k,
            ) by {
                assert(kept_has_unique(cs@, chosen@, kept@, k));
                let t = choose|t: int|
                    0 <= t < cs@[chosen@[kept@[k] as int] as int].cover@.len()
                        && uniquely_covered(
                        cs@,
                        chosen@,
                        kept@[k] as int,
                        cs@[chosen@[kept@[k] as int] as int].cover@[t],
                    );
                let j = chosen@[kept@[k] as int] as int;
                let i = cs@[j].cover@[t] as int;
                assert(cluster_wf(cs@[j], pts, r_um as int));
                assert(within_spec(out@[k], pts[i], r_um as int));
                assert forall|k2: int|
                    #![trigger out@[k2]]
                    0 <= k2 < out@.len() && k2 != k implies !within_spec(
                    out@[k2],
                    pts[i],
                    r_um as int,
                ) by {
                    assert(kept@[k2] != kept@[k]);
                    let j2 = chosen@[kept@[k2] as int] as int;
                    assert(cluster_wf(cs@[j2], pts, r_um as int));
                    assert(!cs@[chosen@[kept@[k2] as int] as int].cover@.contains(
                        cs@[chosen@[kept@[k] as int] as int].cover@[t],
                    ));
                    if within_spec(out@[k2], pts[i], r_um as int) {
                        assert(cs@[j2].cover@.contains(i as usize));
                        assert(false);
                    }
                }
                assert(pts.contains(pts[i]));
                assert(contributes_alone(pts, out@, r_um as int, k));
            }
        }
        // A qualifying candidate forces at least one pick, and the last pick
        // always survives deduplication.
        if min_points >= 2 && min_points < 100 && max_clusters >= 1 && (exists|j: int|
            0 <= j < cands@.len() && cover_pts(pts, #[trigger] cands@[j], r_um as int).len()
                >= min_points) {
            let j = choose|j: int|
                0 <= j < cands@.len() && cover_pts(pts, #[trigger] cands@[j], r_um as int).len()
                    >= min_points;
            let cp = cover_pts(pts, cands@[j], r_um as int);
            if !(exists|p: Point| cp.contains(p)) {
                assert(cp =~= Set::<Point>::empty());
                assert(cp.len() == 0);
                assert(false);
            }
            let p = choose|p: Point| cp.contains(p);
            assert(pts.contains(p));
            let i = choose|i: int| 0 <= i < pts.len() && pts[i] == p;
            assert(within_spec(cands@[j], pts[i], r_um as int));
            let k0 = choose|k0: int|
                0 <= k0 < cs@.len() && (#[trigger] cs@[k0]).center == cands@[j];
            assert(cluster_wf(cs@[k0], pts, r_um as int));
            lemma_cover_pts_card_eq(pts, cs@[k0].center, r_um as int, cs@[k0].cover@);
            assert(cs@[k0].cover@.len() >= min_points);
            if chosen@.len() == 0 {
                assert(!chosen@.contains(k0 as usize));
                let t2 = choose|t2: int|
                    0 <= t2 < cs@[k0].cover@.len() && covered_by_chosen(
                        cs@,
                        chosen@,
                        cs@[k0].cover@[t2],
                    );
                let kc = choose|kc: int|
                    0 <= kc < chosen@.len() && (
                    #[trigger] cs@[chosen@[kc] as int].cover@.contains(cs@[k0].cover@[t2]));
                assert(false);
            }
            assert(uniq_set(cs@, chosen@, chosen@.len() - 1).len() >= min_points);
            assert(kept@.contains((chosen@.len() - 1) as usize));
            let kx = choose|kx: int|
                0 <= kx < kept@.len() && kept@[kx] == (chosen@.len() - 1) as usize;
            assert(out@.len() >= 1);
        }
    }
    out
}

} // verus!
