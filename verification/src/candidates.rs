//! Candidate cluster centers from interpolation between neighboring points.
//!
//! For every arena point the neighbors within the doubled cluster radius are
//! looked up, and eight evenly spaced points on the segment to each neighbor
//! are proposed as candidate centers; in balanced mode each of those is also
//! jittered by eight fixed wiggle offsets.  Every arena point itself is always
//! a candidate, and the final list is deduplicated by rounded center.

use vstd::prelude::*;
use crate::geo::Point;
use crate::geo::iabs;
use crate::geo::interpolate;
use crate::geo::interpolate_spec;
use crate::geo::lemma_interpolate_self;
use crate::geo::within_spec;
use crate::pointset::dedup_points;
use crate::spatial::PointIndex;

verus! {

/// The wiggle offsets allowed for a candidate: none, or in balanced mode one
/// of the eight fixed jitter offsets (half a wiggle in latitude, a full
/// wiggle in longitude, under all four sign choices, for wiggles of 250 and
/// 100 microdegrees).
pub open spec fn wiggle_ok(wl: int, wo: int, balanced: bool) -> bool {
    ||| (wl == 0 && wo == 0)
    ||| (balanced && (iabs(wl) == 125 && iabs(wo) == 250 || iabs(wl) == 50 && iabs(wo) == 100))
}

/// The interpolated candidate for a pair of arena indices.
pub open spec fn gen_cand(pts: Seq<Point>, i: int, j: int, num: int, wl: int, wo: int) -> Point {
    interpolate_spec(pts[i], pts[j], num, wl, wo)
}

/// A candidate is justified when it interpolates between an arena point and
/// one of its neighbors within the neighbor radius (or the point itself),
/// with an allowed wiggle.
pub open spec fn cand_ok(pts: Seq<Point>, nbr_r_um: int, balanced: bool, c: Point) -> bool {
    exists|i: int, j: int, num: int, wl: int, wo: int|
        {
            &&& 0 <= i < pts.len()
            &&& 0 <= j < pts.len()
            &&& 0 <= num <= 7
            &&& wiggle_ok(wl, wo, balanced)
            &&& (i == j || within_spec(pts[i], pts[j], nbr_r_um))
            &&& (#[trigger] gen_cand(pts, i, j, num, wl, wo)) == c
        }
}

/// The accumulator invariant: all entries are valid justified candidates and
/// the first `upto` arena points occur among them.
pub open spec fn acc_inv(
    acc: Seq<Point>,
    pts: Seq<Point>,
    nbr_r_um: int,
    balanced: bool,
    upto: int,
) -> bool {
    &&& forall|k: int| 0 <= k < acc.len() ==> (#[trigger] acc[k]).is_valid()
    &&& forall|k: int| 0 <= k < acc.len() ==> cand_ok(pts, nbr_r_um, balanced, #[trigger] acc[k])
    &&& forall|t: int| 0 <= t < upto ==> acc.contains(#[trigger] pts[t])
}

/// The accumulator holds every interpolation of every neighbor pair among
/// the first `upto_i` arena points, under every allowed wiggle.
pub open spec fn acc_complete(
    acc: Seq<Point>,
    pts: Seq<Point>,
    nbr_r_um: int,
    balanced: bool,
    upto_i: int,
) -> bool {
    forall|i: int, j: int, num: int, wl: int, wo: int|
        #![trigger gen_cand(pts, i, j, num, wl, wo)]
        0 <= i < upto_i && 0 <= j < pts.len() && 0 <= num <= 7 && wiggle_ok(wl, wo, balanced)
            && within_spec(pts[i], pts[j], nbr_r_um) ==> acc.contains(
            gen_cand(pts, i, j, num, wl, wo),
        )
}

/// Interpolates one justified candidate and pushes it onto the accumulator.
fn push_interp(
    acc: &mut Vec<Point>,
    p: Point,
    q: Point,
    num: u8,
    wl: i64,
    wo: i64,
    Ghost(pts): Ghost<Seq<Point>>,
    Ghost(i): Ghost<int>,
    Ghost(j): Ghost<int>,
    Ghost(nbr_r_um): Ghost<int>,
    Ghost(balanced): Ghost<bool>,
    Ghost(upto): Ghost<int>,
)
    requires
        0 <= i < pts.len(),
        0 <= j < pts.len(),
        p == pts[i],
        q == pts[j],
        p.is_valid(),
        q.is_valid(),
        num <= 7,
        -1000 <= wl <= 1000,
        -1000 <= wo <= 1000,
        wiggle_ok(wl as int, wo as int, balanced),
        i == j || within_spec(pts[i], pts[j], nbr_r_um),
        acc_inv(old(acc)@, pts, nbr_r_um, balanced, upto),
    ensures
        acc_inv(final(acc)@, pts, nbr_r_um, balanced, upto),
        forall|x: Point| old(acc)@.contains(x) ==> final(acc)@.contains(x),
        final(acc)@.contains(gen_cand(pts, i, j, num as int, wl as int, wo as int)),
{
    let c = interpolate(p, q, num, wl, wo);
    proof {
        assert(gen_cand(pts, i, j, num as int, wl as int, wo as int) == c);
        assert(cand_ok(pts, nbr_r_um, balanced, c));
    }
    let ghost before = acc@;
    acc.push(c);
    proof {
        assert forall|t: int| 0 <= t < upto implies acc@.contains(#[trigger] pts[t]) by {
            assert(before.contains(pts[t]));
            let k = choose|k: int| 0 <= k < before.len() && before[k] == pts[t];
            assert(acc@[k] == pts[t]);
        }
        assert forall|x: Point| before.contains(x) implies acc@.contains(x) by {
            let k = choose|k: int| 0 <= k < before.len() && before[k] == x;
            assert(acc@[k] == x);
        }
        assert(acc@[acc@.len() - 1] == c);
    }
}

/// Generates the deduplicated candidate list for an arena.
///
/// `scratch` is an all-false marker buffer of arena size, returned all false.
/// The result contains every arena point, holds no duplicates, holds only
/// valid points, and every candidate in it is justified by [`cand_ok`].
pub fn generate_candidates(
    index: &PointIndex,
    nbr_r_um: u64,
    balanced: bool,
    scratch: &mut Vec<bool>,
) -> (cands: Vec<Point>)
    requires
        index.wf(),
        old(scratch)@.len() == index.points_view().len(),
        forall|i: int| 0 <= i < old(scratch)@.len() ==> !old(scratch)@[i],
    ensures
        final(scratch)@.len() == old(scratch)@.len(),
        forall|i: int| 0 <= i < final(scratch)@.len() ==> !final(scratch)@[i],
        cands@.no_duplicates(),
        forall|k: int| 0 <= k < cands@.len() ==> (#[trigger] cands@[k]).is_valid(),
        forall|i: int|
            0 <= i < index.points_view().len() ==> cands@.contains(
                #[trigger] index.points_view()[i],
            ),
        forall|k: int|
            0 <= k < cands@.len() ==> cand_ok(
                index.points_view(),
                nbr_r_um as int,
                balanced,
                #[trigger] cands@[k],
            ),
        acc_complete(cands@, index.points_view(), nbr_r_um as int, balanced, index.points_view().len() as int),
{
    let ghost pts = index.points_view();
    proof {
        index.lemma_wf_facts();
    }
    let n: usize = index.len();
    let mut acc: Vec<Point> = Vec::new();
    for i in 0..n
        invariant
            n == pts.len(),
            pts == index.points_view(),
            index.wf(),
            forall|t: int| 0 <= t < pts.len() ==> (#[trigger] pts[t]).is_valid(),
            scratch@.len() == n,
            forall|t: int| 0 <= t < scratch@.len() ==> !scratch@[t],
            acc_inv(acc@, pts, nbr_r_um as int, balanced, i as int),
            acc_complete(acc@, pts, nbr_r_um as int, balanced, i as int),
    {
        let p = index.point_at(i);
        let nbrs = index.within_indices(p, nbr_r_um, scratch);
        let m: usize = nbrs.len();
        for v in 0..m
            invariant
                n == pts.len(),
                pts == index.points_view(),
                index.wf(),
                m == nbrs@.len(),
                i < n,
                p == pts[i as int],
                p.is_valid(),
                forall|t: int| 0 <= t < pts.len() ==> (#[trigger] pts[t]).is_valid(),
                forall|k: int|
                    0 <= k < nbrs@.len() ==> nbrs@[k] < n && within_spec(
                        p,
                        pts[nbrs@[k] as int],
                        nbr_r_um as int,
                    ),
                forall|jx: int|
                    0 <= jx < n && within_spec(p, pts[jx], nbr_r_um as int)
                        ==> nbrs@.contains(jx as usize),
                acc_inv(acc@, pts, nbr_r_um as int, balanced, i as int),
                acc_complete(acc@, pts, nbr_r_um as int, balanced, i as int),
                forall|v2: int, num: int, wl: int, wo: int|
                    #![trigger gen_cand(pts, i as int, nbrs@[v2] as int, num, wl, wo)]
                    0 <= v2 < v && 0 <= num <= 7 && wiggle_ok(wl, wo, balanced) ==> acc@.contains(
                        gen_cand(pts, i as int, nbrs@[v2] as int, num, wl, wo),
                    ),
        {
            let j = nbrs[v];
            let q = index.point_at(j);
            assert(q.is_valid());
            for num in 0..8u8
                invariant
                    n == pts.len(),
                    pts == index.points_view(),
                    i < n,
                    j < n,
                    p == pts[i as int],
                    q == pts[j as int],
                    p.is_valid(),
                    q.is_valid(),
                    i as int == j as int || within_spec(
                        pts[i as int],
                        pts[j as int],
                        nbr_r_um as int,
                    ),
                    m == nbrs@.len(),
                    v < m,
                    j == nbrs@[v as int],
                    acc_inv(acc@, pts, nbr_r_um as int, balanced, i as int),
                    acc_complete(acc@, pts, nbr_r_um as int, balanced, i as int),
                    forall|v2: int, num2: int, wl: int, wo: int|
                        #![trigger gen_cand(pts, i as int, nbrs@[v2] as int, num2, wl, wo)]
                        0 <= v2 < v && 0 <= num2 <= 7 && wiggle_ok(wl, wo, balanced)
                            ==> acc@.contains(
                            gen_cand(pts, i as int, nbrs@[v2] as int, num2, wl, wo),
                        ),
                    forall|num2: int, wl: int, wo: int|
                        #![trigger gen_cand(pts, i as int, j as int, num2, wl, wo)]
                        0 <= num2 < num && wiggle_ok(wl, wo, balanced) ==> acc@.contains(
                            gen_cand(pts, i as int, j as int, num2, wl, wo),
                        ),
            {
                let ghost gi = i as int;
                let ghost gj = j as int;
                let ghost gn = nbr_r_um as int;
                let ghost gu = i as int;
                push_interp(&mut acc, p, q, num, 0, 0, Ghost(pts), Ghost(gi), Ghost(gj), Ghost(gn), Ghost(balanced), Ghost(gu));
                if balanced {
                    push_interp(&mut acc, p, q, num, 125, 250, Ghost(pts), Ghost(gi), Ghost(gj), Ghost(gn), Ghost(balanced), Ghost(gu));
                    push_interp(&mut acc, p, q, num, 125, -250, Ghost(pts), Ghost(gi), Ghost(gj), Ghost(gn), Ghost(balanced), Ghost(gu));
                    push_interp(&mut acc, p, q, num, -125, 250, Ghost(pts), Ghost(gi), Ghost(gj), Ghost(gn), Ghost(balanced), Ghost(gu));
                    push_interp(&mut acc, p, q, num, -125, -250, Ghost(pts), Ghost(gi), Ghost(gj), Ghost(gn), Ghost(balanced), Ghost(gu));
                    push_interp(&mut acc, p, q, num, 50, 100, Ghost(pts), Ghost(gi), Ghost(gj), Ghost(gn), Ghost(balanced), Ghost(gu));
                    push_interp(&mut acc, p, q, num, 50, -100, Ghost(pts), Ghost(gi), Ghost(gj), Ghost(gn), Ghost(balanced), Ghost(gu));
                    push_interp(&mut acc, p, q, num, -50, 100, Ghost(pts), Ghost(gi), Ghost(gj), Ghost(gn), Ghost(balanced), Ghost(gu));
                    push_interp(&mut acc, p, q, num, -50, -100, Ghost(pts), Ghost(gi), Ghost(gj), Ghost(gn), Ghost(balanced), Ghost(gu));
                }
                proof {
                    assert forall|wl: int, wo: int|
                        wiggle_ok(wl, wo, balanced) implies acc@.contains(
                        #[trigger] gen_cand(pts, i as int, j as int, num as int, wl, wo),
                    ) by {
                        if wl == 0 && wo == 0 {
                            assert(acc@.contains(gen_cand(pts, gi, gj, num as int, 0, 0)));
                        } else {
                            assert(balanced);
                            if wl == 125 && wo == 250 {
                                assert(acc@.contains(gen_cand(pts, gi, gj, num as int, 125, 250)));
                            } else if wl == 125 && wo == -250 {
                                assert(acc@.contains(gen_cand(pts, gi, gj, num as int, 125, -250)));
                            } else if wl == -125 && wo == 250 {
                                assert(acc@.contains(gen_cand(pts, gi, gj, num as int, -125, 250)));
                            } else if wl == -125 && wo == -250 {
                                assert(acc@.contains(gen_cand(pts, gi, gj, num as int, -125, -250)));
                            } else if wl == 50 && wo == 100 {
                                assert(acc@.contains(gen_cand(pts, gi, gj, num as int, 50, 100)));
                            } else if wl == 50 && wo == -100 {
                                assert(acc@.contains(gen_cand(pts, gi, gj, num as int, 50, -100)));
                            } else if wl == -50 && wo == 100 {
                                assert(acc@.contains(gen_cand(pts, gi, gj, num as int, -50, 100)));
                            } else {
                                assert(wl == -50 && wo == -100);
                                assert(acc@.contains(gen_cand(pts, gi, gj, num as int, -50, -100)));
                            }
                        }
                    }
                }
            }
            proof {
                assert forall|v2: int, num2: int, wl: int, wo: int|
                    #![trigger gen_cand(pts, i as int, nbrs@[v2] as int, num2, wl, wo)]
                    0 <= v2 < v + 1 && 0 <= num2 <= 7 && wiggle_ok(wl, wo, balanced)
                        implies acc@.contains(
                    gen_cand(pts, i as int, nbrs@[v2] as int, num2, wl, wo),
                ) by {
                    if v2 == v {
                        assert(nbrs@[v2] == j);
                        assert(acc@.contains(gen_cand(pts, i as int, j as int, num2, wl, wo)));
                    }
                }
            }
        }
        // The point itself is always a candidate.
        proof {
            lemma_interpolate_self(p, 0);
            assert(gen_cand(pts, i as int, i as int, 0, 0, 0) == p);
            assert(cand_ok(pts, nbr_r_um as int, balanced, p));
        }
        let ghost before = acc@;
        acc.push(p);
        proof {
            assert forall|t: int| 0 <= t < i + 1 implies acc@.contains(#[trigger] pts[t]) by {
                if t < i {
                    assert(before.contains(pts[t]));
                    let k = choose|k: int| 0 <= k < before.len() && before[k] == pts[t];
                    assert(acc@[k] == pts[t]);
                } else {
                    assert(acc@[acc@.len() - 1] == pts[t]);
                }
            }
            assert forall|x: Point| before.contains(x) implies acc@.contains(x) by {
                let k = choose|k: int| 0 <= k < before.len() && before[k] == x;
                assert(acc@[k] == x);
            }
            assert forall|ix: int, jx: int, num: int, wl: int, wo: int|
                #![trigger gen_cand(pts, ix, jx, num, wl, wo)]
                0 <= ix < i + 1 && 0 <= jx < pts.len() && 0 <= num <= 7 && wiggle_ok(
                    wl,
                    wo,
                    balanced,
                ) && within_spec(pts[ix], pts[jx], nbr_r_um as int) implies acc@.contains(
                gen_cand(pts, ix, jx, num, wl, wo),
            ) by {
                if ix == i {
                    assert(nbrs@.contains(jx as usize));
                    let v2 = choose|v2: int| 0 <= v2 < nbrs@.len() && nbrs@[v2] == jx as usize;
                    assert(before.contains(gen_cand(pts, i as int, nbrs@[v2] as int, num, wl, wo)));
                    assert(acc@.contains(gen_cand(pts, ix, jx, num, wl, wo)));
                } else {
                    assert(before.contains(gen_cand(pts, ix, jx, num, wl, wo)));
                }
            }
            assert(acc_complete(acc@, pts, nbr_r_um as int, balanced, i + 1));
        }
    }
    let out = dedup_points(&acc);
    proof {
        assert forall|t: int| 0 <= t < pts.len() implies out@.contains(#[trigger] pts[t]) by {
            assert(acc@.contains(pts[t]));
        }
        assert forall|k: int|
            0 <= k < out@.len() implies cand_ok(
            pts,
            nbr_r_um as int,
            balanced,
            #[trigger] out@[k],
        ) by {
            assert(out@.contains(out@[k]));
            assert(acc@.contains(out@[k]));
            let kk = choose|kk: int| 0 <= kk < acc@.len() && acc@[kk] == out@[k];
        }
        assert forall|ix: int, jx: int, num: int, wl: int, wo: int|
            #![trigger gen_cand(pts, ix, jx, num, wl, wo)]
            0 <= ix < pts.len() && 0 <= jx < pts.len() && 0 <= num <= 7 && wiggle_ok(
                wl,
                wo,
                balanced,
            ) && within_spec(pts[ix], pts[jx], nbr_r_um as int) implies out@.contains(
            gen_cand(pts, ix, jx, num, wl, wo),
        ) by {
            assert(acc@.contains(gen_cand(pts, ix, jx, num, wl, wo)));
        }
        assert(acc_complete(out@, pts, nbr_r_um as int, balanced, pts.len() as int));
    }
    out
}

} // verus!
