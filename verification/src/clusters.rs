//! Cluster construction and ordering.
//!
//! Every candidate center is paired with the exact set of arena indices it
//! covers; empty candidates are dropped, and the survivors are ordered by
//! coverage size, largest first, with earlier candidates winning ties.

use vstd::prelude::*;
use crate::geo::Point;
use crate::geo::within_spec;
use crate::spatial::PointIndex;

verus! {

broadcast use {
    vstd::seq_lib::group_to_multiset_ensures,
    vstd::multiset::group_multiset_axioms,
};

/// A candidate center together with the arena indices it covers.
pub struct Cluster {
    pub center: Point,
    pub cover: Vec<usize>,
}

/// A cluster is well formed for an arena and radius when its cover lists
/// exactly the arena indices within the radius of its center, each once, and
/// is not empty.
pub open spec fn cluster_wf(cl: Cluster, pts: Seq<Point>, r_um: int) -> bool {
    &&& cl.center.is_valid()
    &&& cl.cover@.no_duplicates()
    &&& cl.cover@.len() > 0
    &&& forall|k: int|
        0 <= k < cl.cover@.len() ==> (#[trigger] cl.cover@[k]) < pts.len() && within_spec(
            cl.center,
            pts[cl.cover@[k] as int],
            r_um,
        )
    &&& forall|i: int|
        0 <= i < pts.len() && within_spec(cl.center, pts[i], r_um) ==> cl.cover@.contains(
            i as usize,
        )
}

/// Builds one cluster per candidate that covers at least one arena point.
///
/// `scratch` is an all-false marker buffer of arena size, returned all false.
/// The clusters keep the candidate order, their centers are pairwise
/// distinct, and a candidate is dropped exactly when it covers nothing.
pub fn build_clusters(
    index: &PointIndex,
    cands: &Vec<Point>,
    r_um: u64,
    scratch: &mut Vec<bool>,
) -> (out: Vec<Cluster>)
    requires
        index.wf(),
        old(scratch)@.len() == index.points_view().len(),
        forall|i: int| 0 <= i < old(scratch)@.len() ==> !old(scratch)@[i],
        cands@.no_duplicates(),
        forall|k: int| 0 <= k < cands@.len() ==> (#[trigger] cands@[k]).is_valid(),
    ensures
        final(scratch)@.len() == old(scratch)@.len(),
        forall|i: int| 0 <= i < final(scratch)@.len() ==> !final(scratch)@[i],
        forall|k: int|
            0 <= k < out@.len() ==> cluster_wf(#[trigger] out@[k], index.points_view(), r_um as int),
        forall|k1: int, k2: int|
            0 <= k1 < k2 < out@.len() ==> out@[k1].center != out@[k2].center,
        forall|k: int| 0 <= k < out@.len() ==> cands@.contains((#[trigger] out@[k]).center),
        forall|j: int|
            0 <= j < cands@.len() && (exists|i: int|
                0 <= i < index.points_view().len() && within_spec(
                    #[trigger] cands@[j],
                    index.points_view()[i],
                    r_um as int,
                )) ==> exists|k: int| 0 <= k < out@.len() && (#[trigger] out@[k]).center == cands@[j],
{
    let ghost pts = index.points_view();
    let n_c: usize = cands.len();
    let mut out: Vec<Cluster> = Vec::new();
    let ghost mut src: Seq<int> = Seq::empty();
    for j in 0..n_c
        invariant
            n_c == cands@.len(),
            pts == index.points_view(),
            index.wf(),
            scratch@.len() == pts.len(),
            forall|i: int| 0 <= i < scratch@.len() ==> !scratch@[i],
            cands@.no_duplicates(),
            forall|k: int| 0 <= k < cands@.len() ==> (#[trigger] cands@[k]).is_valid(),
            forall|k: int|
                0 <= k < out@.len() ==> cluster_wf(#[trigger] out@[k], pts, r_um as int),
            src.len() == out@.len(),
            forall|k: int|
                0 <= k < out@.len() ==> 0 <= (#[trigger] src[k]) < j && cands@[src[k]]
                    == out@[k].center,
            forall|k1: int, k2: int|
                0 <= k1 < k2 < out@.len() ==> out@[k1].center != out@[k2].center,
            forall|jj: int|
                0 <= jj < j && (exists|i: int|
                    0 <= i < pts.len() && within_spec(
                        #[trigger] cands@[jj],
                        pts[i],
                        r_um as int,
                    )) ==> exists|k: int|
                    0 <= k < out@.len() && (#[trigger] out@[k]).center == cands@[jj],
    {
        let c = cands[j];
        // A candidate that is itself an input point always covers at least
        // itself: the integer metric gives it distance zero, so no separate
        // membership fallback is needed for an empty query.
        let cover = index.within_indices(c, r_um, scratch);
        if cover.len() > 0 {
            let ghost before = out@;
            out.push(Cluster { center: c, cover });
            proof {
                src = src.push(j as int);
                assert forall|k1: int, k2: int|
                    0 <= k1 < k2 < out@.len() implies out@[k1].center != out@[k2].center by {
                    if k2 == out@.len() - 1 {
                        assert(out@[k1].center == cands@[src[k1]]);
                        assert(src[k1] < j);
                        assert(out@[k2].center == cands@[j as int]);
                    } else {
                        assert(out@[k1] == before[k1] && out@[k2] == before[k2]);
                    }
                }
                assert forall|jj: int|
                    0 <= jj < j + 1 && (exists|i: int|
                        0 <= i < pts.len() && within_spec(
                            #[trigger] cands@[jj],
                            pts[i],
                            r_um as int,
                        )) implies exists|k: int|
                    0 <= k < out@.len() && (#[trigger] out@[k]).center == cands@[jj] by {
                    if jj < j {
                        let k = choose|k: int|
                            0 <= k < before.len() && before[k].center == cands@[jj];
                        assert(out@[k].center == cands@[jj]);
                    } else {
                        assert(out@[out@.len() - 1].center == cands@[jj]);
                    }
                }
            }
        } else {
            proof {
                assert forall|jj: int|
                    0 <= jj < j + 1 && (exists|i: int|
                        0 <= i < pts.len() && within_spec(
                            #[trigger] cands@[jj],
                            pts[i],
                            r_um as int,
                        )) implies exists|k: int|
                    0 <= k < out@.len() && (#[trigger] out@[k]).center == cands@[jj] by {
                    if jj == j {
                        let i = choose|i: int|
                            0 <= i < pts.len() && within_spec(cands@[jj], pts[i], r_um as int);
                        assert(cover@.contains(i as usize));
                        assert(false);
                    } else {
                        let k = choose|k: int|
                            0 <= k < out@.len() && out@[k].center == cands@[jj];
                    }
                }
            }
        }
    }
    proof {
        assert forall|k: int|
            0 <= k < out@.len() implies cands@.contains((#[trigger] out@[k]).center) by {
            assert(cands@[src[k]] == out@[k].center);
        }
    }
    out
}

/// The ordering used for selection: larger coverage first, earlier cluster
/// first among equal coverages.
pub open spec fn key_le(cs: Seq<Cluster>, i: int, j: int) -> bool {
    ||| cs[i].cover@.len() > cs[j].cover@.len()
    ||| (cs[i].cover@.len() == cs[j].cover@.len() && i <= j)
}

/// Merge sort over cluster indices under [`key_le`].  The input indices must
/// be strictly ascending, so `key_le` is a strict total order on them and the
/// sorted result is unique.
fn msort(cs: &Vec<Cluster>, v: Vec<usize>) -> (r: Vec<usize>)
    requires
        forall|k: int| 0 <= k < v@.len() ==> (#[trigger] v@[k]) < cs@.len(),
        forall|k1: int, k2: int| 0 <= k1 < k2 < v@.len() ==> v@[k1] < v@[k2],
    ensures
        r@.to_multiset() == v@.to_multiset(),
        r@.len() == v@.len(),
        forall|k: int| 0 <= k < r@.len() ==> (#[trigger] r@[k]) < cs@.len(),
        forall|k1: int, k2: int|
            0 <= k1 < k2 < r@.len() ==> key_le(cs@, r@[k1] as int, r@[k2] as int),
    decreases v@.len(),
{
    if v.len() <= 1 {
        return v;
    }
    let ghost v_seq = v@;
    let mut a = v;
    let half: usize = a.len() / 2;
    let b = a.split_off(half);
    let ghost va = a@;
    let ghost vb = b@;
    proof {
        assert(va + vb =~= v_seq);
        vstd::seq_lib::lemma_multiset_commutative(va, vb);
    }
    let sa = msort(cs, a);
    let sb = msort(cs, b);
    let mut out: Vec<usize> = Vec::new();
    let mut ai: usize = 0;
    let mut bi: usize = 0;
    while ai < sa.len() || bi < sb.len()
        invariant
            ai <= sa@.len(),
            bi <= sb@.len(),
            sa@.to_multiset() == va.to_multiset(),
            sb@.to_multiset() == vb.to_multiset(),
            va == v_seq.subrange(0, half as int),
            vb == v_seq.subrange(half as int, v_seq.len() as int),
            half < v_seq.len(),
            forall|k1: int, k2: int| 0 <= k1 < k2 < v_seq.len() ==> v_seq[k1] < v_seq[k2],
            forall|k: int| 0 <= k < sa@.len() ==> (#[trigger] sa@[k]) < cs@.len(),
            forall|k: int| 0 <= k < sb@.len() ==> (#[trigger] sb@[k]) < cs@.len(),
            forall|k1: int, k2: int|
                0 <= k1 < k2 < sa@.len() ==> key_le(cs@, sa@[k1] as int, sa@[k2] as int),
            forall|k1: int, k2: int|
                0 <= k1 < k2 < sb@.len() ==> key_le(cs@, sb@[k1] as int, sb@[k2] as int),
            out@.len() == ai + bi,
            forall|k: int| 0 <= k < out@.len() ==> (#[trigger] out@[k]) < cs@.len(),
            out@.to_multiset() == sa@.take(ai as int).to_multiset().add(
                sb@.take(bi as int).to_multiset(),
            ),
            forall|k1: int, k2: int|
                0 <= k1 < k2 < out@.len() ==> key_le(cs@, out@[k1] as int, out@[k2] as int),
            forall|k: int|
                0 <= k < out@.len() && ai < sa@.len() ==> key_le(
                    cs@,
                    #[trigger] out@[k] as int,
                    sa@[ai as int] as int,
                ),
            forall|k: int|
                0 <= k < out@.len() && bi < sb@.len() ==> key_le(
                    cs@,
                    #[trigger] out@[k] as int,
                    sb@[bi as int] as int,
                ),
        decreases sa@.len() - ai + sb@.len() - bi,
    {
        proof {
            if ai < sa@.len() && bi < sb@.len() {
                // Values in the first half are smaller than values in the
                // second half, so ties in coverage size favor `sa`.
                let x = sa@[ai as int];
                let y = sb@[bi as int];
                assert(sa@.contains(x));
                assert(sa@.to_multiset().count(x) > 0);
                assert(va.contains(x));
                let ka = choose|ka: int| 0 <= ka < va.len() && va[ka] == x;
                assert(sb@.contains(y));
                assert(sb@.to_multiset().count(y) > 0);
                assert(vb.contains(y));
                let kb = choose|kb: int| 0 <= kb < vb.len() && vb[kb] == y;
                assert(v_seq[ka] == x);
                assert(v_seq[half + kb] == y);
                assert(x < y);
            }
        }
        let take_a: bool = if bi == sb.len() {
            true
        } else if ai == sa.len() {
            false
        } else {
            let x = sa[ai];
            let y = sb[bi];
            let lx = cs[x].cover.len();
            let ly = cs[y].cover.len();
            lx > ly || lx == ly
        };
        if take_a {
            assert(ai < sa@.len());
            assert(bi < sb@.len() ==> key_le(cs@, sa@[ai as int] as int, sb@[bi as int] as int));
            let ghost old_out = out@;
            let ghost old_take = sa@.take(ai as int);
            out.push(sa[ai]);
            ai = ai + 1;
            proof {
                assert(sa@.take(ai as int) =~= old_take.push(sa@[ai as int - 1]));
                assert(out@.to_multiset() =~= old_out.to_multiset().insert(
                    sa@[ai as int - 1],
                ));
                assert(sa@.take(ai as int).to_multiset() =~= old_take.to_multiset().insert(
                    sa@[ai as int - 1],
                ));
                assert(out@.to_multiset() =~= sa@.take(ai as int).to_multiset().add(
                    sb@.take(bi as int).to_multiset(),
                ));
                assert forall|k: int|
                    0 <= k < out@.len() && ai < sa@.len() implies key_le(
                    cs@,
                    #[trigger] out@[k] as int,
                    sa@[ai as int] as int,
                ) by {
                    assert(key_le(cs@, sa@[ai - 1] as int, sa@[ai as int] as int));
                    if k < out@.len() - 1 {
                        assert(out@[k] == old_out[k]);
                        assert(key_le(cs@, old_out[k] as int, sa@[ai - 1] as int));
                    } else {
                        assert(out@[k] == sa@[ai - 1]);
                    }
                }
                assert forall|k: int|
                    0 <= k < out@.len() && bi < sb@.len() implies key_le(
                    cs@,
                    #[trigger] out@[k] as int,
                    sb@[bi as int] as int,
                ) by {
                    assert(key_le(cs@, sa@[ai - 1] as int, sb@[bi as int] as int));
                    if k < out@.len() - 1 {
                        assert(out@[k] == old_out[k]);
                        assert(key_le(cs@, old_out[k] as int, sb@[bi as int] as int));
                    } else {
                        assert(out@[k] == sa@[ai - 1]);
                    }
                }
            }
        } else {
            assert(bi < sb@.len());
            assert(ai < sa@.len() ==> key_le(cs@, sb@[bi as int] as int, sa@[ai as int] as int));
            let ghost old_out = out@;
            let ghost old_take = sb@.take(bi as int);
            out.push(sb[bi]);
            bi = bi + 1;
            proof {
                assert(sb@.take(bi as int) =~= old_take.push(sb@[bi as int - 1]));
                assert(out@.to_multiset() =~= old_out.to_multiset().insert(
                    sb@[bi as int - 1],
                ));
                assert(sb@.take(bi as int).to_multiset() =~= old_take.to_multiset().insert(
                    sb@[bi as int - 1],
                ));
                assert(out@.to_multiset() =~= sa@.take(ai as int).to_multiset().add(
                    sb@.take(bi as int).to_multiset(),
                ));
                assert forall|k: int|
                    0 <= k < out@.len() && bi < sb@.len() implies key_le(
                    cs@,
                    #[trigger] out@[k] as int,
                    sb@[bi as int] as int,
                ) by {
                    assert(key_le(cs@, sb@[bi - 1] as int, sb@[bi as int] as int));
                    if k < out@.len() - 1 {
                        assert(out@[k] == old_out[k]);
                        assert(key_le(cs@, old_out[k] as int, sb@[bi - 1] as int));
                    } else {
                        assert(out@[k] == sb@[bi - 1]);
                    }
                }
                assert forall|k: int|
                    0 <= k < out@.len() && ai < sa@.len() implies key_le(
                    cs@,
                    #[trigger] out@[k] as int,
                    sa@[ai as int] as int,
                ) by {
                    assert(key_le(cs@, sb@[bi - 1] as int, sa@[ai as int] as int));
                    if k < out@.len() - 1 {
                        assert(out@[k] == old_out[k]);
                        assert(key_le(cs@, old_out[k] as int, sa@[ai as int] as int));
                    } else {
                        assert(out@[k] == sb@[bi - 1]);
                    }
                }
            }
        }
    }
    proof {
        assert(sa@.take(ai as int) =~= sa@);
        assert(sb@.take(bi as int) =~= sb@);
        vstd::seq_lib::lemma_multiset_commutative(sa@, sb@);
        assert(out@.to_multiset() =~= v_seq.to_multiset());
    }
    out
}

/// Computes the selection order of the clusters: a permutation of all
/// cluster indices, sorted by coverage size descending, earlier clusters
/// first among equals.
pub fn order_by_coverage(cs: &Vec<Cluster>) -> (order: Vec<usize>)
    ensures
        order@.len() == cs@.len(),
        order@.no_duplicates(),
        forall|k: int| 0 <= k < order@.len() ==> (#[trigger] order@[k]) < cs@.len(),
        forall|i: int| 0 <= i < cs@.len() ==> #[trigger] order@.contains(i as usize),
        forall|k1: int, k2: int|
            0 <= k1 < k2 < order@.len() ==> key_le(cs@, order@[k1] as int, order@[k2] as int),
{
    let n: usize = cs.len();
    let mut init: Vec<usize> = Vec::new();
    for i in 0..n
        invariant
            init@.len() == i,
            forall|k: int| 0 <= k < init@.len() ==> (#[trigger] init@[k]) == k,
    {
        init.push(i);
    }
    proof {
        assert(init@.no_duplicates());
        init@.lemma_multiset_has_no_duplicates();
    }
    let ghost init_seq = init@;
    let order = msort(cs, init);
    proof {
        assert forall|i: int| 0 <= i < cs@.len() implies #[trigger] order@.contains(i as usize) by {
            assert(init_seq[i] == i as usize);
            assert(init_seq.contains(i as usize));
            assert(init_seq.to_multiset().count(i as usize) > 0);
            assert(order@.to_multiset().count(i as usize) > 0);
        }
        assert forall|x: usize|
            order@.to_multiset().contains(x) implies order@.to_multiset().count(x) == 1 by {
            assert(init_seq.to_multiset().count(x) > 0);
            assert(init_seq.contains(x));
        }
        order@.lemma_multiset_has_no_duplicates_conv();
    }
    order
}

} // verus!
