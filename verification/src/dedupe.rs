//! Deduplication of the chosen clusters.
//!
//! A chosen cluster is kept when it covers enough points that no other
//! chosen cluster covers; when the minimum is one, a second pass re-adds any
//! cluster that still covers a point no kept cluster covers, so no covered
//! point is lost.

use vstd::prelude::*;
use crate::clusters::Cluster;
use crate::selection::lemma_uniq_set_finite;
use crate::selection::sel_wf;
use crate::selection::uniq_set;
use crate::selection::uniquely_covered;

verus! {

/// The kept cluster at position `kk` covers some point uniquely.
pub open spec fn kept_has_unique(
    cs: Seq<Cluster>,
    chosen: Seq<usize>,
    kept: Seq<usize>,
    kk: int,
) -> bool {
    exists|t: int|
        0 <= t < cs[chosen[kept[kk] as int] as int].cover@.len() && uniquely_covered(
            cs,
            chosen,
            kept[kk] as int,
            cs[chosen[kept[kk] as int] as int].cover@[t],
        )
}

/// No kept cluster before position `kk` covers the arena index `p`.
pub open spec fn fresh_for(
    cs: Seq<Cluster>,
    chosen: Seq<usize>,
    kept: Seq<usize>,
    kk: int,
    p: usize,
) -> bool {
    forall|kk2: int|
        0 <= kk2 < kk ==> !(#[trigger] cs[chosen[kept[kk2] as int] as int].cover@.contains(p))
}

/// The kept cluster at position `kk` covers a point that no kept cluster
/// before it covers.
pub open spec fn kept_contributes(
    cs: Seq<Cluster>,
    chosen: Seq<usize>,
    kept: Seq<usize>,
    kk: int,
) -> bool {
    exists|t: int|
        #![trigger cs[chosen[kept[kk] as int] as int].cover@[t]]
        0 <= t < cs[chosen[kept[kk] as int] as int].cover@.len() && fresh_for(
            cs,
            chosen,
            kept,
            kk,
            cs[chosen[kept[kk] as int] as int].cover@[t],
        )
}

/// Contribution of an already-kept cluster is unaffected by keeping more
/// clusters after it.
pub proof fn lemma_contributes_push(
    cs: Seq<Cluster>,
    chosen: Seq<usize>,
    kept: Seq<usize>,
    x: usize,
    kk: int,
)
    requires
        0 <= kk < kept.len(),
        kept_contributes(cs, chosen, kept, kk),
    ensures
        kept_contributes(cs, chosen, kept.push(x), kk),
{
    let t = choose|t: int|
        #![trigger cs[chosen[kept[kk] as int] as int].cover@[t]]
        0 <= t < cs[chosen[kept[kk] as int] as int].cover@.len() && fresh_for(
            cs,
            chosen,
            kept,
            kk,
            cs[chosen[kept[kk] as int] as int].cover@[t],
        );
    let p = cs[chosen[kept[kk] as int] as int].cover@[t];
    let kept2 = kept.push(x);
    assert(kept2[kk] == kept[kk]);
    assert forall|kk2: int|
        0 <= kk2 < kk implies !(#[trigger] cs[chosen[kept2[kk2] as int] as int].cover@.contains(
        p,
    )) by {
        assert(kept2[kk2] == kept[kk2]);
        assert(!(cs[chosen[kept[kk2] as int] as int].cover@.contains(p)));
    }
    assert(fresh_for(cs, chosen, kept2, kk, p));
    assert(cs[chosen[kept2[kk] as int] as int].cover@[t] == p);
    assert(kept_contributes(cs, chosen, kept2, kk));
}

/// Tests whether a cluster's cover lists an arena index.
fn cover_contains(cl: &Cluster, p: usize) -> (r: bool)
    ensures
        r == cl.cover@.contains(p),
{
    let t_end: usize = cl.cover.len();
    let mut r: bool = false;
    for t in 0..t_end
        invariant
            t_end == cl.cover@.len(),
            r == exists|tt: int| 0 <= tt < t && (#[trigger] cl.cover@[tt]) == p,
    {
        if cl.cover[t] == p {
            r = true;
        }
    }
    proof {
        if r {
            let tt = choose|tt: int| 0 <= tt < cl.cover@.len() && cl.cover@[tt] == p;
        }
    }
    r
}

/// Drops chosen clusters whose own contribution is below the minimum.
///
/// The result lists positions into `chosen`, each at most once.  Above a
/// minimum of one the criterion is exact: a cluster is kept if and only if
/// at least `min_points` of its points are covered by it alone, and each
/// kept cluster covers a point no other chosen cluster covers.  At a minimum
/// of one the first pass keeps clusters with a uniquely covered point and a
/// second, order-sensitive pass re-adds clusters that still cover an unseen
/// point, so no covered point is lost.  In both passes every kept cluster
/// covers a point that no earlier kept cluster covers.
pub fn dedupe(cs: &Vec<Cluster>, chosen: &Vec<usize>, n: usize, min_points: usize) -> (kept: Vec<
    usize,
>)
    requires
        sel_wf(cs@, n as int),
        min_points >= 1,
        forall|k: int| 0 <= k < chosen@.len() ==> (#[trigger] chosen@[k]) < cs@.len(),
        chosen@.no_duplicates(),
    ensures
        kept@.no_duplicates(),
        forall|kk: int| 0 <= kk < kept@.len() ==> (#[trigger] kept@[kk]) < chosen@.len(),
        forall|k: int|
            0 <= k < chosen@.len() && cs@[(#[trigger] chosen@[k]) as int].cover@.len()
                >= min_points && (forall|t: int|
                0 <= t < cs@[chosen@[k] as int].cover@.len() ==> uniquely_covered(
                    cs@,
                    chosen@,
                    k,
                    #[trigger] cs@[chosen@[k] as int].cover@[t],
                )) ==> kept@.contains(k as usize),
        min_points > 1 ==> forall|k: int|
            0 <= k < chosen@.len() ==> ((#[trigger] kept@.contains(k as usize)) <==> uniq_set(
                cs@,
                chosen@,
                k,
            ).len() >= min_points),
        min_points > 1 ==> forall|kk: int|
            0 <= kk < kept@.len() ==> #[trigger] kept_has_unique(cs@, chosen@, kept@, kk),
        forall|kk: int|
            0 <= kk < kept@.len() ==> #[trigger] kept_contributes(cs@, chosen@, kept@, kk),
        min_points == 1 ==> forall|k: int, t: int|
            #![trigger cs@[chosen@[k] as int].cover@[t]]
            0 <= k < chosen@.len() && 0 <= t < cs@[chosen@[k] as int].cover@.len()
                ==> exists|kk: int|
                0 <= kk < kept@.len() && cs@[chosen@[#[trigger] kept@[kk] as int] as int].cover@.contains(
                    cs@[chosen@[k] as int].cover@[t],
                ),
{
    let m: usize = chosen.len();
    let mut kept: Vec<usize> = Vec::new();
    let mut seen: Vec<bool> = vec![false; n];
    let ghost mut keeper: Seq<int> = Seq::new(n as nat, |p: int| -1);
    for k in 0..m
        invariant
            m == chosen@.len(),
            sel_wf(cs@, n as int),
            min_points >= 1,
            forall|kx: int| 0 <= kx < chosen@.len() ==> (#[trigger] chosen@[kx]) < cs@.len(),
            chosen@.no_duplicates(),
            seen@.len() == n,
            keeper.len() == n,
            kept@.no_duplicates(),
            forall|kk: int| 0 <= kk < kept@.len() ==> (#[trigger] kept@[kk]) < chosen@.len(),
            forall|p: int|
                0 <= p < n ==> (seen@[p] <==> 0 <= (#[trigger] keeper[p]) < kept@.len()),
            forall|p: int|
                0 <= p < n && 0 <= (#[trigger] keeper[p]) ==> keeper[p] < kept@.len()
                    && cs@[chosen@[kept@[keeper[p]] as int] as int].cover@.contains(p as usize),
            forall|kk: int, t: int|
                #![trigger cs@[chosen@[kept@[kk] as int] as int].cover@[t]]
                0 <= kk < kept@.len() && 0 <= t
                    < cs@[chosen@[kept@[kk] as int] as int].cover@.len() ==> seen@[(
                cs@[chosen@[kept@[kk] as int] as int].cover@[t]) as int],
            forall|kx: int|
                0 <= kx < k && cs@[(#[trigger] chosen@[kx]) as int].cover@.len() >= min_points && (
                forall|t: int|
                    0 <= t < cs@[chosen@[kx] as int].cover@.len() ==> uniquely_covered(
                        cs@,
                        chosen@,
                        kx,
                        #[trigger] cs@[chosen@[kx] as int].cover@[t],
                    )) ==> kept@.contains(kx as usize),
            min_points > 1 ==> forall|kk: int|
                0 <= kk < kept@.len() ==> #[trigger] kept_has_unique(cs@, chosen@, kept@, kk),
            forall|kk: int|
                0 <= kk < kept@.len() ==> #[trigger] kept_contributes(cs@, chosen@, kept@, kk),
            min_points > 1 ==> forall|kx: int|
                0 <= kx < k ==> ((#[trigger] kept@.contains(kx as usize)) <==> uniq_set(
                    cs@,
                    chosen@,
                    kx,
                ).len() >= min_points),
            forall|kk: int| 0 <= kk < kept@.len() ==> (#[trigger] kept@[kk]) < k,
    {
        let cl = &cs[chosen[k]];
        let t_end: usize = cl.cover.len();
        let mut u_count: usize = 0;
        let ghost mut uvs: Set<usize> = Set::empty();
        for t in 0..t_end
            invariant
                t_end == cl.cover@.len(),
                cl == cs@[chosen@[k as int] as int],
                m == chosen@.len(),
                0 <= k < chosen@.len(),
                sel_wf(cs@, n as int),
                forall|kx: int| 0 <= kx < chosen@.len() ==> (#[trigger] chosen@[kx]) < cs@.len(),
                uvs =~= Set::new(
                    |p: usize|
                        uniquely_covered(cs@, chosen@, k as int, p) && (exists|tt: int|
                            0 <= tt < t && (#[trigger] cl.cover@[tt]) == p),
                ),
                uvs.finite(),
                u_count == uvs.len(),
                u_count <= t,
                (forall|tt: int|
                    0 <= tt < t ==> uniquely_covered(
                        cs@,
                        chosen@,
                        k as int,
                        #[trigger] cl.cover@[tt],
                    )) ==> u_count == t,
                u_count > 0 ==> exists|tt: int|
                    0 <= tt < cl.cover@.len() && uniquely_covered(
                        cs@,
                        chosen@,
                        k as int,
                        #[trigger] cl.cover@[tt],
                    ),
        {
            let p = cl.cover[t];
            let mut other: bool = false;
            for k2 in 0..m
                invariant
                    m == chosen@.len(),
                    0 <= k < chosen@.len(),
                    forall|kx: int|
                        0 <= kx < chosen@.len() ==> (#[trigger] chosen@[kx]) < cs@.len(),
                    other <==> exists|kx: int|
                        0 <= kx < k2 && kx != k as int && (
                        #[trigger] cs@[chosen@[kx] as int].cover@.contains(p)),
            {
                if k2 != k {
                    if cover_contains(&cs[chosen[k2]], p) {
                        other = true;
                        proof {
                            assert(cs@[chosen@[k2 as int] as int].cover@.contains(p));
                        }
                    }
                }
            }
            if !other {
                u_count = u_count + 1;
                proof {
                    assert(uniquely_covered(cs@, chosen@, k as int, cl.cover@[t as int]));
                    if uvs.contains(p) {
                        let tt = choose|tt: int|
                            0 <= tt < t && (#[trigger] cl.cover@[tt]) == p;
                        assert(false);
                    }
                    let uvs2 = Set::new(
                        |q: usize|
                            uniquely_covered(cs@, chosen@, k as int, q) && (exists|tt: int|
                                0 <= tt < t + 1 && (#[trigger] cl.cover@[tt]) == q),
                    );
                    assert forall|q: usize| uvs2.contains(q) implies uvs.insert(p).contains(
                        q,
                    ) by {
                        let tt = choose|tt: int|
                            0 <= tt < t + 1 && (#[trigger] cl.cover@[tt]) == q;
                        if tt < t {
                            assert(uvs.contains(q));
                        }
                    }
                    assert forall|q: usize| uvs.insert(p).contains(q) implies uvs2.contains(
                        q,
                    ) by {
                        if q == p {
                            assert(cl.cover@[t as int] == q);
                        } else {
                            let tt = choose|tt: int|
                                0 <= tt < t && (#[trigger] cl.cover@[tt]) == q;
                        }
                    }
                    assert(uvs2 =~= uvs.insert(p));
                    uvs = uvs.insert(p);
                }
            } else {
                proof {
                    let kx = choose|kx: int|
                        0 <= kx < chosen@.len() && kx != k as int && (
                        #[trigger] cs@[chosen@[kx] as int].cover@.contains(p));
                    assert(!uniquely_covered(cs@, chosen@, k as int, cl.cover@[t as int]));
                    let uvs2 = Set::new(
                        |q: usize|
                            uniquely_covered(cs@, chosen@, k as int, q) && (exists|tt: int|
                                0 <= tt < t + 1 && (#[trigger] cl.cover@[tt]) == q),
                    );
                    assert forall|q: usize| uvs2.contains(q) implies uvs.contains(q) by {
                        let tt = choose|tt: int|
                            0 <= tt < t + 1 && (#[trigger] cl.cover@[tt]) == q;
                        if tt == t {
                            assert(!uniquely_covered(cs@, chosen@, k as int, q));
                        }
                    }
                    assert(uvs2 =~= uvs);
                    uvs = uvs2;
                }
            }
        }
        proof {
            // The count equals the size of the uniquely covered set.
            assert forall|q: usize| uvs.contains(q) implies uniq_set(cs@, chosen@, k as int).contains(
                q,
            ) by {
                let tt = choose|tt: int|
                    0 <= tt < t_end && (#[trigger] cl.cover@[tt]) == q;
                assert(cl.cover@.contains(q));
            }
            assert forall|q: usize|
                uniq_set(cs@, chosen@, k as int).contains(q) implies uvs.contains(q) by {
                assert(cl.cover@.contains(q));
                let tt = choose|tt: int| 0 <= tt < cl.cover@.len() && cl.cover@[tt] == q;
            }
            assert(uvs =~= uniq_set(cs@, chosen@, k as int));
            assert(u_count == uniq_set(cs@, chosen@, k as int).len());
        }
        if u_count >= min_points {
            let ghost kept_before = kept@;
            proof {
                if kept@.contains(k as usize) {
                    let kk = choose|kk: int| 0 <= kk < kept@.len() && kept@[kk] == k as usize;
                    assert(kept@[kk] < k);
                }
                assert(!kept@.contains(k as usize));
            }
            kept.push(k);
            proof {
                assert forall|kk1: int, kk2: int|
                    0 <= kk1 < kk2 < kept@.len() implies kept@[kk1] != kept@[kk2] by {
                    if kk2 == kept@.len() - 1 {
                        assert(kept_before[kk1] < k);
                    }
                }
                assert(kept@[kept@.len() - 1] == k as usize);
                if min_points > 1 {
                    assert forall|kx: int|
                        0 <= kx < k + 1 implies ((#[trigger] kept@.contains(kx as usize)) <==>
                        uniq_set(cs@, chosen@, kx).len() >= min_points) by {
                        if kx == k {
                            assert(kept@.contains(kx as usize));
                            assert(uniq_set(cs@, chosen@, kx).len() >= min_points);
                        } else {
                            if kept_before.contains(kx as usize) {
                                let kk = choose|kk: int|
                                    0 <= kk < kept_before.len() && kept_before[kk] == kx as usize;
                                assert(kept@[kk] == kx as usize);
                                assert(kept@.contains(kx as usize));
                            }
                            if kept@.contains(kx as usize) {
                                let kk = choose|kk: int|
                                    0 <= kk < kept@.len() && kept@[kk] == kx as usize;
                                assert(kk < kept@.len() - 1);
                                assert(kept_before[kk] == kx as usize);
                                assert(kept_before.contains(kx as usize));
                            }
                        }
                    }
                }
                assert forall|kx: int|
                    0 <= kx < k + 1 && cs@[(#[trigger] chosen@[kx]) as int].cover@.len()
                        >= min_points && (forall|t: int|
                        0 <= t < cs@[chosen@[kx] as int].cover@.len() ==> uniquely_covered(
                            cs@,
                            chosen@,
                            kx,
                            #[trigger] cs@[chosen@[kx] as int].cover@[t],
                        )) implies kept@.contains(kx as usize) by {
                    if kx == k {
                        assert(kept@[kept@.len() - 1] == kx as usize);
                    } else {
                        assert(kept_before.contains(kx as usize));
                        let kk = choose|kk: int|
                            0 <= kk < kept_before.len() && kept_before[kk] == kx as usize;
                        assert(kept@[kk] == kx as usize);
                    }
                }
                if min_points > 1 {
                    assert forall|kk: int|
                        0 <= kk < kept@.len() implies #[trigger] kept_has_unique(
                        cs@,
                        chosen@,
                        kept@,
                        kk,
                    ) by {
                        if kk < kept@.len() - 1 {
                            assert(kept_has_unique(cs@, chosen@, kept_before, kk));
                            let tt = choose|t: int|
                                0 <= t < cs@[chosen@[kept_before[kk] as int] as int].cover@.len()
                                    && uniquely_covered(
                                    cs@,
                                    chosen@,
                                    kept_before[kk] as int,
                                    cs@[chosen@[kept_before[kk] as int] as int].cover@[t],
                                );
                            assert(kept@[kk] == kept_before[kk]);
                            assert(0 <= tt < cs@[chosen@[kept@[kk] as int] as int].cover@.len()
                                && uniquely_covered(
                                cs@,
                                chosen@,
                                kept@[kk] as int,
                                cs@[chosen@[kept@[kk] as int] as int].cover@[tt],
                            ));
                        } else {
                            assert(kept@[kk] == k as usize);
                            assert(u_count > 0);
                            let tt = choose|tt: int|
                                0 <= tt < cl.cover@.len() && uniquely_covered(
                                    cs@,
                                    chosen@,
                                    k as int,
                                    #[trigger] cl.cover@[tt],
                                );
                            assert(0 <= tt < cs@[chosen@[kept@[kk] as int] as int].cover@.len()
                                && uniquely_covered(
                                cs@,
                                chosen@,
                                kept@[kk] as int,
                                cs@[chosen@[kept@[kk] as int] as int].cover@[tt],
                            ));
                        }
                    }
                }
                assert forall|kk: int|
                    0 <= kk < kept@.len() implies #[trigger] kept_contributes(
                    cs@,
                    chosen@,
                    kept@,
                    kk,
                ) by {
                    if kk < kept@.len() - 1 {
                        assert(kept_contributes(cs@, chosen@, kept_before, kk));
                        lemma_contributes_push(cs@, chosen@, kept_before, k, kk);
                        assert(kept@ =~= kept_before.push(k));
                        assert(kept_contributes(cs@, chosen@, kept@, kk));
                    } else {
                        assert(kept@[kk] == k as usize);
                        assert(u_count > 0);
                        let tt = choose|tt: int|
                            0 <= tt < cl.cover@.len() && uniquely_covered(
                                cs@,
                                chosen@,
                                k as int,
                                #[trigger] cl.cover@[tt],
                            );
                        assert forall|kk2: int|
                            0 <= kk2 < kk implies !(
                            #[trigger] cs@[chosen@[kept@[kk2] as int] as int].cover@.contains(
                            cl.cover@[tt],
                        )) by {
                            assert(kept@[kk2] == kept_before[kk2]);
                            assert(kept_before[kk2] < k);
                        }
                        assert(fresh_for(cs@, chosen@, kept@, kk, cl.cover@[tt]));
                        assert(cs@[chosen@[kept@[kk] as int] as int].cover@[tt] == cl.cover@[tt]);
                        assert(kept_contributes(cs@, chosen@, kept@, kk));
                    }
                }
            }
            // Mark every covered point as seen by this kept cluster.
            let ghost kk_new = kept@.len() - 1;
            for t in 0..t_end
                invariant
                    t_end == cl.cover@.len(),
                    cl == cs@[chosen@[k as int] as int],
                    m == chosen@.len(),
                    0 <= k < chosen@.len(),
                    sel_wf(cs@, n as int),
                    forall|kx: int|
                        0 <= kx < chosen@.len() ==> (#[trigger] chosen@[kx]) < cs@.len(),
                    seen@.len() == n,
                    keeper.len() == n,
                    kept@.len() >= 1,
                    kk_new == kept@.len() - 1,
                    kept@[kk_new] == k as usize,
                    forall|kk: int|
                        0 <= kk < kept@.len() ==> (#[trigger] kept@[kk]) < chosen@.len(),
                    forall|p: int|
                        0 <= p < n ==> (seen@[p] <==> 0 <= (#[trigger] keeper[p]) < kept@.len()),
                    forall|p: int|
                        0 <= p < n && 0 <= (#[trigger] keeper[p]) ==> keeper[p] < kept@.len()
                            && cs@[chosen@[kept@[keeper[p]] as int] as int].cover@.contains(
                            p as usize,
                        ),
                    forall|kk: int, t2: int|
                        #![trigger cs@[chosen@[kept@[kk] as int] as int].cover@[t2]]
                        0 <= kk < kept@.len() - 1 && 0 <= t2
                            < cs@[chosen@[kept@[kk] as int] as int].cover@.len()
                            ==> seen@[(cs@[chosen@[kept@[kk] as int] as int].cover@[t2]) as int],
                    forall|t2: int| 0 <= t2 < t ==> seen@[(#[trigger] cl.cover@[t2]) as int],
                    min_points > 1 ==> forall|kk: int|
                        0 <= kk < kept@.len() ==> #[trigger] kept_has_unique(
                            cs@,
                            chosen@,
                            kept@,
                            kk,
                        ),
                    forall|kk: int|
                        0 <= kk < kept@.len() ==> #[trigger] kept_contributes(
                            cs@,
                            chosen@,
                            kept@,
                            kk,
                        ),
                    min_points > 1 ==> forall|kx: int|
                        0 <= kx < k + 1 ==> ((#[trigger] kept@.contains(kx as usize)) <==>
                        uniq_set(cs@, chosen@, kx).len() >= min_points),
            {
                let p = cl.cover[t];
                seen[p] = true;
                proof {
                    keeper = keeper.update(p as int, kk_new);
                    assert(cs@[chosen@[kept@[kk_new] as int] as int].cover@.contains(p));
                }
            }
        } else {
            proof {
                assert forall|kx: int|
                    0 <= kx < k + 1 && cs@[(#[trigger] chosen@[kx]) as int].cover@.len()
                        >= min_points && (forall|t: int|
                        0 <= t < cs@[chosen@[kx] as int].cover@.len() ==> uniquely_covered(
                            cs@,
                            chosen@,
                            kx,
                            #[trigger] cs@[chosen@[kx] as int].cover@[t],
                        )) implies kept@.contains(kx as usize) by {
                    if kx == k {
                        assert(forall|tt: int|
                            0 <= tt < t_end ==> uniquely_covered(
                                cs@,
                                chosen@,
                                k as int,
                                #[trigger] cl.cover@[tt],
                            ));
                        assert(u_count == t_end);
                        assert(false);
                    }
                }
                if min_points > 1 {
                    assert forall|kx: int|
                        0 <= kx < k + 1 implies ((#[trigger] kept@.contains(kx as usize)) <==>
                        uniq_set(cs@, chosen@, kx).len() >= min_points) by {
                        if kx == k {
                            if kept@.contains(kx as usize) {
                                let kk = choose|kk: int|
                                    0 <= kk < kept@.len() && kept@[kk] == kx as usize;
                                assert(kept@[kk] < k);
                                assert(false);
                            }
                            assert(uniq_set(cs@, chosen@, kx).len() < min_points);
                        }
                    }
                }
            }
        }
    }
    if min_points == 1 {
        // Second pass: re-add clusters that still cover an unseen point.
        for k in 0..m
            invariant
                m == chosen@.len(),
                sel_wf(cs@, n as int),
                min_points == 1,
                forall|kx: int| 0 <= kx < chosen@.len() ==> (#[trigger] chosen@[kx]) < cs@.len(),
                chosen@.no_duplicates(),
                seen@.len() == n,
                keeper.len() == n,
                kept@.no_duplicates(),
                forall|kk: int| 0 <= kk < kept@.len() ==> (#[trigger] kept@[kk]) < chosen@.len(),
                forall|p: int|
                    0 <= p < n ==> (seen@[p] <==> 0 <= (#[trigger] keeper[p]) < kept@.len()),
                forall|p: int|
                    0 <= p < n && 0 <= (#[trigger] keeper[p]) ==> keeper[p] < kept@.len()
                        && cs@[chosen@[kept@[keeper[p]] as int] as int].cover@.contains(p as usize),
                forall|kk: int, t: int|
                    #![trigger cs@[chosen@[kept@[kk] as int] as int].cover@[t]]
                    0 <= kk < kept@.len() && 0 <= t
                        < cs@[chosen@[kept@[kk] as int] as int].cover@.len() ==> seen@[(
                    cs@[chosen@[kept@[kk] as int] as int].cover@[t]) as int],
                forall|kx: int|
                    0 <= kx < chosen@.len() && cs@[(#[trigger] chosen@[kx]) as int].cover@.len()
                        >= min_points && (forall|t: int|
                        0 <= t < cs@[chosen@[kx] as int].cover@.len() ==> uniquely_covered(
                            cs@,
                            chosen@,
                            kx,
                            #[trigger] cs@[chosen@[kx] as int].cover@[t],
                        )) ==> kept@.contains(kx as usize),
                forall|kx: int, t: int|
                    #![trigger cs@[chosen@[kx] as int].cover@[t]]
                    0 <= kx < k && 0 <= t < cs@[chosen@[kx] as int].cover@.len()
                        ==> seen@[(cs@[chosen@[kx] as int].cover@[t]) as int],
                forall|kk: int|
                    0 <= kk < kept@.len() ==> #[trigger] kept_contributes(cs@, chosen@, kept@, kk),
        {
            let cl = &cs[chosen[k]];
            let t_end: usize = cl.cover.len();
            let mut has_unseen: bool = false;
            for t in 0..t_end
                invariant
                    t_end == cl.cover@.len(),
                    cl == cs@[chosen@[k as int] as int],
                    0 <= k < chosen@.len(),
                    forall|kx: int|
                        0 <= kx < chosen@.len() ==> (#[trigger] chosen@[kx]) < cs@.len(),
                    sel_wf(cs@, n as int),
                    seen@.len() == n,
                    has_unseen <==> exists|tt: int|
                        0 <= tt < t && !seen@[(#[trigger] cl.cover@[tt]) as int],
            {
                let p = cl.cover[t];
                if !seen[p] {
                    has_unseen = true;
                }
            }
            if has_unseen {
                let ghost kept_before = kept@;
                proof {
                    let tt = choose|tt: int|
                        0 <= tt < cl.cover@.len() && !seen@[(#[trigger] cl.cover@[tt]) as int];
                    if kept@.contains(k as usize) {
                        let kk = choose|kk: int|
                            0 <= kk < kept@.len() && kept@[kk] == k as usize;
                        assert(seen@[(cs@[chosen@[kept@[kk] as int] as int].cover@[tt]) as int]);
                    }
                    assert(!kept@.contains(k as usize));
                }
                kept.push(k);
                proof {
                    assert forall|kk1: int, kk2: int|
                        0 <= kk1 < kk2 < kept@.len() implies kept@[kk1] != kept@[kk2] by {
                        if kk2 == kept@.len() - 1 {
                            assert(kept_before.contains(kept_before[kk1]));
                        }
                    }
                    assert forall|kx: int|
                        0 <= kx < chosen@.len() && cs@[(#[trigger] chosen@[kx]) as int].cover@.len()
                            >= min_points && (forall|t: int|
                            0 <= t < cs@[chosen@[kx] as int].cover@.len() ==> uniquely_covered(
                                cs@,
                                chosen@,
                                kx,
                                #[trigger] cs@[chosen@[kx] as int].cover@[t],
                            )) implies kept@.contains(kx as usize) by {
                        assert(kept_before.contains(kx as usize));
                        let kk = choose|kk: int|
                            0 <= kk < kept_before.len() && kept_before[kk] == kx as usize;
                        assert(kept@[kk] == kx as usize);
                    }
                    assert forall|kk: int|
                        0 <= kk < kept@.len() implies #[trigger] kept_contributes(
                        cs@,
                        chosen@,
                        kept@,
                        kk,
                    ) by {
                        if kk < kept@.len() - 1 {
                            assert(kept_contributes(cs@, chosen@, kept_before, kk));
                            lemma_contributes_push(cs@, chosen@, kept_before, k, kk);
                            assert(kept@ =~= kept_before.push(k));
                            assert(kept_contributes(cs@, chosen@, kept@, kk));
                        } else {
                            assert(kept@[kk] == k as usize);
                            let tt2 = choose|tt2: int|
                                0 <= tt2 < cl.cover@.len() && !seen@[(
                                #[trigger] cl.cover@[tt2]) as int];
                            assert forall|kk2: int|
                                0 <= kk2 < kk implies !(
                                #[trigger] cs@[chosen@[kept@[kk2] as int] as int].cover@.contains(
                                cl.cover@[tt2],
                            )) by {
                                assert(kept@[kk2] == kept_before[kk2]);
                                if cs@[chosen@[kept_before[kk2] as int] as int].cover@.contains(
                                    cl.cover@[tt2],
                                ) {
                                    let t3 = choose|t3: int|
                                        0 <= t3 < cs@[chosen@[kept_before[kk2] as int] as int].cover@.len()
                                            && cs@[chosen@[kept_before[kk2] as int] as int].cover@[t3]
                                            == cl.cover@[tt2];
                                    assert(seen@[(
                                    cs@[chosen@[kept_before[kk2] as int] as int].cover@[t3]) as int]);
                                    assert(false);
                                }
                            }
                            assert(fresh_for(cs@, chosen@, kept@, kk, cl.cover@[tt2]));
                            assert(cs@[chosen@[kept@[kk] as int] as int].cover@[tt2] == cl.cover@[tt2]);
                            assert(kept_contributes(cs@, chosen@, kept@, kk));
                        }
                    }
                }
                let ghost kk_new = kept@.len() - 1;
                for t in 0..t_end
                    invariant
                        t_end == cl.cover@.len(),
                        cl == cs@[chosen@[k as int] as int],
                        m == chosen@.len(),
                        0 <= k < chosen@.len(),
                        sel_wf(cs@, n as int),
                        forall|kx: int|
                            0 <= kx < chosen@.len() ==> (#[trigger] chosen@[kx]) < cs@.len(),
                        seen@.len() == n,
                        keeper.len() == n,
                        kept@.len() >= 1,
                        kk_new == kept@.len() - 1,
                        kept@[kk_new] == k as usize,
                        forall|kk: int|
                            0 <= kk < kept@.len() ==> (#[trigger] kept@[kk]) < chosen@.len(),
                        forall|p: int|
                            0 <= p < n ==> (seen@[p] <==> 0 <= (#[trigger] keeper[p])
                                < kept@.len()),
                        forall|p: int|
                            0 <= p < n && 0 <= (#[trigger] keeper[p]) ==> keeper[p] < kept@.len()
                                && cs@[chosen@[kept@[keeper[p]] as int] as int].cover@.contains(
                                p as usize,
                            ),
                        forall|kk: int, t2: int|
                            #![trigger cs@[chosen@[kept@[kk] as int] as int].cover@[t2]]
                            0 <= kk < kept@.len() - 1 && 0 <= t2
                                < cs@[chosen@[kept@[kk] as int] as int].cover@.len()
                                ==> seen@[(cs@[chosen@[kept@[kk] as int] as int].cover@[t2]) as int],
                        forall|t2: int| 0 <= t2 < t ==> seen@[(#[trigger] cl.cover@[t2]) as int],
                        forall|kx: int, t2: int|
                            #![trigger cs@[chosen@[kx] as int].cover@[t2]]
                            0 <= kx < k && 0 <= t2
                                < cs@[chosen@[kx] as int].cover@.len() ==> seen@[(
                            cs@[chosen@[kx] as int].cover@[t2]) as int],
                        forall|kk: int|
                            0 <= kk < kept@.len() ==> #[trigger] kept_contributes(
                                cs@,
                                chosen@,
                                kept@,
                                kk,
                            ),
                {
                    let p = cl.cover[t];
                    seen[p] = true;
                    proof {
                        keeper = keeper.update(p as int, kk_new);
                        assert(cs@[chosen@[kept@[kk_new] as int] as int].cover@.contains(p));
                    }
                }
            }
        }
        proof {
            // Every point covered by a chosen cluster is seen, and every
            // seen point is covered by a kept cluster.
            assert forall|k: int, t: int|
                #![trigger cs@[chosen@[k] as int].cover@[t]]
                0 <= k < chosen@.len() && 0 <= t < cs@[chosen@[k] as int].cover@.len()
                    implies exists|kk: int|
                0 <= kk < kept@.len() && cs@[chosen@[#[trigger] kept@[kk] as int] as int].cover@.contains(
                    cs@[chosen@[k] as int].cover@[t],
                ) by {
                let p = cs@[chosen@[k] as int].cover@[t];
                assert(seen@[p as int]);
                let kk = keeper[p as int];
                assert(cs@[chosen@[kept@[kk] as int] as int].cover@.contains(p));
            }
        }
    }
    kept
}

} // verus!
