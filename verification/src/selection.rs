//! Greedy selection of clusters.
//!
//! Rounds alternate a read-only filtering pass and a sequential accept pass.
//! The filter computes every unchosen cluster's effective coverage (its cover
//! minus the blocked points) and drops clusters below the minimum; the accept
//! pass walks the survivors in coverage order, accepts each one whose score
//! reaches the round's threshold and whose effective points are still
//! unblocked, and blocks those points.  The threshold starts at a sentinel of
//! 100 and is lowered to the round's best score until it reaches the minimum
//! points bound, or until the cluster cap is hit.

use vstd::prelude::*;
use crate::clusters::Cluster;
use crate::clusters::key_le;

verus! {

broadcast use {
    vstd::seq_lib::group_to_multiset_ensures,
    vstd::seq_lib::seq_to_set_is_finite,
    vstd::set::group_set_axioms,
};

/// Clusters fed to selection: non-empty covers of distinct arena indices
/// below the arena size.
pub open spec fn sel_wf(cs: Seq<Cluster>, n: int) -> bool {
    forall|j: int|
        0 <= j < cs.len() ==> {
            &&& (#[trigger] cs[j]).cover@.no_duplicates()
            &&& cs[j].cover@.len() > 0
            &&& forall|t: int| 0 <= t < cs[j].cover@.len() ==> (#[trigger] cs[j].cover@[t]) < n
        }
}

/// An arena point is covered by a chosen cluster.
pub open spec fn covered_by_chosen(cs: Seq<Cluster>, chosen: Seq<usize>, p: usize) -> bool {
    exists|k: int|
        0 <= k < chosen.len() && (#[trigger] cs[chosen[k] as int].cover@.contains(p))
}

/// Number of set entries in a boolean buffer.
pub open spec fn count_true(s: Seq<bool>) -> int
    decreases s.len(),
{
    if s.len() == 0 {
        0
    } else {
        count_true(s.drop_last()) + if s.last() {
            1int
        } else {
            0int
        }
    }
}

/// The count of set entries never exceeds the buffer length.
pub proof fn lemma_count_true_le(s: Seq<bool>)
    ensures
        0 <= count_true(s) <= s.len(),
    decreases s.len(),
{
    if s.len() > 0 {
        lemma_count_true_le(s.drop_last());
    }
}

/// Setting a clear entry raises the count by exactly one.
pub proof fn lemma_count_true_update(s: Seq<bool>, p: int)
    requires
        0 <= p < s.len(),
        !s[p],
    ensures
        count_true(s.update(p, true)) == count_true(s) + 1,
    decreases s.len(),
{
    let s2 = s.update(p, true);
    if p == s.len() - 1 {
        assert(s2.drop_last() =~= s.drop_last());
    } else {
        assert(s2.drop_last() =~= s.drop_last().update(p, true));
        lemma_count_true_update(s.drop_last(), p);
        assert(s2.last() == s.last());
    }
}

/// A distinct sequence whose elements all occur in another distinct sequence
/// is no longer than it.
pub proof fn lemma_distinct_superset_len(s1: Seq<usize>, s2: Seq<usize>)
    requires
        s1.no_duplicates(),
        s2.no_duplicates(),
        forall|x: usize| s1.contains(x) ==> s2.contains(x),
    ensures
        s1.len() <= s2.len(),
{
    s1.unique_seq_to_set();
    s2.unique_seq_to_set();
    assert(s1.to_set().subset_of(s2.to_set()));
    vstd::set_lib::lemma_len_subset(s1.to_set(), s2.to_set());
}

/// No chosen cluster other than the one at position `k` covers `p`.
pub open spec fn uniquely_covered(cs: Seq<Cluster>, chosen: Seq<usize>, k: int, p: usize) -> bool {
    forall|k2: int|
        0 <= k2 < chosen.len() && k2 != k ==> !(#[trigger] cs[chosen[k2] as int].cover@.contains(p))
}

/// The arena indices that the chosen cluster at position `k` covers and no
/// other chosen cluster covers.
pub open spec fn uniq_set(cs: Seq<Cluster>, chosen: Seq<usize>, k: int) -> Set<usize> {
    Set::new(
        |p: usize| cs[chosen[k] as int].cover@.contains(p) && uniquely_covered(cs, chosen, k, p),
    )
}

/// The uniquely covered indices of a chosen cluster form a finite set.
pub proof fn lemma_uniq_set_finite(cs: Seq<Cluster>, chosen: Seq<usize>, k: int)
    requires
        0 <= k < chosen.len(),
        chosen[k] < cs.len(),
    ensures
        uniq_set(cs, chosen, k).finite(),
{
    let cov = cs[chosen[k] as int].cover@;
    assert forall|p: usize| uniq_set(cs, chosen, k).contains(p) implies cov.to_set().contains(
        p,
    ) by {
        assert(cov.contains(p));
    }
    vstd::set_lib::lemma_len_subset(uniq_set(cs, chosen, k), cov.to_set());
}

/// What the filtering pass records for one cluster: either its effective
/// coverage (distinct, unblocked, part of the cover, complete, and at least
/// the minimum), or, for an unchosen dropped cluster, the facts that justify
/// dropping it.
pub open spec fn surv_entry_ok(
    o: Option<Vec<usize>>,
    cl: Cluster,
    flag: bool,
    blocked: Seq<bool>,
    min_points: int,
) -> bool {
    match o {
        Option::Some(eff) => {
            &&& !flag
            &&& eff@.no_duplicates()
            &&& eff@.len() >= min_points
            &&& forall|u: int|
                0 <= u < eff@.len() ==> cl.cover@.contains(#[trigger] eff@[u]) && (eff@[u] as int)
                    < blocked.len() && !blocked[eff@[u] as int]
            &&& forall|t: int|
                0 <= t < cl.cover@.len() && !blocked[(#[trigger] cl.cover@[t]) as int]
                    ==> eff@.contains(cl.cover@[t])
        },
        Option::None => !flag ==> {
            &&& (min_points <= 1 ==> forall|t: int|
                0 <= t < cl.cover@.len() ==> blocked[(#[trigger] cl.cover@[t]) as int])
            &&& (cl.cover@.len() >= min_points ==> exists|t: int|
                0 <= t < cl.cover@.len() && blocked[(#[trigger] cl.cover@[t]) as int])
        },
    }
}

/// Every survivor seen in the first `upto` order positions scores at most
/// `best`.
pub open spec fn best_covers(
    effs: Seq<Option<Vec<usize>>>,
    cs: Seq<Cluster>,
    order: Seq<usize>,
    upto: int,
    best: int,
) -> bool {
    forall|t: int|
        0 <= t < upto ==> match #[trigger] effs[order[t] as int] {
            Option::Some(eff) => eff@.len() + 1 <= best,
            Option::None => true,
        }
}

/// The read-only filtering pass of one round: computes each unchosen
/// cluster's effective coverage against the current blocked set, dropping
/// chosen clusters and clusters left below the minimum.
fn round_filter(
    cs: &Vec<Cluster>,
    chosen_flag: &Vec<bool>,
    blocked: &Vec<bool>,
    min_points: usize,
) -> (effs: Vec<Option<Vec<usize>>>)
    requires
        sel_wf(cs@, blocked@.len() as int),
        chosen_flag@.len() == cs@.len(),
    ensures
        effs@.len() == cs@.len(),
        forall|j: int|
            0 <= j < cs@.len() ==> surv_entry_ok(
                #[trigger] effs@[j],
                cs@[j],
                chosen_flag@[j],
                blocked@,
                min_points as int,
            ),
{
    let n_c: usize = cs.len();
    let mut effs: Vec<Option<Vec<usize>>> = Vec::new();
    for j in 0..n_c
        invariant
            n_c == cs@.len(),
            chosen_flag@.len() == cs@.len(),
            sel_wf(cs@, blocked@.len() as int),
            effs@.len() == j,
            forall|jj: int|
                0 <= jj < j ==> surv_entry_ok(
                    #[trigger] effs@[jj],
                    cs@[jj],
                    chosen_flag@[jj],
                    blocked@,
                    min_points as int,
                ),
    {
        if chosen_flag[j] {
            effs.push(Option::None);
        } else {
            let cl = &cs[j];
            let w_end: usize = cl.cover.len();
            let mut eff: Vec<usize> = Vec::new();
            let ghost mut src: Seq<int> = Seq::empty();
            for w in 0..w_end
                invariant
                    w_end == cl.cover@.len(),
                    cl == cs@[j as int],
                    0 <= j < cs@.len(),
                    sel_wf(cs@, blocked@.len() as int),
                    src.len() == eff@.len(),
                    forall|u: int|
                        0 <= u < eff@.len() ==> 0 <= (#[trigger] src[u]) < w && cl.cover@[src[u]]
                            == eff@[u],
                    forall|u1: int, u2: int| 0 <= u1 < u2 < eff@.len() ==> src[u1] < src[u2],
                    forall|u: int|
                        0 <= u < eff@.len() ==> (eff@[u] as int) < blocked@.len() && !blocked@[(
                        #[trigger] eff@[u]) as int],
                    forall|t: int|
                        0 <= t < w && !blocked@[(#[trigger] cl.cover@[t]) as int] ==> eff@.contains(
                            cl.cover@[t],
                        ),
            {
                let p = cl.cover[w];
                if !blocked[p] {
                    let ghost before = eff@;
                    eff.push(p);
                    proof {
                        src = src.push(w as int);
                        assert forall|t: int|
                            0 <= t < w + 1 && !blocked@[(#[trigger] cl.cover@[t]) as int]
                                implies eff@.contains(cl.cover@[t]) by {
                            if t < w {
                                assert(before.contains(cl.cover@[t]));
                                let u = choose|u: int|
                                    0 <= u < before.len() && before[u] == cl.cover@[t];
                                assert(eff@[u] == cl.cover@[t]);
                            } else {
                                assert(eff@[eff@.len() - 1] == cl.cover@[t]);
                            }
                        }
                    }
                }
            }
            proof {
                // Effective entries come from distinct cover positions.
                assert forall|u1: int, u2: int|
                    0 <= u1 < u2 < eff@.len() implies eff@[u1] != eff@[u2] by {
                    assert(cl.cover@[src[u1]] == eff@[u1]);
                    assert(cl.cover@[src[u2]] == eff@[u2]);
                }
                assert(eff@.no_duplicates());
                assert forall|u: int|
                    0 <= u < eff@.len() implies cl.cover@.contains(#[trigger] eff@[u]) by {
                    assert(cl.cover@[src[u]] == eff@[u]);
                }
            }
            if eff.len() >= min_points {
                effs.push(Option::Some(eff));
            } else {
                proof {
                    if min_points <= 1 {
                        assert forall|t: int|
                            0 <= t < cl.cover@.len() implies blocked@[(#[trigger] cl.cover@[t])
                            as int] by {
                            if !blocked@[cl.cover@[t] as int] {
                                assert(eff@.contains(cl.cover@[t]));
                                assert(eff@.len() >= 1);
                            }
                        }
                    }
                    if cl.cover@.len() >= min_points {
                        // If nothing were blocked the effective list would be
                        // as long as the cover.
                        if forall|t: int|
                            0 <= t < cl.cover@.len() ==> !blocked@[(#[trigger] cl.cover@[t]) as int] {
                            assert forall|x: usize|
                                cl.cover@.contains(x) implies eff@.contains(x) by {
                                let t = choose|t: int|
                                    0 <= t < cl.cover@.len() && cl.cover@[t] == x;
                                assert(!blocked@[cl.cover@[t] as int]);
                            }
                            lemma_distinct_superset_len(cl.cover@, eff@);
                            assert(false);
                        }
                        let t = choose|t: int|
                            0 <= t < cl.cover@.len() && blocked@[(#[trigger] cl.cover@[t]) as int];
                        assert(blocked@[(cl.cover@[t]) as int]);
                    }
                }
                effs.push(Option::None);
            }
        }
    }
    effs
}

/// Greedily selects clusters, in coverage order, until no unchosen cluster
/// reaches the minimum effective coverage or the cluster cap is hit.
///
/// The result lists the positions of the chosen clusters in pick order.
/// Beyond the cap and minimum-coverage bounds, the contract states greedy
/// completeness: when the cap was not hit, an unchosen cluster with enough
/// points has a point already covered by a chosen one, and under a minimum
/// of one, all points of unchosen clusters are covered by chosen clusters.
pub fn select(
    cs: &Vec<Cluster>,
    order: &Vec<usize>,
    n: usize,
    min_points: usize,
    max_clusters: usize,
) -> (chosen: Vec<usize>)
    requires
        sel_wf(cs@, n as int),
        min_points >= 1,
        order@.len() == cs@.len(),
        order@.no_duplicates(),
        forall|k: int| 0 <= k < order@.len() ==> (#[trigger] order@[k]) < cs@.len(),
        forall|i: int| 0 <= i < cs@.len() ==> #[trigger] order@.contains(i as usize),
        forall|k1: int, k2: int|
            0 <= k1 < k2 < order@.len() ==> key_le(cs@, order@[k1] as int, order@[k2] as int),
    ensures
        chosen@.no_duplicates(),
        forall|k: int| 0 <= k < chosen@.len() ==> (#[trigger] chosen@[k]) < cs@.len(),
        chosen@.len() <= max_clusters,
        chosen@.len() <= n,
        min_points >= 100 ==> chosen@.len() == 0,
        forall|k: int|
            0 <= k < chosen@.len() ==> cs@[(#[trigger] chosen@[k]) as int].cover@.len()
                >= min_points,
        (min_points == 1 && chosen@.len() < max_clusters) ==> forall|j: int, t: int|
            0 <= j < cs@.len() && !chosen@.contains(j as usize) && 0 <= t
                < cs@[j].cover@.len() ==> covered_by_chosen(
                cs@,
                chosen@,
                #[trigger] cs@[j].cover@[t],
            ),
        (min_points < 100 && chosen@.len() < max_clusters) ==> forall|j: int|
            0 <= j < cs@.len() && !chosen@.contains(j as usize) && (#[trigger] cs@[j]).cover@.len()
                >= min_points ==> exists|t: int|
                0 <= t < cs@[j].cover@.len() && covered_by_chosen(cs@, chosen@, cs@[j].cover@[t]),
        chosen@.len() > 0 ==> uniq_set(cs@, chosen@, chosen@.len() - 1).finite() && uniq_set(
            cs@,
            chosen@,
            chosen@.len() - 1,
        ).len() >= min_points,
{
    let n_c: usize = cs.len();
    let mut chosen: Vec<usize> = Vec::new();
    let mut chosen_flag: Vec<bool> = vec![false; n_c];
    let mut blocked: Vec<bool> = vec![false; n];
    let mut highest: u128 = 100;
    let ghost mut last_eff: Seq<usize> = Seq::empty();
    proof {
        lemma_count_true_le(blocked@);
    }
    while highest > (min_points as u128) && chosen.len() < max_clusters
        invariant
            n_c == cs@.len(),
            sel_wf(cs@, n as int),
            min_points >= 1,
            order@.len() == cs@.len(),
            order@.no_duplicates(),
            forall|k: int| 0 <= k < order@.len() ==> (#[trigger] order@[k]) < cs@.len(),
            forall|i: int| 0 <= i < cs@.len() ==> #[trigger] order@.contains(i as usize),
            chosen_flag@.len() == cs@.len(),
            blocked@.len() == n,
            chosen@.no_duplicates(),
            forall|k: int| 0 <= k < chosen@.len() ==> (#[trigger] chosen@[k]) < cs@.len(),
            forall|k: int| 0 <= k < chosen@.len() ==> chosen_flag@[(#[trigger] chosen@[k]) as int],
            forall|j: int|
                0 <= j < cs@.len() && chosen_flag@[j] ==> #[trigger] chosen@.contains(j as usize),
            chosen@.len() <= max_clusters,
            forall|k: int|
                0 <= k < chosen@.len() ==> cs@[(#[trigger] chosen@[k]) as int].cover@.len()
                    >= min_points,
            forall|p: int|
                0 <= p < n && blocked@[p] ==> covered_by_chosen(cs@, chosen@, p as usize),
            (min_points == 1 && highest <= 1) ==> forall|j: int, t: int|
                0 <= j < cs@.len() && !chosen_flag@[j] && 0 <= t < cs@[j].cover@.len()
                    ==> blocked@[(#[trigger] cs@[j].cover@[t]) as int],
            (min_points < 100 && highest <= min_points) ==> forall|j: int|
                0 <= j < cs@.len() && !chosen_flag@[j] && (#[trigger] cs@[j]).cover@.len()
                    >= min_points ==> exists|t: int|
                    0 <= t < cs@[j].cover@.len() && blocked@[(cs@[j].cover@[t]) as int],
            0 <= count_true(blocked@) <= n,
            chosen@.len() <= count_true(blocked@),
            min_points >= 100 ==> (chosen@.len() == 0 && highest <= min_points as u128),
            forall|k: int, t: int|
                #![trigger cs@[chosen@[k] as int].cover@[t]]
                0 <= k < chosen@.len() && 0 <= t < cs@[chosen@[k] as int].cover@.len()
                    ==> blocked@[(cs@[chosen@[k] as int].cover@[t]) as int],
            chosen@.len() > 0 ==> {
                &&& last_eff.no_duplicates()
                &&& last_eff.len() >= min_points
                &&& forall|u: int|
                    0 <= u < last_eff.len()
                        ==> cs@[chosen@[chosen@.len() - 1] as int].cover@.contains(
                        #[trigger] last_eff[u],
                    )
                &&& forall|u: int, k2: int|
                    #![trigger cs@[chosen@[k2] as int].cover@.contains(last_eff[u])]
                    0 <= u < last_eff.len() && 0 <= k2 < chosen@.len() - 1
                        ==> !cs@[chosen@[k2] as int].cover@.contains(last_eff[u])
            },
        decreases n - count_true(blocked@), highest,
    {
        let ghost blocked_start = blocked@;
        let ghost count_start = count_true(blocked@);
        let ghost highest_start = highest;
        let ghost chosen_start = chosen@;
        let ghost flag_start = chosen_flag@;
        let effs = round_filter(cs, &chosen_flag, &blocked, min_points);
        let mut best: u128 = 0;
        let t_end: usize = order.len();
        for t in 0..t_end
            invariant
                t_end == order@.len(),
                n_c == cs@.len(),
                sel_wf(cs@, n as int),
                min_points >= 1,
                order@.len() == cs@.len(),
                order@.no_duplicates(),
                forall|k: int| 0 <= k < order@.len() ==> (#[trigger] order@[k]) < cs@.len(),
                forall|i: int| 0 <= i < cs@.len() ==> #[trigger] order@.contains(i as usize),
                chosen_flag@.len() == cs@.len(),
                blocked@.len() == n,
                chosen@.no_duplicates(),
                forall|k: int| 0 <= k < chosen@.len() ==> (#[trigger] chosen@[k]) < cs@.len(),
                forall|k: int|
                    0 <= k < chosen@.len() ==> chosen_flag@[(#[trigger] chosen@[k]) as int],
                forall|j: int|
                    0 <= j < cs@.len() && chosen_flag@[j] ==> #[trigger] chosen@.contains(
                        j as usize,
                    ),
                chosen@.len() <= max_clusters,
                forall|k: int|
                    0 <= k < chosen@.len() ==> cs@[(#[trigger] chosen@[k]) as int].cover@.len()
                        >= min_points,
                forall|p: int|
                    0 <= p < n && blocked@[p] ==> covered_by_chosen(cs@, chosen@, p as usize),
                effs@.len() == cs@.len(),
                forall|j: int|
                    0 <= j < cs@.len() ==> surv_entry_ok(
                        #[trigger] effs@[j],
                        cs@[j],
                        flag_start[j],
                        blocked_start,
                        min_points as int,
                    ),
                blocked_start.len() == n,
                flag_start.len() == cs@.len(),
                count_start == count_true(blocked_start),
                highest == highest_start,
                highest_start > min_points as u128,
                chosen_start.len() < max_clusters,
                forall|p: int| 0 <= p < n && blocked_start[p] ==> blocked@[p],
                forall|j: int| 0 <= j < cs@.len() && flag_start[j] ==> chosen_flag@[j],
                count_true(blocked@) >= count_start,
                0 <= count_true(blocked@) <= n,
                chosen@.len() <= count_true(blocked@),
                best_covers(effs@, cs@, order@, t as int, best as int),
                forall|k: int|
                    0 <= k < chosen_start.len() ==> flag_start[(#[trigger] chosen_start[k]) as int],
                count_true(blocked@) == count_start ==> (blocked@ == blocked_start && chosen@
                    == chosen_start && chosen_flag@ == flag_start && (best as int)
                    < highest_start as int),
                forall|k: int, t: int|
                    #![trigger cs@[chosen@[k] as int].cover@[t]]
                    0 <= k < chosen@.len() && 0 <= t < cs@[chosen@[k] as int].cover@.len()
                        ==> blocked@[(cs@[chosen@[k] as int].cover@[t]) as int],
                chosen@.len() > 0 ==> {
                    &&& last_eff.no_duplicates()
                    &&& last_eff.len() >= min_points
                    &&& forall|u: int|
                        0 <= u < last_eff.len()
                            ==> cs@[chosen@[chosen@.len() - 1] as int].cover@.contains(
                            #[trigger] last_eff[u],
                        )
                    &&& forall|u: int, k2: int|
                        #![trigger cs@[chosen@[k2] as int].cover@.contains(last_eff[u])]
                        0 <= u < last_eff.len() && 0 <= k2 < chosen@.len() - 1
                            ==> !cs@[chosen@[k2] as int].cover@.contains(last_eff[u])
                },
        {
            let j = order[t];
            let ghost best_before = best;
            match &effs[j] {
                Option::None => {},
                Option::Some(eff) => {
                    let length: u128 = (eff.len() as u128) + 1;
                    if length > best {
                        best = length;
                    }
                    if length >= highest && !chosen_flag[j] && chosen.len() < max_clusters {
                        // Re-check against points blocked earlier in this
                        // round.
                        let mut found: bool = false;
                        let u_end: usize = eff.len();
                        for u in 0..u_end
                            invariant
                                u_end == eff@.len(),
                                blocked@.len() == n,
                                forall|uu: int|
                                    0 <= uu < eff@.len() ==> (#[trigger] eff@[uu]) < n,
                                !found ==> forall|uu: int|
                                    0 <= uu < u ==> !blocked@[(#[trigger] eff@[uu]) as int],
                                found ==> exists|uu: int|
                                    0 <= uu < eff@.len() && blocked@[(#[trigger] eff@[uu]) as int],
                        {
                            if blocked[eff[u]] {
                                found = true;
                            }
                        }
                        if !found {
                            // Accept the cluster and block its points.
                            let ghost blocked_pre = blocked@;
                            let ghost chosen_pre = chosen@;
                            proof {
                                assert(forall|uu: int|
                                    0 <= uu < eff@.len() ==> !blocked_pre[(#[trigger] eff@[uu]) as int]);
                                assert(forall|k: int, t: int|
                                    #![trigger cs@[chosen_pre[k] as int].cover@[t]]
                                    0 <= k < chosen_pre.len() && 0 <= t
                                        < cs@[chosen_pre[k] as int].cover@.len()
                                        ==> blocked_pre[(cs@[chosen_pre[k] as int].cover@[t]) as int]);
                                if chosen@.contains(j) {
                                    assert(chosen_flag@[j as int]);
                                }
                                assert(!chosen@.contains(j));
                                assert forall|x: usize|
                                    eff@.contains(x) implies cs@[j as int].cover@.contains(x) by {
                                    let u = choose|u: int|
                                        0 <= u < eff@.len() && eff@[u] == x;
                                }
                                lemma_distinct_superset_len(eff@, cs@[j as int].cover@);
                            }
                            let ghost chosen_before = chosen@;
                            chosen.push(j);
                            chosen_flag[j] = true;
                            proof {
                                assert forall|k1: int, k2: int|
                                    0 <= k1 < k2 < chosen@.len() implies chosen@[k1]
                                    != chosen@[k2] by {
                                    if k2 == chosen@.len() - 1 {
                                        assert(chosen_before.contains(chosen_before[k1]));
                                    }
                                }
                                assert forall|jj: int|
                                    0 <= jj < cs@.len() && chosen_flag@[jj]
                                    implies #[trigger] chosen@.contains(jj as usize) by {
                                    if jj == j as int {
                                        assert(chosen@[chosen@.len() - 1] == j);
                                    } else {
                                        assert(chosen_before.contains(jj as usize));
                                        let k = choose|k: int|
                                            0 <= k < chosen_before.len() && chosen_before[k]
                                                == jj as usize;
                                        assert(chosen@[k] == jj as usize);
                                    }
                                }
                                assert forall|p: int|
                                    0 <= p < n && blocked@[p] implies covered_by_chosen(
                                    cs@,
                                    chosen@,
                                    p as usize,
                                ) by {
                                    let k = choose|k: int|
                                        0 <= k < chosen_before.len() && (
                                        cs@[chosen_before[k] as int].cover@.contains(p as usize));
                                    assert(cs@[chosen@[k] as int].cover@.contains(p as usize));
                                }
                            }
                            let ghost count_before_blocking = count_true(blocked@);
                            for u in 0..u_end
                                invariant
                                    u_end == eff@.len(),
                                    blocked@.len() == n,
                                    0 <= j < cs@.len(),
                                    chosen@.len() >= 1,
                                    chosen@[chosen@.len() - 1] == j,
                                    eff@.no_duplicates(),
                                    forall|uu: int|
                                        0 <= uu < eff@.len() ==> (#[trigger] eff@[uu]) < n
                                            && cs@[j as int].cover@.contains(eff@[uu]),
                                    forall|uu: int|
                                        u <= uu < eff@.len() ==> !blocked@[(#[trigger] eff@[uu])
                                            as int],
                                    forall|uu: int|
                                        0 <= uu < u ==> blocked@[(#[trigger] eff@[uu]) as int],
                                    forall|p: int|
                                        0 <= p < n && blocked@[p] ==> covered_by_chosen(
                                            cs@,
                                            chosen@,
                                            p as usize,
                                        ),
                                    forall|p: int| 0 <= p < n && blocked_start[p] ==> blocked@[p],
                                    sel_wf(cs@, n as int),
                                    forall|k: int|
                                        0 <= k < chosen@.len() ==> (#[trigger] chosen@[k])
                                            < cs@.len(),
                                    forall|k: int, t: int|
                                        #![trigger cs@[chosen@[k] as int].cover@[t]]
                                        0 <= k < chosen@.len() - 1 && 0 <= t
                                            < cs@[chosen@[k] as int].cover@.len()
                                            ==> blocked@[(cs@[chosen@[k] as int].cover@[t]) as int],
                                    count_true(blocked@) == count_before_blocking + u,
                                    count_true(blocked@) <= n,
                            {
                                let p = eff[u];
                                proof {
                                    lemma_count_true_update(blocked@, p as int);
                                }
                                blocked[p] = true;
                                proof {
                                    assert forall|pp: int|
                                        0 <= pp < n && blocked@[pp] implies covered_by_chosen(
                                        cs@,
                                        chosen@,
                                        pp as usize,
                                    ) by {
                                        if pp == p as int {
                                            let k = chosen@.len() - 1;
                                            assert(cs@[chosen@[k] as int].cover@.contains(
                                                pp as usize,
                                            ));
                                        }
                                    }
                                    lemma_count_true_le(blocked@);
                                }
                            }
                            proof {
                                assert(count_true(blocked@) >= count_start + 1);
                                last_eff = eff@;
                                // Every cover of every chosen cluster is now
                                // fully blocked, the new one included.
                                assert forall|k: int, t: int|
                                    #![trigger cs@[chosen@[k] as int].cover@[t]]
                                    0 <= k < chosen@.len() && 0 <= t
                                        < cs@[chosen@[k] as int].cover@.len()
                                        implies blocked@[(cs@[chosen@[k] as int].cover@[t]) as int] by {
                                    if k == chosen@.len() - 1 {
                                        let pp = cs@[j as int].cover@[t];
                                        assert(surv_entry_ok(
                                            effs@[j as int],
                                            cs@[j as int],
                                            flag_start[j as int],
                                            blocked_start,
                                            min_points as int,
                                        ));
                                        if !blocked_start[pp as int] {
                                            assert(eff@.contains(pp));
                                            let u = choose|u: int|
                                                0 <= u < eff@.len() && eff@[u] == pp;
                                            assert(blocked@[(eff@[u]) as int]);
                                        }
                                    }
                                }
                                // The accepted effective set was unblocked at
                                // the pick, so no earlier chosen cover holds
                                // any of it.
                                assert forall|u: int, k2: int|
                                    #![trigger cs@[chosen@[k2] as int].cover@.contains(last_eff[u])]
                                    0 <= u < last_eff.len() && 0 <= k2 < chosen@.len() - 1
                                        implies !cs@[chosen@[k2] as int].cover@.contains(
                                    last_eff[u],
                                ) by {
                                    assert(chosen@[k2] == chosen_pre[k2]);
                                    if cs@[chosen_pre[k2] as int].cover@.contains(last_eff[u]) {
                                        let t = choose|t: int|
                                            0 <= t < cs@[chosen_pre[k2] as int].cover@.len()
                                                && cs@[chosen_pre[k2] as int].cover@[t]
                                                == last_eff[u];
                                        assert(blocked_pre[(
                                        cs@[chosen_pre[k2] as int].cover@[t]) as int]);
                                        assert(!blocked_pre[(eff@[u]) as int]);
                                        assert(false);
                                    }
                                }
                            }
                        } else {
                            proof {
                                let uu = choose|uu: int|
                                    0 <= uu < eff@.len() && blocked@[(#[trigger] eff@[uu]) as int];
                                if count_true(blocked@) == count_start {
                                    assert(blocked@ == blocked_start);
                                    assert(surv_entry_ok(
                                        effs@[j as int],
                                        cs@[j as int],
                                        flag_start[j as int],
                                        blocked_start,
                                        min_points as int,
                                    ));
                                    assert(!blocked_start[eff@[uu] as int]);
                                    assert(false);
                                }
                                assert(count_true(blocked@) > count_start);
                            }
                        }
                    }
                    proof {
                        if count_true(blocked@) == count_start {
                            assert(blocked@ == blocked_start);
                            assert(chosen@ == chosen_start);
                            assert(chosen_flag@ == flag_start);
                            assert(surv_entry_ok(
                                effs@[j as int],
                                cs@[j as int],
                                flag_start[j as int],
                                blocked_start,
                                min_points as int,
                            ));
                            if length >= highest {
                                assert(!chosen_flag@[j as int]);
                                assert(chosen@.len() < max_clusters);
                                assert(false);
                            }
                            assert((best as int) < highest_start as int);
                        }
                    }
                    proof {
                        // Scores seen so far stay below the running best.
                        assert forall|tt: int|
                            0 <= tt < t + 1 implies match #[trigger] effs@[order@[tt] as int] {
                            Option::Some(e) => e@.len() + 1 <= best as int,
                            Option::None => true,
                        } by {
                            if tt < t {
                                assert(best_covers(effs@, cs@, order@, t as int, best_before as int));
                            }
                        }
                    }
                },
            }
        }
        proof {
            // Establish the exit facts for the new threshold.
            if min_points == 1 && best <= 1 {
                assert forall|j: int, t: int|
                    0 <= j < cs@.len() && !chosen_flag@[j] && 0 <= t < cs@[j].cover@.len()
                        implies blocked@[(#[trigger] cs@[j].cover@[t]) as int] by {
                    assert(!flag_start[j]);
                    assert(order@.contains(j as usize));
                    let tt = choose|tt: int| 0 <= tt < order@.len() && order@[tt] == j as usize;
                    assert(effs@[order@[tt] as int] == effs@[j]);
                    match effs@[j] {
                        Option::Some(e) => {
                            assert(e@.len() + 1 <= best as int);
                            assert(false);
                        },
                        Option::None => {
                            assert(blocked_start[(cs@[j].cover@[t]) as int]);
                        },
                    }
                }
            }
            if min_points < 100 && best <= min_points as u128 {
                assert forall|j: int|
                    0 <= j < cs@.len() && !chosen_flag@[j] && (#[trigger] cs@[j]).cover@.len()
                        >= min_points implies exists|t: int|
                    0 <= t < cs@[j].cover@.len() && blocked@[(cs@[j].cover@[t]) as int] by {
                    assert(!flag_start[j]);
                    assert(order@.contains(j as usize));
                    let tt = choose|tt: int| 0 <= tt < order@.len() && order@[tt] == j as usize;
                    assert(effs@[order@[tt] as int] == effs@[j]);
                    match effs@[j] {
                        Option::Some(e) => {
                            assert(e@.len() + 1 <= best as int);
                            assert(false);
                        },
                        Option::None => {
                            let t = choose|t: int|
                                0 <= t < cs@[j].cover@.len() && blocked_start[(
                                cs@[j].cover@[t]) as int];
                            assert(blocked@[(cs@[j].cover@[t]) as int]);
                        },
                    }
                }
            }
        }
        highest = best;
    }
    proof {
        // The last pick's effective points witness its unique coverage.
        if chosen@.len() > 0 {
            lemma_uniq_set_finite(cs@, chosen@, chosen@.len() - 1);
            let us = uniq_set(cs@, chosen@, chosen@.len() - 1);
            assert forall|u: int|
                0 <= u < last_eff.len() implies us.contains(#[trigger] last_eff[u]) by {
                assert(cs@[chosen@[chosen@.len() - 1] as int].cover@.contains(last_eff[u]));
                assert forall|k2: int|
                    0 <= k2 < chosen@.len() && k2 != chosen@.len() - 1 implies !(
                #[trigger] cs@[chosen@[k2] as int].cover@.contains(last_eff[u])) by {
                    assert(!cs@[chosen@[k2] as int].cover@.contains(last_eff[u]));
                }
            }
            last_eff.unique_seq_to_set();
            assert forall|x: usize| last_eff.to_set().contains(x) implies us.contains(x) by {
                let u = choose|u: int| 0 <= u < last_eff.len() && last_eff[u] == x;
            }
            vstd::set_lib::lemma_len_subset(last_eff.to_set(), us);
        }
        // Translate the blocked-set facts into facts about chosen covers.
        if min_points == 1 && chosen@.len() < max_clusters {
            assert(highest <= 1);
            assert forall|j: int, t: int|
                0 <= j < cs@.len() && !chosen@.contains(j as usize) && 0 <= t
                    < cs@[j].cover@.len() implies covered_by_chosen(
                cs@,
                chosen@,
                #[trigger] cs@[j].cover@[t],
            ) by {
                if chosen_flag@[j] {
                    assert(chosen@.contains(j as usize));
                }
                assert(blocked@[(cs@[j].cover@[t]) as int]);
            }
        }
        if min_points < 100 && chosen@.len() < max_clusters {
            assert(highest <= min_points as u128);
            assert forall|j: int|
                0 <= j < cs@.len() && !chosen@.contains(j as usize) && (
                #[trigger] cs@[j]).cover@.len() >= min_points implies exists|t: int|
                0 <= t < cs@[j].cover@.len() && covered_by_chosen(cs@, chosen@, cs@[j].cover@[t]) by {
                if chosen_flag@[j] {
                    assert(chosen@.contains(j as usize));
                }
                let t = choose|t: int|
                    0 <= t < cs@[j].cover@.len() && blocked@[(cs@[j].cover@[t]) as int];
                assert(covered_by_chosen(cs@, chosen@, cs@[j].cover@[t]));
            }
        }
    }
    chosen
}

} // verus!
