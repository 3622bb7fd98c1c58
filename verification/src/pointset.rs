//! Deduplication of point lists.
//!
//! A point's identity is its microdegree coordinate pair, so removing
//! duplicates keeps the first occurrence of every distinct rounded center.

use std::collections::HashSet;
use vstd::prelude::*;
use crate::geo::Point;
use crate::geo::lemma_pack_injective;
use crate::geo::pack;
use crate::geo::pack_spec;

verus! {

broadcast use vstd::std_specs::hash::group_hash_axioms;

/// The subsequence of `s` that keeps the first occurrence of every point.
pub open spec fn dedup_first(s: Seq<Point>) -> Seq<Point>
    decreases s.len(),
{
    if s.len() == 0 {
        Seq::empty()
    } else {
        let prefix = dedup_first(s.drop_last());
        if prefix.contains(s.last()) {
            prefix
        } else {
            prefix.push(s.last())
        }
    }
}

/// `dedup_first` keeps exactly the distinct elements of its input.
pub proof fn lemma_dedup_first(s: Seq<Point>)
    ensures
        dedup_first(s).no_duplicates(),
        forall|p: Point| dedup_first(s).contains(p) <==> s.contains(p),
        dedup_first(s).len() <= s.len(),
    decreases s.len(),
{
    if s.len() == 0 {
    } else {
        let head = s.drop_last();
        let d = dedup_first(s);
        let dh = dedup_first(head);
        lemma_dedup_first(head);
        assert forall|p: Point| s.contains(p) implies d.contains(p) by {
            let i = choose|i: int| 0 <= i < s.len() && s[i] == p;
            if i < s.len() - 1 {
                assert(head[i] == p);
                assert(head.contains(p));
                if !dh.contains(s.last()) {
                    assert(dh.contains(p));
                    let j = choose|j: int| 0 <= j < dh.len() && dh[j] == p;
                    assert(d[j] == p);
                }
            } else {
                assert(p == s.last());
                if !dh.contains(p) {
                    assert(d.last() == p);
                }
            }
        }
        assert forall|p: Point| d.contains(p) implies s.contains(p) by {
            let j = choose|j: int| 0 <= j < d.len() && d[j] == p;
            if j < dh.len() {
                assert(dh[j] == p);
                assert(dh.contains(p));
                assert(head.contains(p));
                let i = choose|i: int| 0 <= i < head.len() && head[i] == p;
                assert(s[i] == p);
            } else {
                assert(p == s.last());
                assert(s[s.len() - 1] == p);
            }
        }
        if !dh.contains(s.last()) {
            assert forall|i: int, j: int|
                0 <= i < d.len() && 0 <= j < d.len() && i != j implies d[i] != d[j] by {
                if i < d.len() - 1 && j < d.len() - 1 {
                    assert(d[i] == dh[i] && d[j] == dh[j]);
                } else if i == d.len() - 1 {
                    assert(d[j] == dh[j]);
                    assert(dh.contains(d[j]));
                } else {
                    assert(d[i] == dh[i]);
                    assert(dh.contains(d[i]));
                }
            }
        }
    }
}

/// Removes repeated points, keeping first occurrences in order.
pub fn dedup_points(points: &Vec<Point>) -> (out: Vec<Point>)
    requires
        forall|i: int| 0 <= i < points@.len() ==> points@[i].is_valid(),
    ensures
        out@ == dedup_first(points@),
        out@.no_duplicates(),
        forall|p: Point| out@.contains(p) <==> points@.contains(p),
        forall|i: int| 0 <= i < out@.len() ==> out@[i].is_valid(),
{
    let n: usize = points.len();
    let mut seen: HashSet<u64> = HashSet::new();
    let mut out: Vec<Point> = Vec::new();
    for k in 0..n
        invariant
            n == points@.len(),
            forall|i: int| 0 <= i < points@.len() ==> points@[i].is_valid(),
            out@ == dedup_first(points@.take(k as int)),
            forall|j: int| 0 <= j < out@.len() ==> out@[j].is_valid(),
            forall|j: int|
                0 <= j < out@.len() ==> seen@.contains((pack_spec(out@[j]) as u64)),
            forall|key: u64|
                seen@.contains(key) ==> exists|j: int|
                    0 <= j < out@.len() && pack_spec(out@[j]) == key,
    {
        let p = points[k];
        let key = pack(p);
        proof {
            assert(points@.take(k as int + 1).drop_last() =~= points@.take(k as int));
            assert(points@.take(k as int + 1).last() == p);
        }
        if !seen.contains(&key) {
            let ghost old_out = out@;
            proof {
                if out@.contains(p) {
                    let j = choose|j: int| 0 <= j < out@.len() && out@[j] == p;
                    assert(seen@.contains((pack_spec(out@[j]) as u64)));
                }
                assert(!out@.contains(p));
            }
            seen.insert(key);
            out.push(p);
            proof {
                assert forall|kk: u64| seen@.contains(kk) implies exists|j: int|
                    0 <= j < out@.len() && pack_spec(out@[j]) == kk by {
                    if kk == key {
                        assert(pack_spec(out@[out@.len() - 1]) == kk);
                    } else {
                        let j = choose|j: int|
                            0 <= j < old_out.len() && pack_spec(old_out[j]) == kk;
                        assert(pack_spec(out@[j]) == kk);
                    }
                }
            }
        } else {
            proof {
                let j = choose|j: int|
                    0 <= j < out@.len() && pack_spec(out@[j]) == key;
                lemma_pack_injective(out@[j], p);
                assert(out@.contains(p));
            }
        }
    }
    proof {
        assert(points@.take(n as int) =~= points@);
        lemma_dedup_first(points@);
    }
    out
}

} // verus!
