//! Merge sort of distinct keys.

use vstd::prelude::*;

verus! {

/// Strictly increasing.
pub open spec fn increasing(s: Seq<u64>) -> bool {
    forall|i: int, j: int| 0 <= i < j < s.len() ==> s[i] < s[j]
}

/// No key occurs twice.
pub open spec fn distinct(s: Seq<u64>) -> bool {
    forall|i: int, j: int| 0 <= i < j < s.len() ==> s[i] != s[j]
}

proof fn lemma_push_contains(s: Seq<u64>, e: u64, x: u64)
    ensures
        s.push(e).contains(x) <==> (s.contains(x) || x == e),
{
    if s.contains(x) {
        let k = choose|k: int| 0 <= k < s.len() && s[k] == x;
        assert(s.push(e)[k] == x);
    }
    if x == e {
        assert(s.push(e)[s.len() as int] == x);
    }
    if s.push(e).contains(x) {
        let k = choose|k: int| 0 <= k < s.len() + 1 && s.push(e)[k] == x;
        if k < s.len() {
            assert(s[k] == x);
        }
    }
}

/// Merges two increasing sequences without common keys.
fn merge(l: &Vec<u64>, r: &Vec<u64>) -> (out: Vec<u64>)
    requires
        increasing(l@),
        increasing(r@),
        forall|i: int, j: int| 0 <= i < l.len() && 0 <= j < r.len() ==> l@[i] != r@[j],
        l.len() + r.len() <= usize::MAX,
    ensures
        increasing(out@),
        out.len() == l.len() + r.len(),
        forall|x: u64| out@.contains(x) <==> (l@.contains(x) || r@.contains(x)),
{
    let mut out: Vec<u64> = Vec::new();
    let mut i: usize = 0;
    let mut j: usize = 0;
    while i < l.len() || j < r.len()
        invariant
            increasing(l@),
            increasing(r@),
            forall|a: int, b: int| 0 <= a < l.len() && 0 <= b < r.len() ==> l@[a] != r@[b],
            l.len() + r.len() <= usize::MAX,
            i <= l.len(),
            j <= r.len(),
            out.len() == i + j,
            increasing(out@),
            forall|x: u64| out@.contains(x) <==> (l@.subrange(0, i as int).contains(x) || r@.subrange(0, j as int).contains(x)),
            forall|k: int, a: int| 0 <= k < out.len() && i <= a < l.len() ==> out@[k] < l@[a],
            forall|k: int, b: int| 0 <= k < out.len() && j <= b < r.len() ==> out@[k] < r@[b],
        decreases l.len() + r.len() - i - j,
    {
        let ghost before = out@;
        let take_left = j >= r.len() || (i < l.len() && l[i] < r[j]);
        if take_left {
            out.push(l[i]);
            proof {
                if j < r.len() {
                    assert(l@[i as int] != r@[j as int]);
                }
                assert(out@ =~= before.push(l@[i as int]));
                assert(l@.subrange(0, i + 1) =~= l@.subrange(0, i as int).push(l@[i as int]));
                assert forall|x: u64| out@.contains(x) <==> (l@.subrange(0, i + 1).contains(x) || r@.subrange(0, j as int).contains(x)) by {
                    lemma_push_contains(before, l@[i as int], x);
                    lemma_push_contains(l@.subrange(0, i as int), l@[i as int], x);
                }
            }
            i = i + 1;
        } else {
            out.push(r[j]);
            proof {
                if i < l.len() {
                    assert(l@[i as int] != r@[j as int]);
                }
                assert(out@ =~= before.push(r@[j as int]));
                assert(r@.subrange(0, j + 1) =~= r@.subrange(0, j as int).push(r@[j as int]));
                assert forall|x: u64| out@.contains(x) <==> (l@.subrange(0, i as int).contains(x) || r@.subrange(0, j + 1).contains(x)) by {
                    lemma_push_contains(before, r@[j as int], x);
                    lemma_push_contains(r@.subrange(0, j as int), r@[j as int], x);
                }
            }
            j = j + 1;
        }
    }
    proof {
        assert(l@.subrange(0, l.len() as int) =~= l@);
        assert(r@.subrange(0, r.len() as int) =~= r@);
    }
    out
}

/// Sorts the keys `v[lo..hi]`.
fn sort_range(v: &Vec<u64>, lo: usize, hi: usize) -> (out: Vec<u64>)
    requires
        lo <= hi <= v.len(),
        distinct(v@),
    ensures
        increasing(out@),
        out.len() == hi - lo,
        forall|x: u64| out@.contains(x) <==> v@.subrange(lo as int, hi as int).contains(x),
    decreases hi - lo,
{
    if hi - lo <= 1 {
        let mut out: Vec<u64> = Vec::new();
        if hi - lo == 1 {
            out.push(v[lo]);
            assert(v@.subrange(lo as int, hi as int) =~= out@);
        } else {
            assert(v@.subrange(lo as int, hi as int) =~= out@);
        }
        return out;
    }
    let mid = lo + (hi - lo) / 2;
    let l = sort_range(v, lo, mid);
    let r = sort_range(v, mid, hi);
    proof {
        assert forall|a: int, b: int| 0 <= a < l.len() && 0 <= b < r.len() implies l@[a] != r@[b] by {
            assert(l@.contains(l@[a]));
            assert(r@.contains(r@[b]));
            let p = choose|p: int| 0 <= p < mid - lo && v@.subrange(lo as int, mid as int)[p] == l@[a];
            let q = choose|q: int| 0 <= q < hi - mid && v@.subrange(mid as int, hi as int)[q] == r@[b];
            assert(v@[lo + p] == l@[a]);
            assert(v@[mid + q] == r@[b]);
        }
    }
    let out = merge(&l, &r);
    proof {
        assert forall|x: u64| out@.contains(x) <==> v@.subrange(lo as int, hi as int).contains(x) by {
            let s = v@.subrange(lo as int, hi as int);
            let sl = v@.subrange(lo as int, mid as int);
            let sr = v@.subrange(mid as int, hi as int);
            if sl.contains(x) {
                let p = choose|p: int| 0 <= p < sl.len() && sl[p] == x;
                assert(s[p] == x);
            }
            if sr.contains(x) {
                let q = choose|q: int| 0 <= q < sr.len() && sr[q] == x;
                assert(s[(mid - lo) + q] == x);
            }
            if s.contains(x) {
                let p = choose|p: int| 0 <= p < s.len() && s[p] == x;
                if p < mid - lo {
                    assert(sl[p] == x);
                } else {
                    assert(sr[p - (mid - lo)] == x);
                }
            }
        }
    }
    out
}

/// The keys of `v` in increasing order.
pub fn sort_distinct(v: &Vec<u64>) -> (out: Vec<u64>)
    requires
        distinct(v@),
    ensures
        increasing(out@),
        out.len() == v.len(),
        forall|x: u64| out@.contains(x) <==> v@.contains(x),
{
    let out = sort_range(v, 0, v.len());
    assert(v@.subrange(0, v.len() as int) =~= v@);
    out
}

} // verus!
