//! A stable sort of titles by their case-folded text.
use vstd::prelude::*;

verus! {

/// Whether `a` comes no later than `b` when both are compared by their
/// case-folded characters.
pub uninterp spec fn caseless_le(a: Seq<char>, b: Seq<char>) -> bool;

/// Relies on the `Ord` of `unicase::UniCase`, which compares the case-folded
/// characters of two texts lexicographically: a total order, so where `a`
/// does not come first, `b` does.
#[verifier::external_body]
fn caseless_le_exec(a: &str, b: &str) -> (r: bool)
    ensures
        r == caseless_le(a@, b@),
        !r ==> caseless_le(b@, a@),
{
    unicase::UniCase::new(a) <= unicase::UniCase::new(b)
}

/// The texts of a vector of strings.
pub open spec fn texts(v: Seq<String>) -> Seq<Seq<char>> {
    v.map_values(|s: String| s@)
}

/// Positions `x` and `y` of `ts` are in order: `ts[x]` does not come after
/// `ts[y]`, and where the two compare equal, `x` was first.
pub open spec fn in_order(ts: Seq<Seq<char>>, x: int, y: int) -> bool {
    caseless_le(ts[x], ts[y]) && (caseless_le(ts[y], ts[x]) ==> x < y)
}

/// `p` holds each position in `lo..hi` once.
pub open spec fn is_range_permutation(p: Seq<usize>, lo: int, hi: int) -> bool {
    &&& p.len() == hi - lo
    &&& forall|k: int| 0 <= k < p.len() ==> lo <= #[trigger] p[k] < hi
    &&& forall|k1: int, k2: int|
        0 <= k1 < p.len() && 0 <= k2 < p.len() && k1 != k2 ==> p[k1] != p[k2]
}

/// Each neighbouring pair of positions in `p` is in order.
pub open spec fn is_ordered(ts: Seq<Seq<char>>, p: Seq<usize>) -> bool {
    forall|k: int| 0 <= k < p.len() - 1 ==> #[trigger] in_order(ts, p[k] as int, p[k + 1] as int)
}

/// `out` is `ts` sorted stably by case-folded text.
pub open spec fn is_caseless_sort(ts: Seq<Seq<char>>, out: Seq<Seq<char>>) -> bool {
    exists|p: Seq<usize>|
        is_range_permutation(p, 0, ts.len() as int) && is_ordered(ts, p) && out.len() == p.len()
            && forall|k: int| 0 <= k < p.len() ==> #[trigger] out[k] == ts[p[k] as int]
}

/// Merges two ordered runs of positions, the first all below `mid` and the
/// second all at or above it.
fn merge(titles: &Vec<String>, left: Vec<usize>, right: Vec<usize>, lo: usize, mid: usize, hi: usize) -> (r: Vec<usize>)
    requires
        lo <= mid <= hi <= titles@.len(),
        is_range_permutation(left@, lo as int, mid as int),
        is_range_permutation(right@, mid as int, hi as int),
        is_ordered(texts(titles@), left@),
        is_ordered(texts(titles@), right@),
    ensures
        is_range_permutation(r@, lo as int, hi as int),
        is_ordered(texts(titles@), r@),
{
    let ghost ts = texts(titles@);
    let mut out: Vec<usize> = Vec::with_capacity(hi - lo);
    let mut i: usize = 0;
    let mut j: usize = 0;
    while i < left.len() || j < right.len()
        invariant
            ts == texts(titles@),
            lo <= mid <= hi <= titles@.len(),
            is_range_permutation(left@, lo as int, mid as int),
            is_range_permutation(right@, mid as int, hi as int),
            is_ordered(ts, left@),
            is_ordered(ts, right@),
            0 <= i <= left@.len(),
            0 <= j <= right@.len(),
            out@.len() == i + j,
            forall|k: int| 0 <= k < out@.len() ==> lo <= #[trigger] out@[k] < hi,
            forall|k1: int, k2: int|
                0 <= k1 < out@.len() && 0 <= k2 < out@.len() && k1 != k2 ==> out@[k1] != out@[k2],
            forall|k: int, a: int| 0 <= k < out@.len() && i <= a < left@.len() ==> out@[k] != left@[a],
            forall|k: int, b: int| 0 <= k < out@.len() && j <= b < right@.len() ==> out@[k] != right@[b],
            is_ordered(ts, out@),
            out@.len() > 0 && i < left@.len() ==> in_order(ts, out@.last() as int, left@[i as int] as int),
            out@.len() > 0 && j < right@.len() ==> in_order(ts, out@.last() as int, right@[j as int] as int),
        decreases left@.len() + right@.len() - i - j,
    {
        let take_left = if i >= left.len() {
            false
        } else if j >= right.len() {
            true
        } else {
            caseless_le_exec(titles[left[i]].as_str(), titles[right[j]].as_str())
        };
        let ghost before = out@;
        if take_left {
            let x = left[i];
            out.push(x);
            proof {
                assert(ts[x as int] == titles@[x as int]@);
                if j < right@.len() {
                    assert(ts[right@[j as int] as int] == titles@[right@[j as int] as int]@);
                }
                if i + 1 < left@.len() {
                    assert(in_order(ts, left@[i as int] as int, left@[i + 1] as int));
                }
                assert forall|k: int| 0 <= k < out@.len() - 1 implies #[trigger] in_order(
                    ts,
                    out@[k] as int,
                    out@[k + 1] as int,
                ) by {
                    if k < before.len() - 1 {
                        assert(in_order(ts, before[k] as int, before[k + 1] as int));
                    }
                }
            }
            i = i + 1;
        } else {
            let y = right[j];
            out.push(y);
            proof {
                assert(ts[y as int] == titles@[y as int]@);
                if i < left@.len() {
                    assert(ts[left@[i as int] as int] == titles@[left@[i as int] as int]@);
                }
                if j + 1 < right@.len() {
                    assert(in_order(ts, right@[j as int] as int, right@[j + 1] as int));
                }
                assert forall|k: int| 0 <= k < out@.len() - 1 implies #[trigger] in_order(
                    ts,
                    out@[k] as int,
                    out@[k + 1] as int,
                ) by {
                    if k < before.len() - 1 {
                        assert(in_order(ts, before[k] as int, before[k + 1] as int));
                    }
                }
            }
            j = j + 1;
        }
    }
    out
}

/// Sorts the positions `lo..hi` of `titles` by case-folded text, stably.
fn sort_range(titles: &Vec<String>, lo: usize, hi: usize) -> (r: Vec<usize>)
    requires
        lo <= hi <= titles@.len(),
    ensures
        is_range_permutation(r@, lo as int, hi as int),
        is_ordered(texts(titles@), r@),
    decreases hi - lo,
{
    if hi - lo <= 1 {
        let mut out: Vec<usize> = Vec::new();
        if hi > lo {
            out.push(lo);
        }
        return out;
    }
    let mid = lo + (hi - lo) / 2;
    let left = sort_range(titles, lo, mid);
    let right = sort_range(titles, mid, hi);
    merge(titles, left, right, lo, mid, hi)
}

/// The positions of `titles` in stable case-insensitive order.
pub fn sort_order(titles: &Vec<String>) -> (r: Vec<usize>)
    ensures
        is_range_permutation(r@, 0, titles@.len() as int),
        is_ordered(texts(titles@), r@),
{
    sort_range(titles, 0, titles.len())
}

/// The titles sorted by case-folded text; titles that compare equal keep
/// their order, and each keeps its own case.
pub fn sort_caseless(titles: &Vec<String>) -> (r: Vec<String>)
    ensures
        is_caseless_sort(texts(titles@), texts(r@)),
{
    let p = sort_order(titles);
    let mut out: Vec<String> = Vec::with_capacity(p.len());
    let mut k: usize = 0;
    while k < p.len()
        invariant
            is_range_permutation(p@, 0, titles@.len() as int),
            0 <= k <= p@.len(),
            out@.len() == k,
            forall|m: int| 0 <= m < k ==> #[trigger] out@[m]@ == titles@[p@[m] as int]@,
        decreases p@.len() - k,
    {
        out.push(titles[p[k]].clone());
        k = k + 1;
    }
    proof {
        let ts = texts(titles@);
        let os = texts(out@);
        assert forall|m: int| 0 <= m < p@.len() implies #[trigger] os[m] == ts[p@[m] as int] by {
            assert(out@[m]@ == titles@[p@[m] as int]@);
        }
    }
    out
}

} // verus!
