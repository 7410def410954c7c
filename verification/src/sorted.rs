//! Strictly ascending lists of keys.
use vstd::prelude::*;

verus! {

/// Whether a sequence is strictly ascending.
pub open spec fn ascending(s: Seq<u64>) -> bool {
    forall|i: int, j: int| 0 <= i < j < s.len() ==> s[i] < s[j]
}

fn merge(a: &Vec<u64>, b: &Vec<u64>) -> (r: Vec<u64>)
    requires
        ascending(a@),
        ascending(b@),
    ensures
        ascending(r@),
        forall|k: u64| r@.contains(k) <==> a@.contains(k) || b@.contains(k),
{
    let mut r: Vec<u64> = Vec::new();
    let mut i: usize = 0;
    let mut j: usize = 0;
    while i < a.len() || j < b.len()
        invariant
            ascending(a@),
            ascending(b@),
            ascending(r@),
            i <= a@.len(),
            j <= b@.len(),
            forall|k: u64| #[trigger] r@.contains(k) ==> a@.contains(k) || b@.contains(k),
            forall|x: int| 0 <= x < i ==> r@.contains(#[trigger] a@[x]),
            forall|x: int| 0 <= x < j ==> r@.contains(#[trigger] b@[x]),
            forall|x: int, y: int|
                0 <= x < r@.len() && i <= y < a@.len() ==> #[trigger] r@[x] < #[trigger] a@[y],
            forall|x: int, y: int|
                0 <= x < r@.len() && j <= y < b@.len() ==> #[trigger] r@[x] < #[trigger] b@[y],
        decreases a@.len() - i + b@.len() - j,
    {
        let ghost before = r@;
        let from_a: bool = i < a.len() && (j >= b.len() || a[i] <= b[j]);
        let from_b: bool = j < b.len() && (i >= a.len() || b[j] <= a[i]);
        let key: u64 = if from_a { a[i] } else { b[j] };
        r.push(key);
        proof {
            assert(r@[before.len() as int] == key);
            assert forall|k: u64| before.contains(k) implies r@.contains(k) by {
                let x = choose|x: int| 0 <= x < before.len() && before[x] == k;
                assert(r@[x] == k);
            }
            assert forall|k: u64| #[trigger] r@.contains(k) implies a@.contains(k) || b@.contains(
                k,
            ) by {
                let x = choose|x: int| 0 <= x < r@.len() && r@[x] == k;
                if x < before.len() {
                    assert(before[x] == k);
                    assert(before.contains(k));
                } else if from_a {
                    assert(a@[i as int] == k);
                } else {
                    assert(b@[j as int] == k);
                }
            }
            assert(r@.contains(key));
        }
        if from_a {
            i = i + 1;
        }
        if from_b {
            j = j + 1;
        }
    }
    assert forall|k: u64| a@.contains(k) || b@.contains(k) implies r@.contains(k) by {
        if a@.contains(k) {
            let x = choose|x: int| 0 <= x < a@.len() && a@[x] == k;
            assert(r@.contains(a@[x]));
        } else {
            let x = choose|x: int| 0 <= x < b@.len() && b@[x] == k;
            assert(r@.contains(b@[x]));
        }
    }
    r
}

fn sorted_range(v: &Vec<u64>, lo: usize, hi: usize) -> (r: Vec<u64>)
    requires
        lo <= hi <= v@.len(),
    ensures
        ascending(r@),
        forall|k: u64| r@.contains(k) <==> v@.subrange(lo as int, hi as int).contains(k),
    decreases hi - lo,
{
    if hi - lo == 0 {
        let r: Vec<u64> = Vec::new();
        assert(v@.subrange(lo as int, hi as int) =~= r@);
        return r;
    }
    if hi - lo == 1 {
        let mut r: Vec<u64> = Vec::new();
        r.push(v[lo]);
        assert(v@.subrange(lo as int, hi as int) =~= r@);
        return r;
    }
    let mid: usize = lo + (hi - lo) / 2;
    let a = sorted_range(v, lo, mid);
    let b = sorted_range(v, mid, hi);
    let r = merge(&a, &b);
    proof {
        let whole = v@.subrange(lo as int, hi as int);
        let left = v@.subrange(lo as int, mid as int);
        let right = v@.subrange(mid as int, hi as int);
        assert forall|k: u64| whole.contains(k) <==> left.contains(k) || right.contains(k) by {
            if whole.contains(k) {
                let x = choose|x: int| 0 <= x < whole.len() && whole[x] == k;
                if x < mid - lo {
                    assert(left[x] == k);
                } else {
                    assert(right[x - (mid - lo)] == k);
                }
            }
            if left.contains(k) {
                let x = choose|x: int| 0 <= x < left.len() && left[x] == k;
                assert(whole[x] == k);
            }
            if right.contains(k) {
                let x = choose|x: int| 0 <= x < right.len() && right[x] == k;
                assert(whole[x + (mid - lo)] == k);
            }
        }
    }
    r
}

/// The distinct keys of a column, ascending.
pub fn sorted_distinct(v: &Vec<u64>) -> (r: Vec<u64>)
    ensures
        ascending(r@),
        forall|k: u64| r@.contains(k) <==> v@.contains(k),
{
    let r = sorted_range(v, 0, v.len());
    assert(v@.subrange(0, v@.len() as int) =~= v@);
    r
}

} // verus!
