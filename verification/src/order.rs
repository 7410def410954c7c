//! Sorting by an integer rank.
use vstd::prelude::*;
use vstd::relations::{sorted_by, total_ordering};
use vstd::seq_lib::{lemma_multiset_commutative, lemma_sorted_unique};

verus! {

/// A value with a place of its own in a total order.
pub trait Ranked: Copy + Sized {
    /// Where the value stands.
    spec fn rank(self) -> int;

    /// No two values stand at one place.
    proof fn lemma_rank_is_own(a: Self, b: Self)
        requires
            a.rank() == b.rank(),
        ensures
            a == b,
    ;

    /// Whether the value stands at or before another.
    fn not_after(self, other: Self) -> (r: bool)
        ensures
            r == (self.rank() <= other.rank()),
    ;
}

impl Ranked for i64 {
    open spec fn rank(self) -> int {
        self as int
    }

    proof fn lemma_rank_is_own(a: i64, b: i64) {
    }

    fn not_after(self, other: i64) -> (r: bool) {
        self <= other
    }
}

impl Ranked for u32 {
    open spec fn rank(self) -> int {
        self as int
    }

    proof fn lemma_rank_is_own(a: u32, b: u32) {
    }

    fn not_after(self, other: u32) -> (r: bool) {
        self <= other
    }
}

impl Ranked for i128 {
    open spec fn rank(self) -> int {
        self as int
    }

    proof fn lemma_rank_is_own(a: i128, b: i128) {
    }

    fn not_after(self, other: i128) -> (r: bool) {
        self <= other
    }
}

/// The order of ranks.
pub open spec fn by_rank<T: Ranked>() -> spec_fn(T, T) -> bool {
    |x: T, y: T| x.rank() <= y.rank()
}

/// The values of a list, lowest rank first.
pub open spec fn in_order<T: Ranked>(s: Seq<T>) -> Seq<T> {
    s.sort_by(by_rank::<T>())
}

/// Ranks never fall along the list.
pub open spec fn climbing<T: Ranked>(s: Seq<T>) -> bool {
    forall|i: int, j: int| 0 <= i < j < s.len() ==> (#[trigger] s[i]).rank() <= (#[trigger] s[j]).rank()
}

proof fn lemma_total<T: Ranked>()
    ensures
        total_ordering(by_rank::<T>()),
{
    assert forall|x: T, y: T|
        (#[trigger] by_rank::<T>()(x, y)) && (#[trigger] by_rank::<T>()(y, x)) implies x == y by {
        T::lemma_rank_is_own(x, y);
    }
}

/// A climbing list of the same values is the list in order.
pub proof fn lemma_in_order<T: Ranked>(s: Seq<T>, r: Seq<T>)
    requires
        climbing(r),
        r.to_multiset() == s.to_multiset(),
    ensures
        r == in_order(s),
{
    lemma_total::<T>();
    s.lemma_sort_by_ensures(by_rank::<T>());
    assert(sorted_by(r, by_rank::<T>()));
    lemma_sorted_unique(r, in_order(s), by_rank::<T>());
}

/// What a sorted list is: the same values, climbing.
pub proof fn lemma_ordered<T: Ranked>(s: Seq<T>)
    ensures
        climbing(in_order(s)),
        in_order(s).to_multiset() == s.to_multiset(),
        in_order(s).len() == s.len(),
        forall|i: int| 0 <= i < in_order(s).len() ==> s.contains(#[trigger] in_order(s)[i]),
        forall|i: int| 0 <= i < s.len() ==> in_order(s).contains(#[trigger] s[i]),
{
    broadcast use vstd::seq_lib::group_to_multiset_ensures;

    lemma_total::<T>();
    s.lemma_sort_by_ensures(by_rank::<T>());
    let r = in_order(s);
    assert forall|i: int, j: int| 0 <= i < j < r.len() implies (#[trigger] r[i]).rank() <= (
    #[trigger] r[j]).rank() by {
        assert(by_rank::<T>()(r[i], r[j]));
    }
    assert(r.to_multiset().len() == s.to_multiset().len());
    assert forall|i: int| 0 <= i < r.len() implies s.contains(#[trigger] r[i]) by {
        assert(r.contains(r[i]));
        assert(r.to_multiset().count(r[i]) > 0);
    }
    assert forall|i: int| 0 <= i < s.len() implies r.contains(#[trigger] s[i]) by {
        assert(s.contains(s[i]));
        assert(s.to_multiset().count(s[i]) > 0);
    }
}

fn merge<T: Ranked>(a: &Vec<T>, b: &Vec<T>) -> (r: Vec<T>)
    requires
        climbing(a@),
        climbing(b@),
    ensures
        climbing(r@),
        r@.to_multiset() == a@.to_multiset().add(b@.to_multiset()),
{
    broadcast use vstd::seq_lib::group_to_multiset_ensures;

    let mut r: Vec<T> = Vec::new();
    let mut i: usize = 0;
    let mut j: usize = 0;
    proof {
        assert(a@.take(0) =~= Seq::<T>::empty());
        assert(b@.take(0) =~= Seq::<T>::empty());
        lemma_multiset_commutative(a@.take(0), b@.take(0));
        assert(r@ =~= a@.take(0) + b@.take(0));
    }
    while i < a.len() || j < b.len()
        invariant
            climbing(a@),
            climbing(b@),
            climbing(r@),
            i <= a@.len(),
            j <= b@.len(),
            r@.to_multiset() == a@.take(i as int).to_multiset().add(
                b@.take(j as int).to_multiset(),
            ),
            forall|x: int, y: int|
                0 <= x < r@.len() && i <= y < a@.len() ==> (#[trigger] r@[x]).rank() <= (
                #[trigger] a@[y]).rank(),
            forall|x: int, y: int|
                0 <= x < r@.len() && j <= y < b@.len() ==> (#[trigger] r@[x]).rank() <= (
                #[trigger] b@[y]).rank(),
        decreases a@.len() - i + b@.len() - j,
    {
        broadcast use vstd::seq_lib::group_to_multiset_ensures;

        let ghost before = r@;
        let from_a: bool = i < a.len() && (j >= b.len() || a[i].not_after(b[j]));
        if from_a {
            r.push(a[i]);
            proof {
                assert(a@.take(i + 1) =~= a@.take(i as int).push(a@[i as int]));
                assert(r@.to_multiset() =~= a@.take(i + 1).to_multiset().add(
                    b@.take(j as int).to_multiset(),
                ));
            }
            i = i + 1;
        } else {
            r.push(b[j]);
            proof {
                assert(b@.take(j + 1) =~= b@.take(j as int).push(b@[j as int]));
                assert(r@.to_multiset() =~= a@.take(i as int).to_multiset().add(
                    b@.take(j + 1).to_multiset(),
                ));
            }
            j = j + 1;
        }
    }
    assert(a@.take(i as int) =~= a@);
    assert(b@.take(j as int) =~= b@);
    r
}

fn sort_range<T: Ranked>(v: &Vec<T>, lo: usize, hi: usize) -> (r: Vec<T>)
    requires
        lo <= hi <= v@.len(),
    ensures
        climbing(r@),
        r@.to_multiset() == v@.subrange(lo as int, hi as int).to_multiset(),
    decreases hi - lo,
{
    if hi - lo == 0 {
        let r: Vec<T> = Vec::new();
        assert(v@.subrange(lo as int, hi as int) =~= r@);
        return r;
    }
    if hi - lo == 1 {
        let mut r: Vec<T> = Vec::new();
        r.push(v[lo]);
        assert(v@.subrange(lo as int, hi as int) =~= r@);
        return r;
    }
    let mid: usize = lo + (hi - lo) / 2;
    let a = sort_range(v, lo, mid);
    let b = sort_range(v, mid, hi);
    let r = merge(&a, &b);
    proof {
        let left = v@.subrange(lo as int, mid as int);
        let right = v@.subrange(mid as int, hi as int);
        lemma_multiset_commutative(left, right);
        assert(v@.subrange(lo as int, hi as int) =~= left + right);
    }
    r
}

/// A list in order of rank.
pub fn sort<T: Ranked>(v: &Vec<T>) -> (r: Vec<T>)
    ensures
        r@ == in_order(v@),
{
    let r = sort_range(v, 0, v.len());
    proof {
        assert(v@.subrange(0, v@.len() as int) =~= v@);
        lemma_in_order(v@, r@);
    }
    r
}

} // verus!
