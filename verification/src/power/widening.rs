//! What a conductor's shape says of the squares it costs.
use crate::geom::{in_domain, Point};
use crate::number::Number;
use crate::order::{in_order, lemma_in_order};
use crate::power::profile::{
    across, along, alongs, between_pairs, crosses, crossings, cuts, distinct, overlap, slab_width,
    squares_between, squares_to, widths,
};
use crate::rounding::{
    lemma_of_keeps_order, lemma_quotient_falls, lemma_sums_keep_order, lemma_zero_plus,
};
use vstd::arithmetic::power2::{lemma_pow2_strictly_increases, pow2};
use vstd::prelude::*;

verus! {

/// Slab boundaries and widths a conductor can have.
pub open spec fn is_profile(cut: Seq<i64>, width: Seq<i64>) -> bool {
    &&& cut.len() == width.len() + 1
    &&& forall|k: int| 0 <= k < cut.len() ==> in_domain(#[trigger] cut[k] as int)
    &&& forall|k: int| 0 <= k < width.len() ==> 1 <= #[trigger] width[k] <= 0x200_0000_0000
}

proof fn lemma_small(v: int)
    requires
        0 <= v <= 0x200_0000_0000,
    ensures
        v <= pow2(100),
{
    vstd::arithmetic::power2::lemma2_to64();
    vstd::arithmetic::power2::lemma2_to64_rest();
    lemma_pow2_strictly_increases(50, 100);
}

/// One slab's share of a segment, over two widths of it.
proof fn lemma_slab(length: int, thin: int, fat: int)
    requires
        0 <= length <= 0x200_0000_0000,
        1 <= thin <= fat <= 0x200_0000_0000,
    ensures
        Number::of_spec(length).over_spec(Number::of_spec(thin)).upward(),
        Number::of_spec(length).over_spec(Number::of_spec(fat)).upward(),
        Number::of_spec(length).over_spec(Number::of_spec(fat)).le(
            Number::of_spec(length).over_spec(Number::of_spec(thin)),
        ),
{
    lemma_small(length);
    lemma_small(fat);
    lemma_of_keeps_order(0, length);
    lemma_of_keeps_order(thin, fat);
    lemma_of_keeps_order(0, thin);
    lemma_quotient_falls(
        Number::of_spec(length),
        Number::of_spec(thin),
        Number::of_spec(fat),
    );
}

/// Widening a conductor never raises the squares a segment of it costs: with the
/// slab boundaries as they were and no slab narrower, their sum is no larger.
pub proof fn lemma_widening_never_costs(
    cut: Seq<i64>,
    thin: Seq<i64>,
    fat: Seq<i64>,
    from: int,
    to: int,
    n: nat,
)
    requires
        is_profile(cut, thin),
        is_profile(cut, fat),
        n <= thin.len() == fat.len(),
        forall|k: int| 0 <= k < thin.len() ==> thin[k] <= fat[k],
        in_domain(from),
        in_domain(to),
    ensures
        squares_to(cut, fat, from, to, n).upward(),
        squares_to(cut, thin, from, to, n).upward(),
        squares_to(cut, fat, from, to, n).le(squares_to(cut, thin, from, to, n)),
    decreases n,
{
    if n > 0 {
        let m = n - 1;
        lemma_widening_never_costs(cut, thin, fat, from, to, m as nat);
        let length = overlap(cut, m, from, to);
        assert(in_domain(cut[m] as int) && in_domain(cut[m + 1] as int));
        assert(1 <= thin[m] <= fat[m] <= 0x200_0000_0000);
        lemma_slab(length, thin[m] as int, fat[m] as int);
        lemma_sums_keep_order(
            squares_to(cut, fat, from, to, m as nat),
            Number::of_spec(length).over_spec(Number::of_spec(fat[m] as int)),
            squares_to(cut, thin, from, to, m as nat),
            Number::of_spec(length).over_spec(Number::of_spec(thin[m] as int)),
        );
    }
}

/// The ring of a rectangle along a chain, counter-clockwise from its lower left.
pub open spec fn is_rectangle(
    ring: Seq<Point>,
    horizontal: bool,
    lo: int,
    hi: int,
    low: int,
    high: int,
) -> bool {
    &&& ring.len() == 4
    &&& lo < hi
    &&& low < high
    &&& forall|k: int| 0 <= k < 4 ==> in_domain(#[trigger] along(ring, horizontal, k) as int)
    &&& forall|k: int| 0 <= k < 4 ==> in_domain(#[trigger] across(ring, horizontal, k) as int)
    &&& along(ring, horizontal, 0) == lo
    &&& along(ring, horizontal, 1) == hi
    &&& along(ring, horizontal, 2) == hi
    &&& along(ring, horizontal, 3) == lo
    &&& across(ring, horizontal, 0) == low
    &&& across(ring, horizontal, 1) == low
    &&& across(ring, horizontal, 2) == high
    &&& across(ring, horizontal, 3) == high
}

proof fn lemma_two(a: i64, b: i64)
    requires
        a < b,
    ensures
        in_order(seq![a, b]) == seq![a, b],
{
    lemma_in_order(seq![a, b], seq![a, b]);
}

/// A rectangle profiles to one slab as wide as itself, so a segment of it costs
/// its length over its width.
pub proof fn lemma_rectangle_is_one_slab(
    ring: Seq<Point>,
    horizontal: bool,
    lo: int,
    hi: int,
    low: int,
    high: int,
    from: int,
    to: int,
)
    requires
        is_rectangle(ring, horizontal, lo, hi, low, high),
        lo <= from < to <= hi,
    ensures
        cuts(ring, horizontal) == seq![lo as i64, hi as i64],
        widths(ring, horizontal) == seq![(high - low) as i64],
        squares_between(ring, horizontal, from, to) == Number::of_spec(to - from).over_spec(
            Number::of_spec(high - low),
        ),
{
    let (a, b) = (lo as i64, hi as i64);
    let (c, d) = (low as i64, high as i64);
    assert(in_domain(along(ring, horizontal, 0) as int));
    assert(in_domain(along(ring, horizontal, 1) as int));
    assert(in_domain(across(ring, horizontal, 0) as int));
    assert(in_domain(across(ring, horizontal, 2) as int));
    let s = alongs(ring, horizontal);
    assert(s =~= seq![a, b, b, a]);
    let sorted = seq![a, a, b, b];
    assert(s.to_multiset() =~= sorted.to_multiset()) by {
        broadcast use vstd::seq_lib::group_to_multiset_ensures;

        assert(s =~= Seq::<i64>::empty().push(a).push(b).push(b).push(a));
        assert(sorted =~= Seq::<i64>::empty().push(a).push(a).push(b).push(b));
    }
    lemma_in_order(s, sorted);
    reveal_with_fuel(distinct, 5);
    assert(sorted.drop_last() =~= seq![a, a, b]);
    assert(seq![a, a, b].drop_last() =~= seq![a, a]);
    assert(seq![a, a].drop_last() =~= seq![a]);
    assert(seq![a].drop_last() =~= Seq::<i64>::empty());
    assert(distinct(sorted) =~= seq![a, b]);
    let cut = cuts(ring, horizontal);
    assert(cut == seq![a, b]);
    reveal_with_fuel(crossings, 5);
    assert(crosses(ring, horizontal, 0, lo, hi));
    assert(!crosses(ring, horizontal, 1, lo, hi));
    assert(crosses(ring, horizontal, 2, lo, hi));
    assert(!crosses(ring, horizontal, 3, lo, hi));
    let crossed = crossings(ring, horizontal, lo, hi, 4);
    assert(crossed =~= seq![c, d]);
    lemma_two(c, d);
    reveal_with_fuel(between_pairs, 2);
    assert(between_pairs(seq![c, d], 1) == d - c);
    assert(slab_width(ring, horizontal, lo, hi) == high - low);
    let width = widths(ring, horizontal);
    assert(width =~= seq![(high - low) as i64]);
    reveal_with_fuel(squares_to, 2);
    assert(overlap(cut, 0, from, to) == to - from);
    lemma_slab(to - from, high - low, high - low);
    lemma_zero_plus(Number::of_spec(to - from).over_spec(Number::of_spec(high - low)));
    assert(Number::of_spec(0) == (Number { bits: 0 }));
}

} // verus!
