//! The width of a conductor along its chain.
use crate::geom::{in_domain, max_int, min_int, Point, MAX_ABS_DBU};
use crate::number::Number;
use crate::order::{climbing, in_order, lemma_ordered, sort, Ranked};
use vstd::prelude::*;

verus! {

/// The coordinate of ring vertex `k` on the chain's axis.
pub open spec fn along(ring: Seq<Point>, horizontal: bool, k: int) -> i64 {
    if horizontal { ring[k].x } else { ring[k].y }
}

/// The coordinate of ring vertex `k` across the chain.
pub open spec fn across(ring: Seq<Point>, horizontal: bool, k: int) -> i64 {
    if horizontal { ring[k].y } else { ring[k].x }
}

/// The vertex after vertex `k`, the ring being closed.
pub open spec fn after(ring: Seq<Point>, k: int) -> int {
    if k + 1 < ring.len() { k + 1 } else { 0 }
}

/// Whether the edge out of vertex `k` crosses a slab from side to side. An edge
/// perpendicular to the chain crosses none.
pub open spec fn crosses(ring: Seq<Point>, horizontal: bool, k: int, from: int, to: int) -> bool {
    let a = along(ring, horizontal, k) as int;
    let b = along(ring, horizontal, after(ring, k)) as int;
    min_int(a, b) <= from && to <= max_int(a, b)
}

/// Where the edges out of the first `n` vertices cross a slab.
pub open spec fn crossings(
    ring: Seq<Point>,
    horizontal: bool,
    from: int,
    to: int,
    n: nat,
) -> Seq<i64>
    decreases n,
{
    if n == 0 {
        Seq::empty()
    } else {
        let m = (n - 1) as nat;
        let before = crossings(ring, horizontal, from, to, m);
        if crosses(ring, horizontal, m as int, from, to) {
            before.push(across(ring, horizontal, m as int))
        } else {
            before
        }
    }
}

/// What lies between the two crossings of each of the first `pairs` pairs.
pub open spec fn between_pairs(s: Seq<i64>, pairs: nat) -> int
    decreases pairs,
{
    if pairs == 0 {
        0
    } else {
        between_pairs(s, (pairs - 1) as nat) + (s[2 * pairs - 1] - s[2 * pairs - 2])
    }
}

/// The covered cross-section of a slab: a line through it enters and leaves the
/// ring in turn, so the metal is what lies between each pair of crossings. At
/// least one unit, so it is never a zero denominator.
pub open spec fn slab_width(ring: Seq<Point>, horizontal: bool, from: int, to: int) -> int {
    let s = in_order(crossings(ring, horizontal, from, to, ring.len()));
    max_int(1, between_pairs(s, s.len() / 2))
}

/// A sorted list with each run of equal values kept once.
pub open spec fn distinct(s: Seq<i64>) -> Seq<i64>
    decreases s.len(),
{
    if s.len() == 0 {
        Seq::empty()
    } else {
        let d = distinct(s.drop_last());
        if d.len() > 0 && d.last() == s.last() { d } else { d.push(s.last()) }
    }
}

/// The chain coordinates of the ring's vertices.
pub open spec fn alongs(ring: Seq<Point>, horizontal: bool) -> Seq<i64> {
    Seq::new(ring.len(), |k: int| along(ring, horizontal, k))
}

/// The slab boundaries: every vertex's chain coordinate, ascending.
pub open spec fn cuts(ring: Seq<Point>, horizontal: bool) -> Seq<i64> {
    distinct(in_order(alongs(ring, horizontal)))
}

/// The covered cross-section between each adjacent pair of cuts.
pub open spec fn widths(ring: Seq<Point>, horizontal: bool) -> Seq<i64> {
    let cut = cuts(ring, horizontal);
    Seq::new(
        (cut.len() - 1) as nat,
        |k: int| slab_width(ring, horizontal, cut[k] as int, cut[k + 1] as int) as i64,
    )
}

/// How much of a segment lies in slab `k`.
pub open spec fn overlap(cut: Seq<i64>, k: int, from: int, to: int) -> int {
    max_int(0, min_int(cut[k + 1] as int, to) - max_int(cut[k] as int, from))
}

/// The squares of conductor a segment has in the first `n` slabs, added in slab
/// order.
pub open spec fn squares_to(
    cut: Seq<i64>,
    width: Seq<i64>,
    from: int,
    to: int,
    n: nat,
) -> Number
    decreases n,
{
    if n == 0 {
        Number::of_spec(0)
    } else {
        let m = (n - 1) as nat;
        squares_to(cut, width, from, to, m).plus_spec(
            Number::of_spec(overlap(cut, m as int, from, to)).over_spec(
                Number::of_spec(width[m as int] as int),
            ),
        )
    }
}

/// The narrowest of the first `n` slabs a segment touches.
pub open spec fn narrowest_to(
    cut: Seq<i64>,
    width: Seq<i64>,
    from: int,
    to: int,
    n: nat,
) -> i64
    decreases n,
{
    if n == 0 {
        i64::MAX
    } else {
        let m = (n - 1) as nat;
        let so_far = narrowest_to(cut, width, from, to, m);
        if overlap(cut, m as int, from, to) > 0 && width[m as int] < so_far {
            width[m as int]
        } else {
            so_far
        }
    }
}

/// The squares of conductor a shape has between two places on its chain.
pub open spec fn squares_between(ring: Seq<Point>, horizontal: bool, from: int, to: int) -> Number {
    squares_to(
        cuts(ring, horizontal),
        widths(ring, horizontal),
        from,
        to,
        widths(ring, horizontal).len(),
    )
}

/// The narrowest cross-section between two places on a shape's chain.
pub open spec fn narrowest_between(
    ring: Seq<Point>,
    horizontal: bool,
    from: int,
    to: int,
) -> i64 {
    narrowest_to(
        cuts(ring, horizontal),
        widths(ring, horizontal),
        from,
        to,
        widths(ring, horizontal).len(),
    )
}

/// The pairs of a climbing list are disjoint, so together they reach no further
/// than from its first value to its last.
proof fn lemma_between_pairs(s: Seq<i64>, pairs: nat)
    requires
        climbing(s),
        2 * pairs <= s.len(),
    ensures
        0 <= between_pairs(s, pairs),
        pairs > 0 ==> between_pairs(s, pairs) <= s[2 * pairs - 1] - s[0],
        pairs == 0 ==> between_pairs(s, pairs) == 0,
    decreases pairs,
{
    if pairs > 0 {
        lemma_between_pairs(s, (pairs - 1) as nat);
        assert(s[2 * pairs - 2].rank() <= s[2 * pairs - 1].rank());
        if pairs > 1 {
            assert(s[2 * pairs - 3].rank() <= s[2 * pairs - 2].rank());
        }
    }
}

/// The cuts are strictly ascending, and are exactly the values they came from.
pub proof fn lemma_distinct(s: Seq<i64>)
    requires
        climbing(s),
    ensures
        distinct(s).len() <= s.len(),
        s.len() > 0 ==> distinct(s).len() > 0 && distinct(s).last() == s.last(),
        forall|i: int, j: int|
            0 <= i < j < distinct(s).len() ==> (#[trigger] distinct(s)[i]) < (
            #[trigger] distinct(s)[j]),
        forall|v: i64| #[trigger] distinct(s).contains(v) <==> s.contains(v),
    decreases s.len(),
{
    if s.len() > 0 {
        let t = s.drop_last();
        assert(climbing(t)) by {
            assert forall|i: int, j: int| 0 <= i < j < t.len() implies (#[trigger] t[i]).rank() <= (
            #[trigger] t[j]).rank() by {
                assert(s[i].rank() <= s[j].rank());
            }
        }
        lemma_distinct(t);
        let d = distinct(t);
        let r = distinct(s);
        if t.len() > 0 {
            assert(s[t.len() - 1].rank() <= s[t.len() as int].rank());
            assert(d.last() <= s.last());
        }
        assert forall|i: int, j: int| 0 <= i < j < r.len() implies (#[trigger] r[i]) < (
        #[trigger] r[j]) by {
            if j < d.len() {
                assert(d[i] < d[j]);
            } else if i < d.len() - 1 {
                assert(d[i] < d[d.len() - 1]);
            }
        }
        assert forall|v: i64| #[trigger] r.contains(v) <==> s.contains(v) by {
            if r.contains(v) {
                let i = choose|i: int| 0 <= i < r.len() && r[i] == v;
                if i < d.len() {
                    assert(d[i] == v);
                    assert(d.contains(v));
                    let k = choose|k: int| 0 <= k < t.len() && t[k] == v;
                    assert(s[k] == v);
                } else {
                    assert(s[s.len() - 1] == v);
                }
            }
            if s.contains(v) {
                let k = choose|k: int| 0 <= k < s.len() && s[k] == v;
                if k < t.len() {
                    assert(t[k] == v);
                    assert(d.contains(v));
                    let i = choose|i: int| 0 <= i < d.len() && d[i] == v;
                    assert(r[i] == v);
                } else {
                    assert(r[r.len() - 1] == v);
                }
            }
        }
    }
}

/// A ring whose every vertex is a point of the plane.
pub open spec fn ring_wf(ring: Seq<Point>) -> bool {
    ring.len() >= 1 && forall|i: int| 0 <= i < ring.len() ==> (#[trigger] ring[i]).wf()
}

proof fn lemma_crossings(ring: Seq<Point>, horizontal: bool, from: int, to: int, n: nat)
    requires
        ring_wf(ring),
        n <= ring.len(),
    ensures
        forall|i: int|
            0 <= i < crossings(ring, horizontal, from, to, n).len() ==> in_domain(
                (#[trigger] crossings(ring, horizontal, from, to, n)[i]) as int,
            ),
    decreases n,
{
    if n > 0 {
        let m = (n - 1) as nat;
        lemma_crossings(ring, horizontal, from, to, m);
        assert(ring[m as int].wf());
        let before = crossings(ring, horizontal, from, to, m);
        let now = crossings(ring, horizontal, from, to, n);
        assert forall|i: int| 0 <= i < now.len() implies in_domain((#[trigger] now[i]) as int) by {
            if i < before.len() {
                assert(in_domain(before[i] as int));
            }
        }
    }
}

/// A slab is at least one unit wide and no wider than the plane.
pub proof fn lemma_slab_width(ring: Seq<Point>, horizontal: bool, from: int, to: int)
    requires
        ring_wf(ring),
    ensures
        1 <= slab_width(ring, horizontal, from, to) <= 2 * MAX_ABS_DBU,
{
    let c = crossings(ring, horizontal, from, to, ring.len());
    lemma_crossings(ring, horizontal, from, to, ring.len());
    lemma_ordered(c);
    let s = in_order(c);
    let pairs = s.len() / 2;
    lemma_between_pairs(s, pairs);
    if pairs > 0 {
        assert(c.contains(s[2 * pairs - 1]));
        assert(c.contains(s[0]));
    }
}

/// What the cuts are: the distinct chain coordinates of the ring, ascending.
pub proof fn lemma_cuts(ring: Seq<Point>, horizontal: bool)
    requires
        ring_wf(ring),
    ensures
        1 <= cuts(ring, horizontal).len() <= ring.len(),
        widths(ring, horizontal).len() == cuts(ring, horizontal).len() - 1,
        forall|i: int, j: int|
            0 <= i < j < cuts(ring, horizontal).len() ==> (#[trigger] cuts(ring, horizontal)[i]) < (
            #[trigger] cuts(ring, horizontal)[j]),
        forall|i: int|
            0 <= i < cuts(ring, horizontal).len() ==> in_domain(
                (#[trigger] cuts(ring, horizontal)[i]) as int,
            ),
        forall|v: i64| #[trigger]
            cuts(ring, horizontal).contains(v) <==> alongs(ring, horizontal).contains(v),
        forall|k: int|
            0 <= k < widths(ring, horizontal).len() ==> 1 <= (#[trigger] widths(
                ring,
                horizontal,
            )[k]) <= 2 * MAX_ABS_DBU,
{
    let a = alongs(ring, horizontal);
    lemma_ordered(a);
    let s = in_order(a);
    lemma_distinct(s);
    let c = cuts(ring, horizontal);
    assert forall|v: i64| #[trigger] c.contains(v) <==> a.contains(v) by {
        assert(c.contains(v) <==> s.contains(v));
        if s.contains(v) {
            let i = choose|i: int| 0 <= i < s.len() && s[i] == v;
            assert(a.contains(s[i]));
        }
        if a.contains(v) {
            let i = choose|i: int| 0 <= i < a.len() && a[i] == v;
            assert(s.contains(a[i]));
        }
    }
    assert forall|i: int| 0 <= i < c.len() implies in_domain((#[trigger] c[i]) as int) by {
        assert(c.contains(c[i]));
        let k = choose|k: int| 0 <= k < a.len() && a[k] == c[i];
        assert(ring[k].wf());
    }
    assert forall|k: int| 0 <= k < widths(ring, horizontal).len() implies 1 <= (#[trigger] widths(
        ring,
        horizontal,
    )[k]) <= 2 * MAX_ABS_DBU by {
        lemma_slab_width(ring, horizontal, c[k] as int, c[k + 1] as int);
    }
}

fn drop_repeats(s: &Vec<i64>) -> (r: Vec<i64>)
    ensures
        r@ == distinct(s@),
{
    let mut r: Vec<i64> = Vec::new();
    let mut i: usize = 0;
    assert(s@.take(0) =~= Seq::<i64>::empty());
    while i < s.len()
        invariant
            i <= s@.len(),
            r@ == distinct(s@.take(i as int)),
        decreases s@.len() - i,
    {
        assert(s@.take(i + 1).drop_last() =~= s@.take(i as int));
        let n: usize = r.len();
        if n == 0 || r[n - 1] != s[i] {
            r.push(s[i]);
        }
        i = i + 1;
    }
    assert(s@.take(i as int) =~= s@);
    r
}

fn width_of_slab(ring: &Vec<Point>, horizontal: bool, from: i64, to: i64) -> (r: i64)
    requires
        ring_wf(ring@),
    ensures
        r == slab_width(ring@, horizontal, from as int, to as int),
{
    let n: usize = ring.len();
    let mut crossing: Vec<i64> = Vec::new();
    let mut k: usize = 0;
    while k < n
        invariant
            k <= n == ring@.len(),
            crossing@ == crossings(ring@, horizontal, from as int, to as int, k as nat),
        decreases n - k,
    {
        let next: usize = if k + 1 < n { k + 1 } else { 0 };
        let a: i64 = if horizontal { ring[k].x } else { ring[k].y };
        let b: i64 = if horizontal { ring[next].x } else { ring[next].y };
        let low: i64 = if a < b { a } else { b };
        let high: i64 = if a < b { b } else { a };
        if low <= from && to <= high {
            crossing.push(if horizontal { ring[k].y } else { ring[k].x });
        }
        k = k + 1;
    }
    let s = sort(&crossing);
    proof {
        lemma_crossings(ring@, horizontal, from as int, to as int, ring@.len());
        lemma_ordered(crossing@);
        assert forall|i: int| 0 <= i < s@.len() implies in_domain((#[trigger] s@[i]) as int) by {
            assert(crossing@.contains(s@[i]));
        }
    }
    let pairs: usize = s.len() / 2;
    let mut covered: i64 = 0;
    let mut p: usize = 0;
    while p < pairs
        invariant
            p <= pairs,
            2 * pairs <= s@.len(),
            climbing(s@),
            forall|i: int| 0 <= i < s@.len() ==> in_domain((#[trigger] s@[i]) as int),
            covered == between_pairs(s@, p as nat),
        decreases pairs - p,
    {
        proof {
            lemma_between_pairs(s@, p as nat);
            lemma_between_pairs(s@, (p + 1) as nat);
        }
        let len: usize = s.len();
        assert(2 * p + 1 < len);
        covered = covered + (s[2 * p + 1] - s[2 * p]);
        p = p + 1;
    }
    if covered < 1 { 1 } else { covered }
}

/// The conductor's cross-section along one shape's chain: slab cuts ascending,
/// and the covered width between each adjacent pair.
pub struct ChainProfile {
    pub cut: Vec<i64>,
    pub width: Vec<i64>,
}

impl ChainProfile {
    /// One slab between each adjacent pair of cuts.
    pub open spec fn wf(&self) -> bool {
        &&& self.cut@.len() == self.width@.len() + 1
        &&& forall|i: int| 0 <= i < self.cut@.len() ==> in_domain((#[trigger] self.cut@[i]) as int)
    }

    /// Whether the profile is that of a ring.
    pub open spec fn profiles(&self, ring: Seq<Point>, horizontal: bool) -> bool {
        self.cut@ == cuts(ring, horizontal) && self.width@ == widths(ring, horizontal)
    }

    /// Profile one shape.
    pub fn build(ring: &Vec<Point>, horizontal: bool) -> (r: ChainProfile)
        requires
            ring_wf(ring@),
        ensures
            r.wf(),
            r.profiles(ring@, horizontal),
    {
        let n: usize = ring.len();
        let mut places: Vec<i64> = Vec::new();
        let mut k: usize = 0;
        while k < n
            invariant
                k <= n == ring@.len(),
                places@ == alongs(ring@, horizontal).take(k as int),
            decreases n - k,
        {
            places.push(if horizontal { ring[k].x } else { ring[k].y });
            k = k + 1;
            assert(places@ =~= alongs(ring@, horizontal).take(k as int));
        }
        assert(places@ =~= alongs(ring@, horizontal));
        let cut = drop_repeats(&sort(&places));
        proof {
            lemma_cuts(ring@, horizontal);
        }
        let slabs: usize = cut.len() - 1;
        let mut width: Vec<i64> = Vec::new();
        let mut s: usize = 0;
        while s < slabs
            invariant
                s <= slabs,
                ring_wf(ring@),
                cut@ == cuts(ring@, horizontal),
                slabs == cut@.len() - 1,
                width@ == widths(ring@, horizontal).take(s as int),
                widths(ring@, horizontal).len() == slabs,
            decreases slabs - s,
        {
            width.push(width_of_slab(ring, horizontal, cut[s], cut[s + 1]));
            s = s + 1;
            assert(width@ =~= widths(ring@, horizontal).take(s as int));
        }
        assert(width@ =~= widths(ring@, horizontal));
        ChainProfile { cut, width }
    }

    /// One chain segment: the squares of conductor between two places, and the
    /// narrowest cross-section along it, which is where a current density peaks.
    pub fn segment(&self, from: i64, to: i64) -> (r: (Number, i64))
        requires
            self.wf(),
            in_domain(from as int),
            in_domain(to as int),
        ensures
            r.0 == squares_to(self.cut@, self.width@, from as int, to as int, self.width@.len()),
            r.1 == narrowest_to(self.cut@, self.width@, from as int, to as int, self.width@.len()),
            forall|ring: Seq<Point>, horizontal: bool|
                #[trigger] self.profiles(ring, horizontal) ==> r.0 == squares_between(
                    ring,
                    horizontal,
                    from as int,
                    to as int,
                ) && r.1 == narrowest_between(ring, horizontal, from as int, to as int),
    {
        let slabs: usize = self.width.len();
        let mut squares: Number = Number::of(0);
        let mut narrow: i64 = i64::MAX;
        let mut k: usize = 0;
        while k < slabs
            invariant
                k <= slabs == self.width@.len(),
                self.cut@.len() == slabs + 1,
                in_domain(from as int),
                in_domain(to as int),
                self.wf(),
                squares == squares_to(self.cut@, self.width@, from as int, to as int, k as nat),
                narrow == narrowest_to(self.cut@, self.width@, from as int, to as int, k as nat),
            decreases slabs - k,
        {
            let low: i64 = if self.cut[k] < from { from } else { self.cut[k] };
            let high: i64 = if self.cut[k + 1] < to { self.cut[k + 1] } else { to };
            let shared: i64 = if high < low { 0 } else { high - low };
            let w: i64 = self.width[k];
            assert(shared == overlap(self.cut@, k as int, from as int, to as int));
            squares = squares.plus(Number::of(shared as i128).over(Number::of(w as i128)));
            if shared > 0 && w < narrow {
                narrow = w;
            }
            k = k + 1;
        }
        (squares, narrow)
    }
}

} // verus!
