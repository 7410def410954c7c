//! The worst effective resistance between terminals of a small network.
use crate::components::{components, connected, pairs_in};
use crate::design::kept;
use crate::evidence::grid::{larger, larger_of};
use crate::number::{Number, ONE};
use vstd::prelude::*;

verus! {

/// No link resists less than this, in ohms.
pub const CONTACT_OHMS: u64 = 0x3E11_2E0B_E826_D695;

/// A pivot smaller than this is none.
pub const LEAST_PIVOT: u64 = 0x3D71_9799_812D_EA11;

/// The number two.
pub const TWO: u64 = 0x4000_0000_0000_0000;

/// A resistive link between two nodes.
#[derive(Clone, Copy, Debug, PartialEq, Eq, Structural)]
pub struct Link {
    pub a: u32,
    pub b: u32,
    pub ohms: Number,
}

/// The conductance of a link.
pub open spec fn conductance(link: Link) -> Number {
    Number { bits: ONE }.over_spec(larger(link.ohms, Number { bits: CONTACT_OHMS }))
}

/// The conductance between two nodes over the first `n` links; parallel links
/// add up.
pub open spec fn between(links: Seq<Link>, i: int, j: int, n: nat) -> Number
    decreases n,
{
    if n == 0 {
        Number { bits: 0 }
    } else {
        let before = between(links, i, j, (n - 1) as nat);
        let link = links[n - 1];
        let g = conductance(link);
        let there = if link.a == i && link.b == j { before.plus_spec(g) } else { before };
        if link.b == i && link.a == j { there.plus_spec(g) } else { there }
    }
}

/// The conductance between two nodes.
pub open spec fn conducts(links: Seq<Link>, i: int, j: int) -> Number {
    between(links, i, j, links.len())
}

/// The pairs `(i, j)` with `j < n` that conduct.
pub open spec fn joined_row(links: Seq<Link>, i: int, n: nat) -> Seq<(u32, u32)>
    decreases n,
{
    if n == 0 {
        Seq::empty()
    } else {
        let before = joined_row(links, i, (n - 1) as nat);
        if (Number { bits: 0 }).lt(conducts(links, i, n - 1)) {
            before.push((i as u32, (n - 1) as u32))
        } else {
            before
        }
    }
}

/// The pairs of the first `m` nodes with all `n` that conduct.
pub open spec fn joined_pairs(links: Seq<Link>, n: nat, m: nat) -> Seq<(u32, u32)>
    decreases m,
{
    if m == 0 {
        Seq::empty()
    } else {
        joined_pairs(links, n, (m - 1) as nat) + joined_row(links, m - 1, n)
    }
}

/// Whether two nodes are in one part of the network.
pub open spec fn together(links: Seq<Link>, n: nat, i: int, j: int) -> bool {
    connected(joined_pairs(links, n, n), i, j)
}

/// The nodes of the part node `i` is in, ascending.
pub open spec fn part(links: Seq<Link>, n: nat, i: int) -> Seq<u32> {
    kept(n, |j: int| together(links, n, i, j))
}

/// A matrix, as rows.
pub open spec fn rows(a: Seq<Vec<Number>>) -> Seq<Seq<Number>> {
    Seq::new(a.len(), |i: int| a[i]@)
}

/// The sum of a node's conductances to the first `n` nodes of its part.
pub open spec fn load_to(links: Seq<Link>, members: Seq<u32>, i: int, n: nat) -> Number
    decreases n,
{
    if n == 0 {
        Number { bits: 0 }
    } else {
        let before = load_to(links, members, i, (n - 1) as nat);
        if members[n - 1] == i {
            before
        } else {
            before.plus_spec(conducts(links, i, members[n - 1] as int))
        }
    }
}

/// One row of the system of a part: its first node is grounded, the rest is the
/// matrix of conductances, and the identity stands beside it.
pub open spec fn system_row(links: Seq<Link>, members: Seq<u32>, r: int) -> Seq<Number> {
    let m = members.len() - 1;
    let i = members[r + 1] as int;
    Seq::new(
        (2 * m) as nat,
        |c: int|
            if c == r {
                load_to(links, members, i, members.len())
            } else if c < m {
                conducts(links, i, members[c + 1] as int).negated_spec()
            } else if c == m + r {
                Number { bits: ONE }
            } else {
                Number { bits: 0 }
            },
    )
}

/// The system of a part.
pub open spec fn system(links: Seq<Link>, members: Seq<u32>) -> Seq<Seq<Number>> {
    Seq::new((members.len() - 1) as nat, |r: int| system_row(links, members, r))
}

/// The row from `col` on with the largest entry in a column, over the first `n`
/// rows; the first of equal ones.
pub open spec fn pivot(a: Seq<Seq<Number>>, col: int, n: nat) -> int
    decreases n,
{
    if n <= col + 1 || n == 0 {
        col
    } else {
        let before = pivot(a, col, (n - 1) as nat);
        if a[before][col].magnitude_spec().lt(a[n - 1][col].magnitude_spec()) {
            n - 1
        } else {
            before
        }
    }
}

/// Two rows exchanged.
pub open spec fn exchanged(a: Seq<Seq<Number>>, i: int, j: int) -> Seq<Seq<Number>> {
    a.update(i, a[j]).update(j, a[i])
}

/// A row from a column on, divided.
pub open spec fn divided(row: Seq<Number>, col: int, by: Number) -> Seq<Number> {
    Seq::new(row.len(), |c: int| if c < col { row[c] } else { row[c].over_spec(by) })
}

/// A row from a column on, less a multiple of another.
pub open spec fn reduced(row: Seq<Number>, by: Seq<Number>, col: int) -> Seq<Number> {
    let f = row[col];
    if is_zero(f) {
        row
    } else {
        Seq::new(
            row.len(),
            |c: int| if c < col { row[c] } else { row[c].minus_spec(f.times_spec(by[c])) },
        )
    }
}

pub open spec fn is_zero(x: Number) -> bool {
    x.pattern() == 0
}

/// One column of the elimination.
pub open spec fn eliminated(a: Seq<Seq<Number>>, col: int) -> Seq<Seq<Number>> {
    let b = exchanged(a, col, pivot(a, col, a.len()));
    let p = b[col][col];
    if p.magnitude_spec().lt(Number { bits: LEAST_PIVOT }) {
        b
    } else {
        let own = divided(b[col], col, p);
        Seq::new(b.len(), |r: int| if r == col { own } else { reduced(b[r], own, col) })
    }
}

/// The first `n` columns of the elimination.
pub open spec fn solved(a: Seq<Seq<Number>>, n: nat) -> Seq<Seq<Number>>
    decreases n,
{
    if n == 0 {
        a
    } else {
        eliminated(solved(a, (n - 1) as nat), n - 1)
    }
}

/// The resistance between two places of a part, from its solved system: the
/// grounded place reads zero.
pub open spec fn resistance(a: Seq<Seq<Number>>, p: int, q: int) -> Number {
    let m = a.len() as int;
    if p == 0 && q == 0 {
        Number { bits: 0 }
    } else if p == 0 {
        a[q - 1][m + q - 1]
    } else if q == 0 {
        a[p - 1][m + p - 1]
    } else {
        a[p - 1][m + p - 1].plus_spec(a[q - 1][m + q - 1]).minus_spec(
            Number { bits: TWO }.times_spec(a[p - 1][m + q - 1]),
        )
    }
}

/// The places of a part that are terminals, ascending.
pub open spec fn terminals_of(members: Seq<u32>, terminal: Seq<bool>) -> Seq<u32> {
    kept(members.len(), |p: int| terminal[members[p] as int])
}

/// The worst of what is known and the pairs of place `x` with those after it and
/// below `n`.
pub open spec fn worst_from(
    a: Seq<Seq<Number>>,
    terms: Seq<u32>,
    known: Number,
    x: int,
    n: nat,
) -> Number
    decreases n,
{
    if n == 0 || n <= x + 1 {
        known
    } else {
        larger(
            worst_from(a, terms, known, x, (n - 1) as nat),
            resistance(a, terms[x] as int, terms[n - 1] as int),
        )
    }
}

/// The worst of what is known and the pairs of the first `n` terminal places.
pub open spec fn worst_to(a: Seq<Seq<Number>>, terms: Seq<u32>, known: Number, n: nat) -> Number
    decreases n,
{
    if n == 0 {
        known
    } else {
        worst_from(a, terms, worst_to(a, terms, known, (n - 1) as nat), n - 1, terms.len())
    }
}

/// The worst of what is known and the pairs within one part.
pub open spec fn worst_in(
    links: Seq<Link>,
    terminal: Seq<bool>,
    members: Seq<u32>,
    known: Number,
) -> Number {
    let terms = terminals_of(members, terminal);
    if terms.len() < 2 {
        known
    } else {
        worst_to(
            solved(system(links, members), (members.len() - 1) as nat),
            terms,
            known,
            terms.len(),
        )
    }
}

/// Node `i` is the lowest of its part.
pub open spec fn leads(links: Seq<Link>, n: nat, i: int) -> bool {
    forall|j: int| 0 <= j < i ==> !(#[trigger] together(links, n, j, i))
}

/// The worst over the parts whose lowest node is below `k`.
pub open spec fn worst_below(links: Seq<Link>, terminal: Seq<bool>, n: nat, k: nat) -> Number
    decreases k,
{
    if k == 0 {
        Number { bits: 0 }
    } else {
        let before = worst_below(links, terminal, n, (k - 1) as nat);
        if leads(links, n, k - 1) {
            worst_in(links, terminal, part(links, n, k - 1), before)
        } else {
            before
        }
    }
}

/// The worst effective resistance between two terminals in one part; zero where
/// there is no such pair.
pub open spec fn worst_pair(links: Seq<Link>, terminal: Seq<bool>) -> Number {
    worst_below(links, terminal, terminal.len(), terminal.len())
}

/// Every link joins two of the nodes.
pub open spec fn links_in(links: Seq<Link>, n: int) -> bool {
    forall|e: int| 0 <= e < links.len() ==> (#[trigger] links[e]).a < n && links[e].b < n
}

/// Rows all as long as one another.
pub open spec fn is_matrix(a: Seq<Vec<Number>>, h: int, w: int) -> bool {
    a.len() == h && forall|i: int| 0 <= i < h ==> (#[trigger] a[i])@.len() == w
}

fn conductance_of(link: Link) -> (r: Number)
    ensures
        r == conductance(link),
{
    Number { bits: ONE }.over(larger_of(link.ohms, Number { bits: CONTACT_OHMS }))
}

/// The conductance between every two nodes.
fn conductances(links: &Vec<Link>, n: usize) -> (r: Vec<Vec<Number>>)
    requires
        links_in(links@, n as int),
    ensures
        is_matrix(r@, n as int, n as int),
        forall|i: int, j: int|
            0 <= i < n && 0 <= j < n ==> (#[trigger] r@[i]@[j]) == conducts(links@, i, j),
{
    let mut r: Vec<Vec<Number>> = Vec::new();
    let mut i: usize = 0;
    while i < n
        invariant
            i <= n,
            is_matrix(r@, i as int, n as int),
            forall|p: int, q: int|
                0 <= p < i && 0 <= q < n ==> (#[trigger] r@[p]@[q]) == (Number { bits: 0 }),
        decreases n - i,
    {
        let mut row: Vec<Number> = Vec::new();
        let mut j: usize = 0;
        while j < n
            invariant
                j <= n,
                row@.len() == j,
                forall|q: int| 0 <= q < j ==> (#[trigger] row@[q]) == (Number { bits: 0 }),
            decreases n - j,
        {
            row.push(Number { bits: 0 });
            j = j + 1;
        }
        r.push(row);
        i = i + 1;
    }
    let mut e: usize = 0;
    while e < links.len()
        invariant
            e <= links@.len(),
            links_in(links@, n as int),
            is_matrix(r@, n as int, n as int),
            forall|i: int, j: int|
                0 <= i < n && 0 <= j < n ==> (#[trigger] r@[i]@[j]) == between(
                    links@,
                    i,
                    j,
                    e as nat,
                ),
        decreases links@.len() - e,
    {
        let link = links[e];
        assert(links@[e as int].a < n && links@[e as int].b < n);
        let g = conductance_of(link);
        let a: usize = link.a as usize;
        let b: usize = link.b as usize;
        let ghost r0 = r@;
        let there = r[a][b].plus(g);
        r[a].set(b, there);
        let ghost r1 = r@;
        proof {
            assert forall|i: int, j: int| 0 <= i < n && 0 <= j < n implies (#[trigger] r1[i]@[j])
                == (if i == a && j == b { r0[i]@[j].plus_spec(g) } else { r0[i]@[j] }) by {
                if i != a {
                    assert(r1[i] == r0[i]);
                }
            }
        }
        let back = r[b][a].plus(g);
        r[b].set(a, back);
        proof {
            assert forall|i: int, j: int| 0 <= i < n && 0 <= j < n implies (#[trigger] r@[i]@[j])
                == between(links@, i, j, (e + 1) as nat) by {
                assert(r0[i]@[j] == between(links@, i, j, e as nat));
                assert(r1[i]@[j] == (if i == a && j == b {
                    r0[i]@[j].plus_spec(g)
                } else {
                    r0[i]@[j]
                }));
                if i != b {
                    assert(r@[i] == r1[i]);
                }
            }
        }
        e = e + 1;
    }
    r
}

/// The pairs that conduct.
fn join(cond: &Vec<Vec<Number>>, n: usize, Ghost(links): Ghost<Seq<Link>>) -> (r: Vec<(u32, u32)>)
    requires
        n < 0xFFFF_FFFF,
        is_matrix(cond@, n as int, n as int),
        forall|i: int, j: int|
            0 <= i < n && 0 <= j < n ==> (#[trigger] cond@[i]@[j]) == conducts(links, i, j),
    ensures
        r@ == joined_pairs(links, n as nat, n as nat),
        pairs_in(r@, n as int),
{
    let mut r: Vec<(u32, u32)> = Vec::new();
    let mut i: usize = 0;
    while i < n
        invariant
            i <= n < 0xFFFF_FFFF,
            is_matrix(cond@, n as int, n as int),
            forall|i: int, j: int|
                0 <= i < n && 0 <= j < n ==> (#[trigger] cond@[i]@[j]) == conducts(links, i, j),
            r@ == joined_pairs(links, n as nat, i as nat),
            pairs_in(r@, n as int),
        decreases n - i,
    {
        let ghost before = r@;
        let mut j: usize = 0;
        assert(r@ =~= before + joined_row(links, i as int, 0));
        while j < n
            invariant
                i < n,
                j <= n < 0xFFFF_FFFF,
                is_matrix(cond@, n as int, n as int),
                forall|i: int, j: int|
                    0 <= i < n && 0 <= j < n ==> (#[trigger] cond@[i]@[j]) == conducts(links, i, j),
                r@ == before + joined_row(links, i as int, j as nat),
                pairs_in(r@, n as int),
            decreases n - j,
        {
            assert(cond@[i as int]@.len() == n);
            let g = cond[i][j];
            assert(g == cond@[i as int]@[j as int]);
            if (Number { bits: 0 }).less(g) {
                r.push((i as u32, j as u32));
            }
            j = j + 1;
            assert(r@ =~= before + joined_row(links, i as int, j as nat));
        }
        i = i + 1;
    }
    r
}

/// The system of a part.
fn pose(
    cond: &Vec<Vec<Number>>,
    members: &Vec<u32>,
    Ghost(links): Ghost<Seq<Link>>,
    Ghost(n): Ghost<int>,
) -> (r: Vec<Vec<Number>>)
    requires
        n < 0xFFFF_FFFF,
        is_matrix(cond@, n, n),
        forall|i: int, j: int|
            0 <= i < n && 0 <= j < n ==> (#[trigger] cond@[i]@[j]) == conducts(links, i, j),
        1 <= members@.len() <= n,
        forall|p: int| 0 <= p < members@.len() ==> (#[trigger] members@[p]) < n,
        forall|p: int, q: int| 0 <= p < q < members@.len() ==> members@[p] < members@[q],
        2 * members@.len() <= usize::MAX,
    ensures
        rows(r@) == system(links, members@),
        is_matrix(r@, members@.len() - 1, 2 * (members@.len() - 1)),
{
    let m: usize = members.len() - 1;
    let mut r: Vec<Vec<Number>> = Vec::new();
    let mut k: usize = 0;
    while k < m
        invariant
            k <= m == members@.len() - 1,
            2 * members@.len() <= usize::MAX,
            n < 0xFFFF_FFFF,
            is_matrix(cond@, n, n),
            forall|i: int, j: int|
                0 <= i < n && 0 <= j < n ==> (#[trigger] cond@[i]@[j]) == conducts(links, i, j),
            forall|p: int| 0 <= p < members@.len() ==> (#[trigger] members@[p]) < n,
            forall|p: int, q: int| 0 <= p < q < members@.len() ==> members@[p] < members@[q],
            is_matrix(r@, k as int, 2 * m as int),
            forall|i: int| 0 <= i < k ==> (#[trigger] r@[i])@ == system_row(links, members@, i),
        decreases m - k,
    {
        let i: usize = members[k + 1] as usize;
        assert(cond@[i as int]@.len() == n);
        let mut load = Number { bits: 0 };
        let mut q: usize = 0;
        while q < members.len()
            invariant
                q <= members@.len(),
                i < n,
                i == members@[k + 1],
                is_matrix(cond@, n, n),
                cond@[i as int]@.len() == n,
                forall|i: int, j: int|
                    0 <= i < n && 0 <= j < n ==> (#[trigger] cond@[i]@[j]) == conducts(links, i, j),
                forall|p: int| 0 <= p < members@.len() ==> (#[trigger] members@[p]) < n,
                load == load_to(links, members@, i as int, q as nat),
            decreases members@.len() - q,
        {
            let j: usize = members[q] as usize;
            if j != i {
                assert(cond@[i as int]@[j as int] == conducts(links, i as int, j as int));
                load = load.plus(cond[i][j]);
            }
            q = q + 1;
        }
        let mut row: Vec<Number> = Vec::new();
        let width: usize = 2 * m;
        let mut c: usize = 0;
        let ghost want = system_row(links, members@, k as int);
        while c < width
            invariant
                c <= width == 2 * m,
                k < m == members@.len() - 1,
                2 * members@.len() <= usize::MAX,
                i < n,
                i == members@[k + 1],
                is_matrix(cond@, n, n),
                cond@[i as int]@.len() == n,
                forall|i: int, j: int|
                    0 <= i < n && 0 <= j < n ==> (#[trigger] cond@[i]@[j]) == conducts(links, i, j),
                forall|p: int| 0 <= p < members@.len() ==> (#[trigger] members@[p]) < n,
                load == load_to(links, members@, i as int, members@.len()),
                want == system_row(links, members@, k as int),
                row@ == want.take(c as int),
            decreases width - c,
        {
            let value = if c == k {
                load
            } else if c < m {
                let j: usize = members[c + 1] as usize;
                assert(cond@[i as int]@[j as int] == conducts(links, i as int, j as int));
                cond[i][j].negated()
            } else if c - m == k {
                Number { bits: ONE }
            } else {
                Number { bits: 0 }
            };
            assert(value == want[c as int]);
            row.push(value);
            c = c + 1;
            assert(row@ =~= want.take(c as int));
        }
        assert(row@ =~= want);
        r.push(row);
        k = k + 1;
    }
    assert(rows(r@) =~= system(links, members@));
    r
}

/// One column of the elimination.
fn eliminate(a: &mut Vec<Vec<Number>>, col: usize, w: usize)
    requires
        is_matrix(old(a)@, old(a)@.len() as int, w as int),
        col < old(a)@.len() <= w,
    ensures
        is_matrix(final(a)@, old(a)@.len() as int, w as int),
        rows(final(a)@) == eliminated(rows(old(a)@), col as int),
{
    let ghost start = rows(a@);
    let h: usize = a.len();
    let mut piv: usize = col;
    let mut k: usize = col + 1;
    while k < h
        invariant
            col < k <= h == a@.len() <= w,
            col <= piv < h,
            is_matrix(a@, h as int, w as int),
            start == rows(a@),
            piv == pivot(start, col as int, k as nat),
        decreases h - k,
    {
        assert(a@[k as int]@.len() == w);
        assert(a@[piv as int]@.len() == w);
        assert(start[piv as int][col as int] == a@[piv as int]@[col as int]);
        if a[piv][col].absolute().less(a[k][col].absolute()) {
            piv = k;
        }
        k = k + 1;
    }
    // Exchange the two rows.
    if piv != col {
        let one = copy_row(&a[col]);
        let two = copy_row(&a[piv]);
        a.set(col, two);
        a.set(piv, one);
    }
    let ghost b = rows(a@);
    assert(b =~= exchanged(start, col as int, piv as int));
    let own_row = copy_row(&a[col]);
    assert(own_row@ == b[col as int]);
    let p = own_row[col];
    if p.absolute().less(Number { bits: LEAST_PIVOT }) {
        return;
    }
    let ghost own = divided(b[col as int], col as int, p);
    let mut scaled: Vec<Number> = Vec::new();
    let mut c: usize = 0;
    while c < w
        invariant
            c <= w == own_row@.len(),
            own_row@ == b[col as int],
            own == divided(b[col as int], col as int, p),
            scaled@ == own.take(c as int),
        decreases w - c,
    {
        scaled.push(if c < col { own_row[c] } else { own_row[c].over(p) });
        c = c + 1;
        assert(scaled@ =~= own.take(c as int));
    }
    assert(scaled@ =~= own);
    let mut r: usize = 0;
    while r < h
        invariant
            r <= h == a@.len(),
            col < h <= w,
            is_matrix(a@, h as int, w as int),
            b.len() == h,
            own == divided(b[col as int], col as int, p),
            own.len() == w,
            scaled@ == own,
            forall|i: int|
                0 <= i < r ==> (#[trigger] a@[i])@ == (if i == col {
                    own
                } else {
                    reduced(b[i], own, col as int)
                }),
            forall|i: int| r <= i < h ==> (#[trigger] a@[i])@ == b[i],
        decreases h - r,
    {
        assert(a@[r as int]@.len() == w);
        if r == col {
            let row = copy_row(&scaled);
            a.set(r, row);
        } else {
            let row = reduce(&a[r], &scaled, col);
            a.set(r, row);
        }
        r = r + 1;
    }
    proof {
        assert(p == b[col as int][col as int]);
        assert(rows(a@) =~= eliminated(start, col as int));
    }
}

fn copy_row(row: &Vec<Number>) -> (r: Vec<Number>)
    ensures
        r@ == row@,
{
    let mut r: Vec<Number> = Vec::new();
    let mut c: usize = 0;
    while c < row.len()
        invariant
            c <= row@.len(),
            r@ == row@.take(c as int),
        decreases row@.len() - c,
    {
        r.push(row[c]);
        c = c + 1;
        assert(r@ =~= row@.take(c as int));
    }
    assert(row@.take(c as int) =~= row@);
    r
}

fn reduce(row: &Vec<Number>, by: &Vec<Number>, col: usize) -> (r: Vec<Number>)
    requires
        col < row@.len() == by@.len(),
    ensures
        r@ == reduced(row@, by@, col as int),
{
    let f = row[col];
    if f.is_zero() {
        return copy_row(row);
    }
    let ghost want = reduced(row@, by@, col as int);
    let mut r: Vec<Number> = Vec::new();
    let mut c: usize = 0;
    while c < row.len()
        invariant
            c <= row@.len() == by@.len(),
            col < row@.len(),
            f == row@[col as int],
            !is_zero(f),
            want == reduced(row@, by@, col as int),
            r@ == want.take(c as int),
        decreases row@.len() - c,
    {
        r.push(if c < col { row[c] } else { row[c].minus(f.times(by[c])) });
        c = c + 1;
        assert(r@ =~= want.take(c as int));
    }
    assert(r@ =~= want);
    r
}

fn measure(a: &Vec<Vec<Number>>, p: usize, q: usize) -> (r: Number)
    requires
        is_matrix(a@, a@.len() as int, 2 * a@.len() as int),
        p <= a@.len(),
        q <= a@.len(),
        2 * a@.len() <= usize::MAX,
    ensures
        r == resistance(rows(a@), p as int, q as int),
{
    let m: usize = a.len();
    if p > 0 {
        assert(a@[p - 1]@.len() == 2 * m);
    }
    if q > 0 {
        assert(a@[q - 1]@.len() == 2 * m);
    }
    if p == 0 && q == 0 {
        Number { bits: 0 }
    } else if p == 0 {
        a[q - 1][m + q - 1]
    } else if q == 0 {
        a[p - 1][m + p - 1]
    } else {
        a[p - 1][m + p - 1].plus(a[q - 1][m + q - 1]).minus(
            Number { bits: TWO }.times(a[p - 1][m + q - 1]),
        )
    }
}

/// The worst of what is known and the pairs within one part.
fn worst_within(
    cond: &Vec<Vec<Number>>,
    terminal: &Vec<bool>,
    members: &Vec<u32>,
    known: Number,
    Ghost(links): Ghost<Seq<Link>>,
) -> (r: Number)
    requires
        terminal@.len() < 0xFFFF_FFFF,
        2 * terminal@.len() <= usize::MAX,
        is_matrix(cond@, terminal@.len() as int, terminal@.len() as int),
        forall|i: int, j: int|
            0 <= i < terminal@.len() && 0 <= j < terminal@.len() ==> (#[trigger] cond@[i]@[j])
                == conducts(links, i, j),
        1 <= members@.len() <= terminal@.len(),
        forall|p: int| 0 <= p < members@.len() ==> (#[trigger] members@[p]) < terminal@.len(),
        forall|p: int, q: int| 0 <= p < q < members@.len() ==> members@[p] < members@[q],
    ensures
        r == worst_in(links, terminal@, members@, known),
{
    let ghost keep = |p: int| terminal@[members@[p] as int];
    let count: usize = members.len();
    let mut terms: Vec<u32> = Vec::new();
    let mut p: usize = 0;
    while p < count
        invariant
            p <= count == members@.len() < 0xFFFF_FFFF,
            forall|p: int| 0 <= p < members@.len() ==> (#[trigger] members@[p]) < terminal@.len(),
            keep == |p: int| terminal@[members@[p] as int],
            terms@ == kept(p as nat, keep),
            forall|i: int| 0 <= i < terms@.len() ==> (#[trigger] terms@[i]) < p,
        decreases count - p,
    {
        if terminal[members[p] as usize] {
            terms.push(p as u32);
        }
        p = p + 1;
    }
    if terms.len() < 2 {
        return known;
    }
    let mut a = pose(cond, members, Ghost(links), Ghost(terminal@.len() as int));
    let m: usize = count - 1;
    let ghost start = rows(a@);
    let mut col: usize = 0;
    while col < m
        invariant
            col <= m,
            2 * m <= usize::MAX,
            is_matrix(a@, m as int, 2 * m as int),
            rows(a@) == solved(start, col as nat),
        decreases m - col,
    {
        eliminate(&mut a, col, 2 * m);
        col = col + 1;
    }
    let mut worst = known;
    let total: usize = terms.len();
    let mut x: usize = 0;
    while x < total
        invariant
            x <= total == terms@.len(),
            2 * m <= usize::MAX,
            is_matrix(a@, m as int, 2 * m as int),
            forall|i: int| 0 <= i < terms@.len() ==> (#[trigger] terms@[i]) <= m,
            worst == worst_to(rows(a@), terms@, known, x as nat),
        decreases total - x,
    {
        let ghost so_far = worst;
        let mut y: usize = x + 1;
        while y < total
            invariant
                x < y <= total == terms@.len(),
                2 * m <= usize::MAX,
                is_matrix(a@, m as int, 2 * m as int),
                forall|i: int| 0 <= i < terms@.len() ==> (#[trigger] terms@[i]) <= m,
                worst == worst_from(rows(a@), terms@, so_far, x as int, y as nat),
            decreases total - y,
        {
            let ohms = measure(&a, terms[x] as usize, terms[y] as usize);
            worst = larger_of(worst, ohms);
            y = y + 1;
        }
        x = x + 1;
    }
    worst
}

/// The worst effective resistance between two terminals of a network.
///
/// A pair split across parts has no path between it and is passed over. Within a
/// part the lowest node is grounded and the rest solved by elimination with
/// pivoting.
pub fn worst_pair_r(links: &Vec<Link>, terminal: &Vec<bool>) -> (r: Number)
    requires
        terminal@.len() < 0xFFFF_FFFF,
        2 * terminal@.len() <= usize::MAX,
        links_in(links@, terminal@.len() as int),
    ensures
        r == worst_pair(links@, terminal@),
{
    let n: usize = terminal.len();
    let cond = conductances(links, n);
    let pairs = join(&cond, n, Ghost(links@));
    let label = components(n as u32, &pairs);
    let ghost nn = n as nat;
    proof {
        assert forall|i: int, j: int| 0 <= i < n && 0 <= j < n implies ((#[trigger] label@[i]) == (
        #[trigger] label@[j]) <==> together(links@, nn, i, j)) by {
            assert(label@[i] == label@[j] <==> connected(pairs@, i, j));
        }
    }
    let mut seen: Vec<bool> = Vec::new();
    let mut s: usize = 0;
    while s < n
        invariant
            s <= n,
            seen@.len() == s,
            forall|x: int| 0 <= x < s ==> !(#[trigger] seen@[x]),
        decreases n - s,
    {
        seen.push(false);
        s = s + 1;
    }
    let mut worst = Number { bits: 0 };
    let mut k: usize = 0;
    while k < n
        invariant
            k <= n == terminal@.len() < 0xFFFF_FFFF,
            2 * terminal@.len() <= usize::MAX,
            nn == n,
            links_in(links@, n as int),
            is_matrix(cond@, n as int, n as int),
            forall|i: int, j: int|
                0 <= i < n && 0 <= j < n ==> (#[trigger] cond@[i]@[j]) == conducts(links@, i, j),
            label@.len() == n,
            forall|x: int| 0 <= x < n ==> (#[trigger] label@[x]) < n,
            forall|i: int, j: int|
                0 <= i < n && 0 <= j < n ==> ((#[trigger] label@[i]) == (#[trigger] label@[j])
                    <==> together(links@, nn, i, j)),
            seen@.len() == n,
            forall|x: int|
                0 <= x < n ==> (#[trigger] seen@[x]) == exists|j: int|
                    0 <= j < k && (#[trigger] label@[j]) == x,
            worst == worst_below(links@, terminal@, nn, k as nat),
        decreases n - k,
    {
        let own: usize = label[k] as usize;
        let ghost before = seen@;
        assert(before[own as int] == exists|j: int| 0 <= j < k && (#[trigger] label@[j]) == own);
        if !seen[own] {
            proof {
                assert forall|j: int| 0 <= j < k implies !(#[trigger] together(
                    links@,
                    nn,
                    j,
                    k as int,
                )) by {
                    assert(label@[j] != label@[k as int]);
                }
                assert(leads(links@, nn, k as int));
            }
            let ghost keep = |j: int| together(links@, nn, k as int, j);
            let mut members: Vec<u32> = Vec::new();
            let mut j: usize = 0;
            while j < n
                invariant
                    j <= n < 0xFFFF_FFFF,
                    k < n,
                    nn == n,
                    label@.len() == n,
                    own == label@[k as int],
                    forall|i: int, j: int|
                        0 <= i < n && 0 <= j < n ==> ((#[trigger] label@[i]) == (
                        #[trigger] label@[j]) <==> together(links@, nn, i, j)),
                    keep == |j: int| together(links@, nn, k as int, j),
                    members@ == kept(j as nat, keep),
                    members@.len() <= j,
                    j > k ==> members@.len() >= 1,
                    forall|i: int| 0 <= i < members@.len() ==> (#[trigger] members@[i]) < j,
                    forall|p: int, q: int| 0 <= p < q < members@.len() ==> members@[p] < members@[q],
                decreases n - j,
            {
                assert(label@[k as int] == label@[j as int] <==> together(
                    links@,
                    nn,
                    k as int,
                    j as int,
                ));
                if label[j] as usize == own {
                    members.push(j as u32);
                }
                j = j + 1;
            }
            worst = worst_within(&cond, terminal, &members, worst, Ghost(links@));
        } else {
            proof {
                let j = choose|j: int| 0 <= j < k && (#[trigger] label@[j]) == own;
                assert(label@[j] == label@[k as int]);
                assert(together(links@, nn, j, k as int));
                assert(!leads(links@, nn, k as int));
            }
        }
        seen.set(own, true);
        proof {
            assert forall|x: int| 0 <= x < n implies (#[trigger] seen@[x]) == exists|j: int|
                0 <= j < k + 1 && (#[trigger] label@[j]) == x by {
                if x == own {
                    assert(label@[k as int] == x);
                } else if before[x] {
                    let j = choose|j: int| 0 <= j < k && (#[trigger] label@[j]) == x;
                    assert(label@[j] == x);
                }
            }
        }
        k = k + 1;
    }
    worst
}

} // verus!
