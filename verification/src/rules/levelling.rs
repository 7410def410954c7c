//! What a window's density is, and which windows it condemns.
use crate::closeness::{
    approximates, clean, lemma_approximates_strays, lemma_exactly, lemma_product_rounds,
    lemma_quotient, lemma_strays_once, lemma_strays_product, lemma_sum_strays, lemma_whole,
    size_of, strays, unit,
};
use crate::geom::Bbox;
use crate::number::{magnitude, Number, HIDDEN};
use crate::report::{Measurement, Violation};
use crate::rules::density::{
    covered, excursion, lowest_touching, position_count, CmpModel, DensityRow,
};
use crate::store::GeometryStore;
use vstd::arithmetic::power2::{lemma_pow2_adds, lemma_pow2_pos, pow2};
use vstd::prelude::*;

verus! {

/// A window's density is the area covered in it over its own area, to within the
/// roundings of a division.
pub proof fn lemma_density_is_cover_over_area(row: &DensityRow, rects: Seq<Bbox>, s: int)
    requires
        0 < covered(rects, row.clipped(s)) <= pow2(90),
        0 < row.clipped(s).spec_area() <= pow2(90),
    ensures
        approximates(
            row.density(rects, s),
            covered(rects, row.clipped(s)),
            row.clipped(s).spec_area(),
            3,
        ),
{
    let (c, a) = (covered(rects, row.clipped(s)), row.clipped(s).spec_area());
    lemma_whole(c, 90);
    lemma_whole(a, 90);
    lemma_quotient(Number::of_spec(c), Number::of_spec(a), 90, 90, c, 1, a, 1, 1, 1);
    assert(c * 1 == c && 1 * a == a);
}

/// Whether a window breaks a bound its row states: too thin, too dense, or predicted too
/// far from its nominal thickness.
pub open spec fn window_breaks(row: &DensityRow, rects: Seq<Bbox>, s: int) -> bool {
    let value = row.density(rects, s);
    ||| row.min matches Some(m) && value.lt(m)
    ||| row.max matches Some(m) && m.lt(value)
    ||| row.model matches Some(m) && excursion(m, value) > m.max_abs_thickness_delta
}

/// A window that is evaluated and breaks a bound is reported, and one that does not, or
/// is skipped, is not; a window wholly in the die is always evaluated, and one that is
/// not is evaluated where the row says so.
pub proof fn lemma_window_is_judged(
    row: &DensityRow,
    store: &GeometryStore,
    rects: Seq<Bbox>,
    s: int,
)
    ensures
        ({
            let found = row.window_found(store, rects, s);
            let evaluated = row.partial || row.die.holds(row.full(s));
            &&& found.len() > 0 <==> evaluated && window_breaks(row, rects, s)
            &&& evaluated && (row.min matches Some(m) && row.density(rects, s).lt(m)) ==> found[0]
                == row.violation(
                store,
                s,
                Measurement::Ratio(row.density(rects, s)),
                Measurement::Ratio(row.min->0),
            )
            &&& forall|k: int|
                0 <= k < found.len() ==> (#[trigger] found[k]).at == crate::geom::centre_of(
                    row.clipped(s),
                )
        }),
{
}

/// Every window is judged: what it reports is in what the row reports.
pub proof fn lemma_every_window_is_judged(
    row: &DensityRow,
    store: &GeometryStore,
    rects: Seq<Bbox>,
    n: nat,
    s: int,
    k: int,
) -> (at: int)
    requires
        0 <= s < n,
        0 <= k < row.window_found(store, rects, s).len(),
    ensures
        0 <= at < row.windows_found(store, rects, n).len(),
        row.windows_found(store, rects, n)[at] == row.window_found(store, rects, s)[k],
    decreases n,
{
    let m = (n - 1) as nat;
    if s == m {
        row.windows_found(store, rects, m).len() + k
    } else {
        lemma_every_window_is_judged(row, store, rects, m, s, k)
    }
}

/// Windows that break no bound leave a row clean of them.
pub proof fn lemma_level_windows_are_clean(
    row: &DensityRow,
    store: &GeometryStore,
    rects: Seq<Bbox>,
    n: nat,
)
    requires
        forall|s: int| 0 <= s < n ==> !#[trigger] window_breaks(row, rects, s),
    ensures
        row.windows_found(store, rects, n).len() == 0,
    decreases n,
{
    if n > 0 {
        lemma_level_windows_are_clean(row, store, rects, (n - 1) as nat);
        assert(!window_breaks(row, rects, n - 1));
    }
}

proof fn lemma_gaps(
    row: &DensityRow,
    store: &GeometryStore,
    rects: Seq<Bbox>,
    limit: Number,
    n: nat,
    s: int,
    v: Violation,
)
    requires
        0 <= s < n,
        row.gap_found(store, rects, limit, s, row.right_of(s)).contains(v) || row.gap_found(
            store,
            rects,
            limit,
            s,
            row.above(s),
        ).contains(v),
    ensures
        row.gaps_found(store, rects, limit, n).contains(v),
    decreases n,
{
    let m = (n - 1) as nat;
    let before = row.gaps_found(store, rects, limit, m);
    let right = row.gap_found(store, rects, limit, m as int, row.right_of(m as int));
    let up = row.gap_found(store, rects, limit, m as int, row.above(m as int));
    let all = row.gaps_found(store, rects, limit, n);
    assert(all =~= before + right + up);
    if s == m {
        if right.contains(v) {
            let k = right.index_of(v);
            assert(all[before.len() + k] == v);
        } else {
            let k = up.index_of(v);
            assert(all[before.len() + right.len() + k] == v);
        }
    } else {
        lemma_gaps(row, store, rects, limit, m, s, v);
        let k = before.index_of(v);
        assert(all[k] == v);
    }
}

/// Two windows side by side, or one above the other, that differ in density by more than
/// the limit, whichever is the denser, are reported with the difference where both are
/// evaluated.
pub proof fn lemma_steep_neighbours_are_reported(
    row: &DensityRow,
    store: &GeometryStore,
    rects: Seq<Bbox>,
    limit: Number,
    i: int,
    j: int,
    beside: bool,
)
    requires
        0 <= i < row.nx(),
        0 <= j < row.ny(),
        beside ==> i + 1 < row.nx(),
        !beside ==> j + 1 < row.ny(),
        row.delta == Some(limit),
        ({
            let s = j * row.nx() + i;
            let t = if beside { s + 1 } else { s + row.nx() };
            &&& row.counted(s)
            &&& row.counted(t)
            &&& limit.lt(row.density(rects, s).minus_spec(row.density(rects, t)).magnitude_spec())
        }),
    ensures
        ({
            let s = j * row.nx() + i;
            let t = if beside { s + 1 } else { s + row.nx() };
            row.found(store, rects).contains(
                row.violation(
                    store,
                    s,
                    Measurement::Ratio(
                        row.density(rects, s).minus_spec(row.density(rects, t)).magnitude_spec(),
                    ),
                    Measurement::Ratio(limit),
                ),
            )
        }),
{
    let nx = row.nx();
    let s = j * nx + i;
    let t = if beside { s + 1 } else { s + nx };
    vstd::arithmetic::div_mod::lemma_fundamental_div_mod_converse(s, nx, j, i);
    assert(row.right_of(s) == t || row.above(s) == t);
    let n = row.count() as nat;
    assert(s < row.count()) by (nonlinear_arith)
        requires
            s == j * nx + i,
            0 <= i < nx,
            0 <= j < row.ny(),
            row.count() == nx * row.ny(),
    ;
    assert(s >= 0) by (nonlinear_arith)
        requires
            s == j * nx + i,
            0 <= i < nx,
            0 <= j,
    ;
    let found = row.gap_found(store, rects, limit, s, t);
    let v = row.violation(
        store,
        s,
        Measurement::Ratio(
            row.density(rects, s).minus_spec(row.density(rects, t)).magnitude_spec(),
        ),
        Measurement::Ratio(limit),
    );
    assert(found[0] == v);
    lemma_gaps(row, store, rects, limit, n, s, v);
    let gaps = row.gaps_found(store, rects, limit, n);
    let windows = row.windows_found(store, rects, n);
    let k = gaps.index_of(v);
    assert(row.found(store, rects)[windows.len() + k] == v);
}

/// The predicted excursion is the sensitivity times how far the density is from its
/// target, whichever way, in whole units and to within three roundings: nothing at the
/// target.
pub proof fn lemma_excursion_follows_the_density(model: CmpModel, density: Number) -> (raw: int)
    requires
        0 < model.thickness_sensitivity <= 0x4000_0000_0000_0000,
        density.minus_spec(model.target_density).finite(),
        ({
            let gap = density.minus_spec(model.target_density);
            let raw = Number::of_spec(model.thickness_sensitivity as int).times_spec(gap);
            &&& clean(Number::of_spec(model.thickness_sensitivity as int), gap)
            &&& raw.finite()
            &&& raw.magnitude_spec().lt(Number { bits: 0x4270_0000_0000_0000 })
        }),
    ensures
        ({
            let away = density.value() - model.target_density.value();
            let (u, e) = (unit(), excursion(model, density));
            let exact = (model.thickness_sensitivity * u) * size_of(away);
            strays(raw * u, exact, exact, 3) && e * u <= raw < (e + 1) * u
        }),
        density.value() == model.target_density.value() ==> excursion(model, density) == 0,
{
    let k = model.thickness_sensitivity as int;
    let scale = Number::of_spec(k);
    let target = model.target_density;
    let gap = density.minus_spec(target);
    let raw = scale.times_spec(gap);
    let u = unit();
    lemma_pow2_pos(1074);
    assert(target.negated_spec().value() == -target.value());
    lemma_sum_strays(density, target.negated_spec());
    let away = density.value() - target.value();
    lemma_exactly(away, size_of(away));
    lemma_strays_once(gap.value(), away, away, size_of(away), 0);
    vstd::arithmetic::power2::lemma2_to64();
    vstd::arithmetic::power2::lemma2_to64_rest();
    lemma_whole(k, 62);
    lemma_approximates_strays(scale, k, 1, 1);
    assert(scale.value() * 1 == scale.value());
    lemma_strays_product(scale.value(), k * u, k * u, 1, gap.value(), away, size_of(away), 1);
    lemma_product_rounds(scale, gap);
    lemma_strays_once(
        raw.value() * u,
        scale.value() * gap.value(),
        (k * u) * away,
        (k * u) * size_of(away),
        2,
    );
    let exact = (k * u) * size_of(away);
    let (z, m) = (raw.value(), magnitude(raw.pattern()) as int);
    let f = (k * u) * away;
    assert(exact == size_of(f)) by (nonlinear_arith)
        requires
            exact == (k * u) * size_of(away),
            f == (k * u) * away,
            size_of(away) == (if away < 0 { -away } else { away }),
            size_of(f) == (if f < 0 { -f } else { f }),
            k > 0,
            u > 0,
    {
        assert(k * u > 0);
    }
    crate::closeness::lemma_strays_sign(z * u, f, 3);
    if z < 0 {
        crate::closeness::lemma_strays_negated(z * u, f, exact, 3);
        assert(-(z * u) == m * u) by (nonlinear_arith)
            requires
                z == -m,
        ;
    }
    assert(z * u < 0 ==> z < 0) by (nonlinear_arith)
        requires
            u > 0,
    ;
    assert(z < 0 ==> z * u < 0) by (nonlinear_arith)
        requires
            u > 0,
    ;
    assert(z * u == 0 ==> z == 0) by (nonlinear_arith)
        requires
            u > 0,
    ;
    assert(strays(m * u, exact, exact, 3));
    let e = excursion(model, density);
    let q = m / u;
    vstd::arithmetic::div_mod::lemma_fundamental_div_mod(m, u);
    vstd::arithmetic::div_mod::lemma_mod_bound(m, u);
    lemma_below_top(raw.magnitude_spec());
    assert(e == q);
    assert(u * q == q * u && (q + 1) * u == q * u + u) by (nonlinear_arith);
    assert(strays(m * u, exact, exact, 3) && e * u <= m < (e + 1) * u);
    if away == 0 {
        assert((k * u) * away == 0) by (nonlinear_arith)
            requires
                away == 0,
        ;
        assert(m == 0);
    }
    m
}

proof fn lemma_below_top(x: Number)
    requires
        x.grounded(),
        x.lt(Number { bits: 0x4270_0000_0000_0000 }),
    ensures
        0 <= magnitude(x.pattern()) as int / unit() <= i64::MAX,
{
    vstd::arithmetic::power2::lemma2_to64();
    vstd::arithmetic::power2::lemma2_to64_rest();
    let top: int = 0x4270_0000_0000_0000;
    assert(top / (HIDDEN as int) == 1063);
    assert(top % (HIDDEN as int) == 0);
    lemma_pow2_adds(52, 1062);
    lemma_pow2_adds(40, 1074);
    lemma_pow2_pos(1074);
    let (m, u) = (magnitude(x.pattern()) as int, unit());
    vstd::arithmetic::div_mod::lemma_fundamental_div_mod(m, u);
    vstd::arithmetic::div_mod::lemma_mod_bound(m, u);
    vstd::arithmetic::div_mod::lemma_div_pos_is_pos(m, u);
    let q = m / u;
    assert(q <= i64::MAX) by (nonlinear_arith)
        requires
            u * q <= m,
            m < pow2(40) * u,
            pow2(40) == 0x100_0000_0000,
            u > 0,
    ;
}

/// A span has as many windows as steps start within it: one more would start at or past
/// its far edge.
pub proof fn lemma_windows_start_within_the_span(span: int, step: int)
    requires
        step > 0,
    ensures
        span <= 0 ==> position_count(span, step) == 0,
        span > 0 ==> (position_count(span, step) - 1) * step < span <= position_count(span, step)
            * step,
{
    if span > 0 {
        let (n, q) = (span - 1, (span - 1) / step);
        vstd::arithmetic::div_mod::lemma_fundamental_div_mod(n, step);
        vstd::arithmetic::div_mod::lemma_mod_bound(n, step);
        assert(step * q == q * step && (q + 1) * step == q * step + step) by (nonlinear_arith);
    }
}

/// A window is laid to the lowest polygon whose box meets it.
pub proof fn lemma_lowest_polygon_owns(boxes: Seq<Bbox>, first: u32, win: Bbox, n: nat)
    requires
        n <= boxes.len(),
        first + n < u32::MAX,
    ensures
        ({
            let low = lowest_touching(boxes, first, win, n);
            &&& low == u32::MAX <==> forall|k: int|
                0 <= k < n ==> !(#[trigger] boxes[k]).meets(win)
            &&& low != u32::MAX ==> first <= low < first + n && boxes[low - first].meets(win)
                && forall|k: int| 0 <= k < low - first ==> !(#[trigger] boxes[k]).meets(win)
        }),
    decreases n,
{
    if n > 0 {
        lemma_lowest_polygon_owns(boxes, first, win, (n - 1) as nat);
    }
}

} // verus!
