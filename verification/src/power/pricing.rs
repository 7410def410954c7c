//! What the metal of a network costs, and what its rails are asked to carry.
use crate::closeness::{
    approximates, lemma_exactly, lemma_itself, lemma_plus_strays, lemma_product, lemma_quotient,
    lemma_reduced, lemma_strays_more, lemma_sum_strays, lemma_whole, moderate, size_of, strays, unit,
};
use crate::geom::Bbox;
use crate::model::{NetId, PolyId, SupplyRole};
use crate::number::{magnitude, nearest, Number, HIDDEN, ONE};
use crate::intent::IntentMap;
use crate::power::network::{budget_lost, load_to, EdgeKind, Grid, PowerGrid};
use crate::power::process::{
    conductor_width_spec, length_of, run_length_spec, Link, Process, UM_PER_NM,
};
use crate::power::profile::{narrowest_to, overlap};
use crate::power::rails::{load_on, Rails};
use crate::power::solve::{verdict_spec, SolveConfig};
use crate::power::taps::{runs_along_x, tap_point_spec, tap_spec, Tap};
use crate::power::widening::{is_rectangle, lemma_rectangle_is_one_slab};
use crate::power::wiring::{chain_segment, metal_segment, via_segment};
use crate::store::GeometryStore;
use vstd::arithmetic::power2::{lemma_pow2_adds, lemma_pow2_pos, pow2};
use vstd::prelude::*;

verus! {

/// A sheet resistance times a length over a width.
proof fn lemma_sheet(sheet: Number, length: int, width: int)
    requires
        sheet.grounded(),
        moderate(sheet, 400),
        0 < length <= 0x1000_0000_0000,
        0 < width <= 0x1000_0000_0000,
    ensures
        approximates(
            sheet.times_spec(Number::of_spec(length).over_spec(Number::of_spec(width))),
            sheet.value() * length,
            unit() * width,
            4,
        ),
{
    vstd::arithmetic::power2::lemma2_to64();
    vstd::arithmetic::power2::lemma2_to64_rest();
    let (x, y) = (Number::of_spec(length), Number::of_spec(width));
    lemma_whole(length, 44);
    lemma_whole(width, 44);
    lemma_quotient(x, y, 44, 44, length, 1, width, 1, 1, 1);
    assert(length * 1 == length && 1 * width == width);
    lemma_itself(sheet);
    lemma_product(sheet, x.over_spec(y), 400, 88, sheet.value(), unit(), length, width, 0, 3);
}

/// A stretch of a rectangular shape costs its sheet resistance times its length over
/// the rectangle's width, and is as long as its two ends are apart.
pub proof fn lemma_bar_costs_its_squares(
    store: &GeometryStore,
    process: Process,
    shapes: Seq<PolyId>,
    node: Seq<Tap>,
    k: int,
    lo: int,
    hi: int,
    low: int,
    high: int,
)
    requires
        ({
            let poly = shapes[node[k].shape as int].0 as int;
            let (a, b) = (node[k].along as int, node[k + 1].along as int);
            let sheet = process.sheet(store.layer@[poly]);
            &&& is_rectangle(
                store.ring(poly),
                runs_along_x(store.bbox@[poly]),
                lo,
                hi,
                low,
                high,
            )
            &&& lo <= a < b <= hi
            &&& sheet.grounded()
            &&& moderate(sheet, 400)
        }),
        0 < high - low <= 0x1000_0000_0000,
        hi - lo <= 0x1000_0000_0000,
    ensures
        ({
            let poly = shapes[node[k].shape as int].0 as int;
            let (a, b) = (node[k].along as int, node[k + 1].along as int);
            let segment = chain_segment(store, process, shapes, node, k);
            &&& approximates(
                segment.resistance,
                process.sheet(store.layer@[poly]).value() * (b - a),
                unit() * (high - low),
                4,
            )
            &&& segment.length == b - a
            &&& segment.layer == store.layer@[poly]
            &&& segment.from == k as u32
            &&& segment.to == (k + 1) as u32
        }),
{
    let poly = shapes[node[k].shape as int].0 as int;
    let (a, b) = (node[k].along as int, node[k + 1].along as int);
    lemma_rectangle_is_one_slab(
        store.ring(poly),
        runs_along_x(store.bbox@[poly]),
        lo,
        hi,
        low,
        high,
        a,
        b,
    );
    lemma_sheet(process.sheet(store.layer@[poly]), b - a, high - low);
}

/// A connection within a layer runs across and then up between its two taps, is as wide
/// as the narrowest side of the two shapes it joins, and costs its sheet resistance
/// times that length over that width.
pub proof fn lemma_joint_costs_its_squares(
    store: &GeometryStore,
    process: Process,
    link: Link,
    from: u32,
    to: u32,
)
    requires
        process.sheet(link.layer).grounded(),
        moderate(process.sheet(link.layer), 400),
        store.bbox@[link.a.0 as int].wf(),
        store.bbox@[link.b.0 as int].wf(),
        ({
            let (a, b) = (store.bbox@[link.a.0 as int], store.bbox@[link.b.0 as int]);
            tap_point_spec(a, tap_spec(a, b)).wf() && tap_point_spec(b, tap_spec(b, a)).wf()
        }),
    ensures
        ({
            let (a, b) = (store.bbox@[link.a.0 as int], store.bbox@[link.b.0 as int]);
            let (p, q) = (
                tap_point_spec(a, tap_spec(a, b)),
                tap_point_spec(b, tap_spec(b, a)),
            );
            let segment = metal_segment(store, process, link, from, to);
            let (w, run) = (segment.width, size_of(p.x - q.x) + size_of(p.y - q.y));
            &&& segment.length == (if run < 1 { 1 } else { run })
            &&& w >= 1
            &&& w > 1 ==> w <= a.xhi - a.xlo && w <= a.yhi - a.ylo && w <= b.xhi - b.xlo && w
                <= b.yhi - b.ylo
            &&& w == 1 || w == a.xhi - a.xlo || w == a.yhi - a.ylo || w == b.xhi - b.xlo || w
                == b.yhi - b.ylo
            &&& w == 1 ==> a.xhi - a.xlo <= 1 || a.yhi - a.ylo <= 1 || b.xhi - b.xlo <= 1 || b.yhi
                - b.ylo <= 1
            &&& approximates(
                segment.resistance,
                process.sheet(link.layer).value() * segment.length,
                unit() * w,
                4,
            )
        }),
{
    let (a, b) = (store.bbox@[link.a.0 as int], store.bbox@[link.b.0 as int]);
    let length = run_length_spec(
        tap_point_spec(a, tap_spec(a, b)),
        tap_point_spec(b, tap_spec(b, a)),
    );
    lemma_sheet(process.sheet(link.layer), length, conductor_width_spec(a, b));
}

/// A nanometre is a thousandth of a micrometre.
pub proof fn lemma_nanometre()
    ensures
        (Number { bits: UM_PER_NM }).grounded(),
        size_of(1000 * (Number { bits: UM_PER_NM }).value() - unit()) * 0x10_0000_0000_0000
            <= unit(),
        moderate(Number { bits: UM_PER_NM }, 20),
{
    vstd::arithmetic::power2::lemma2_to64();
    vstd::arithmetic::power2::lemma2_to64_rest();
    let k = UM_PER_NM as int;
    assert(k / (HIDDEN as int) == 1013);
    assert(k % (HIDDEN as int) == 0x624D_D2F1_A9FC);
    let t = pow2(1012);
    lemma_pow2_adds(62, 1012);
    lemma_pow2_adds(1012, 42);
    lemma_pow2_adds(53, 1012);
    lemma_pow2_pos(1012);
    vstd::arithmetic::power2::lemma_pow2_strictly_increases(1065, 1094);
    let v = (HIDDEN + 0x624D_D2F1_A9FC) * t;
    assert(pow2(42) * t <= v <= pow2(53) * t) by (nonlinear_arith)
        requires
            v == (HIDDEN + 0x624D_D2F1_A9FC) * t,
            pow2(53) == 0x20_0000_0000_0000,
            pow2(42) == 0x400_0000_0000,
            HIDDEN == 0x10_0000_0000_0000,
            t > 0,
    ;
    assert(unit() == 0x4000_0000_0000_0000 * t);
}

/// A via costs one square of its cut layer, one cut wide, and is as long as its two
/// conductors are apart in height, whichever is the higher: in whole units, to the
/// nearest.
pub proof fn lemma_via_costs_one_square(
    store: &GeometryStore,
    process: Process,
    link: Link,
    from: u32,
    to: u32,
) -> (x: Number)
    requires
        ({
            let (h, l) = (
                process.height(store.layer@[link.b.0 as int]),
                process.height(store.layer@[link.a.0 as int]),
            );
            &&& h.finite()
            &&& l.finite()
            &&& moderate(h.minus_spec(l), 100)
        }),
        process.grid.dbu_per_um > 0,
    ensures
        ({
            let (h, l) = (
                process.height(store.layer@[link.b.0 as int]),
                process.height(store.layer@[link.a.0 as int]),
            );
            let segment = via_segment(store, process, link, from, to);
            let apart = h.minus_spec(l).magnitude_spec().value();
            &&& segment.resistance == process.sheet(link.layer)
            &&& segment.kind == EdgeKind::Via { cuts: 1 }
            &&& size_of(apart - size_of(h.value() - l.value())) * 0x10_0000_0000_0000 <= size_of(
                h.value() - l.value(),
            )
            &&& approximates(
                x,
                (apart * (Number { bits: UM_PER_NM }).value()) * process.grid.dbu_per_um,
                (unit() * unit()) * 1,
                3,
            )
            &&& segment.length >= 1
            &&& 1 < segment.length < 0x100_0000_0000 ==> (2 * segment.length - 1) * unit() <= 2
                * x.value() < (2 * segment.length + 1) * unit()
            &&& segment.length == 1 ==> 2 * x.value() < 3 * unit()
        }),
{
    let (h, l) = (
        process.height(store.layer@[link.b.0 as int]),
        process.height(store.layer@[link.a.0 as int]),
    );
    let (u, c) = (unit(), Number { bits: UM_PER_NM });
    let d = process.grid.dbu_per_um as int;
    lemma_pow2_pos(1074);
    assert(l.negated_spec().value() == -l.value());
    lemma_sum_strays(h, l.negated_spec());
    let rise = h.minus_spec(l).magnitude_spec();
    lemma_nanometre();
    lemma_itself(rise);
    lemma_itself(c);
    lemma_product(rise, c, 100, 20, rise.value(), u, c.value(), u, 0, 0);
    vstd::arithmetic::power2::lemma2_to64();
    vstd::arithmetic::power2::lemma2_to64_rest();
    lemma_whole(d, 64);
    let near = rise.times_spec(c);
    lemma_product(near, Number::of_spec(d), 120, 64, rise.value() * c.value(), u * u, d, 1, 1, 1);
    let x = near.times_spec(Number::of_spec(d));
    lemma_nearest_length(x);
    x
}

proof fn lemma_nearest_length(x: Number)
    requires
        x.grounded(),
    ensures
        1 <= length_of(x) <= 0x100_0000_0000,
        1 < length_of(x) < 0x100_0000_0000 ==> (2 * length_of(x) - 1) * unit() <= 2 * x.value() < (2
            * length_of(x) + 1) * unit(),
        length_of(x) == 1 ==> 2 * x.value() < 3 * unit(),
{
    let (u, m) = (unit(), magnitude(x.pattern()) as int);
    lemma_pow2_pos(1074);
    let (n, d) = (2 * m + u, 2 * u);
    vstd::arithmetic::div_mod::lemma_fundamental_div_mod(n, d);
    vstd::arithmetic::div_mod::lemma_mod_bound(n, d);
    let q = n / d;
    assert(d * q == 2 * (u * q)) by (nonlinear_arith)
        requires
            d == 2 * u,
    ;
    assert((2 * q - 1) * u == 2 * (u * q) - u && (2 * q + 1) * u == 2 * (u * q) + u)
        by (nonlinear_arith);
    if q < 1 {
        assert(u * q <= 0) by (nonlinear_arith)
            requires
                q < 1,
                u > 0,
        ;
    }
}

/// The narrowest place a stretch touches is one of the slabs it touches, and no slab it
/// touches is narrower.
pub proof fn lemma_narrowest_is_the_narrowest(
    cut: Seq<i64>,
    width: Seq<i64>,
    from: int,
    to: int,
    n: nat,
) -> (at: int)
    requires
        n <= width.len(),
    ensures
        forall|k: int|
            0 <= k < n && overlap(cut, k, from, to) > 0 ==> narrowest_to(cut, width, from, to, n)
                <= #[trigger] width[k],
        narrowest_to(cut, width, from, to, n) < i64::MAX ==> 0 <= at < n && overlap(
            cut,
            at,
            from,
            to,
        ) > 0 && width[at] == narrowest_to(cut, width, from, to, n),
    decreases n,
{
    if n == 0 {
        0
    } else {
        let m = (n - 1) as nat;
        let before = lemma_narrowest_is_the_narrowest(cut, width, from, to, m);
        if overlap(cut, m as int, from, to) > 0 && width[m as int] < narrowest_to(
            cut,
            width,
            from,
            to,
            m,
        ) {
            m as int
        } else {
            before
        }
    }
}

/// What a stretch has in the first `n` slabs.
pub open spec fn overlaps(cut: Seq<i64>, from: int, to: int, n: nat) -> int
    decreases n,
{
    if n == 0 {
        0
    } else {
        overlaps(cut, from, to, (n - 1) as nat) + overlap(cut, n - 1, from, to)
    }
}

proof fn lemma_overlaps_to(cut: Seq<i64>, from: int, to: int, n: nat)
    requires
        n < cut.len(),
        forall|i: int, j: int| 0 <= i <= j < cut.len() ==> cut[i] <= cut[j],
        cut[0] <= from <= to,
    ensures
        overlaps(cut, from, to, n) == (if cut[n as int] <= from {
            0
        } else if cut[n as int] <= to {
            cut[n as int] - from
        } else {
            to - from
        }),
    decreases n,
{
    if n > 0 {
        lemma_overlaps_to(cut, from, to, (n - 1) as nat);
        assert(cut[n - 1] <= cut[n as int]);
    }
}

/// The slabs share out all of a stretch that lies between the first cut and the last,
/// and none of it twice.
pub proof fn lemma_slabs_share_out_a_stretch(cut: Seq<i64>, from: int, to: int)
    requires
        cut.len() > 0,
        forall|i: int, j: int| 0 <= i <= j < cut.len() ==> cut[i] <= cut[j],
        cut[0] <= from <= to <= cut.last(),
    ensures
        overlaps(cut, from, to, (cut.len() - 1) as nat) == to - from,
{
    lemma_overlaps_to(cut, from, to, (cut.len() - 1) as nat);
}

/// A connection lands on its host, and within the place the two shapes share where they
/// share one.
pub proof fn lemma_tap_is_in_the_overlap(host: Bbox, other: Bbox)
    requires
        host.wf(),
        other.wf(),
    ensures
        ({
            let t = tap_spec(host, other);
            let wide = host.xhi - host.xlo >= host.yhi - host.ylo;
            let shared = host.xlo < other.xhi && other.xlo < host.xhi && host.ylo < other.yhi
                && other.ylo < host.yhi;
            &&& wide ==> host.xlo <= t <= host.xhi && (shared ==> other.xlo <= t <= other.xhi)
            &&& !wide ==> host.ylo <= t <= host.yhi && (shared ==> other.ylo <= t <= other.yhi)
        }),
{
}

/// Minus one times a number is the number with its sign turned.
proof fn lemma_minus_one(b: Number)
    requires
        b.grounded(),
        b.pattern() > 0,
    ensures
        (Number { bits: 0xBFF0_0000_0000_0000 }).times_spec(b).pattern() == b.pattern(),
        (Number { bits: 0xBFF0_0000_0000_0000 }).times_spec(b).negative(),
{
    let one = Number { bits: ONE };
    let minus = Number { bits: 0xBFF0_0000_0000_0000 };
    crate::rounding::lemma_times_one(b);
    crate::rounding::lemma_product_commutes(one, b);
    assert(minus.pattern() == ONE && minus.negative());
    assert(one.pattern() == ONE && !one.negative());
    let p = nearest(magnitude(ONE as int) * magnitude(b.pattern()), pow2(1074));
    lemma_pow2_pos(1074);
    crate::addition::lemma_nearest(magnitude(ONE as int) * magnitude(b.pattern()), pow2(1074));
    assert(one.times_spec(b) == b);
}

/// A rail's budget is shared equally over its attach points: each carries its share to
/// within the roundings of a division, drawn from a power rail and put into a ground
/// rail.
pub proof fn lemma_budget_is_shared_equally(rails: Rails, k: int, base: int, i: int)
    requires
        rails.shapes_of(k).len() > 0,
        0 <= i < rails.points_of(k, base).len() <= 0xFFFF_FFFF,
        rails.budget(k).grounded(),
        moderate(rails.budget(k), 400),
    ensures
        ({
            let loads = rails.loads_of(k, base);
            let points = rails.points_of(k, base);
            &&& loads.len() == points.len()
            &&& loads[i].0 == points[i]
            &&& loads[i].1.finite()
            &&& loads[i].1.negative() == (rails.intent.supply_role@[k] is Ground)
            &&& approximates(
                loads[i].1.magnitude_spec(),
                rails.budget(k).value(),
                unit() * points.len(),
                2,
            )
        }),
{
    let points = rails.points_of(k, base);
    let (b, n) = (rails.budget(k), points.len() as int);
    let count = Number::of_spec(n);
    vstd::arithmetic::power2::lemma2_to64();
    vstd::arithmetic::power2::lemma2_to64_rest();
    lemma_pow2_pos(1074);
    lemma_pow2_pos(674);
    lemma_whole(n, 32);
    lemma_pow2_pos(1042);
    lemma_itself(b);
    lemma_quotient(b, count, 400, 32, b.value(), unit(), n, 1, 0, 1);
    assert(b.value() * 1 == b.value());
    crate::rounding::lemma_times_one(b);
    crate::rounding::lemma_product_commutes(Number { bits: ONE }, b);
    let signed = rails.sign(k).times_spec(b);
    lemma_minus_one(b);
    assert(signed.pattern() == b.pattern());
    match rails.intent.supply_role@[k] {
        SupplyRole::Power => {
            assert(!signed.negative());
        },
        SupplyRole::Ground => {
            assert(signed.negative());
        },
    }
    crate::addition::lemma_nearest(
        magnitude(b.pattern()) * pow2(1074),
        magnitude(count.pattern()),
    );
    let share = signed.over_spec(count);
    let plain = b.over_spec(count);
    assert(share.pattern() == plain.pattern());
    assert(share.magnitude_spec() == plain);
}

/// What the first `n` loads put on a node, exactly, and the sizes of it.
pub open spec fn asked_of(
    loads: Seq<(u32, Number)>,
    req_node: Seq<u32>,
    node: int,
    n: nat,
) -> (int, int)
    decreases n,
{
    if n == 0 {
        (0, 0)
    } else {
        let (sum, sizes) = asked_of(loads, req_node, node, (n - 1) as nat);
        let v = loads[n - 1].1.value();
        if req_node[loads[n - 1].0 as int] == node {
            (sum + v, sizes + size_of(v))
        } else {
            (sum, sizes)
        }
    }
}

/// A node carries the sum of the loads that resolve to it, signed, to within the
/// roundings of the sum.
pub proof fn lemma_node_carries_its_loads(
    loads: Seq<(u32, Number)>,
    req_node: Seq<u32>,
    node: int,
    n: nat,
)
    requires
        load_on(loads, req_node, node, n).finite(),
    ensures
        ({
            let (sum, sizes) = asked_of(loads, req_node, node, n);
            strays(load_on(loads, req_node, node, n).value(), sum, sizes, n)
        }),
    decreases n,
{
    if n == 0 {
        assert(magnitude(0) == 0);
        lemma_exactly(0, 0);
    } else {
        let m = (n - 1) as nat;
        let before = load_on(loads, req_node, node, m);
        let (sum, sizes) = asked_of(loads, req_node, node, m);
        let load = loads[n - 1].1;
        if req_node[loads[n - 1].0 as int] == node {
            lemma_sum_strays(before, load);
            lemma_node_carries_its_loads(loads, req_node, node, m);
            let v = load.value();
            lemma_exactly(v, size_of(v));
            lemma_strays_more(v, v, size_of(v), 0, m);
            assert(before.value() * 1 == before.value() && v * 1 == v);
            lemma_plus_strays(before, load, 1, sum, sizes, v, size_of(v), m);
        } else {
            lemma_node_carries_its_loads(loads, req_node, node, m);
            lemma_strays_more(before.value(), sum, sizes, m, n);
        }
    }
}

/// What a net's nodes carry adds up to nothing exactly where each carries nothing, where
/// none of them carries less.
proof fn lemma_net_load(grid: &PowerGrid, net: NetId, n: nat)
    requires
        n <= grid.nodes(),
        grid.nodes() == grid.node_load@.len(),
        forall|i: int| 0 <= i < n ==> (#[trigger] grid.node_load@[i]).finite(),
        forall|i: int|
            0 <= i < n && grid.node_net@[i] == net ==> (#[trigger] grid.node_load@[i]).grounded(),
    ensures
        load_to(grid, net, n).upward(),
        load_to(grid, net, n).pattern() == 0 <==> forall|i: int|
            0 <= i < n && grid.node_net@[i] == net ==> (#[trigger] grid.node_load@[i]).pattern()
                == 0,
    decreases n,
{
    assert(magnitude(0) == 0);
    if n > 0 {
        let m = (n - 1) as nat;
        lemma_net_load(grid, net, m);
        let load = grid.node_load@[m as int];
        assert(load.finite());
        let before = load_to(grid, net, m);
        let one = Number { bits: ONE };
        if grid.node_net@[m as int] == net {
            crate::rounding::lemma_times_one(load);
            crate::rounding::lemma_product_commutes(one, load);
            assert(one.times_spec(load) == load);
            if before.finite() {
                crate::addition::lemma_sum(before, load);
                crate::addition::lemma_sum_grows(before, load);
                crate::addition::lemma_sum_grows(load, before);
                lemma_sum_commutes(before, load);
                lemma_nothing(before, load);
            } else {
                lemma_endless(before, load);
            }
        } else {
            let none = (Number { bits: 0 }).times_spec(load);
            assert(none.pattern() == 0);
            lemma_plus_none(before, none);
        }
    }
}

proof fn lemma_sum_commutes(a: Number, b: Number)
    requires
        a.grounded(),
        b.grounded(),
    ensures
        a.plus_spec(b).value() == b.plus_spec(a).value(),
{
    crate::addition::lemma_sum(a, b);
    crate::addition::lemma_sum(b, a);
}

proof fn lemma_nothing(a: Number, b: Number)
    requires
        a.grounded(),
        b.grounded(),
    ensures
        a.plus_spec(b).pattern() == 0 <==> a.pattern() == 0 && b.pattern() == 0,
{
    assert(magnitude(0) == 0);
    crate::addition::lemma_sum(a, b);
    crate::addition::lemma_nearest_exact(0);
    if a.pattern() > 0 {
        crate::number::lemma_magnitude_increases(0, a.pattern());
        crate::addition::lemma_sum_grows(a, b);
    }
    if b.pattern() > 0 {
        crate::number::lemma_magnitude_increases(0, b.pattern());
        crate::addition::lemma_sum_grows(b, a);
        lemma_sum_commutes(a, b);
    }
    let s = a.plus_spec(b);
    if s.pattern() > 0 {
        crate::number::lemma_magnitude_increases(0, s.pattern());
    }
}

proof fn lemma_endless(a: Number, b: Number)
    requires
        a.upward(),
        !a.finite(),
        b.grounded(),
    ensures
        a.plus_spec(b).upward(),
        a.plus_spec(b).pattern() > 0,
{
}

proof fn lemma_plus_none(a: Number, none: Number)
    requires
        a.upward(),
        none.pattern() == 0,
    ensures
        a.plus_spec(none).upward(),
        a.plus_spec(none).pattern() == 0 <==> a.pattern() == 0,
{
    assert(magnitude(0) == 0);
    if a.finite() {
        crate::addition::lemma_nearest_exact(a.pattern());
        if a.pattern() > 0 {
            crate::number::lemma_magnitude_increases(0, a.pattern());
        }
    }
}

/// A stated budget is lost exactly where it is not zero and no node of its net carries a
/// load, whatever the other nets carry.
pub proof fn lemma_lost_budget_reaches_no_node(
    grid: &PowerGrid,
    intent: &IntentMap,
    k: int,
)
    requires
        grid.nodes() == grid.node_load@.len(),
        forall|i: int| 0 <= i < grid.nodes() ==> (#[trigger] grid.node_load@[i]).finite(),
        forall|i: int|
            0 <= i < grid.nodes() && grid.node_net@[i] == intent.limit_net@[k] ==> (
            #[trigger] grid.node_load@[i]).grounded(),
    ensures
        budget_lost(grid, intent, k) <==> (intent.limit@[k].budget_current_ua matches Some(b)
            && b.pattern() != 0) && forall|i: int|
            0 <= i < grid.nodes() && grid.node_net@[i] == intent.limit_net@[k] ==> (
            #[trigger] grid.node_load@[i]).pattern() == 0,
{
    lemma_net_load(grid, intent.limit_net@[k], grid.nodes() as nat);
}

/// A length in metres is the length in units over a million times the units in a
/// micrometre, to within the roundings.
pub proof fn lemma_metres(grid: Grid, length: i64)
    requires
        length > 0,
        grid.dbu_per_um > 0,
    ensures
        approximates(grid.metres(length), length as int, grid.dbu_per_um * 1_000_000, 3),
{
    vstd::arithmetic::power2::lemma2_to64();
    vstd::arithmetic::power2::lemma2_to64_rest();
    let (n, d) = (length as int, grid.dbu_per_um * 1_000_000);
    lemma_whole(n, 63);
    lemma_whole(d, 57);
    lemma_quotient(Number::of_spec(n), Number::of_spec(d), 63, 57, n, 1, d, 1, 1, 1);
    assert(n * 1 == n && 1 * d == d);
}

/// An answer that is believed says what fraction of the first residual is left: the last
/// residual over the first, to within a rounding, and nothing where there was none.
pub proof fn lemma_fraction_left(
    config: SolveConfig,
    initial: Number,
    residual: Number,
    iterations: u32,
)
    requires
        initial.grounded(),
        residual.grounded(),
        initial.pattern() > 0 ==> moderate(initial, 400) && moderate(residual, 400),
    ensures
        verdict_spec(config, initial, residual, iterations) matches Ok(r) ==> {
            &&& r.0 == iterations
            &&& residual.le(initial.times_spec(config.relative_tolerance))
            &&& initial.pattern() == 0 ==> r.1 == (Number { bits: 0 })
            &&& initial.pattern() > 0 ==> approximates(
                r.1,
                residual.value(),
                initial.value(),
                1,
            )
        },
{
    assert(magnitude(0) == 0);
    if initial.pattern() > 0 {
        let u = unit();
        lemma_pow2_pos(1074);
        lemma_pow2_pos(674);
        crate::number::lemma_magnitude_increases(0, initial.pattern());
        lemma_itself(initial);
        lemma_itself(residual);
        let (i, r) = (initial.value(), residual.value());
        lemma_quotient(residual, initial, 400, 400, r, u, i, u, 0, 0);
        assert(u * i == i * u) by (nonlinear_arith);
        lemma_reduced(residual.over_spec(initial), r, i, u, 1);
    }
}

} // verus!
