//! Shapes cut into chains where something lands on them, and the resistive
//! segments that make up the result.
use crate::distance::{point_dist2, seg_dist2};
use crate::geom::{centre, centre_of, in_domain, Point, Seg};
use crate::grid::{is_nearest_tap, segs_wf, SegGrid};
use crate::model::{LayerId, PolyId};
use crate::number::Number;
use crate::power::network::EdgeKind;
use crate::power::process::{
    conductor_width, conductor_width_spec, run_length, run_length_spec, squares, squares_spec,
    via_length, via_length_spec, Connectivity, Link, Process,
};
use crate::power::profile::{narrowest_between, ring_wf, squares_between, ChainProfile};
use crate::power::taps::{
    answers, chain_is_horizontal, runs_along_x, tap_on, tap_point, tap_point_spec, tap_spec, Tap,
    TapTable,
};
use crate::store::GeometryStore;
use vstd::prelude::*;

verus! {

/// The polygons of a list that lie on a conductor layer.
pub open spec fn conducting(
    store: &GeometryStore,
    connectivity: &Connectivity,
    polys: Seq<PolyId>,
) -> Seq<PolyId>
    decreases polys.len(),
{
    if polys.len() == 0 {
        Seq::empty()
    } else {
        let before = conducting(store, connectivity, polys.drop_last());
        if connectivity.conductors@.contains(store.layer@[polys.last().0 as int]) {
            before.push(polys.last())
        } else {
            before
        }
    }
}

/// A kept polygon is a listed one on a conductor layer, and every such polygon
/// is kept, in list order.
pub proof fn lemma_conducting(
    store: &GeometryStore,
    connectivity: &Connectivity,
    polys: Seq<PolyId>,
)
    ensures
        conducting(store, connectivity, polys).len() <= polys.len(),
        forall|p: PolyId| #[trigger]
            conducting(store, connectivity, polys).contains(p) <==> polys.contains(p)
                && connectivity.conductors@.contains(store.layer@[p.0 as int]),
        (forall|i: int, j: int|
            0 <= i < j < polys.len() ==> (#[trigger] polys[i]).0 < (#[trigger] polys[j]).0) ==> (
        forall|i: int, j: int|
            0 <= i < j < conducting(store, connectivity, polys).len() ==> (
            #[trigger] conducting(store, connectivity, polys)[i]).0 < (
            #[trigger] conducting(store, connectivity, polys)[j]).0),
    decreases polys.len(),
{
    if polys.len() > 0 {
        let rest = polys.drop_last();
        let last = polys.last();
        lemma_conducting(store, connectivity, rest);
        let before = conducting(store, connectivity, rest);
        let now = conducting(store, connectivity, polys);
        assert forall|p: PolyId| #[trigger] now.contains(p) <==> polys.contains(p)
            && connectivity.conductors@.contains(store.layer@[p.0 as int]) by {
            if now.contains(p) {
                let i = choose|i: int| 0 <= i < now.len() && now[i] == p;
                if i < before.len() {
                    assert(before[i] == p);
                    assert(before.contains(p));
                    let k = choose|k: int| 0 <= k < rest.len() && rest[k] == p;
                    assert(polys[k] == p);
                } else {
                    assert(polys[polys.len() - 1] == p);
                }
            }
            if polys.contains(p) && connectivity.conductors@.contains(store.layer@[p.0 as int]) {
                let k = choose|k: int| 0 <= k < polys.len() && polys[k] == p;
                if k < rest.len() {
                    assert(rest[k] == p);
                    assert(before.contains(p));
                    let i = choose|i: int| 0 <= i < before.len() && before[i] == p;
                    assert(now[i] == p);
                } else {
                    assert(now[now.len() - 1] == p);
                }
            }
        }
        if forall|i: int, j: int|
            0 <= i < j < polys.len() ==> (#[trigger] polys[i]).0 < (#[trigger] polys[j]).0 {
            assert forall|i: int, j: int| 0 <= i < j < rest.len() implies (#[trigger] rest[i]).0 < (
            #[trigger] rest[j]).0 by {
                assert(polys[i].0 < polys[j].0);
            }
            assert forall|i: int, j: int| 0 <= i < j < now.len() implies (#[trigger] now[i]).0 < (
            #[trigger] now[j]).0 by {
                if j < before.len() {
                    assert(before[i].0 < before[j].0);
                } else {
                    assert(before.contains(before[i]));
                    let k = choose|k: int| 0 <= k < rest.len() && rest[k] == before[i];
                    assert(polys[k].0 < polys[polys.len() - 1].0);
                }
            }
        }
    }
}

/// Append the conducting polygons of a list.
pub fn push_conducting(
    store: &GeometryStore,
    connectivity: &Connectivity,
    mask: &Vec<bool>,
    polys: &Vec<PolyId>,
    out: &mut Vec<PolyId>,
)
    requires
        store.wf(),
        mask@.len() == store.layers(),
        forall|l: int|
            0 <= l < store.layers() ==> #[trigger] mask@[l] == connectivity.conductors@.contains(
                LayerId(l as u32),
            ),
        forall|k: int| 0 <= k < polys@.len() ==> (#[trigger] polys@[k]).0 < store.polys(),
    ensures
        final(out)@ == old(out)@ + conducting(store, connectivity, polys@),
{
    let mut i: usize = 0;
    assert(polys@.take(0) =~= Seq::<PolyId>::empty());
    assert(out@ =~= old(out)@ + conducting(store, connectivity, polys@.take(0)));
    while i < polys.len()
        invariant
            i <= polys@.len(),
            store.wf(),
            mask@.len() == store.layers(),
            forall|l: int|
                0 <= l < store.layers() ==> #[trigger] mask@[l]
                    == connectivity.conductors@.contains(LayerId(l as u32)),
            forall|k: int| 0 <= k < polys@.len() ==> (#[trigger] polys@[k]).0 < store.polys(),
            out@ == old(out)@ + conducting(store, connectivity, polys@.take(i as int)),
        decreases polys@.len() - i,
    {
        let poly = polys[i];
        let layer = store.poly_layer(poly);
        assert(polys@.take(i + 1).drop_last() =~= polys@.take(i as int));
        assert(mask@[layer.0 as int] == connectivity.conductors@.contains(LayerId(layer.0)));
        assert(LayerId(layer.0) == layer);
        if mask[layer.0 as usize] {
            out.push(poly);
        }
        i = i + 1;
        assert(out@ =~= old(out)@ + conducting(store, connectivity, polys@.take(i as int)));
    }
    assert(polys@.take(i as int) =~= polys@);
}

/// Shape `i` is the one whose centre is nearest to a point, the lowest row on a
/// tie.
pub open spec fn is_nearest_shape(
    store: &GeometryStore,
    shapes: Seq<PolyId>,
    p: Point,
    i: int,
) -> bool {
    &&& 0 <= i < shapes.len()
    &&& forall|j: int|
        0 <= j < shapes.len() ==> shape_dist2(store, shapes[i], p) < #[trigger] shape_dist2(
            store,
            shapes[j],
            p,
        ) || (shape_dist2(store, shapes[i], p) == shape_dist2(store, shapes[j], p) && i <= j)
}

/// Squared distance from a polygon's centre to a point.
pub open spec fn shape_dist2(store: &GeometryStore, poly: PolyId, p: Point) -> int {
    point_dist2(p, centre_of(store.bbox@[poly.0 as int]))
}

/// The shape whose centre is nearest to a point.
pub open spec fn nearest_shape(store: &GeometryStore, shapes: Seq<PolyId>, p: Point) -> int {
    choose|i: int| is_nearest_shape(store, shapes, p, i)
}

/// Among the first `n` shapes one is nearest.
proof fn lemma_nearest_exists(store: &GeometryStore, shapes: Seq<PolyId>, p: Point, n: nat)
    requires
        0 < n <= shapes.len(),
    ensures
        exists|i: int| is_nearest_shape(store, shapes.take(n as int), p, i),
    decreases n,
{
    let now = shapes.take(n as int);
    if n == 1 {
        assert(is_nearest_shape(store, now, p, 0));
    } else {
        let m = (n - 1) as nat;
        lemma_nearest_exists(store, shapes, p, m);
        let before = shapes.take(m as int);
        let i = choose|i: int| is_nearest_shape(store, before, p, i);
        let best = if shape_dist2(store, now[m as int], p) < shape_dist2(store, now[i], p) {
            m as int
        } else {
            i
        };
        assert forall|j: int| 0 <= j < now.len() implies shape_dist2(store, now[best], p)
            < #[trigger] shape_dist2(store, now[j], p) || (shape_dist2(store, now[best], p)
            == shape_dist2(store, now[j], p) && best <= j) by {
            if j < m {
                assert(now[j] == before[j] && now[i] == before[i]);
                assert(shape_dist2(store, before[i], p) <= shape_dist2(store, before[j], p));
            }
        }
        assert(is_nearest_shape(store, now, p, best));
    }
}

/// Where there is a shape, the nearest shape is the nearest one.
pub proof fn lemma_nearest_shape_is_nearest(store: &GeometryStore, shapes: Seq<PolyId>, p: Point)
    requires
        shapes.len() > 0,
    ensures
        is_nearest_shape(store, shapes, p, nearest_shape(store, shapes, p)),
{
    lemma_nearest_exists(store, shapes, p, shapes.len());
    assert(shapes.take(shapes.len() as int) =~= shapes);
}

/// The centres of a run of shapes, filed for nearest-shape queries.
pub struct TapIndex {
    pub grid: SegGrid,
}

impl TapIndex {
    pub open spec fn indexes(&self, store: &GeometryStore, shapes: Seq<PolyId>) -> bool {
        &&& self.grid.wf()
        &&& self.grid.taps@.len() == shapes.len()
        &&& forall|i: int|
            0 <= i < shapes.len() ==> (#[trigger] self.grid.taps@[i]) == centre_seg(
                store,
                shapes[i],
            )
    }

    /// File the shapes `from .. to` of a list.
    pub fn build(store: &GeometryStore, shapes: &Vec<PolyId>, from: usize, to: usize) -> (r:
        TapIndex)
        requires
            store.wf(),
            from < to <= shapes@.len() <= 0xFFFF_FFFF,
            shapes_in(store, shapes@),
        ensures
            r.indexes(store, shapes@.subrange(from as int, to as int)),
    {
        let mut taps: Vec<Seg> = Vec::new();
        let mut i: usize = from;
        while i < to
            invariant
                store.wf(),
                from <= i <= to <= shapes@.len(),
                shapes_in(store, shapes@),
                taps@.len() == i - from,
                segs_wf(taps@),
                forall|k: int|
                    0 <= k < taps@.len() ==> (#[trigger] taps@[k]) == centre_seg(
                        store,
                        shapes@[from + k],
                    ),
            decreases to - i,
        {
            let c = centre(store.poly_bbox(shapes[i]));
            taps.push(Seg { a: c, b: c });
            i = i + 1;
        }
        TapIndex { grid: SegGrid::build(taps) }
    }

    /// The shape whose centre is nearest to a point, the lowest row on a tie.
    pub fn nearest(
        &self,
        p: Point,
        Ghost(store): Ghost<&GeometryStore>,
        Ghost(shapes): Ghost<Seq<PolyId>>,
    ) -> (r: u32)
        requires
            self.indexes(store, shapes),
            shapes.len() > 0,
            p.wf(),
        ensures
            r == nearest_shape(store, shapes, p),
            r < shapes.len(),
    {
        let r: u32 = self.grid.nearest(p);
        proof {
            let taps = self.grid.taps@;
            assert forall|j: int| 0 <= j < shapes.len() implies #[trigger] shape_dist2(
                store,
                shapes[j],
                p,
            ) == seg_dist2(p, taps[j]) by {
                lemma_centre_seg(store, shapes[j], p);
            }
            assert(is_nearest_tap(taps, p, r as int));
            assert(is_nearest_shape(store, shapes, p, r as int));
            let c = nearest_shape(store, shapes, p);
            assert(is_nearest_shape(store, shapes, p, c));
            assert(shape_dist2(store, shapes[c], p) == shape_dist2(store, shapes[r as int], p));
        }
        r
    }
}

/// A shape's centre, as a segment of no length.
pub open spec fn centre_seg(store: &GeometryStore, poly: PolyId) -> Seg {
    let c = centre_of(store.bbox@[poly.0 as int]);
    Seg { a: c, b: c }
}

proof fn lemma_centre_seg(store: &GeometryStore, poly: PolyId, p: Point)
    ensures
        seg_dist2(p, centre_seg(store, poly)) == shape_dist2(store, poly, p),
{
    let c = centre_of(store.bbox@[poly.0 as int]);
    assert((c.x - c.x) * (p.x - c.x) + (c.y - c.y) * (p.y - c.y) == 0) by (nonlinear_arith);
    assert((p.x - c.x) * (c.x - c.x) + (p.y - c.y) * (c.y - c.y) == 0) by (nonlinear_arith);
}

/// Every shape of a list is one of the store's polygons.
pub open spec fn shapes_in(store: &GeometryStore, shapes: Seq<PolyId>) -> bool {
    forall|i: int| 0 <= i < shapes.len() ==> (#[trigger] shapes[i]).0 < store.polys()
}

/// No shape is listed twice.
pub open spec fn shapes_distinct(shapes: Seq<PolyId>) -> bool {
    forall|i: int, j: int| 0 <= i < j < shapes.len() ==> #[trigger] shapes[i] != #[trigger] shapes[j]
}

/// The row a polygon has no shape at.
pub const NO_SHAPE: u32 = 0xFFFF_FFFF;

/// A column giving each polygon its row in the shape list.
pub open spec fn locates(table: Seq<u32>, shapes: Seq<PolyId>, polys: int) -> bool {
    &&& table.len() == polys
    &&& forall|p: int|
        0 <= p < polys ==> if (#[trigger] table[p]) == NO_SHAPE {
            !shapes.contains(PolyId(p as u32))
        } else {
            table[p] < shapes.len() && shapes[table[p] as int] == PolyId(p as u32)
        }
}

/// Each polygon's row in a shape list.
pub fn shape_table(store: &GeometryStore, shapes: &Vec<PolyId>) -> (r: Vec<u32>)
    requires
        store.wf(),
        shapes_in(store, shapes@),
        shapes@.len() < NO_SHAPE,
    ensures
        locates(r@, shapes@, store.polys()),
{
    let polys: usize = store.layer.len();
    let mut table: Vec<u32> = Vec::new();
    let mut p: usize = 0;
    while p < polys
        invariant
            p <= polys == store.polys(),
            table@.len() == p,
            forall|q: int| 0 <= q < p ==> (#[trigger] table@[q]) == NO_SHAPE,
        decreases polys - p,
    {
        table.push(NO_SHAPE);
        p = p + 1;
    }
    assert(shapes@.take(0) =~= Seq::<PolyId>::empty());
    let mut i: usize = 0;
    while i < shapes.len()
        invariant
            store.wf(),
            polys == store.polys(),
            i <= shapes@.len() < NO_SHAPE,
            shapes_in(store, shapes@),
            locates(table@, shapes@.take(i as int), store.polys()),
        decreases shapes@.len() - i,
    {
        let poly = shapes[i];
        let ghost before = table@;
        let ghost listed = shapes@.take(i as int);
        let ghost now = shapes@.take(i + 1);
        assert(poly.0 < store.polys());
        table.set(poly.0 as usize, i as u32);
        proof {
            assert(now =~= listed.push(poly));
            assert forall|p: int| 0 <= p < store.polys() implies if (#[trigger] table@[p])
                == NO_SHAPE {
                !now.contains(PolyId(p as u32))
            } else {
                table@[p] < now.len() && now[table@[p] as int] == PolyId(p as u32)
            } by {
                assert(before[p] == NO_SHAPE ==> !listed.contains(PolyId(p as u32)));
                if p != poly.0 && before[p] == NO_SHAPE {
                    if now.contains(PolyId(p as u32)) {
                        let x = choose|x: int| 0 <= x < now.len() && now[x] == PolyId(p as u32);
                        assert(x < listed.len());
                        assert(listed[x] == PolyId(p as u32));
                    }
                }
            }
        }
        i = i + 1;
    }
    assert(shapes@.take(i as int) =~= shapes@);
    table
}

/// The row a polygon has in a shape list.
pub open spec fn row_of(shapes: Seq<PolyId>, poly: PolyId) -> u32 {
    shapes.index_of(poly) as u32
}

/// Where a link's first end lands.
pub open spec fn first_end(store: &GeometryStore, shapes: Seq<PolyId>, link: Link) -> Tap {
    Tap {
        shape: row_of(shapes, link.a),
        along: tap_spec(store.bbox@[link.a.0 as int], store.bbox@[link.b.0 as int]) as i64,
    }
}

/// Where a link's second end lands.
pub open spec fn second_end(store: &GeometryStore, shapes: Seq<PolyId>, link: Link) -> Tap {
    Tap {
        shape: row_of(shapes, link.b),
        along: tap_spec(store.bbox@[link.b.0 as int], store.bbox@[link.a.0 as int]) as i64,
    }
}

/// The two ends of each link, link after link.
pub open spec fn end_taps(store: &GeometryStore, shapes: Seq<PolyId>, links: Seq<Link>) -> Seq<Tap>
    decreases links.len(),
{
    if links.len() == 0 {
        Seq::empty()
    } else {
        end_taps(store, shapes, links.drop_last()).push(
            first_end(store, shapes, links.last()),
        ).push(second_end(store, shapes, links.last()))
    }
}

/// A tap at each shape's own centre, so a shape nothing connects to still has a
/// node.
pub open spec fn centre_taps(store: &GeometryStore, shapes: Seq<PolyId>) -> Seq<Tap> {
    Seq::new(
        shapes.len(),
        |i: int|
            Tap {
                shape: i as u32,
                along: tap_spec(
                    store.bbox@[shapes[i].0 as int],
                    store.bbox@[shapes[i].0 as int],
                ) as i64,
            },
    )
}

/// The taps a set of shapes has before any device attaches to it.
pub open spec fn wired_taps(
    store: &GeometryStore,
    shapes: Seq<PolyId>,
    metal: Seq<Link>,
    via: Seq<Link>,
) -> Seq<Tap> {
    centre_taps(store, shapes) + end_taps(store, shapes, metal) + end_taps(store, shapes, via)
}

proof fn lemma_end_taps(store: &GeometryStore, shapes: Seq<PolyId>, links: Seq<Link>)
    ensures
        end_taps(store, shapes, links).len() == 2 * links.len(),
        forall|i: int|
            0 <= i < links.len() ==> end_taps(store, shapes, links)[2 * i] == first_end(
                store,
                shapes,
                #[trigger] links[i],
            ) && end_taps(store, shapes, links)[2 * i + 1] == second_end(store, shapes, links[i]),
    decreases links.len(),
{
    if links.len() > 0 {
        let rest = links.drop_last();
        lemma_end_taps(store, shapes, rest);
        assert forall|i: int| 0 <= i < links.len() implies end_taps(store, shapes, links)[2 * i]
            == first_end(store, shapes, #[trigger] links[i]) && end_taps(store, shapes, links)[2 * i
            + 1] == second_end(store, shapes, links[i]) by {
            if i < rest.len() {
                assert(rest[i] == links[i]);
            }
        }
    }
}

/// How many taps a wiring asks for before anything attaches.
pub proof fn lemma_wired_len(
    store: &GeometryStore,
    shapes: Seq<PolyId>,
    metal: Seq<Link>,
    via: Seq<Link>,
)
    ensures
        end_taps(store, shapes, metal).len() == 2 * metal.len(),
        end_taps(store, shapes, via).len() == 2 * via.len(),
        wired_taps(store, shapes, metal, via).len() == shapes.len() + 2 * metal.len() + 2
            * via.len(),
{
    lemma_end_taps(store, shapes, metal);
    lemma_end_taps(store, shapes, via);
}

/// Both ends of every link are among the shapes.
pub open spec fn links_in(shapes: Seq<PolyId>, links: Seq<Link>) -> bool {
    forall|i: int|
        0 <= i < links.len() ==> shapes.contains((#[trigger] links[i]).a) && shapes.contains(
            links[i].b,
        )
}

/// The links whose two ends are both among the shapes.
pub open spec fn noded(shapes: Seq<PolyId>, links: Seq<Link>) -> Seq<Link>
    decreases links.len(),
{
    if links.len() == 0 {
        Seq::empty()
    } else {
        let before = noded(shapes, links.drop_last());
        if shapes.contains(links.last().a) && shapes.contains(links.last().b) {
            before.push(links.last())
        } else {
            before
        }
    }
}

/// The kept links are listed ones, and their ends are among the shapes.
pub proof fn lemma_noded(shapes: Seq<PolyId>, links: Seq<Link>)
    ensures
        links_in(shapes, noded(shapes, links)),
        noded(shapes, links).len() <= links.len(),
        forall|i: int|
            0 <= i < noded(shapes, links).len() ==> links.contains(
                #[trigger] noded(shapes, links)[i],
            ),
    decreases links.len(),
{
    if links.len() > 0 {
        let rest = links.drop_last();
        lemma_noded(shapes, rest);
        let before = noded(shapes, rest);
        let now = noded(shapes, links);
        assert forall|i: int| 0 <= i < now.len() implies links.contains(#[trigger] now[i])
            && shapes.contains(now[i].a) && shapes.contains(now[i].b) by {
            if i < before.len() {
                assert(rest.contains(before[i]));
                let k = choose|k: int| 0 <= k < rest.len() && rest[k] == before[i];
                assert(links[k] == now[i]);
                assert(shapes.contains(before[i].a));
            } else {
                assert(links[links.len() - 1] == now[i]);
            }
        }
        assert forall|i: int| 0 <= i < now.len() implies shapes.contains((#[trigger] now[i]).a)
            && shapes.contains(now[i].b) by {
            assert(links.contains(now[i]));
        }
    }
}

/// Every link names two of the store's polygons.
pub open spec fn links_name(store: &GeometryStore, links: Seq<Link>) -> bool {
    forall|i: int|
        0 <= i < links.len() ==> (#[trigger] links[i]).a.0 < store.polys() && links[i].b.0
            < store.polys()
}

/// Keep the links whose two ends both have a shape.
pub fn keep_noded(
    store: &GeometryStore,
    table: &Vec<u32>,
    links: &Vec<Link>,
    Ghost(shapes): Ghost<Seq<PolyId>>,
) -> (r: Vec<Link>)
    requires
        locates(table@, shapes, store.polys()),
        links_name(store, links@),
    ensures
        r@ == noded(shapes, links@),
{
    let mut r: Vec<Link> = Vec::new();
    let mut i: usize = 0;
    assert(links@.take(0) =~= Seq::<Link>::empty());
    while i < links.len()
        invariant
            i <= links@.len(),
            locates(table@, shapes, store.polys()),
            links_name(store, links@),
            r@ == noded(shapes, links@.take(i as int)),
        decreases links@.len() - i,
    {
        let link = links[i];
        assert(links@.take(i + 1).drop_last() =~= links@.take(i as int));
        proof {
            lemma_located(table@, shapes, store.polys(), link.a);
            lemma_located(table@, shapes, store.polys(), link.b);
        }
        if table[link.a.0 as usize] != NO_SHAPE && table[link.b.0 as usize] != NO_SHAPE {
            r.push(link);
        }
        i = i + 1;
    }
    assert(links@.take(i as int) =~= links@);
    r
}

proof fn lemma_located(table: Seq<u32>, shapes: Seq<PolyId>, polys: int, poly: PolyId)
    requires
        locates(table, shapes, polys),
        poly.0 < polys,
    ensures
        table[poly.0 as int] != NO_SHAPE <==> shapes.contains(poly),
        shapes_distinct(shapes) && shapes.contains(poly) ==> table[poly.0 as int] == row_of(
            shapes,
            poly,
        ) && table[poly.0 as int] < shapes.len(),
{
    assert(PolyId(poly.0) == poly);
    let t = table[poly.0 as int];
    if t != NO_SHAPE {
        assert(shapes[t as int] == poly);
        assert(shapes.contains(poly));
        if shapes_distinct(shapes) {
            let k = shapes.index_of(poly);
            assert(shapes[k] == poly);
        }
    }
}

/// A column gives each shape of a list its row.
pub open spec fn places(table: Seq<u32>, shapes: Seq<PolyId>) -> bool {
    forall|i: int|
        0 <= i < shapes.len() ==> (#[trigger] shapes[i]).0 < table.len()
            && table[shapes[i].0 as int]
            == i
}

/// A column that locates every polygon places every shape.
pub proof fn lemma_places(store: &GeometryStore, table: Seq<u32>, shapes: Seq<PolyId>)
    requires
        locates(table, shapes, store.polys()),
        shapes_in(store, shapes),
        shapes_distinct(shapes),
    ensures
        places(table, shapes),
{
    assert forall|i: int| 0 <= i < shapes.len() implies (#[trigger] shapes[i]).0 < table.len()
        && table[shapes[i].0 as int] == i by {
        lemma_located(table, shapes, store.polys(), shapes[i]);
        let k = shapes.index_of(shapes[i]);
        assert(shapes.contains(shapes[i]));
        assert(shapes[k] == shapes[i]);
    }
}

/// Ask for a tap at each shape's own centre.
pub fn push_centres(store: &GeometryStore, shapes: &Vec<PolyId>, taps: &mut TapTable)
    requires
        store.wf(),
        shapes_in(store, shapes@),
        old(taps).request@.len() == 0,
        shapes@.len() < 0xFFFF_FFFF,
    ensures
        final(taps).request@ == centre_taps(store, shapes@),
        final(taps).asks_of(shapes@.len() as int),
{
    let mut i: usize = 0;
    assert(taps.request@ =~= centre_taps(store, shapes@).take(0));
    while i < shapes.len()
        invariant
            i <= shapes@.len() < 0xFFFF_FFFF,
            store.wf(),
            shapes_in(store, shapes@),
            taps.request@ == centre_taps(store, shapes@).take(i as int),
            taps.asks_of(shapes@.len() as int),
        decreases shapes@.len() - i,
    {
        let host = store.poly_bbox(shapes[i]);
        let along: i64 = tap_on(host, host);
        let _ = taps.push(i as u32, along);
        i = i + 1;
        assert(taps.request@ =~= centre_taps(store, shapes@).take(i as int));
    }
    assert(centre_taps(store, shapes@).take(i as int) =~= centre_taps(store, shapes@));
}

/// Ask for a tap at both ends of each link.
pub fn push_ends(
    store: &GeometryStore,
    table: &Vec<u32>,
    links: &Vec<Link>,
    taps: &mut TapTable,
    Ghost(shapes): Ghost<Seq<PolyId>>,
)
    requires
        store.wf(),
        places(table@, shapes),
        links_name(store, links@),
        links_in(shapes, links@),
        old(taps).asks_of(shapes.len() as int),
        old(taps).request@.len() + 2 * links@.len() < 0xFFFF_FFFF,
    ensures
        final(taps).request@ == old(taps).request@ + end_taps(store, shapes, links@),
        final(taps).asks_of(shapes.len() as int),
{
    let ghost start = taps.request@;
    let mut i: usize = 0;
    assert(links@.take(0) =~= Seq::<Link>::empty());
    assert(taps.request@ =~= start + end_taps(store, shapes, links@.take(0)));
    while i < links.len()
        invariant
            i <= links@.len(),
            store.wf(),
            places(table@, shapes),
            links_name(store, links@),
            links_in(shapes, links@),
            start.len() + 2 * links@.len() < 0xFFFF_FFFF,
            taps.request@ == start + end_taps(store, shapes, links@.take(i as int)),
            taps.asks_of(shapes.len() as int),
        decreases links@.len() - i,
    {
        let link = links[i];
        let a = store.poly_bbox(link.a);
        let b = store.poly_bbox(link.b);
        proof {
            lemma_end_taps(store, shapes, links@.take(i as int));
            assert(links@.take(i + 1).drop_last() =~= links@.take(i as int));
            assert(links_in(shapes, links@));
            assert(shapes.contains(links@[i as int].a));
            assert(shapes[shapes.index_of(link.a)] == link.a);
            assert(shapes[shapes.index_of(link.b)] == link.b);
        }
        let on_a: i64 = tap_on(a, b);
        let on_b: i64 = tap_on(b, a);
        let _ = taps.push(table[link.a.0 as usize], on_a);
        let _ = taps.push(table[link.b.0 as usize], on_b);
        i = i + 1;
        assert(taps.request@ =~= start + end_taps(store, shapes, links@.take(i as int)));
    }
    assert(links@.take(i as int) =~= links@);
}

/// One resistive segment between two nodes.
#[derive(Clone, Copy, Debug, PartialEq, Eq, Structural)]
pub struct Segment {
    pub from: u32,
    pub to: u32,
    pub resistance: Number,
    pub width: i64,
    pub length: i64,
    pub layer: LayerId,
    pub kind: EdgeKind,
}

/// The segment of a shape's own chain from node `k` to the next: the metal it
/// actually has, and the narrowest place in it.
pub open spec fn chain_segment(
    store: &GeometryStore,
    process: Process,
    shapes: Seq<PolyId>,
    node: Seq<Tap>,
    k: int,
) -> Segment {
    let poly = shapes[node[k].shape as int].0 as int;
    let ring = store.ring(poly);
    let horizontal = runs_along_x(store.bbox@[poly]);
    let a = node[k].along as int;
    let b = node[k + 1].along as int;
    Segment {
        from: k as u32,
        to: (k + 1) as u32,
        resistance: process.sheet(store.layer@[poly]).times_spec(
            squares_between(ring, horizontal, a, b),
        ),
        width: narrowest_between(ring, horizontal, a, b),
        length: (b - a) as i64,
        layer: store.layer@[poly],
        kind: EdgeKind::Metal,
    }
}

/// The chain segments out of the first `n` nodes: one between each two
/// neighbours on one shape.
pub open spec fn chain_segments(
    store: &GeometryStore,
    process: Process,
    shapes: Seq<PolyId>,
    node: Seq<Tap>,
    n: nat,
) -> Seq<Segment>
    decreases n,
{
    if n == 0 {
        Seq::empty()
    } else {
        let k = n - 1;
        let before = chain_segments(store, process, shapes, node, k as nat);
        if k + 1 < node.len() && node[k].shape == node[k + 1].shape {
            before.push(chain_segment(store, process, shapes, node, k))
        } else {
            before
        }
    }
}

/// A chain segment runs from a node to the next one.
proof fn lemma_chain_segments(
    store: &GeometryStore,
    process: Process,
    shapes: Seq<PolyId>,
    node: Seq<Tap>,
    n: nat,
)
    requires
        n <= node.len() < 0xFFFF_FFFF,
    ensures
        chain_segments(store, process, shapes, node, n).len() <= n,
        forall|i: int|
            0 <= i < chain_segments(store, process, shapes, node, n).len() ==> (
            #[trigger] chain_segments(store, process, shapes, node, n)[i]).from < node.len()
                && chain_segments(store, process, shapes, node, n)[i].to < node.len(),
    decreases n,
{
    if n > 0 {
        let m = (n - 1) as nat;
        lemma_chain_segments(store, process, shapes, node, m);
        let before = chain_segments(store, process, shapes, node, m);
        let now = chain_segments(store, process, shapes, node, n);
        assert forall|i: int| 0 <= i < now.len() implies (#[trigger] now[i]).from < node.len()
            && now[i].to < node.len() by {
            if i < before.len() {
                assert(before[i].from < node.len());
            }
        }
    }
}

/// The segment of a connection within a conductor layer.
pub open spec fn metal_segment(
    store: &GeometryStore,
    process: Process,
    link: Link,
    from: u32,
    to: u32,
) -> Segment {
    let a = store.bbox@[link.a.0 as int];
    let b = store.bbox@[link.b.0 as int];
    let length = run_length_spec(
        tap_point_spec(a, tap_spec(a, b)),
        tap_point_spec(b, tap_spec(b, a)),
    );
    let width = conductor_width_spec(a, b);
    Segment {
        from,
        to,
        resistance: process.sheet(link.layer).times_spec(squares_spec(length, width)),
        width: width as i64,
        length: length as i64,
        layer: link.layer,
        kind: EdgeKind::Metal,
    }
}

/// The segment of a connection through one cut: one square of the cut layer.
pub open spec fn via_segment(
    store: &GeometryStore,
    process: Process,
    link: Link,
    from: u32,
    to: u32,
) -> Segment {
    Segment {
        from,
        to,
        resistance: process.sheet(link.layer),
        width: conductor_width_spec(
            store.bbox@[link.a.0 as int],
            store.bbox@[link.b.0 as int],
        ) as i64,
        length: via_length_spec(
            process,
            store.layer@[link.a.0 as int],
            store.layer@[link.b.0 as int],
        ) as i64,
        layer: link.layer,
        kind: EdgeKind::Via { cuts: 1 },
    }
}

/// Shapes, the connections between them, and the taps they are cut at.
pub struct Wiring {
    pub shapes: Vec<PolyId>,
    pub metal: Vec<Link>,
    pub via: Vec<Link>,
    pub taps: TapTable,
}

impl Wiring {
    /// Every layer the wiring uses has a usable sheet resistance.
    pub open spec fn priced(&self, store: &GeometryStore, process: Process) -> bool {
        &&& forall|i: int|
            0 <= i < self.shapes@.len() ==> process.usable(
                store.layer@[(#[trigger] self.shapes@[i]).0 as int],
            )
        &&& forall|i: int|
            0 <= i < self.metal@.len() ==> process.usable((#[trigger] self.metal@[i]).layer)
        &&& forall|i: int|
            0 <= i < self.via@.len() ==> process.usable((#[trigger] self.via@[i]).layer)
    }

    pub open spec fn links_wf(&self, store: &GeometryStore) -> bool {
        &&& shapes_in(store, self.shapes@)
        &&& shapes_distinct(self.shapes@)
        &&& links_name(store, self.metal@)
        &&& links_name(store, self.via@)
        &&& links_in(self.shapes@, self.metal@)
        &&& links_in(self.shapes@, self.via@)
    }

    /// The requests are the wired taps followed by whatever attaches.
    pub open spec fn wired(&self, store: &GeometryStore, attached: Seq<Tap>) -> bool {
        &&& self.links_wf(store)
        &&& self.taps.request@ == wired_taps(store, self.shapes@, self.metal@, self.via@)
            + attached
        &&& self.taps.asks_of(self.shapes@.len() as int)
        &&& self.taps.finished(self.shapes@.len() as int)
    }

    /// The node a link's ends resolved to, `base` being the first link's request.
    pub open spec fn node_at(&self, request: int) -> u32 {
        self.taps.req_node@[request]
    }

    pub open spec fn metal_base(&self) -> int {
        self.shapes@.len() as int
    }

    pub open spec fn via_base(&self) -> int {
        self.metal_base() + 2 * self.metal@.len()
    }

    /// The first request an attachment has.
    pub open spec fn attach_base(&self) -> int {
        self.via_base() + 2 * self.via@.len()
    }

    pub open spec fn metal_segments(&self, store: &GeometryStore, process: Process) -> Seq<
        Segment,
    > {
        Seq::new(
            self.metal@.len(),
            |i: int|
                metal_segment(
                    store,
                    process,
                    self.metal@[i],
                    self.node_at(self.metal_base() + 2 * i),
                    self.node_at(self.metal_base() + 2 * i + 1),
                ),
        )
    }

    pub open spec fn via_segments(&self, store: &GeometryStore, process: Process) -> Seq<Segment> {
        Seq::new(
            self.via@.len(),
            |i: int|
                via_segment(
                    store,
                    process,
                    self.via@[i],
                    self.node_at(self.via_base() + 2 * i),
                    self.node_at(self.via_base() + 2 * i + 1),
                ),
        )
    }

    /// Every segment: each shape's chain, then the connections within layers,
    /// then those through cuts.
    pub open spec fn segments(&self, store: &GeometryStore, process: Process) -> Seq<Segment> {
        chain_segments(
            store,
            process,
            self.shapes@,
            self.taps.node@,
            self.taps.node@.len(),
        ) + self.metal_segments(store, process) + self.via_segments(store, process)
    }

    fn push_chain(
        &self,
        store: &GeometryStore,
        process: Process,
        shape: u32,
        out: &mut Vec<Segment>,
        Ghost(attached): Ghost<Seq<Tap>>,
    )
        requires
            store.wf(),
            self.wired(store, attached),
            self.priced(store, process),
            shape < self.shapes@.len(),
            old(out)@ == chain_segments(
                store,
                process,
                self.shapes@,
                self.taps.node@,
                self.taps.chain_start@[shape as int] as nat,
            ),
        ensures
            final(out)@ == chain_segments(
                store,
                process,
                self.shapes@,
                self.taps.node@,
                self.taps.chain_start@[shape + 1] as nat,
            ),
    {
        let ghost node = self.taps.node@;
        let poly = self.shapes[shape as usize];
        let layer = store.poly_layer(poly);
        let host = store.poly_bbox(poly);
        let horizontal: bool = chain_is_horizontal(host);
        let ring = store.poly_verts(poly);
        assert(process.usable(store.layer@[self.shapes@[shape as int].0 as int]));
        let sheet = process.sheet_res_ohm_sq[layer.0 as usize];
        let profile = ChainProfile::build(&ring, horizontal);
        let (from, to) = self.taps.chain_of(shape, Ghost(self.shapes@.len() as int));
        proof {
            self.lemma_run(store, attached, shape as int);
        }
        let mut k: usize = from;
        while k < to
            invariant
                from <= k <= to <= node.len(),
                node == self.taps.node@,
                store.wf(),
                self.wired(store, attached),
                shape < self.shapes@.len(),
                poly == self.shapes@[shape as int],
                layer == store.layer@[poly.0 as int],
                host == store.bbox@[poly.0 as int],
                horizontal == runs_along_x(host),
                ring@ == store.ring(poly.0 as int),
                ring_wf(ring@),
                sheet == process.sheet(layer),
                profile.wf(),
                profile.profiles(ring@, horizontal),
                forall|i: int| from <= i < to ==> (#[trigger] node[i]).shape == shape,
                to < node.len() ==> node[to as int].shape != shape,
                out@ == chain_segments(store, process, self.shapes@, node, k as nat),
            decreases to - k,
        {
            proof {
                self.lemma_nodes_in_domain(store, attached);
            }
            if k + 1 < to {
                let a: i64 = self.taps.node[k].along;
                let b: i64 = self.taps.node[k + 1].along;
                assert(node[k as int].before(node[k + 1]));
                let (number, width) = profile.segment(a, b);
                out.push(
                    Segment {
                        from: k as u32,
                        to: (k + 1) as u32,
                        resistance: sheet.times(number),
                        width,
                        length: b - a,
                        layer,
                        kind: EdgeKind::Metal,
                    },
                );
            }
            assert(out@ == chain_segments(store, process, self.shapes@, node, (k + 1) as nat));
            k = k + 1;
        }
    }

    /// A shape's run holds exactly the nodes of that shape.
    proof fn lemma_run(&self, store: &GeometryStore, attached: Seq<Tap>, shape: int)
        requires
            self.wired(store, attached),
            0 <= shape < self.shapes@.len(),
        ensures
            forall|i: int|
                self.taps.chain_start@[shape] <= i < self.taps.chain_start@[shape + 1] ==> (
                #[trigger] self.taps.node@[i]).shape == shape,
            self.taps.chain_start@[shape + 1] < self.taps.node@.len()
                ==> self.taps.node@[self.taps.chain_start@[shape + 1] as int].shape != shape,
    {
        let start = self.taps.chain_start@;
        let node = self.taps.node@;
        self.lemma_nodes_in_domain(store, attached);
        assert forall|i: int| start[shape] <= i < start[shape + 1] implies (
        #[trigger] node[i]).shape == shape by {
            let s = node[i].shape as int;
            assert(start[s] <= i < start[s + 1]);
            if s < shape {
                assert(start[s + 1] <= start[shape]);
            }
            if s > shape {
                assert(start[shape + 1] <= start[s]);
            }
        }
        if start[shape + 1] < node.len() {
            let i = start[shape + 1] as int;
            assert(start[node[i].shape as int] <= i < start[node[i].shape + 1]);
        }
    }

    /// Every node is a requested place.
    pub proof fn lemma_nodes_in_domain(&self, store: &GeometryStore, attached: Seq<Tap>)
        requires
            self.wired(store, attached),
        ensures
            forall|i: int|
                0 <= i < self.taps.node@.len() ==> in_domain(
                    (#[trigger] self.taps.node@[i]).along as int,
                ) && self.taps.node@[i].shape < self.shapes@.len(),
    {
        assert forall|i: int| 0 <= i < self.taps.node@.len() implies in_domain(
            (#[trigger] self.taps.node@[i]).along as int,
        ) && self.taps.node@[i].shape < self.shapes@.len() by {
            assert(self.taps.request@.contains(self.taps.node@[i]));
            let q = choose|q: int|
                0 <= q < self.taps.request@.len() && self.taps.request@[q] == self.taps.node@[i];
            assert(self.taps.request@[q].shape < self.shapes@.len());
        }
    }

    /// Every segment joins two of the nodes.
    pub proof fn lemma_segments(&self, store: &GeometryStore, process: Process, attached: Seq<Tap>)
        requires
            self.wired(store, attached),
        ensures
            self.segments(store, process).len() <= self.taps.node@.len() + self.metal@.len()
                + self.via@.len(),
            forall|i: int|
                0 <= i < self.segments(store, process).len() ==> (#[trigger] self.segments(
                    store,
                    process,
                )[i]).from < self.taps.node@.len() && self.segments(store, process)[i].to
                    < self.taps.node@.len(),
    {
        let node = self.taps.node@;
        let chain = chain_segments(store, process, self.shapes@, node, node.len());
        let metal = self.metal_segments(store, process);
        lemma_chain_segments(store, process, self.shapes@, node, node.len());
        lemma_end_taps(store, self.shapes@, self.metal@);
        lemma_end_taps(store, self.shapes@, self.via@);
        let all = self.segments(store, process);
        assert forall|i: int| 0 <= i < all.len() implies (#[trigger] all[i]).from < node.len()
            && all[i].to < node.len() by {
            if i < chain.len() {
                assert(chain[i].from < node.len());
            } else {
                let q = if i < chain.len() + metal.len() {
                    self.metal_base() + 2 * (i - chain.len())
                } else {
                    self.via_base() + 2 * (i - chain.len() - metal.len())
                };
                assert(answers(self.taps.request@, node, self.taps.req_node@, q));
                assert(answers(self.taps.request@, node, self.taps.req_node@, q + 1));
            }
        }
    }

    /// Every segment of the wiring, in order.
    #[verifier::rlimit(60)]
    #[verifier::spinoff_prover]
    pub fn all_segments(
        &self,
        store: &GeometryStore,
        process: Process,
        Ghost(attached): Ghost<Seq<Tap>>,
    ) -> (r: Vec<Segment>)
        requires
            store.wf(),
            self.wired(store, attached),
            self.priced(store, process),
        ensures
            r@ == self.segments(store, process),
    {
        let mut out: Vec<Segment> = Vec::new();
        let count: usize = self.shapes.len();
        let ghost node = self.taps.node@;
        proof {
            lemma_end_taps(store, self.shapes@, self.metal@);
            lemma_end_taps(store, self.shapes@, self.via@);
        }
        let mut s: usize = 0;
        while s < count
            invariant
                s <= count == self.shapes@.len(),
                store.wf(),
                self.wired(store, attached),
                self.priced(store, process),
                out@ == chain_segments(
                    store,
                    process,
                    self.shapes@,
                    self.taps.node@,
                    self.taps.chain_start@[s as int] as nat,
                ),
            decreases count - s,
        {
            self.push_chain(store, process, s as u32, &mut out, Ghost(attached));
            s = s + 1;
        }
        let ghost chain = out@;
        let metal: usize = self.metal.len();
        let mut i: usize = 0;
        assert(out@ =~= chain + self.metal_segments(store, process).take(0));
        while i < metal
            invariant
                i <= metal == self.metal@.len(),
                count == self.shapes@.len(),
                store.wf(),
                self.wired(store, attached),
                self.priced(store, process),
                out@ == chain + self.metal_segments(store, process).take(i as int),
                self.attach_base() <= self.taps.req_node@.len() < 0xFFFF_FFFF,
            decreases metal - i,
        {
            let link = self.metal[i];
            assert(process.usable(self.metal@[i as int].layer));
            let a = store.poly_bbox(link.a);
            let b = store.poly_bbox(link.b);
            let on_a: i64 = tap_on(a, b);
            let on_b: i64 = tap_on(b, a);
            let length: i64 = run_length(tap_point(a, on_a), tap_point(b, on_b));
            let width: i64 = conductor_width(a, b);
            let requests: usize = self.taps.req_node.len();
            assert(count + 2 * i + 1 < requests);
            out.push(
                Segment {
                    from: self.taps.req_node[count + 2 * i],
                    to: self.taps.req_node[count + 2 * i + 1],
                    resistance: process.sheet_res_ohm_sq[link.layer.0 as usize].times(
                        squares(length, width),
                    ),
                    width,
                    length,
                    layer: link.layer,
                    kind: EdgeKind::Metal,
                },
            );
            i = i + 1;
            assert(out@ =~= chain + self.metal_segments(store, process).take(i as int));
        }
        let ghost upto = out@;
        let cuts: usize = self.via.len();
        let mut j: usize = 0;
        assert(out@ =~= upto + self.via_segments(store, process).take(0));
        while j < cuts
            invariant
                j <= cuts == self.via@.len(),
                metal == self.metal@.len(),
                count == self.shapes@.len(),
                store.wf(),
                self.wired(store, attached),
                self.priced(store, process),
                out@ == upto + self.via_segments(store, process).take(j as int),
                self.attach_base() <= self.taps.req_node@.len() < 0xFFFF_FFFF,
            decreases cuts - j,
        {
            let link = self.via[j];
            assert(process.usable(self.via@[j as int].layer));
            let a = store.poly_bbox(link.a);
            let b = store.poly_bbox(link.b);
            let requests: usize = self.taps.req_node.len();
            assert(count + 2 * metal + 2 * j + 1 < requests);
            out.push(
                Segment {
                    from: self.taps.req_node[count + 2 * metal + 2 * j],
                    to: self.taps.req_node[count + 2 * metal + 2 * j + 1],
                    resistance: process.sheet_res_ohm_sq[link.layer.0 as usize],
                    width: conductor_width(a, b),
                    length: via_length(
                        process,
                        store.poly_layer(link.a),
                        store.poly_layer(link.b),
                    ),
                    layer: link.layer,
                    kind: EdgeKind::Via { cuts: 1 },
                },
            );
            j = j + 1;
            assert(out@ =~= upto + self.via_segments(store, process).take(j as int));
        }
        assert(self.metal_segments(store, process).take(metal as int) =~= self.metal_segments(
            store,
            process,
        ));
        assert(self.via_segments(store, process).take(cuts as int) =~= self.via_segments(
            store,
            process,
        ));
        out
    }
}

} // verus!
