//! The layout bundle every rule reads, and the reporting helpers rules share.
use crate::geom::{cell_covered, disjoint, in_domain, Bbox, Point, Seg};
use crate::model::{LayerId, LayerRef, StrId};
use crate::report::{Measurement, Severity, Violation, Violations};
use crate::ring::{edge_of, inside};
use crate::store::{is_csr, DeviceTable, GeometryStore, NetTable};
use vstd::prelude::*;

verus! {

/// One layer's shapes as the geometry kernel hands them over: a box per
/// polygon, and every ring, holes included.
pub struct LayerShapes {
    pub boxes: Vec<Bbox>,
    /// `rings[ring_start[i] .. ring_start[i + 1]]` are polygon `i`'s outer ring
    /// and then its holes.
    pub ring_start: Vec<u32>,
    pub rings: Vec<Vec<Point>>,
}

impl LayerShapes {
    pub open spec fn wf(&self) -> bool {
        &&& forall|i: int| 0 <= i < self.boxes@.len() ==> (#[trigger] self.boxes@[i]).wf()
        &&& forall|i: int|
            0 <= i < self.rings@.len() ==> (#[trigger] self.rings@[i])@.len() >= 3
        &&& forall|i: int, j: int|
            0 <= i < self.rings@.len() && 0 <= j < self.rings@[i]@.len() ==> (
            #[trigger] self.rings@[i]@[j]).wf()
        &&& ring_edges(self.rings@).len() <= 0xFFFF_FFFF
        &&& is_csr(self.ring_start@, self.boxes@.len() as int, self.rings@.len() as int)
        &&& forall|i: int|
            0 <= i < self.boxes@.len() ==> self.ring_lo(i) < #[trigger] self.ring_hi(i)
        &&& forall|i: int, j: int|
            0 <= i < self.boxes@.len() && 0 <= j < self.outer(i).len() ==> self.boxes@[i].has(
                (#[trigger] self.outer(i)[j]).x as int,
                self.outer(i)[j].y as int,
            )
    }

    /// Polygon `i`'s outer ring, which its box bounds.
    pub open spec fn outer(&self, i: int) -> Seq<Point> {
        self.rings@[self.ring_lo(i)]@
    }

    pub open spec fn ring_lo(&self, i: int) -> int {
        self.ring_start@[i] as int
    }

    pub open spec fn ring_hi(&self, i: int) -> int {
        self.ring_start@[i + 1] as int
    }
}

/// The closed edges of a list of rings, ring after ring.
pub open spec fn ring_edges(rings: Seq<Vec<Point>>) -> Seq<Seg>
    decreases rings.len(),
{
    if rings.len() == 0 {
        Seq::empty()
    } else {
        let last = rings.last()@;
        ring_edges(rings.drop_last()) + Seq::new(last.len(), |i: int| edge_of(last, i))
    }
}

/// The rings of polygon `i` of a layer.
pub open spec fn polygon_rings(shapes: LayerShapes, i: int) -> Seq<Seq<Point>> {
    Seq::new(
        (shapes.ring_hi(i) - shapes.ring_lo(i)) as nat,
        |k: int| shapes.rings@[shapes.ring_lo(i) + k]@,
    )
}

/// A ring on a grid of twice the pitch, on which every unit cell has a middle.
pub open spec fn on_half_grid(ring: Seq<Point>) -> Seq<Point> {
    Seq::new(ring.len(), |i: int| Point { x: (2 * ring[i].x) as i64, y: (2 * ring[i].y) as i64 })
}

/// Whether the middle of a unit cell is inside a ring.
pub open spec fn cell_inside(ring: Seq<Point>, x: int, y: int) -> bool {
    inside(on_half_grid(ring), Point { x: (2 * x + 1) as i64, y: (2 * y + 1) as i64 })
}

/// Whether a unit cell is in polygon `i` of a layer: inside its outer ring, and inside
/// none of its holes.
pub open spec fn cell_in(shapes: LayerShapes, i: int, x: int, y: int) -> bool {
    &&& cell_inside(shapes.outer(i), x, y)
    &&& forall|k: int|
        shapes.ring_lo(i) < k < shapes.ring_hi(i) ==> !cell_inside(
            #[trigger] shapes.rings@[k]@,
            x,
            y,
        )
}

/// Whether a unit cell is in some polygon of a layer.
pub open spec fn cell_drawn(shapes: LayerShapes, x: int, y: int) -> bool {
    exists|i: int| 0 <= i < shapes.boxes@.len() && #[trigger] cell_in(shapes, i, x, y)
}

/// Whether boxes cover exactly what a layer's polygons draw, each cell once.
pub open spec fn merges(shapes: LayerShapes, rects: Seq<Bbox>) -> bool {
    &&& disjoint(rects)
    &&& forall|x: int, y: int|
        in_domain(x) && in_domain(y) ==> #[trigger] cell_covered(rects, x, y) == cell_drawn(
            shapes,
            x,
            y,
        )
}

/// What the geometry kernel derived from the store before the run.
pub struct Derived {
    /// The derived layers' names, and their shapes.
    pub name: Vec<StrId>,
    pub shapes: Vec<LayerShapes>,
    /// Each base layer's validated shapes; `None` where validation refused it.
    pub validated: Vec<Option<LayerShapes>>,
    /// Each base layer's covered region as disjoint boxes, which cover what the
    /// validated shapes draw; `None` where validation or merging refused it.
    pub merged: Vec<Option<Vec<Bbox>>>,
}

impl Derived {
    pub open spec fn wf(&self, layers: int) -> bool {
        &&& self.shapes@.len() == self.name@.len()
        &&& forall|i: int| 0 <= i < self.shapes@.len() ==> (#[trigger] self.shapes@[i]).wf()
        &&& self.validated@.len() == layers
        &&& forall|i: int|
            0 <= i < layers && (#[trigger] self.validated@[i]) is Some ==> (
            self.validated@[i]->0).wf()
        &&& self.merged@.len() == layers
        &&& forall|i: int, j: int|
            0 <= i < layers && self.merged@[i] is Some && 0 <= j < (self.merged@[i]->0)@.len()
                ==> (#[trigger] (self.merged@[i]->0)@[j]).wf()
        &&& forall|i: int|
            0 <= i < layers && (#[trigger] self.merged@[i]) is Some ==> (
            self.merged@[i]->0)@.len() <= 0xFFFF_FFFF
        &&& forall|i: int|
            0 <= i < layers && (#[trigger] self.merged@[i]) is Some ==> self.validated@[i] is Some
                && merges(self.validated@[i]->0, (self.merged@[i]->0)@)
    }

    /// Row `k` is the first one carrying a name.
    pub open spec fn names(&self, name: StrId, k: int) -> bool {
        &&& 0 <= k < self.name@.len()
        &&& self.name@[k] == name
        &&& forall|j: int| 0 <= j < k ==> #[trigger] self.name@[j] != name
    }

    /// The shapes of a derived layer, when the kernel produced one of that name.
    pub open spec fn lookup(&self, name: StrId) -> Option<LayerShapes> {
        if exists|k: int| self.names(name, k) {
            Some(self.shapes@[choose|k: int| self.names(name, k)])
        } else {
            None
        }
    }

    /// The shapes of a derived layer, when the kernel produced one of that name.
    pub fn get(&self, name: StrId) -> (r: Option<&LayerShapes>)
        requires
            exists|layers: int| self.wf(layers),
        ensures
            r is Some <==> self.lookup(name) is Some,
            r is Some ==> *r->0 == self.lookup(name)->0 && (*r->0).wf(),
    {
        let mut k: usize = 0;
        while k < self.name.len()
            invariant
                exists|layers: int| self.wf(layers),
                k <= self.name@.len(),
                forall|j: int| 0 <= j < k ==> #[trigger] self.name@[j] != name,
            decreases self.name@.len() - k,
        {
            if self.name[k] == name {
                proof {
                    assert(self.names(name, k as int));
                    let c = choose|c: int| self.names(name, c);
                    assert(self.names(name, c));
                    assert(c == k);
                }
                return Some(&self.shapes[k]);
            }
            k = k + 1;
        }
        None
    }
}

/// Everything a rule reads about the layout, borrowed for the length of one run.
#[derive(Clone, Copy)]
pub struct Design<'a> {
    pub store: &'a GeometryStore,
    pub derived: &'a Derived,
    pub nets: &'a NetTable,
    pub devices: &'a DeviceTable,
}

impl<'a> Design<'a> {
    pub open spec fn wf(self) -> bool {
        &&& self.store.wf()
        &&& self.derived.wf(self.store.layers())
        &&& self.nets.wf(self.store.polys())
        &&& self.devices.wf(self.store.polys())
    }
}

/// The store layer a rule row names, or `None` when it names a derived one.
pub fn base_layer(layer: LayerRef) -> (r: Option<LayerId>)
    ensures
        r == (match layer {
            LayerRef::Base(id) => Some(id),
            LayerRef::Named(_) => None::<LayerId>,
        }),
{
    match layer {
        LayerRef::Base(id) => Some(id),
        LayerRef::Named(_) => None,
    }
}

/// Whether a layer a rule names exists in the store, when it is a base layer.
pub open spec fn layer_exists(store: &GeometryStore, layer: LayerRef) -> bool {
    match layer {
        LayerRef::Base(id) => id.0 < store.layers(),
        LayerRef::Named(_) => true,
    }
}

/// The numbers below `n` a predicate keeps, ascending.
pub open spec fn kept(n: nat, keep: spec_fn(int) -> bool) -> Seq<u32>
    decreases n,
{
    if n == 0 {
        Seq::empty()
    } else if keep(n - 1) {
        kept((n - 1) as nat, keep).push((n - 1) as u32)
    } else {
        kept((n - 1) as nat, keep)
    }
}

/// Every kept number is below the bound and satisfies the predicate.
pub proof fn lemma_kept(n: nat, keep: spec_fn(int) -> bool)
    requires
        n <= 0x1_0000_0000,
    ensures
        kept(n, keep).len() <= n,
        forall|i: int|
            0 <= i < kept(n, keep).len() ==> #[trigger] kept(n, keep)[i] < n && keep(
                kept(n, keep)[i] as int,
            ),
    decreases n,
{
    if n > 0 {
        lemma_kept((n - 1) as nat, keep);
    }
}

/// A strictly ascending list holding exactly the kept numbers is the kept list.
pub proof fn lemma_kept_is(n: nat, keep: spec_fn(int) -> bool, s: Seq<u32>)
    requires
        n <= 0x1_0000_0000,
        forall|i: int, j: int| 0 <= i < j < s.len() ==> s[i] < s[j],
        forall|i: int| 0 <= i < s.len() ==> #[trigger] s[i] < n && keep(s[i] as int),
        forall|k: u32| k < n && #[trigger] keep(k as int) ==> s.contains(k),
    ensures
        s == kept(n, keep),
    decreases n,
{
    if n == 0 {
        assert(s.len() == 0) by {
            if s.len() > 0 {
                assert(s[0] < n);
            }
        }
        assert(s =~= kept(n, keep));
    } else {
        let m = (n - 1) as nat;
        if keep(n - 1) {
            assert(keep((n - 1) as u32 as int));
            assert(s.contains((n - 1) as u32));
            let x = choose|x: int| 0 <= x < s.len() && s[x] == (n - 1) as u32;
            assert(x == s.len() - 1) by {
                if x < s.len() - 1 {
                    assert(s[x] < s[s.len() - 1]);
                    assert(s[s.len() - 1] < n);
                }
            }
            let t = s.drop_last();
            assert forall|k: u32| k < m && #[trigger] keep(k as int) implies t.contains(k) by {
                let y = choose|y: int| 0 <= y < s.len() && s[y] == k;
                assert(t[y] == k);
            }
            assert forall|i: int| 0 <= i < t.len() implies #[trigger] t[i] < m && keep(
                t[i] as int,
            ) by {
                assert(s[i] < s[s.len() - 1]);
            }
            lemma_kept_is(m, keep, t);
            assert(s =~= t.push((n - 1) as u32));
        } else {
            assert forall|i: int| 0 <= i < s.len() implies #[trigger] s[i] < m && keep(
                s[i] as int,
            ) by {
                assert(s[i] < n && keep(s[i] as int));
            }
            lemma_kept_is(m, keep, s);
        }
    }
}

/// Keeping more rows of a column keeps at least as many of them.
pub proof fn lemma_kept_grows(m: nat, n: nat, keep: spec_fn(int) -> bool)
    requires
        m <= n,
    ensures
        kept(m, keep).len() <= kept(n, keep).len(),
    decreases n - m,
{
    if m < n {
        lemma_kept_grows(m, (n - 1) as nat, keep);
    }
}

/// The violation a per-net rule reports: at the net's lowest-numbered polygon.
pub open spec fn net_violation(
    design: Design,
    net: int,
    rule: StrId,
    severity: Severity,
    measured: Measurement,
    limit: Measurement,
) -> Seq<Violation> {
    let polys = design.nets.members(net);
    if polys.len() == 0 {
        Seq::empty()
    } else {
        seq![
            Violation {
                rule,
                layer: design.store.layer@[polys[0].0 as int],
                severity,
                at: design.store.vertex_at(polys[0].0 as int, 0),
                measured,
                limit,
                shapes: (polys[0], None),
            },
        ]
    }
}

/// The violations of a list of nets, in list order.
pub open spec fn net_violations(
    design: Design,
    nets: Seq<u32>,
    rule: StrId,
    severity: Severity,
    measured: Measurement,
    limit: Measurement,
) -> Seq<Violation>
    decreases nets.len(),
{
    if nets.len() == 0 {
        Seq::empty()
    } else {
        net_violations(design, nets.drop_last(), rule, severity, measured, limit) + net_violation(
            design,
            nets.last() as int,
            rule,
            severity,
            measured,
            limit,
        )
    }
}

/// Report one net at its lowest-numbered polygon; a net with no polygon has
/// nothing to report at.
pub fn push_net_violation(
    design: Design,
    net: u32,
    rule: StrId,
    severity: Severity,
    measured: Measurement,
    limit: Measurement,
    out: &mut Violations,
)
    requires
        design.wf(),
        net < design.nets.nets(),
    ensures
        final(out)@ == old(out)@ + net_violation(
            design,
            net as int,
            rule,
            severity,
            measured,
            limit,
        ),
{
    match design.nets.first_poly(net, Ghost(design.store.polys())) {
        Some(poly) => {
            let layer = design.store.poly_layer(poly);
            let at = design.store.first_vertex(poly);
            out.push(
                Violation { rule, layer, severity, at, measured, limit, shapes: (poly, None) },
            );
        },
        None => {},
    }
    assert(out@ =~= old(out)@ + net_violation(
        design,
        net as int,
        rule,
        severity,
        measured,
        limit,
    ));
}

/// Report one violation per flagged net.
pub fn push_net_violations(
    design: Design,
    flagged: &Vec<u32>,
    rule: StrId,
    severity: Severity,
    measured: Measurement,
    limit: Measurement,
    out: &mut Violations,
)
    requires
        design.wf(),
        forall|i: int| 0 <= i < flagged@.len() ==> #[trigger] flagged@[i] < design.nets.nets(),
    ensures
        final(out)@ == old(out)@ + net_violations(
            design,
            flagged@,
            rule,
            severity,
            measured,
            limit,
        ),
{
    let mut i: usize = 0;
    assert(out@ =~= old(out)@ + net_violations(
        design,
        flagged@.take(0),
        rule,
        severity,
        measured,
        limit,
    ));
    while i < flagged.len()
        invariant
            design.wf(),
            forall|i: int| 0 <= i < flagged@.len() ==> #[trigger] flagged@[i] < design.nets.nets(),
            i <= flagged@.len(),
            out@ == old(out)@ + net_violations(
                design,
                flagged@.take(i as int),
                rule,
                severity,
                measured,
                limit,
            ),
        decreases flagged@.len() - i,
    {
        push_net_violation(design, flagged[i], rule, severity, measured, limit, out);
        proof {
            let now = flagged@.take(i + 1);
            assert(now.drop_last() =~= flagged@.take(i as int));
            assert(
                out@ =~= old(out)@ + net_violations(design, now, rule, severity, measured, limit)
            );
        }
        i = i + 1;
    }
    assert(flagged@.take(i as int) =~= flagged@);
}

} // verus!
