//! The extracted layout: geometry rows, nets, devices and port names.
use crate::geom::{Bbox, Point};
use crate::model::{LayerId, NetId, PolyId, StrId, TerminalRole, NO_NET};
use vstd::prelude::*;

verus! {

/// Whether a start column splits `total` entries into `rows` runs.
pub open spec fn is_csr(start: Seq<u32>, rows: int, total: int) -> bool {
    &&& start.len() == rows + 1
    &&& start[0] == 0
    &&& start[rows] == total
    &&& forall|i: int, j: int| 0 <= i <= j <= rows ==> start[i] <= start[j]
}

/// The layout's polygons, grouped by layer.
pub struct GeometryStore {
    /// Rows `layer_start[l] .. layer_start[l + 1]` are layer `l`'s polygons.
    pub layer_start: Vec<u32>,
    /// The layer of each polygon.
    pub layer: Vec<LayerId>,
    /// The bounding box of each polygon.
    pub bbox: Vec<Bbox>,
    /// Vertices `vert_start[p] .. vert_start[p + 1]` are polygon `p`'s ring.
    pub vert_start: Vec<u32>,
    pub xs: Vec<i64>,
    pub ys: Vec<i64>,
}

impl GeometryStore {
    pub open spec fn polys(&self) -> int {
        self.layer@.len() as int
    }

    pub open spec fn layers(&self) -> int {
        self.layer_start@.len() - 1
    }

    pub open spec fn row_lo(&self, l: int) -> int {
        self.layer_start@[l] as int
    }

    pub open spec fn row_hi(&self, l: int) -> int {
        self.layer_start@[l + 1] as int
    }

    pub open spec fn ring_len(&self, p: int) -> int {
        self.vert_start@[p + 1] - self.vert_start@[p]
    }

    pub open spec fn vertex_at(&self, p: int, i: int) -> Point {
        Point {
            x: self.xs@[self.vert_start@[p] + i],
            y: self.ys@[self.vert_start@[p] + i],
        }
    }

    /// The closed ring of polygon `p`.
    pub open spec fn ring(&self, p: int) -> Seq<Point> {
        Seq::new(self.ring_len(p) as nat, |i: int| self.vertex_at(p, i))
    }

    pub open spec fn wf(&self) -> bool {
        &&& 1 <= self.layer_start@.len() <= 0xFFFF_FFFF
        &&& is_csr(self.layer_start@, self.layers(), self.polys())
        &&& self.polys() < 0xFFFF_FFFF
        &&& self.bbox@.len() == self.polys()
        &&& forall|l: int, p: int|
            0 <= l < self.layers() && self.row_lo(l) <= p < self.row_hi(l) ==> (
            #[trigger] self.layer@[p]).0 == #[trigger] ident(l)
        &&& forall|p: int|
            0 <= p < self.polys() ==> (#[trigger] self.layer@[p]).0 < self.layers()
        &&& is_csr(self.vert_start@, self.polys(), self.xs@.len() as int)
        &&& self.ys@.len() == self.xs@.len()
        &&& forall|p: int| 0 <= p < self.polys() ==> #[trigger] self.ring_len(p) >= 1
        &&& forall|p: int| 0 <= p < self.polys() ==> (#[trigger] self.bbox@[p]).wf()
        &&& forall|p: int, i: int|
            0 <= p < self.polys() && 0 <= i < self.ring_len(p) ==> self.bbox@[p].has(
                (#[trigger] self.vertex_at(p, i)).x as int,
                self.vertex_at(p, i).y as int,
            )
    }

    pub fn layer_count(&self) -> (r: usize)
        requires
            self.wf(),
        ensures
            r == self.layers(),
    {
        self.layer_start.len() - 1
    }

    /// The half-open row range of one layer.
    pub fn polys_on_layer(&self, layer: LayerId) -> (r: (u32, u32))
        requires
            self.wf(),
            layer.0 < self.layers(),
        ensures
            r.0 == self.row_lo(layer.0 as int),
            r.1 == self.row_hi(layer.0 as int),
            r.0 <= r.1 <= self.polys(),
    {
        let count: usize = self.layer_start.len();
        assert(layer.0 + 1 < count);
        (self.layer_start[layer.0 as usize], self.layer_start[layer.0 as usize + 1])
    }

    pub fn poly_layer(&self, poly: PolyId) -> (r: LayerId)
        requires
            self.wf(),
            poly.0 < self.polys(),
        ensures
            r == self.layer@[poly.0 as int],
            r.0 < self.layers(),
    {
        self.layer[poly.0 as usize]
    }

    pub fn poly_bbox(&self, poly: PolyId) -> (r: Bbox)
        requires
            self.wf(),
            poly.0 < self.polys(),
        ensures
            r == self.bbox@[poly.0 as int],
            r.wf(),
    {
        self.bbox[poly.0 as usize]
    }

    /// The ring of one polygon.
    pub fn poly_verts(&self, poly: PolyId) -> (r: Vec<Point>)
        requires
            self.wf(),
            poly.0 < self.polys(),
        ensures
            r@ == self.ring(poly.0 as int),
            r@.len() >= 1,
            forall|i: int| 0 <= i < r@.len() ==> (#[trigger] r@[i]).wf(),
    {
        let p: usize = poly.0 as usize;
        let lo: usize = self.vert_start[p] as usize;
        let hi: usize = self.vert_start[p + 1] as usize;
        assert(self.ring_len(p as int) >= 1);
        assert(self.bbox@[p as int].wf());
        let mut r: Vec<Point> = Vec::new();
        let mut i: usize = lo;
        while i < hi
            invariant
                self.wf(),
                poly.0 < self.polys(),
                p == poly.0,
                lo == self.vert_start@[p as int],
                hi == self.vert_start@[p + 1],
                lo <= i <= hi <= self.xs@.len(),
                self.bbox@[p as int].wf(),
                r@.len() == i - lo,
                forall|k: int|
                    0 <= k < r@.len() ==> #[trigger] r@[k] == self.vertex_at(p as int, k)
                        && r@[k].wf(),
            decreases hi - i,
        {
            assert(self.bbox@[p as int].has(
                self.vertex_at(p as int, i - lo).x as int,
                self.vertex_at(p as int, i - lo).y as int,
            ));
            r.push(Point { x: self.xs[i], y: self.ys[i] });
            i = i + 1;
        }
        assert(r@ =~= self.ring(poly.0 as int));
        r
    }

    /// The point a per-shape violation marks: the polygon's first vertex.
    pub fn first_vertex(&self, poly: PolyId) -> (r: Point)
        requires
            self.wf(),
            poly.0 < self.polys(),
        ensures
            r == self.vertex_at(poly.0 as int, 0),
    {
        let p: usize = poly.0 as usize;
        let lo: usize = self.vert_start[p] as usize;
        assert(self.ring_len(p as int) >= 1);
        Point { x: self.xs[lo], y: self.ys[lo] }
    }
}

/// The identity, as a trigger for facts about every layer.
pub open spec fn ident(i: int) -> int {
    i
}

/// Which net each polygon is on, and which polygons each net has.
pub struct NetTable {
    /// The net of each polygon, the same as the lists say; empty when nothing
    /// was extracted.
    pub net_of: Vec<NetId>,
    /// `poly[poly_start[n] .. poly_start[n + 1]]` are net `n`'s polygons,
    /// ascending.
    pub poly_start: Vec<u32>,
    pub poly: Vec<PolyId>,
}

impl NetTable {
    pub open spec fn nets(&self) -> int {
        if self.poly_start@.len() == 0 { 0 } else { self.poly_start@.len() - 1 }
    }

    pub open spec fn wf(&self, polys: int) -> bool {
        &&& self.nets() < NO_NET
        &&& self.poly_start@.len() > 0 ==> is_csr(
            self.poly_start@,
            self.nets(),
            self.poly@.len() as int,
        )
        &&& self.nets() > 0 ==> self.net_of@.len() == polys
        &&& forall|p: int|
            0 <= p < self.net_of@.len() ==> (#[trigger] self.net_of@[p]).0 < self.nets()
                || self.net_of@[p].0 == NO_NET
        &&& forall|k: int| 0 <= k < self.poly@.len() ==> (#[trigger] self.poly@[k]).0 < polys
        &&& forall|n: int, i: int, j: int|
            0 <= n < self.nets() && 0 <= i < j < (#[trigger] self.members(n)).len() ==> (
            #[trigger] self.members(n)[i]).0 < (#[trigger] self.members(n)[j]).0
        &&& forall|n: int, i: int|
            0 <= n < self.nets() && 0 <= i < (#[trigger] self.members(n)).len() ==> self.net_of@[(
            #[trigger] self.members(n)[i]).0 as int].0 == n
        &&& forall|p: int|
            0 <= p < self.net_of@.len() && (#[trigger] self.net_of@[p]).0 < self.nets()
                ==> self.members(self.net_of@[p].0 as int).contains(PolyId(p as u32))
    }

    /// The polygons of net `n`, ascending.
    pub open spec fn members(&self, n: int) -> Seq<PolyId> {
        self.poly@.subrange(self.poly_start@[n] as int, self.poly_start@[n + 1] as int)
    }

    pub fn net_count(&self) -> (r: usize)
        ensures
            r == self.nets(),
    {
        if self.poly_start.len() == 0 { 0 } else { self.poly_start.len() - 1 }
    }

    /// The lowest-numbered polygon of a net, when it has one.
    pub fn first_poly(&self, net: u32, Ghost(polys): Ghost<int>) -> (r: Option<PolyId>)
        requires
            self.wf(polys),
            net < self.nets(),
        ensures
            r == (if self.members(net as int).len() > 0 {
                Some(self.members(net as int)[0])
            } else {
                None::<PolyId>
            }),
            r is Some ==> (r->0).0 < polys,
    {
        let lo: usize = self.poly_start[net as usize] as usize;
        let hi: usize = self.poly_start[net as usize + 1] as usize;
        if lo < hi { Some(self.poly[lo]) } else { None }
    }

    /// The polygons of a net.
    pub fn polys_of(&self, net: u32, Ghost(polys): Ghost<int>) -> (r: Vec<PolyId>)
        requires
            self.wf(polys),
            net < self.nets(),
        ensures
            r@ == self.members(net as int),
            forall|k: int| 0 <= k < r@.len() ==> (#[trigger] r@[k]).0 < polys,
    {
        let lo: usize = self.poly_start[net as usize] as usize;
        let hi: usize = self.poly_start[net as usize + 1] as usize;
        let mut r: Vec<PolyId> = Vec::new();
        let mut i: usize = lo;
        while i < hi
            invariant
                lo <= i <= hi <= self.poly@.len(),
                self.wf(polys),
                r@ == self.poly@.subrange(lo as int, i as int),
            decreases hi - i,
        {
            r.push(self.poly[i]);
            i = i + 1;
            assert(r@ =~= self.poly@.subrange(lo as int, i as int));
        }
        assert forall|k: int| 0 <= k < r@.len() implies (#[trigger] r@[k]).0 < polys by {
            assert(r@[k] == self.poly@[lo + k]);
        }
        r
    }
}

/// The recognised devices and their terminals.
pub struct DeviceTable {
    /// Terminals `terminal_start[d] .. terminal_start[d + 1]` are device `d`'s.
    pub terminal_start: Vec<u32>,
    pub terminal_net: Vec<NetId>,
    pub terminal_role: Vec<TerminalRole>,
    /// The interned model name of each device.
    pub model: Vec<StrId>,
    /// The polygon that recognised each device.
    pub marker: Vec<PolyId>,
}

impl DeviceTable {
    pub open spec fn devices(&self) -> int {
        self.model@.len() as int
    }

    pub open spec fn wf(&self, polys: int) -> bool {
        &&& self.devices() < 0xFFFF_FFFF
        &&& self.terminal_role@.len() == self.terminal_net@.len()
        &&& self.marker@.len() == self.devices()
        &&& self.devices() > 0 || self.terminal_start@.len() > 0 ==> is_csr(
            self.terminal_start@,
            self.devices(),
            self.terminal_net@.len() as int,
        )
        &&& self.terminal_start@.len() == 0 ==> self.terminal_net@.len() == 0
        &&& forall|d: int| 0 <= d < self.devices() ==> (#[trigger] self.marker@[d]).0 < polys
    }

    pub open spec fn term_lo(&self, d: int) -> int {
        self.terminal_start@[d] as int
    }

    pub open spec fn term_hi(&self, d: int) -> int {
        self.terminal_start@[d + 1] as int
    }

    /// Whether device `d` has a terminal on a net.
    pub open spec fn on_net(&self, d: int, net: NetId) -> bool {
        exists|t: int|
            self.term_lo(d) <= t < self.term_hi(d) && #[trigger] self.terminal_net@[t] == net
    }

    pub fn len(&self) -> (r: usize)
        ensures
            r == self.devices(),
    {
        self.model.len()
    }

    /// The nets of device `d`'s terminals.
    pub open spec fn nets_of(&self, d: int) -> Seq<NetId> {
        self.terminal_net@.subrange(self.term_lo(d), self.term_hi(d))
    }

    /// The nets of a device's terminals.
    pub fn terminal_nets(&self, device: usize, Ghost(polys): Ghost<int>) -> (r: Vec<NetId>)
        requires
            self.wf(polys),
            device < self.devices(),
        ensures
            r@ == self.nets_of(device as int),
    {
        let lo: usize = self.terminal_start[device] as usize;
        let hi: usize = self.terminal_start[device + 1] as usize;
        let mut r: Vec<NetId> = Vec::new();
        let mut t: usize = lo;
        while t < hi
            invariant
                lo <= t <= hi <= self.terminal_net@.len(),
                r@ == self.terminal_net@.subrange(lo as int, t as int),
            decreases hi - t,
        {
            r.push(self.terminal_net[t]);
            t = t + 1;
            assert(r@ =~= self.terminal_net@.subrange(lo as int, t as int));
        }
        r
    }

    /// Whether a device has a terminal on a net.
    pub fn is_on(&self, device: usize, net: NetId, Ghost(polys): Ghost<int>) -> (r: bool)
        requires
            self.wf(polys),
            device < self.devices(),
        ensures
            r == self.on_net(device as int, net),
    {
        let lo: usize = self.terminal_start[device] as usize;
        let hi: usize = self.terminal_start[device + 1] as usize;
        let mut t: usize = lo;
        while t < hi
            invariant
                self.wf(polys),
                device < self.devices(),
                lo == self.term_lo(device as int),
                hi == self.term_hi(device as int),
                lo <= t <= hi <= self.terminal_net@.len(),
                forall|k: int| lo <= k < t ==> #[trigger] self.terminal_net@[k] != net,
            decreases hi - t,
        {
            if self.terminal_net[t] == net {
                return true;
            }
            t = t + 1;
        }
        false
    }
}

/// The names the layout labels its nets with, one row per named net.
pub struct PortTable {
    pub net: Vec<NetId>,
    pub name: Vec<StrId>,
}

impl PortTable {
    pub open spec fn wf(&self) -> bool {
        self.net@.len() == self.name@.len()
    }

    /// The name of a net: the first row labelling it.
    pub open spec fn label(&self, net: NetId, k: int) -> bool {
        &&& 0 <= k < self.net@.len()
        &&& self.net@[k] == net
        &&& forall|j: int| 0 <= j < k ==> #[trigger] self.net@[j] != net
    }

    /// The name of a net, where the layout labels it.
    pub open spec fn name_spec(&self, net: NetId) -> Option<StrId> {
        if exists|k: int| self.label(net, k) {
            Some(self.name@[choose|k: int| self.label(net, k)])
        } else {
            None
        }
    }

    /// The name of a net, where the layout labels it.
    pub fn name_of(&self, net: NetId) -> (r: Option<StrId>)
        requires
            self.wf(),
        ensures
            r == self.name_spec(net),
    {
        let mut k: usize = 0;
        while k < self.net.len()
            invariant
                self.wf(),
                k <= self.net@.len(),
                forall|j: int| 0 <= j < k ==> #[trigger] self.net@[j] != net,
            decreases self.net@.len() - k,
        {
            if self.net[k] == net {
                proof {
                    assert(self.label(net, k as int));
                    let c = choose|c: int| self.label(net, c);
                    assert(self.label(net, c));
                    assert(c == k);
                }
                return Some(self.name[k]);
            }
            k = k + 1;
        }
        None
    }
}

} // verus!
