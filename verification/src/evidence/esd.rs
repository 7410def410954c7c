//! Pads, clamps, guard rings, and the discharge paths between them.
use crate::evidence::names::{contains, decimal, holds, lowercase, lowered, numbered};
use crate::evidence::netlist::{ExtractedNetlist, MosDevice, Technology, OFF_NET};
use crate::evidence::rails::PowerNetClassification;
use crate::evidence::substrate::{is_tap_layer, taps_named, well_named, well_of};
use crate::geom::{min_int, Bbox};
use crate::model::{LayerId, PolyId};
use crate::number::Number;
use crate::order::{in_order, lemma_ordered, sort};
use crate::ring::{area2, doubled_area};
use crate::store::GeometryStore;
use vstd::prelude::*;

verus! {

/// An I/O pad told by its size.
pub struct IoPad {
    pub net_id: u32,
    pub name: String,
    pub bbox: Bbox,
    pub direction: PadDirection,
}

#[derive(Clone, Copy, Debug, PartialEq, Eq, Structural)]
pub enum PadDirection {
    Input,
    Output,
    Bidirectional,
    Power,
    Ground,
    Unknown,
}

/// An ESD clamp device, told by its class.
pub struct EsdClamp {
    pub device_index: usize,
    pub clamp_type: String,
    pub pad_net: u32,
    pub rail_net: u32,
}

/// A discharge path from a pad to a rail.
pub struct EsdPath {
    pub pad: String,
    pub rail: String,
    pub resistance_ohm: Number,
    pub devices: Vec<usize>,
    pub complete: bool,
}

/// A guard ring.
pub struct GuardRing {
    pub cell_name: String,
    pub ring_layer: LayerId,
    pub width_nm: i32,
    pub continuous: bool,
    pub biased: bool,
    pub tap_count: u32,
}

/// All ESD evidence a layout shows.
pub struct EsdEvidence {
    pub pads: Vec<IoPad>,
    pub clamps: Vec<EsdClamp>,
    pub paths: Vec<EsdPath>,
    pub guard_rings: Vec<GuardRing>,
}

/// The name of a net, or its number where it has none.
pub open spec fn net_label(ext: &ExtractedNetlist, net: u32) -> Seq<char> {
    match ext.net_names.name_spec(net) {
        Some(name) => name,
        None => "net_"@ + decimal(net as nat),
    }
}

fn label_of(ext: &ExtractedNetlist, net: u32) -> (r: String)
    requires
        ext.net_names.wf(),
    ensures
        r@ == net_label(ext, net),
{
    match ext.net_names.row_of(net) {
        Some(k) => ext.net_names.name[k].clone(),
        None => numbered("net_", net as u64),
    }
}

/// The areas of the boxes of `n` polygons from `from` on.
pub open spec fn box_areas(store: &GeometryStore, from: int, n: nat) -> Seq<i128> {
    Seq::new(n, |i: int| store.bbox@[from + i].spec_area() as i128)
}

/// A pad is at least this large: a hundred times the median box, and not empty.
pub open spec fn pad_area(areas: Seq<i128>) -> int {
    let hundred = 100 * in_order(areas)[areas.len() as int / 2];
    if hundred < 1 { 1 } else { hundred }
}

/// The pads among the first `n` polygons from `from` on: large enough, and on a
/// net.
pub open spec fn pads_among(
    store: &GeometryStore,
    ext: &ExtractedNetlist,
    least: int,
    from: int,
    n: nat,
) -> Seq<int>
    decreases n,
{
    if n == 0 {
        Seq::empty()
    } else {
        let p = from + n - 1;
        let before = pads_among(store, ext, least, from, (n - 1) as nat);
        if store.bbox@[p].spec_area() >= least && ext.net_of_poly@[p] != OFF_NET {
            before.push(p)
        } else {
            before
        }
    }
}

/// How many polygons a layer has.
pub open spec fn rows_of(store: &GeometryStore, layer: LayerId) -> nat {
    (store.row_hi(layer.0 as int) - store.row_lo(layer.0 as int)) as nat
}

/// The pads of a layer.
pub open spec fn pads_on(
    store: &GeometryStore,
    ext: &ExtractedNetlist,
    layer: LayerId,
) -> Seq<int> {
    let from = store.row_lo(layer.0 as int);
    let n = rows_of(store, layer);
    if n == 0 {
        Seq::empty()
    } else {
        pads_among(store, ext, pad_area(box_areas(store, from, n)), from, n)
    }
}

/// The pads of a layout: those of its top conductor.
pub open spec fn pads_of(store: &GeometryStore, tech: &Technology, ext: &ExtractedNetlist) -> Seq<
    int,
> {
    if tech.conductors@.len() == 0 {
        Seq::empty()
    } else {
        pads_on(store, ext, tech.conductors@.last())
    }
}

/// Which way a pad on a net works, as far as its net tells.
pub open spec fn direction_of(cls: &PowerNetClassification, net: u32) -> PadDirection {
    if cls.powers(net) {
        PadDirection::Power
    } else if cls.grounds(net) {
        PadDirection::Ground
    } else {
        PadDirection::Unknown
    }
}

/// Whether a pad is the one of a polygon.
pub open spec fn is_pad(
    store: &GeometryStore,
    ext: &ExtractedNetlist,
    cls: &PowerNetClassification,
    pad: &IoPad,
    p: int,
) -> bool {
    let net = ext.net_of_poly@[p];
    &&& pad.net_id == net
    &&& pad.name@ == net_label(ext, net)
    &&& pad.bbox == store.bbox@[p]
    &&& pad.direction == direction_of(cls, net)
}

pub open spec fn are_pads(
    store: &GeometryStore,
    ext: &ExtractedNetlist,
    cls: &PowerNetClassification,
    pads: Seq<IoPad>,
    of: Seq<int>,
) -> bool {
    &&& pads.len() == of.len()
    &&& forall|i: int|
        0 <= i < pads.len() ==> is_pad(store, ext, cls, #[trigger] &pads[i], of[i])
}

/// Pads: large top-metal polygons on a net.
fn find_io_pads(
    store: &GeometryStore,
    tech: &Technology,
    ext: &ExtractedNetlist,
    cls: &PowerNetClassification,
) -> (r: Vec<IoPad>)
    requires
        store.wf(),
        tech.wf(store),
        ext.wf(store),
    ensures
        are_pads(store, ext, cls, r@, pads_of(store, tech, ext)),
{
    let mut r: Vec<IoPad> = Vec::new();
    let count: usize = tech.conductors.len();
    if count == 0 {
        return r;
    }
    let top = tech.conductors[count - 1];
    assert(tech.conductors@[count - 1].0 < store.layers());
    let (lo, hi) = store.polys_on_layer(top);
    if lo == hi {
        return r;
    }
    let ghost n = (hi - lo) as nat;
    let mut areas: Vec<i128> = Vec::new();
    let mut p: u32 = lo;
    while p < hi
        invariant
            lo <= p <= hi <= store.polys(),
            store.wf(),
            n == hi - lo,
            areas@ == box_areas(store, lo as int, n).take(p - lo),
        decreases hi - p,
    {
        areas.push(store.poly_bbox(PolyId(p)).area());
        p = p + 1;
        assert(areas@ =~= box_areas(store, lo as int, n).take(p - lo));
    }
    assert(areas@ =~= box_areas(store, lo as int, n));
    let order = sort(&areas);
    proof {
        lemma_ordered(areas@);
        let m = order@.len() as int / 2;
        assert(areas@.contains(order@[m]));
        let k = choose|k: int| 0 <= k < areas@.len() && areas@[k] == order@[m];
        assert(store.bbox@[lo + k].wf());
        lemma_area(store.bbox@[lo + k]);
    }
    let hundred: i128 = 100 * order[order.len() / 2];
    let least: i128 = if hundred < 1 { 1 } else { hundred };
    let mut q: u32 = lo;
    while q < hi
        invariant
            lo <= q <= hi <= store.polys(),
            store.wf(),
            ext.wf(store),
            are_pads(
                store,
                ext,
                cls,
                r@,
                pads_among(store, ext, least as int, lo as int, (q - lo) as nat),
            ),
        decreases hi - q,
    {
        let ghost was = r@;
        let ghost then = pads_among(store, ext, least as int, lo as int, (q - lo) as nat);
        let bbox = store.poly_bbox(PolyId(q));
        let net: u32 = ext.net_of_poly[q as usize];
        if bbox.area() >= least && net != OFF_NET {
            let name = label_of(ext, net);
            let direction = if cls.is_power_net(net) {
                PadDirection::Power
            } else if cls.is_ground_net(net) {
                PadDirection::Ground
            } else {
                PadDirection::Unknown
            };
            r.push(IoPad { net_id: net, name, bbox, direction });
        }
        proof {
            let now = pads_among(store, ext, least as int, lo as int, (q + 1 - lo) as nat);
            assert forall|i: int| 0 <= i < r@.len() implies is_pad(
                store,
                ext,
                cls,
                #[trigger] &r@[i],
                now[i],
            ) by {
                if i < was.len() {
                    assert(is_pad(store, ext, cls, &was[i], then[i]));
                }
            }
        }
        q = q + 1;
    }
    r
}

proof fn lemma_area(b: Bbox)
    requires
        b.wf(),
    ensures
        0 <= b.spec_area() <= 0x10_0000_0000_0000_0000_0000_0000,
{
    assert(0 <= (b.xhi - b.xlo) * (b.yhi - b.ylo) <= 0x10_0000_0000_0000_0000_0000_0000)
        by (nonlinear_arith)
        requires
            0 <= b.xhi - b.xlo <= 0x200_0000_0000,
            0 <= b.yhi - b.ylo <= 0x200_0000_0000,
    ;
}

/// Whether a net is a rail of either kind.
pub open spec fn on_rail(cls: &PowerNetClassification, net: u32) -> bool {
    cls.powers(net) || cls.grounds(net)
}

/// The pad side of a clamp: its first terminal on a net that is no rail, in the
/// order source, drain, gate, body.
pub open spec fn pad_side(cls: &PowerNetClassification, d: &MosDevice) -> u32 {
    if !on_rail(cls, d.source) && d.source != OFF_NET {
        d.source
    } else if !on_rail(cls, d.drain) && d.drain != OFF_NET {
        d.drain
    } else if !on_rail(cls, d.gate) && d.gate != OFF_NET {
        d.gate
    } else if !on_rail(cls, d.body) && d.body != OFF_NET {
        d.body
    } else {
        d.source
    }
}

/// The rail side of a clamp: its first terminal on a rail, in the same order.
pub open spec fn rail_side(cls: &PowerNetClassification, d: &MosDevice) -> u32 {
    if on_rail(cls, d.source) {
        d.source
    } else if on_rail(cls, d.drain) {
        d.drain
    } else if on_rail(cls, d.gate) {
        d.gate
    } else if on_rail(cls, d.body) {
        d.body
    } else {
        d.drain
    }
}

/// Whether a lower-case class is that of a clamp.
pub open spec fn clamp_named(lower: Seq<char>) -> bool {
    holds(lower, "esd"@) || holds(lower, "clamp"@)
}

/// Whether a lower-case class is that of a clamp.
pub fn is_clamp_class(lower: &str) -> (r: bool)
    ensures
        r == clamp_named(lower@),
{
    contains(lower, "esd") || contains(lower, "clamp")
}

/// Whether a device is a clamp.
pub open spec fn clamps(d: &MosDevice) -> bool {
    d.device_class is Some && clamp_named(lowered((d.device_class->0)@))
}

/// The clamps among the first `n` devices.
pub open spec fn clamps_to(ext: &ExtractedNetlist, n: nat) -> Seq<int>
    decreases n,
{
    if n == 0 {
        Seq::empty()
    } else {
        let before = clamps_to(ext, (n - 1) as nat);
        if clamps(&ext.devices@[n - 1]) { before.push(n - 1) } else { before }
    }
}

/// Whether a clamp is the one of a device.
pub open spec fn is_clamp(
    ext: &ExtractedNetlist,
    cls: &PowerNetClassification,
    clamp: &EsdClamp,
    d: int,
) -> bool {
    let device = &ext.devices@[d];
    &&& clamp.device_index == d
    &&& clamp.clamp_type@ == lowered((device.device_class->0)@)
    &&& clamp.pad_net == pad_side(cls, device)
    &&& clamp.rail_net == rail_side(cls, device)
}

pub open spec fn are_clamps(
    ext: &ExtractedNetlist,
    cls: &PowerNetClassification,
    clamps: Seq<EsdClamp>,
    of: Seq<int>,
) -> bool {
    &&& clamps.len() == of.len()
    &&& forall|i: int|
        0 <= i < clamps.len() ==> is_clamp(ext, cls, #[trigger] &clamps[i], of[i])
}

fn is_rail(cls: &PowerNetClassification, net: u32) -> (r: bool)
    ensures
        r == on_rail(cls, net),
{
    cls.is_power_net(net) || cls.is_ground_net(net)
}

/// Clamps, told by a class that holds "esd" or "clamp".
fn find_esd_clamps(ext: &ExtractedNetlist, cls: &PowerNetClassification) -> (r: Vec<EsdClamp>)
    ensures
        are_clamps(ext, cls, r@, clamps_to(ext, ext.devices@.len())),
{
    let mut r: Vec<EsdClamp> = Vec::new();
    let mut n: usize = 0;
    while n < ext.devices.len()
        invariant
            n <= ext.devices@.len(),
            are_clamps(ext, cls, r@, clamps_to(ext, n as nat)),
        decreases ext.devices@.len() - n,
    {
        let ghost was = r@;
        let ghost then = clamps_to(ext, n as nat);
        let d = &ext.devices[n];
        match &d.device_class {
            Some(class) => {
                let lower = lowercase(class.as_str());
                if is_clamp_class(lower.as_str()) {
                    let pad_net: u32 = if !is_rail(cls, d.source) && d.source != OFF_NET {
                        d.source
                    } else if !is_rail(cls, d.drain) && d.drain != OFF_NET {
                        d.drain
                    } else if !is_rail(cls, d.gate) && d.gate != OFF_NET {
                        d.gate
                    } else if !is_rail(cls, d.body) && d.body != OFF_NET {
                        d.body
                    } else {
                        d.source
                    };
                    let rail_net: u32 = if is_rail(cls, d.source) {
                        d.source
                    } else if is_rail(cls, d.drain) {
                        d.drain
                    } else if is_rail(cls, d.gate) {
                        d.gate
                    } else if is_rail(cls, d.body) {
                        d.body
                    } else {
                        d.drain
                    };
                    r.push(EsdClamp { device_index: n, clamp_type: lower, pad_net, rail_net });
                }
            },
            None => {},
        }
        proof {
            let now = clamps_to(ext, (n + 1) as nat);
            assert forall|i: int| 0 <= i < r@.len() implies is_clamp(
                ext,
                cls,
                #[trigger] &r@[i],
                now[i],
            ) by {
                if i < was.len() {
                    assert(is_clamp(ext, cls, &was[i], then[i]));
                }
            }
        }
        n = n + 1;
    }
    r
}

/// How ring-like a polygon is: its box's perimeter squared over its area.
pub open spec fn ring_ratio(store: &GeometryStore, p: int) -> Number {
    let b = store.bbox@[p];
    let doubled = doubled_area(store.ring(p));
    let area = (if doubled < 0 { -doubled } else { doubled }) / 2;
    let around = Number { bits: 0x4000_0000_0000_0000 }.times_spec(
        Number::of_spec((b.xhi - b.xlo) + (b.yhi - b.ylo)),
    );
    around.times_spec(around).over_spec(Number::of_spec(if area < 1 { 1 } else { area }))
}

/// A polygon more ring-like than this is ring-shaped.
pub const RING_RATIO: u32 = 50;

/// Whether a lower-case layer name is that of a well or a tap layer.
pub open spec fn rings_named(lower: Seq<char>) -> bool {
    well_named(lower) is Some || taps_named(lower)
}

/// Whether a lower-case layer name is that of a well or a tap layer, where guard
/// rings are drawn.
pub fn is_ring_layer(lower: &str) -> (r: bool)
    ensures
        r == rings_named(lower@),
{
    well_of(lower).is_some() || is_tap_layer(lower)
}

/// Whether polygon `q` is a transistor's gate: on a gate layer, and on a net that
/// gates a device.
pub open spec fn is_gate(
    store: &GeometryStore,
    tech: &Technology,
    ext: &ExtractedNetlist,
    q: int,
) -> bool {
    &&& exists|m: int|
        0 <= m < tech.mos_rules@.len() && (#[trigger] tech.mos_rules@[m]).gate_layer
            == store.layer@[q]
    &&& exists|d: int|
        0 <= d < ext.devices@.len() && (#[trigger] ext.devices@[d]).gate == ext.net_of_poly@[q]
}

/// Whether a polygon's box holds another polygon that is a transistor's gate.
pub open spec fn rings_device(
    store: &GeometryStore,
    tech: &Technology,
    ext: &ExtractedNetlist,
    p: int,
) -> bool {
    exists|q: int|
        0 <= q < store.polys() && q != p && is_gate(store, tech, ext, q) && store.bbox@[p].holds(
            #[trigger] store.bbox@[q],
        )
}

/// Whether a polygon is a guard ring: ring-shaped, and round a device.
pub open spec fn guards(
    store: &GeometryStore,
    tech: &Technology,
    ext: &ExtractedNetlist,
    p: int,
) -> bool {
    Number::of_spec(RING_RATIO as int).lt(ring_ratio(store, p)) && rings_device(store, tech, ext, p)
}

/// The rings among the first `n` polygons from `from` on.
pub open spec fn rings_among(
    store: &GeometryStore,
    tech: &Technology,
    ext: &ExtractedNetlist,
    layer: LayerId,
    from: int,
    n: nat,
) -> Seq<(LayerId, int)>
    decreases n,
{
    if n == 0 {
        Seq::empty()
    } else {
        let p = from + n - 1;
        let before = rings_among(store, tech, ext, layer, from, (n - 1) as nat);
        if guards(store, tech, ext, p) {
            before.push((layer, p))
        } else {
            before
        }
    }
}

/// The rings on the well and tap layers among the first `n` conductor layers.
pub open spec fn rings_to(
    store: &GeometryStore,
    tech: &Technology,
    ext: &ExtractedNetlist,
    n: nat,
) -> Seq<(LayerId, int)>
    decreases n,
{
    if n == 0 {
        Seq::empty()
    } else {
        let layer = tech.conductors@[n - 1];
        let before = rings_to(store, tech, ext, (n - 1) as nat);
        if rings_named(lowered(tech.layer_name@[layer.0 as int]@)) {
            before + rings_among(
                store,
                tech,
                ext,
                layer,
                store.row_lo(layer.0 as int),
                rows_of(store, layer),
            )
        } else {
            before
        }
    }
}

/// Whether a ring is the one of a polygon. A ring on a ground is biased.
pub open spec fn is_ring(
    store: &GeometryStore,
    tech: &Technology,
    ext: &ExtractedNetlist,
    cls: &PowerNetClassification,
    ring: &GuardRing,
    of: (LayerId, int),
) -> bool {
    let b = store.bbox@[of.1];
    let biased = cls.grounds(ext.net_of_poly@[of.1]);
    &&& ring.cell_name@ == "ring_p"@ + decimal(of.1 as nat)
    &&& ring.ring_layer == of.0
    &&& ring.width_nm == Number::of_spec(min_int(b.xhi - b.xlo, b.yhi - b.ylo)).times_spec(
        tech.dbu_nm,
    ).i32_spec()
    &&& ring.continuous
    &&& ring.biased == biased
    &&& ring.tap_count == (if biased { 1int } else { 0int })
}

pub open spec fn are_rings(
    store: &GeometryStore,
    tech: &Technology,
    ext: &ExtractedNetlist,
    cls: &PowerNetClassification,
    rings: Seq<GuardRing>,
    of: Seq<(LayerId, int)>,
) -> bool {
    &&& rings.len() == of.len()
    &&& forall|i: int|
        0 <= i < rings.len() ==> is_ring(store, tech, ext, cls, #[trigger] &rings[i], of[i])
}

fn measure_ring(store: &GeometryStore, p: u32) -> (r: Number)
    requires
        store.wf(),
        p < store.polys(),
    ensures
        r == ring_ratio(store, p as int),
{
    let b = store.poly_bbox(PolyId(p));
    let verts = store.poly_verts(PolyId(p));
    let doubled: i128 = area2(&verts);
    let area: i128 = if doubled < 0 { -doubled / 2 } else { doubled / 2 };
    let span: i64 = (b.xhi - b.xlo) + (b.yhi - b.ylo);
    let around = Number { bits: 0x4000_0000_0000_0000 }.times(Number::of(span as i128));
    around.times(around).over(Number::of(if area < 1 { 1 } else { area }))
}

fn gate_polygon(
    store: &GeometryStore,
    tech: &Technology,
    ext: &ExtractedNetlist,
    q: u32,
) -> (r: bool)
    requires
        store.wf(),
        ext.wf(store),
        q < store.polys(),
    ensures
        r == is_gate(store, tech, ext, q as int),
{
    let layer = store.poly_layer(PolyId(q));
    let net: u32 = ext.net_of_poly[q as usize];
    let mut m: usize = 0;
    let mut drawn: bool = false;
    while m < tech.mos_rules.len() && !drawn
        invariant
            m <= tech.mos_rules@.len(),
            layer == store.layer@[q as int],
            drawn == exists|k: int|
                0 <= k < m && (#[trigger] tech.mos_rules@[k]).gate_layer == layer,
        decreases tech.mos_rules@.len() - m,
    {
        if tech.mos_rules[m].gate_layer == layer {
            assert(tech.mos_rules@[m as int].gate_layer == layer);
            drawn = true;
        }
        m = m + 1;
    }
    if !drawn {
        return false;
    }
    let mut d: usize = 0;
    while d < ext.devices.len()
        invariant
            d <= ext.devices@.len(),
            net == ext.net_of_poly@[q as int],
            exists|m: int|
                0 <= m < tech.mos_rules@.len() && (#[trigger] tech.mos_rules@[m]).gate_layer
                    == store.layer@[q as int],
            forall|k: int| 0 <= k < d ==> (#[trigger] ext.devices@[k]).gate != net,
        decreases ext.devices@.len() - d,
    {
        if ext.devices[d].gate == net {
            assert(ext.devices@[d as int].gate == net);
            return true;
        }
        d = d + 1;
    }
    false
}

/// Whether a polygon's box holds another polygon that is a transistor's gate.
fn holds_device(
    store: &GeometryStore,
    tech: &Technology,
    ext: &ExtractedNetlist,
    p: u32,
) -> (r: bool)
    requires
        store.wf(),
        ext.wf(store),
        p < store.polys(),
    ensures
        r == rings_device(store, tech, ext, p as int),
{
    let b = store.poly_bbox(PolyId(p));
    let mut q: u32 = 0;
    let count: usize = store.bbox.len();
    while (q as usize) < count
        invariant
            store.wf(),
            ext.wf(store),
            p < store.polys(),
            count == store.polys(),
            q <= count,
            b == store.bbox@[p as int],
            forall|k: int|
                0 <= k < q ==> !(k != p && is_gate(store, tech, ext, k) && b.holds(
                    #[trigger] store.bbox@[k],
                )),
        decreases count - q,
    {
        if q != p && b.contains(store.bbox[q as usize]) && gate_polygon(store, tech, ext, q) {
            assert(b.holds(store.bbox@[q as int]));
            return true;
        }
        q = q + 1;
    }
    false
}

/// Guard rings: ring-shaped polygons on well and tap layers, with much perimeter for
/// their area and a device inside.
fn find_guard_rings(
    store: &GeometryStore,
    tech: &Technology,
    ext: &ExtractedNetlist,
    cls: &PowerNetClassification,
) -> (r: Vec<GuardRing>)
    requires
        store.wf(),
        tech.wf(store),
        ext.wf(store),
    ensures
        are_rings(store, tech, ext, cls, r@, rings_to(store, tech, ext, tech.conductors@.len())),
{
    let mut r: Vec<GuardRing> = Vec::new();
    let mut n: usize = 0;
    while n < tech.conductors.len()
        invariant
            n <= tech.conductors@.len(),
            store.wf(),
            tech.wf(store),
            ext.wf(store),
            are_rings(store, tech, ext, cls, r@, rings_to(store, tech, ext, n as nat)),
        decreases tech.conductors@.len() - n,
    {
        let layer = tech.conductors[n];
        assert(tech.conductors@[n as int].0 < store.layers());
        let lower = lowercase(tech.layer_name[layer.0 as usize].as_str());
        if !is_ring_layer(lower.as_str()) {
            n = n + 1;
            continue;
        }
        let (lo, hi) = store.polys_on_layer(layer);
        let ghost before = rings_to(store, tech, ext, n as nat);
        let mut p: u32 = lo;
        assert(before + rings_among(store, tech, ext, layer, lo as int, 0) =~= before);
        while p < hi
            invariant
                lo <= p <= hi <= store.polys(),
                store.wf(),
                tech.wf(store),
                ext.wf(store),
                are_rings(
                    store,
                    tech,
                    ext,
                    cls,
                    r@,
                    before + rings_among(store, tech, ext, layer, lo as int, (p - lo) as nat),
                ),
            decreases hi - p,
        {
            let ghost was = r@;
            let ghost then = before + rings_among(
                store,
                tech,
                ext,
                layer,
                lo as int,
                (p - lo) as nat,
            );
            let ratio = measure_ring(store, p);
            if Number::of(RING_RATIO as i128).less(ratio) && holds_device(store, tech, ext, p) {
                let b = store.poly_bbox(PolyId(p));
                let biased: bool = cls.is_ground_net(ext.net_of_poly[p as usize]);
                let w: i64 = b.xhi - b.xlo;
                let h: i64 = b.yhi - b.ylo;
                let narrow: i64 = if w < h { w } else { h };
                r.push(
                    GuardRing {
                        cell_name: numbered("ring_p", p as u64),
                        ring_layer: layer,
                        width_nm: Number::of(narrow as i128).times(tech.dbu_nm).to_i32(),
                        continuous: true,
                        biased,
                        tap_count: if biased { 1 } else { 0 },
                    },
                );
                assert(before + rings_among(store, tech, ext, layer, lo as int, (p + 1 - lo) as nat)
                    =~= then.push((layer, p as int)));
            } else {
                assert(before + rings_among(
                    store,
                    tech,
                    ext,
                    layer,
                    lo as int,
                    (p + 1 - lo) as nat,
                ) =~= then);
            }
            proof {
                let now = before + rings_among(
                    store,
                    tech,
                    ext,
                    layer,
                    lo as int,
                    (p + 1 - lo) as nat,
                );
                assert forall|i: int| 0 <= i < r@.len() implies is_ring(
                    store,
                    tech,
                    ext,
                    cls,
                    #[trigger] &r@[i],
                    now[i],
                ) by {
                    if i < was.len() {
                        assert(is_ring(store, tech, ext, cls, &was[i], then[i]));
                    }
                }
            }
            p = p + 1;
        }
        n = n + 1;
    }
    r
}

/// Whether a path needs showing for a pad: a rail's own pad has none.
pub open spec fn needs_path(pad: &IoPad) -> bool {
    pad.direction != PadDirection::Power && pad.direction != PadDirection::Ground
}

/// The paths of one pad through the first `n` clamps: those on its net.
pub open spec fn paths_of(pad: int, pads: Seq<IoPad>, clamps: Seq<EsdClamp>, n: nat) -> Seq<
    (int, int),
>
    decreases n,
{
    if n == 0 {
        Seq::empty()
    } else {
        let before = paths_of(pad, pads, clamps, (n - 1) as nat);
        if needs_path(&pads[pad]) && clamps[n - 1].pad_net == pads[pad].net_id {
            before.push((pad, n - 1))
        } else {
            before
        }
    }
}

/// The paths of the first `n` pads.
pub open spec fn paths_to(pads: Seq<IoPad>, clamps: Seq<EsdClamp>, n: nat) -> Seq<(int, int)>
    decreases n,
{
    if n == 0 {
        Seq::empty()
    } else {
        paths_to(pads, clamps, (n - 1) as nat) + paths_of(n - 1, pads, clamps, clamps.len())
    }
}

/// Whether a path is the one of a pad through a clamp.
pub open spec fn is_path(
    ext: &ExtractedNetlist,
    pads: Seq<IoPad>,
    clamps: Seq<EsdClamp>,
    path: &EsdPath,
    of: (int, int),
) -> bool {
    &&& path.pad@ == pads[of.0].name@
    &&& path.rail@ == net_label(ext, clamps[of.1].rail_net)
    &&& path.resistance_ohm == Number { bits: 0 }
    &&& path.devices@ == seq![clamps[of.1].device_index]
    &&& path.complete
}

pub open spec fn are_paths(
    ext: &ExtractedNetlist,
    pads: Seq<IoPad>,
    clamps: Seq<EsdClamp>,
    paths: Seq<EsdPath>,
    of: Seq<(int, int)>,
) -> bool {
    &&& paths.len() == of.len()
    &&& forall|i: int|
        0 <= i < paths.len() ==> is_path(ext, pads, clamps, #[trigger] &paths[i], of[i])
}

/// The evidence of a layout.
pub open spec fn is_evidence(
    store: &GeometryStore,
    tech: &Technology,
    ext: &ExtractedNetlist,
    cls: &PowerNetClassification,
    r: &EsdEvidence,
) -> bool {
    &&& are_pads(store, ext, cls, r.pads@, pads_of(store, tech, ext))
    &&& are_clamps(ext, cls, r.clamps@, clamps_to(ext, ext.devices@.len()))
    &&& are_rings(
        store,
        tech,
        ext,
        cls,
        r.guard_rings@,
        rings_to(store, tech, ext, tech.conductors@.len()),
    )
    &&& are_paths(
        ext,
        r.pads@,
        r.clamps@,
        r.paths@,
        paths_to(r.pads@, r.clamps@, r.pads@.len()),
    )
}

fn find_paths(
    ext: &ExtractedNetlist,
    pads: &Vec<IoPad>,
    clamps: &Vec<EsdClamp>,
) -> (r: Vec<EsdPath>)
    requires
        ext.net_names.wf(),
    ensures
        are_paths(ext, pads@, clamps@, r@, paths_to(pads@, clamps@, pads@.len())),
{
    let mut r: Vec<EsdPath> = Vec::new();
    let mut i: usize = 0;
    while i < pads.len()
        invariant
            i <= pads@.len(),
            ext.net_names.wf(),
            are_paths(ext, pads@, clamps@, r@, paths_to(pads@, clamps@, i as nat)),
        decreases pads@.len() - i,
    {
        let ghost before = paths_to(pads@, clamps@, i as nat);
        let pad = &pads[i];
        let wanted: bool = pad.direction != PadDirection::Power && pad.direction
            != PadDirection::Ground;
        let mut k: usize = 0;
        assert(before + paths_of(i as int, pads@, clamps@, 0) =~= before);
        while k < clamps.len()
            invariant
                k <= clamps@.len(),
                i < pads@.len(),
                pad == pads@[i as int],
                wanted == needs_path(&pads@[i as int]),
                ext.net_names.wf(),
                are_paths(
                    ext,
                    pads@,
                    clamps@,
                    r@,
                    before + paths_of(i as int, pads@, clamps@, k as nat),
                ),
            decreases clamps@.len() - k,
        {
            let ghost was = r@;
            let ghost then = before + paths_of(i as int, pads@, clamps@, k as nat);
            let clamp = &clamps[k];
            if wanted && clamp.pad_net == pad.net_id {
                let mut devices: Vec<usize> = Vec::new();
                devices.push(clamp.device_index);
                assert(devices@ =~= seq![clamp.device_index]);
                r.push(
                    EsdPath {
                        pad: pad.name.clone(),
                        rail: label_of(ext, clamp.rail_net),
                        resistance_ohm: Number { bits: 0 },
                        devices,
                        complete: true,
                    },
                );
                assert(before + paths_of(i as int, pads@, clamps@, (k + 1) as nat) =~= then.push(
                    (i as int, k as int),
                ));
            } else {
                assert(before + paths_of(i as int, pads@, clamps@, (k + 1) as nat) =~= then);
            }
            proof {
                let now = before + paths_of(i as int, pads@, clamps@, (k + 1) as nat);
                assert forall|j: int| 0 <= j < r@.len() implies is_path(
                    ext,
                    pads@,
                    clamps@,
                    #[trigger] &r@[j],
                    now[j],
                ) by {
                    if j < was.len() {
                        assert(is_path(ext, pads@, clamps@, &was[j], then[j]));
                    }
                }
            }
            k = k + 1;
        }
        i = i + 1;
    }
    r
}

/// Extract ESD evidence from a layout: pads, clamps, guard rings, and a path for
/// each signal pad through each clamp on its net.
pub fn extract_esd_evidence(
    store: &GeometryStore,
    tech: &Technology,
    ext: &ExtractedNetlist,
    cls: &PowerNetClassification,
) -> (r: EsdEvidence)
    requires
        store.wf(),
        tech.wf(store),
        ext.wf(store),
    ensures
        is_evidence(store, tech, ext, cls, &r),
{
    let pads = find_io_pads(store, tech, ext, cls);
    let clamps = find_esd_clamps(ext, cls);
    let guard_rings = find_guard_rings(store, tech, ext, cls);
    let paths = find_paths(ext, &pads, &clamps);
    EsdEvidence { pads, clamps, paths, guard_rings }
}

} // verus!
