//! Wells, their taps, and transistor pairs close enough to latch up.
use crate::evidence::names::{contains, holds, lowercase, lowered};
use crate::evidence::netlist::{DeviceKind, ExtractedNetlist, Technology, OFF_NET};
use crate::geom::{centre, centre_of, max_int, min_int, Bbox, Point};
use crate::model::{LayerId, PolyId};
use crate::number::Number;
use crate::ring::{area2, doubled_area};
use crate::store::GeometryStore;
use vstd::prelude::*;

verus! {

/// A well region in the substrate.
pub struct WellRegion {
    pub well_type: WellType,
    pub layer: LayerId,
    pub bbox: Bbox,
    pub area_dbu2: i128,
    pub taps: Vec<SubstrateTap>,
}

#[derive(Clone, Copy, Debug, PartialEq, Eq, Structural)]
pub enum WellType {
    Nwell,
    Pwell,
    DeepNwell,
}

/// A substrate or well tap contact.
#[derive(Clone, Copy, Debug, PartialEq, Eq, Structural)]
pub struct SubstrateTap {
    pub x: i64,
    pub y: i64,
    pub net_id: u32,
    pub distance_to_edge_nm: i32,
}

/// A pair of opposite transistors close enough to form a parasitic thyristor.
pub struct LatchupSite {
    pub nmos_device: Option<usize>,
    pub pmos_device: Option<usize>,
    pub distance_nm: i32,
    pub guard_ring: Option<String>,
    pub severity: LatchupSeverity,
}

#[derive(Clone, Copy, Debug, PartialEq, Eq, Structural)]
pub enum LatchupSeverity {
    Low,
    Medium,
    High,
}

/// All substrate evidence a layout shows.
pub struct SubstrateEvidence {
    pub wells: Vec<WellRegion>,
    pub latchup_sites: Vec<LatchupSite>,
    /// The wells with no tap, as rows of `wells`.
    pub untapped_wells: Vec<usize>,
}

impl Default for SubstrateEvidence {
    fn default() -> (r: SubstrateEvidence)
        ensures
            r.wells@.len() == 0,
            r.latchup_sites@.len() == 0,
            r.untapped_wells@.len() == 0,
    {
        SubstrateEvidence {
            wells: Vec::new(),
            latchup_sites: Vec::new(),
            untapped_wells: Vec::new(),
        }
    }
}

/// The well a lower-case layer name stands for.
pub open spec fn well_named(lower: Seq<char>) -> Option<WellType> {
    if holds(lower, "dnw"@) || holds(lower, "deep_nwell"@) || holds(lower, "deepnwell"@) {
        Some(WellType::DeepNwell)
    } else if holds(lower, "nwell"@) || holds(lower, "nw"@) {
        Some(WellType::Nwell)
    } else if holds(lower, "pwell"@) || holds(lower, "pw"@) {
        Some(WellType::Pwell)
    } else {
        None
    }
}

/// The well a lower-case layer name stands for.
pub fn well_of(lower: &str) -> (r: Option<WellType>)
    ensures
        r == well_named(lower@),
{
    if contains(lower, "dnw") || contains(lower, "deep_nwell") || contains(lower, "deepnwell") {
        Some(WellType::DeepNwell)
    } else if contains(lower, "nwell") || contains(lower, "nw") {
        Some(WellType::Nwell)
    } else if contains(lower, "pwell") || contains(lower, "pw") {
        Some(WellType::Pwell)
    } else {
        None
    }
}

/// The well a layer name stands for, by convention and in either case.
pub fn guess_well_type(name: &str) -> (r: Option<WellType>)
    ensures
        r == well_named(lowered(name@)),
{
    let lower = lowercase(name);
    well_of(lower.as_str())
}

/// The well layers among the first `n` layers, ascending.
pub open spec fn well_layers(tech: &Technology, n: nat) -> Seq<(LayerId, WellType)>
    decreases n,
{
    if n == 0 {
        Seq::empty()
    } else {
        let before = well_layers(tech, (n - 1) as nat);
        match well_named(lowered(tech.layer_name@[n - 1]@)) {
            Some(kind) => before.push((LayerId((n - 1) as u32), kind)),
            None => before,
        }
    }
}

/// The well layers, found by name.
pub fn find_well_layers(tech: &Technology) -> (r: Vec<(LayerId, WellType)>)
    requires
        tech.layer_name@.len() <= 0xFFFF_FFFF,
    ensures
        r@ == well_layers(tech, tech.layer_name@.len()),
        forall|i: int| 0 <= i < r@.len() ==> (#[trigger] r@[i]).0.0 < tech.layer_name@.len(),
{
    let mut r: Vec<(LayerId, WellType)> = Vec::new();
    let mut n: usize = 0;
    while n < tech.layer_name.len()
        invariant
            n <= tech.layer_name@.len() <= 0xFFFF_FFFF,
            r@ == well_layers(tech, n as nat),
            forall|i: int| 0 <= i < r@.len() ==> (#[trigger] r@[i]).0.0 < n,
        decreases tech.layer_name@.len() - n,
    {
        match guess_well_type(tech.layer_name[n].as_str()) {
            Some(kind) => {
                r.push((LayerId(n as u32), kind));
            },
            None => {},
        }
        n = n + 1;
    }
    r
}

/// Whether a lower-case layer name is that of a tap, diffusion or contact layer.
pub open spec fn taps_named(lower: Seq<char>) -> bool {
    holds(lower, "tap"@) || holds(lower, "diff"@) || holds(lower, "cont"@)
}

/// Whether a lower-case layer name is that of a tap, diffusion or contact layer.
pub fn is_tap_layer(lower: &str) -> (r: bool)
    ensures
        r == taps_named(lower@),
{
    contains(lower, "tap") || contains(lower, "diff") || contains(lower, "cont")
}

/// How far inside a well a point lies from its nearest edge, zero outside.
pub open spec fn inset(well: Bbox, p: Point) -> int {
    let dx = max_int(0, min_int(p.x - well.xlo, well.xhi - p.x));
    let dy = max_int(0, min_int(p.y - well.ylo, well.yhi - p.y));
    min_int(dx, dy)
}

/// The tap a polygon makes in a well.
pub open spec fn tap_of(tech: &Technology, well: Bbox, bbox: Bbox, net: u32) -> SubstrateTap {
    let at = centre_of(bbox);
    SubstrateTap {
        x: at.x,
        y: at.y,
        net_id: net,
        distance_to_edge_nm: Number::of_spec(inset(well, at)).times_spec(tech.dbu_nm).i32_spec()
            as i32,
    }
}

/// The taps polygons `from .. from + n` make in a well: those that meet it and
/// are on a net.
pub open spec fn taps_among(
    store: &GeometryStore,
    tech: &Technology,
    ext: &ExtractedNetlist,
    well: Bbox,
    from: int,
    n: nat,
) -> Seq<SubstrateTap>
    decreases n,
{
    if n == 0 {
        Seq::empty()
    } else {
        let p = from + n - 1;
        let before = taps_among(store, tech, ext, well, from, (n - 1) as nat);
        if well.meets(store.bbox@[p]) && ext.net_of_poly@[p] != OFF_NET {
            before.push(tap_of(tech, well, store.bbox@[p], ext.net_of_poly@[p]))
        } else {
            before
        }
    }
}

/// How many polygons a layer has.
pub open spec fn rows_of(store: &GeometryStore, layer: LayerId) -> nat {
    (store.row_hi(layer.0 as int) - store.row_lo(layer.0 as int)) as nat
}

/// The taps of a well on the first `n` conductor layers, layer after layer.
pub open spec fn taps_to(
    store: &GeometryStore,
    tech: &Technology,
    ext: &ExtractedNetlist,
    well: Bbox,
    n: nat,
) -> Seq<SubstrateTap>
    decreases n,
{
    if n == 0 {
        Seq::empty()
    } else {
        let layer = tech.conductors@[n - 1];
        let before = taps_to(store, tech, ext, well, (n - 1) as nat);
        if taps_named(lowered(tech.layer_name@[layer.0 as int]@)) {
            before + taps_among(
                store,
                tech,
                ext,
                well,
                store.row_lo(layer.0 as int),
                rows_of(store, layer),
            )
        } else {
            before
        }
    }
}

fn smaller(a: i64, b: i64) -> (r: i64)
    ensures
        r == min_int(a as int, b as int),
{
    if a < b { a } else { b }
}

fn tap_in(tech: &Technology, well: Bbox, bbox: Bbox, net: u32) -> (r: SubstrateTap)
    requires
        well.wf(),
        bbox.wf(),
    ensures
        r == tap_of(tech, well, bbox, net),
{
    let at = centre(bbox);
    let dx: i64 = smaller(at.x - well.xlo, well.xhi - at.x);
    let dy: i64 = smaller(at.y - well.ylo, well.yhi - at.y);
    let inside: i64 = smaller(if dx < 0 { 0 } else { dx }, if dy < 0 { 0 } else { dy });
    SubstrateTap {
        x: at.x,
        y: at.y,
        net_id: net,
        distance_to_edge_nm: Number::of(inside as i128).times(tech.dbu_nm).to_i32(),
    }
}

/// The taps of a well.
fn find_taps_for_well(
    store: &GeometryStore,
    tech: &Technology,
    ext: &ExtractedNetlist,
    well: Bbox,
) -> (r: Vec<SubstrateTap>)
    requires
        store.wf(),
        tech.wf(store),
        ext.wf(store),
        well.wf(),
    ensures
        r@ == taps_to(store, tech, ext, well, tech.conductors@.len()),
{
    let mut r: Vec<SubstrateTap> = Vec::new();
    let mut n: usize = 0;
    while n < tech.conductors.len()
        invariant
            n <= tech.conductors@.len(),
            store.wf(),
            tech.wf(store),
            ext.wf(store),
            well.wf(),
            r@ == taps_to(store, tech, ext, well, n as nat),
        decreases tech.conductors@.len() - n,
    {
        let layer = tech.conductors[n];
        let ghost before = r@;
        assert(tech.conductors@[n as int].0 < store.layers());
        let lower = lowercase(tech.layer_name[layer.0 as usize].as_str());
        if is_tap_layer(lower.as_str()) {
            let (lo, hi) = store.polys_on_layer(layer);
            let mut p: u32 = lo;
            assert(r@ =~= before + taps_among(store, tech, ext, well, lo as int, 0));
            while p < hi
                invariant
                    lo <= p <= hi <= store.polys(),
                    store.wf(),
                    tech.wf(store),
                    ext.wf(store),
                    well.wf(),
                    r@ == before + taps_among(store, tech, ext, well, lo as int, (p - lo) as nat),
                decreases hi - p,
            {
                let bbox = store.poly_bbox(PolyId(p));
                let net: u32 = ext.net_of_poly[p as usize];
                if well.overlaps(bbox) && net != OFF_NET {
                    r.push(tap_in(tech, well, bbox, net));
                }
                p = p + 1;
                assert(r@ =~= before + taps_among(
                    store,
                    tech,
                    ext,
                    well,
                    lo as int,
                    (p - lo) as nat,
                ));
            }
        }
        n = n + 1;
    }
    r
}

/// The wells among polygons `from .. from + n`, each with its layer and kind.
pub open spec fn wells_among(layer: LayerId, kind: WellType, from: int, n: nat) -> Seq<
    (LayerId, WellType, int),
> {
    Seq::new(n, |i: int| (layer, kind, from + i))
}

/// The wells on the first `n` well layers: one per polygon.
pub open spec fn wells_to(
    store: &GeometryStore,
    layers: Seq<(LayerId, WellType)>,
    n: nat,
) -> Seq<(LayerId, WellType, int)>
    decreases n,
{
    if n == 0 {
        Seq::empty()
    } else {
        let layer = layers[n - 1].0;
        wells_to(store, layers, (n - 1) as nat) + wells_among(
            layer,
            layers[n - 1].1,
            store.row_lo(layer.0 as int),
            rows_of(store, layer),
        )
    }
}

/// Whether a region is the well of one polygon.
pub open spec fn is_well(
    store: &GeometryStore,
    tech: &Technology,
    ext: &ExtractedNetlist,
    w: &WellRegion,
    of: (LayerId, WellType, int),
) -> bool {
    let area = doubled_area(store.ring(of.2));
    &&& w.layer == of.0
    &&& w.well_type == of.1
    &&& w.bbox == store.bbox@[of.2]
    &&& w.area_dbu2 == (if area < 0 { -area } else { area }) / 2
    &&& w.taps@ == taps_to(store, tech, ext, store.bbox@[of.2], tech.conductors@.len())
}

/// Whether a list of regions is that of a list of wells.
pub open spec fn are_wells(
    store: &GeometryStore,
    tech: &Technology,
    ext: &ExtractedNetlist,
    wells: Seq<WellRegion>,
    of: Seq<(LayerId, WellType, int)>,
) -> bool {
    &&& wells.len() == of.len()
    &&& forall|i: int|
        0 <= i < wells.len() ==> is_well(store, tech, ext, #[trigger] &wells[i], of[i])
}

fn find_wells(
    store: &GeometryStore,
    tech: &Technology,
    ext: &ExtractedNetlist,
    layers: &Vec<(LayerId, WellType)>,
) -> (r: Vec<WellRegion>)
    requires
        store.wf(),
        tech.wf(store),
        ext.wf(store),
        forall|i: int| 0 <= i < layers@.len() ==> (#[trigger] layers@[i]).0.0 < store.layers(),
    ensures
        are_wells(store, tech, ext, r@, wells_to(store, layers@, layers@.len())),
{
    let mut r: Vec<WellRegion> = Vec::new();
    let mut n: usize = 0;
    while n < layers.len()
        invariant
            n <= layers@.len(),
            store.wf(),
            tech.wf(store),
            ext.wf(store),
            forall|i: int| 0 <= i < layers@.len() ==> (#[trigger] layers@[i]).0.0 < store.layers(),
            are_wells(store, tech, ext, r@, wells_to(store, layers@, n as nat)),
        decreases layers@.len() - n,
    {
        let (layer, kind) = layers[n];
        assert(layers@[n as int].0.0 < store.layers());
        let (lo, hi) = store.polys_on_layer(layer);
        let ghost before = wells_to(store, layers@, n as nat);
        let mut p: u32 = lo;
        assert(before + wells_among(layer, kind, lo as int, 0) =~= before);
        while p < hi
            invariant
                lo <= p <= hi <= store.polys(),
                store.wf(),
                tech.wf(store),
                ext.wf(store),
                are_wells(
                    store,
                    tech,
                    ext,
                    r@,
                    before + wells_among(layer, kind, lo as int, (p - lo) as nat),
                ),
            decreases hi - p,
        {
            let ghost was = r@;
            let bbox = store.poly_bbox(PolyId(p));
            let ring = store.poly_verts(PolyId(p));
            let doubled: i128 = area2(&ring);
            let area: i128 = if doubled < 0 { -doubled / 2 } else { doubled / 2 };
            let taps = find_taps_for_well(store, tech, ext, bbox);
            r.push(WellRegion { well_type: kind, layer, bbox, area_dbu2: area, taps });
            proof {
                let now = before + wells_among(layer, kind, lo as int, (p + 1 - lo) as nat);
                let then = before + wells_among(layer, kind, lo as int, (p - lo) as nat);
                assert(now =~= then.push((layer, kind, p as int)));
                assert forall|i: int| 0 <= i < r@.len() implies is_well(
                    store,
                    tech,
                    ext,
                    #[trigger] &r@[i],
                    now[i],
                ) by {
                    if i < was.len() {
                        assert(is_well(store, tech, ext, &was[i], then[i]));
                    }
                }
            }
            p = p + 1;
        }
        n = n + 1;
    }
    r
}

/// Row `p` is the first polygon on a net.
pub open spec fn first_on(ext: &ExtractedNetlist, net: u32, p: int) -> bool {
    &&& 0 <= p < ext.net_of_poly@.len()
    &&& ext.net_of_poly@[p] == net
    &&& forall|q: int| 0 <= q < p ==> (#[trigger] ext.net_of_poly@[q]) != net
}

/// Where a device sits: the centre of the first polygon on its gate net. A gate
/// net numbered beyond the polygons places it nowhere.
pub open spec fn device_at(
    store: &GeometryStore,
    ext: &ExtractedNetlist,
    gate: u32,
) -> Option<Point> {
    if gate < store.polys() && exists|p: int| first_on(ext, gate, p) {
        Some(centre_of(store.bbox@[choose|p: int| first_on(ext, gate, p)]))
    } else {
        None
    }
}

/// The devices of one kind among the first `n` that have a place, with it.
pub open spec fn placed(
    store: &GeometryStore,
    ext: &ExtractedNetlist,
    kind: DeviceKind,
    n: nat,
) -> Seq<(int, Point)>
    decreases n,
{
    if n == 0 {
        Seq::empty()
    } else {
        let before = placed(store, ext, kind, (n - 1) as nat);
        let d = &ext.devices@[n - 1];
        match device_at(store, ext, d.gate) {
            Some(at) => if d.kind == kind { before.push((n - 1, at)) } else { before },
            None => before,
        }
    }
}

pub open spec fn apart(a: int, b: int) -> int {
    if a < b { b - a } else { a - b }
}

/// The distance between two places in nanometres.
pub open spec fn distance_nm(tech: &Technology, a: Point, b: Point) -> Number {
    let dx = Number::of_spec(apart(a.x as int, b.x as int)).times_spec(tech.dbu_nm);
    let dy = Number::of_spec(apart(a.y as int, b.y as int)).times_spec(tech.dbu_nm);
    dx.times_spec(dx).plus_spec(dy.times_spec(dy)).sqrt_spec()
}

/// Beyond this a pair does not latch up, in nanometres.
pub const FAR_NM: u32 = 50_000;

/// Closer than this the risk is medium, and closer than the next it is high.
pub const NEAR_NM: u32 = 20_000;

pub const CLOSE_NM: u32 = 5_000;

/// How severe a pair at a distance is.
pub open spec fn severity_at(distance: Number) -> LatchupSeverity {
    if distance.lt(Number::of_spec(CLOSE_NM as int)) {
        LatchupSeverity::High
    } else if distance.lt(Number::of_spec(NEAR_NM as int)) {
        LatchupSeverity::Medium
    } else {
        LatchupSeverity::Low
    }
}

/// The pairs of one transistor with the first `n` opposite ones that are close
/// enough.
pub open spec fn pairs_with(
    tech: &Technology,
    nmos: (int, Point),
    pmos: Seq<(int, Point)>,
    n: nat,
) -> Seq<(int, int, Number)>
    decreases n,
{
    if n == 0 {
        Seq::empty()
    } else {
        let before = pairs_with(tech, nmos, pmos, (n - 1) as nat);
        let distance = distance_nm(tech, nmos.1, pmos[n - 1].1);
        if Number::of_spec(FAR_NM as int).lt(distance) {
            before
        } else {
            before.push((nmos.0, pmos[n - 1].0, distance))
        }
    }
}

/// The close pairs of the first `n` transistors.
pub open spec fn pairs_to(
    tech: &Technology,
    nmos: Seq<(int, Point)>,
    pmos: Seq<(int, Point)>,
    n: nat,
) -> Seq<(int, int, Number)>
    decreases n,
{
    if n == 0 {
        Seq::empty()
    } else {
        pairs_to(tech, nmos, pmos, (n - 1) as nat) + pairs_with(
            tech,
            nmos[n - 1],
            pmos,
            pmos.len(),
        )
    }
}

/// Whether a site is that of a pair.
pub open spec fn is_site(s: &LatchupSite, of: (int, int, Number)) -> bool {
    &&& s.nmos_device is Some && s.nmos_device->0 == of.0
    &&& s.pmos_device is Some && s.pmos_device->0 == of.1
    &&& s.distance_nm == of.2.i32_spec()
    &&& s.guard_ring is None
    &&& s.severity == severity_at(of.2)
}

/// Whether a list of sites is that of a list of pairs.
pub open spec fn are_sites(sites: Seq<LatchupSite>, of: Seq<(int, int, Number)>) -> bool {
    &&& sites.len() == of.len()
    &&& forall|i: int| 0 <= i < sites.len() ==> is_site(#[trigger] &sites[i], of[i])
}

/// The evidence of a layout; none at all where no layer is a well.
pub open spec fn is_evidence(
    store: &GeometryStore,
    tech: &Technology,
    ext: &ExtractedNetlist,
    r: &SubstrateEvidence,
) -> bool {
    let layers = well_layers(tech, tech.layer_name@.len());
    let n = ext.devices@.len();
    if layers.len() == 0 {
        r.wells@.len() == 0 && r.latchup_sites@.len() == 0 && r.untapped_wells@.len() == 0
    } else {
        &&& are_wells(store, tech, ext, r.wells@, wells_to(store, layers, layers.len()))
        &&& r.untapped_wells@ == untapped(r.wells@, r.wells@.len())
        &&& are_sites(
            r.latchup_sites@,
            pairs_to(
                tech,
                placed(store, ext, DeviceKind::Nmos, n),
                placed(store, ext, DeviceKind::Pmos, n),
                placed(store, ext, DeviceKind::Nmos, n).len(),
            ),
        )
    }
}

/// The wells without a tap among the first `n`.
pub open spec fn untapped(wells: Seq<WellRegion>, n: nat) -> Seq<usize>
    decreases n,
{
    if n == 0 {
        Seq::empty()
    } else {
        let before = untapped(wells, (n - 1) as nat);
        if wells[n - 1].taps@.len() == 0 { before.push((n - 1) as usize) } else { before }
    }
}

fn find_device(store: &GeometryStore, ext: &ExtractedNetlist, gate: u32) -> (r: Option<Point>)
    requires
        store.wf(),
        ext.wf(store),
    ensures
        r == device_at(store, ext, gate),
        r is Some ==> (r->0).wf(),
{
    let polys: usize = ext.net_of_poly.len();
    if gate as usize >= polys {
        return None;
    }
    let mut p: usize = 0;
    while p < polys
        invariant
            p <= polys == ext.net_of_poly@.len() == store.polys(),
            store.wf(),
            gate < polys,
            forall|q: int| 0 <= q < p ==> (#[trigger] ext.net_of_poly@[q]) != gate,
        decreases polys - p,
    {
        if ext.net_of_poly[p] == gate {
            proof {
                assert(first_on(ext, gate, p as int));
                let c = choose|c: int| first_on(ext, gate, c);
                assert(first_on(ext, gate, c));
                assert(c == p);
            }
            return Some(centre(store.poly_bbox(PolyId(p as u32))));
        }
        p = p + 1;
    }
    None
}

/// A column of placed devices reads as a list of places.
spec fn reads_as(v: Seq<(usize, Point)>, s: Seq<(int, Point)>) -> bool {
    &&& v.len() == s.len()
    &&& forall|i: int|
        0 <= i < v.len() ==> (#[trigger] v[i]).0 == s[i].0 && v[i].1 == s[i].1 && v[i].1.wf()
}

fn place_devices(store: &GeometryStore, ext: &ExtractedNetlist, kind: DeviceKind) -> (r: Vec<
    (usize, Point),
>)
    requires
        store.wf(),
        ext.wf(store),
    ensures
        reads_as(r@, placed(store, ext, kind, ext.devices@.len())),
{
    let mut r: Vec<(usize, Point)> = Vec::new();
    let mut n: usize = 0;
    while n < ext.devices.len()
        invariant
            n <= ext.devices@.len(),
            store.wf(),
            ext.wf(store),
            reads_as(r@, placed(store, ext, kind, n as nat)),
        decreases ext.devices@.len() - n,
    {
        let d = &ext.devices[n];
        match find_device(store, ext, d.gate) {
            Some(at) => {
                if d.kind == kind {
                    r.push((n, at));
                }
            },
            None => {},
        }
        n = n + 1;
    }
    r
}

fn measure(tech: &Technology, a: Point, b: Point) -> (r: Number)
    requires
        a.wf(),
        b.wf(),
    ensures
        r == distance_nm(tech, a, b),
{
    let x: i64 = if a.x < b.x { b.x - a.x } else { a.x - b.x };
    let y: i64 = if a.y < b.y { b.y - a.y } else { a.y - b.y };
    let dx = Number::of(x as i128).times(tech.dbu_nm);
    let dy = Number::of(y as i128).times(tech.dbu_nm);
    dx.times(dx).plus(dy.times(dy)).sqrt()
}

/// How severe a pair at a distance is.
pub fn severity_of(distance: Number) -> (r: LatchupSeverity)
    ensures
        r == severity_at(distance),
{
    if distance.less(Number::of(CLOSE_NM as i128)) {
        LatchupSeverity::High
    } else if distance.less(Number::of(NEAR_NM as i128)) {
        LatchupSeverity::Medium
    } else {
        LatchupSeverity::Low
    }
}

fn find_sites(
    tech: &Technology,
    nmos: &Vec<(usize, Point)>,
    pmos: &Vec<(usize, Point)>,
    Ghost(ns): Ghost<Seq<(int, Point)>>,
    Ghost(ps): Ghost<Seq<(int, Point)>>,
) -> (r: Vec<LatchupSite>)
    requires
        reads_as(nmos@, ns),
        reads_as(pmos@, ps),
    ensures
        are_sites(r@, pairs_to(tech, ns, ps, ns.len())),
{
    let mut r: Vec<LatchupSite> = Vec::new();
    let mut i: usize = 0;
    while i < nmos.len()
        invariant
            i <= nmos@.len(),
            reads_as(nmos@, ns),
            reads_as(pmos@, ps),
            are_sites(r@, pairs_to(tech, ns, ps, i as nat)),
        decreases nmos@.len() - i,
    {
        let (ni, at) = nmos[i];
        let ghost before = pairs_to(tech, ns, ps, i as nat);
        let mut j: usize = 0;
        assert(before + pairs_with(tech, ns[i as int], ps, 0) =~= before);
        while j < pmos.len()
            invariant
                j <= pmos@.len(),
                i < nmos@.len(),
                reads_as(nmos@, ns),
                reads_as(pmos@, ps),
                ni == ns[i as int].0,
                at == ns[i as int].1,
                at.wf(),
                are_sites(r@, before + pairs_with(tech, ns[i as int], ps, j as nat)),
            decreases pmos@.len() - j,
        {
            let (pi, to) = pmos[j];
            let ghost was = r@;
            let ghost then = before + pairs_with(tech, ns[i as int], ps, j as nat);
            let distance = measure(tech, at, to);
            if !Number::of(FAR_NM as i128).less(distance) {
                r.push(
                    LatchupSite {
                        nmos_device: Some(ni),
                        pmos_device: Some(pi),
                        distance_nm: distance.to_i32(),
                        guard_ring: None,
                        severity: severity_of(distance),
                    },
                );
            }
            proof {
                let now = before + pairs_with(tech, ns[i as int], ps, (j + 1) as nat);
                if Number::of_spec(FAR_NM as int).lt(distance) {
                    assert(now =~= then);
                } else {
                    assert(now =~= then.push((ni as int, pi as int, distance)));
                    assert forall|k: int| 0 <= k < r@.len() implies is_site(
                        #[trigger] &r@[k],
                        now[k],
                    ) by {
                        if k < was.len() {
                            assert(is_site(&was[k], then[k]));
                        }
                    }
                }
            }
            j = j + 1;
        }
        i = i + 1;
    }
    r
}

/// Extract substrate evidence from layout geometry: every well with its taps,
/// the wells without one, and the pairs of opposite transistors that are close.
pub fn extract_substrate_evidence(
    store: &GeometryStore,
    tech: &Technology,
    ext: &ExtractedNetlist,
) -> (r: SubstrateEvidence)
    requires
        store.wf(),
        tech.wf(store),
        ext.wf(store),
    ensures
        is_evidence(store, tech, ext, &r),
{
    let layers = find_well_layers(tech);
    if layers.len() == 0 {
        return SubstrateEvidence::default();
    }
    let wells = find_wells(store, tech, ext, &layers);
    let mut untapped_wells: Vec<usize> = Vec::new();
    let mut i: usize = 0;
    while i < wells.len()
        invariant
            i <= wells@.len(),
            untapped_wells@ == untapped(wells@, i as nat),
        decreases wells@.len() - i,
    {
        if wells[i].taps.len() == 0 {
            untapped_wells.push(i);
        }
        i = i + 1;
    }
    let nmos = place_devices(store, ext, DeviceKind::Nmos);
    let pmos = place_devices(store, ext, DeviceKind::Pmos);
    let latchup_sites = find_sites(
        tech,
        &nmos,
        &pmos,
        Ghost(placed(store, ext, DeviceKind::Nmos, ext.devices@.len())),
        Ghost(placed(store, ext, DeviceKind::Pmos, ext.devices@.len())),
    );
    SubstrateEvidence { wells, latchup_sites, untapped_wells }
}

} // verus!
