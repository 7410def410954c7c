//! Where devices attach to the shapes of a net.
use crate::design::{kept, lemma_kept};
use crate::geom::{centre, centre_of, Bbox, Point};
use crate::model::{NetId, PolyId};
use crate::power::taps::{tap_on, tap_spec, Tap, TapTable};
use crate::power::wiring::{nearest_shape, shapes_in, TapIndex};
use crate::store::{DeviceTable, GeometryStore};
use vstd::prelude::*;

verus! {

/// The devices with a terminal on a net, ascending.
pub open spec fn devices_on_spec(devices: &DeviceTable, net: NetId) -> Seq<u32> {
    kept(devices.devices() as nat, |d: int| devices.on_net(d, net))
}

/// The devices with a terminal on a net, ascending.
pub fn devices_on(devices: &DeviceTable, net: NetId, Ghost(polys): Ghost<int>) -> (r: Vec<u32>)
    requires
        devices.wf(polys),
    ensures
        r@ == devices_on_spec(devices, net),
        forall|k: int| 0 <= k < r@.len() ==> (#[trigger] r@[k]) < devices.devices(),
{
    let n: usize = devices.len();
    let mut r: Vec<u32> = Vec::new();
    let mut d: usize = 0;
    while d < n
        invariant
            d <= n == devices.devices() < 0xFFFF_FFFF,
            devices.wf(polys),
            r@ == kept(d as nat, |d: int| devices.on_net(d, net)),
        decreases n - d,
    {
        if devices.is_on(d, net, Ghost(polys)) {
            r.push(d as u32);
        }
        d = d + 1;
    }
    proof {
        lemma_kept(n as nat, |d: int| devices.on_net(d, net));
    }
    r
}

/// A box holding one point.
pub open spec fn point_box(p: Point) -> Bbox {
    Bbox { xlo: p.x, ylo: p.y, xhi: p.x, yhi: p.y }
}

/// The place a device is recognised at.
pub open spec fn marker_at(store: &GeometryStore, devices: &DeviceTable, d: int) -> Point {
    centre_of(store.bbox@[devices.marker@[d].0 as int])
}

/// Where a device taps a run of shapes whose first has row `base`: the shape
/// whose centre is nearest to the device, at the device's own coordinate.
pub open spec fn device_tap(
    store: &GeometryStore,
    devices: &DeviceTable,
    shapes: Seq<PolyId>,
    base: int,
    d: int,
) -> Tap {
    let marker = marker_at(store, devices, d);
    let i = nearest_shape(store, shapes, marker);
    Tap {
        shape: (base + i) as u32,
        along: tap_spec(store.bbox@[shapes[i].0 as int], point_box(marker)) as i64,
    }
}

/// One tap per device of a list.
pub open spec fn device_taps(
    store: &GeometryStore,
    devices: &DeviceTable,
    shapes: Seq<PolyId>,
    base: int,
    on: Seq<u32>,
) -> Seq<Tap> {
    Seq::new(on.len(), |j: int| device_tap(store, devices, shapes, base, on[j] as int))
}

/// The taps the devices on a net make; none where the net has no shape.
pub open spec fn net_taps(
    store: &GeometryStore,
    devices: &DeviceTable,
    net: NetId,
    shapes: Seq<PolyId>,
    base: int,
) -> Seq<Tap> {
    if shapes.len() == 0 {
        Seq::empty()
    } else {
        device_taps(store, devices, shapes, base, devices_on_spec(devices, net))
    }
}

/// Ask for the tap of each device of a list, on shapes `from .. to`.
pub fn push_devices(
    store: &GeometryStore,
    devices: &DeviceTable,
    shapes: &Vec<PolyId>,
    from: usize,
    to: usize,
    on: &Vec<u32>,
    taps: &mut TapTable,
)
    requires
        store.wf(),
        devices.wf(store.polys()),
        shapes_in(store, shapes@),
        from < to <= shapes@.len() < 0xFFFF_FFFF,
        forall|k: int| 0 <= k < on@.len() ==> (#[trigger] on@[k]) < devices.devices(),
        old(taps).asks_of(shapes@.len() as int),
        old(taps).request@.len() + on@.len() < 0xFFFF_FFFF,
    ensures
        final(taps).request@ == old(taps).request@ + device_taps(
            store,
            devices,
            shapes@.subrange(from as int, to as int),
            from as int,
            on@,
        ),
        final(taps).asks_of(shapes@.len() as int),
{
    let ghost run = shapes@.subrange(from as int, to as int);
    let ghost start = taps.request@;
    let ghost all = device_taps(store, devices, run, from as int, on@);
    let index = TapIndex::build(store, shapes, from, to);
    let mut j: usize = 0;
    assert(taps.request@ =~= start + all.take(0));
    while j < on.len()
        invariant
            j <= on@.len(),
            store.wf(),
            devices.wf(store.polys()),
            shapes_in(store, shapes@),
            from < to <= shapes@.len() < 0xFFFF_FFFF,
            run == shapes@.subrange(from as int, to as int),
            all == device_taps(store, devices, run, from as int, on@),
            forall|k: int| 0 <= k < on@.len() ==> (#[trigger] on@[k]) < devices.devices(),
            index.indexes(store, run),
            start.len() + on@.len() < 0xFFFF_FFFF,
            taps.request@ == start + all.take(j as int),
            taps.asks_of(shapes@.len() as int),
        decreases on@.len() - j,
    {
        let d: u32 = on[j];
        let marker = centre(store.poly_bbox(devices.marker[d as usize]));
        let local: u32 = index.nearest(marker, Ghost(store), Ghost(run));
        let row: usize = from + local as usize;
        assert(shapes@[row as int] == run[local as int]);
        let host = store.poly_bbox(shapes[row]);
        let spot = Bbox { xlo: marker.x, ylo: marker.y, xhi: marker.x, yhi: marker.y };
        let along: i64 = tap_on(host, spot);
        let _ = taps.push(row as u32, along);
        j = j + 1;
        assert(taps.request@ =~= start + all.take(j as int));
    }
    assert(all.take(j as int) =~= all);
}

/// How many entries of a list are one net.
pub open spec fn count_net(nets: Seq<NetId>, net: NetId) -> nat
    decreases nets.len(),
{
    if nets.len() == 0 {
        0
    } else {
        count_net(nets.drop_last(), net) + if nets.last() == net { 1nat } else { 0nat }
    }
}

/// A request as often as the device lands a terminal on the net, over the first
/// `n` devices of a list whose first request is `first`.
pub open spec fn attach_points(
    devices: &DeviceTable,
    net: NetId,
    on: Seq<u32>,
    first: int,
    n: nat,
) -> Seq<u32>
    decreases n,
{
    if n == 0 {
        Seq::empty()
    } else {
        attach_points(devices, net, on, first, (n - 1) as nat) + Seq::new(
            count_net(devices.nets_of(on[n - 1] as int), net),
            |i: int| (first + n - 1) as u32,
        )
    }
}

/// The points a rail's budget is shared over.
pub fn rail_attach(
    devices: &DeviceTable,
    net: NetId,
    on: &Vec<u32>,
    first: u32,
    Ghost(polys): Ghost<int>,
) -> (r: Vec<u32>)
    requires
        devices.wf(polys),
        forall|k: int| 0 <= k < on@.len() ==> (#[trigger] on@[k]) < devices.devices(),
        first + on@.len() <= 0xFFFF_FFFF,
    ensures
        r@ == attach_points(devices, net, on@, first as int, on@.len()),
{
    let mut r: Vec<u32> = Vec::new();
    let mut n: usize = 0;
    while n < on.len()
        invariant
            n <= on@.len(),
            devices.wf(polys),
            forall|k: int| 0 <= k < on@.len() ==> (#[trigger] on@[k]) < devices.devices(),
            first + on@.len() <= 0xFFFF_FFFF,
            r@ == attach_points(devices, net, on@, first as int, n as nat),
        decreases on@.len() - n,
    {
        let nets = devices.terminal_nets(on[n] as usize, Ghost(polys));
        let request: u32 = first + n as u32;
        let ghost before = r@;
        let mut t: usize = 0;
        assert(nets@.take(0) =~= Seq::<NetId>::empty());
        assert(r@ =~= before + Seq::new(count_net(nets@.take(0), net), |i: int| request));
        while t < nets.len()
            invariant
                t <= nets@.len(),
                r@ == before + Seq::new(count_net(nets@.take(t as int), net), |i: int| request),
            decreases nets@.len() - t,
        {
            assert(nets@.take(t + 1).drop_last() =~= nets@.take(t as int));
            if nets[t] == net {
                r.push(request);
            }
            t = t + 1;
            assert(r@ =~= before + Seq::new(
                count_net(nets@.take(t as int), net),
                |i: int| request,
            ));
        }
        assert(nets@.take(t as int) =~= nets@);
        n = n + 1;
        assert(r@ =~= attach_points(devices, net, on@, first as int, n as nat));
    }
    r
}

/// Every attach point is the request of one of the devices.
pub proof fn lemma_attach_points(
    devices: &DeviceTable,
    net: NetId,
    on: Seq<u32>,
    first: int,
    n: nat,
)
    requires
        0 <= first,
        first + n <= 0xFFFF_FFFF,
    ensures
        forall|i: int|
            0 <= i < attach_points(devices, net, on, first, n).len() ==> first <= (
            #[trigger] attach_points(devices, net, on, first, n)[i]) < first + n,
    decreases n,
{
    if n > 0 {
        lemma_attach_points(devices, net, on, first, (n - 1) as nat);
        let before = attach_points(devices, net, on, first, (n - 1) as nat);
        let now = attach_points(devices, net, on, first, n);
        assert forall|i: int| 0 <= i < now.len() implies first <= (#[trigger] now[i]) < first
            + n by {
            if i < before.len() {
                assert(first <= before[i] < first + n - 1);
            }
        }
    }
}

} // verus!
