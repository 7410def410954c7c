//! Metal that no device is on.
use crate::evidence::finding::{find_metal, metal_polys, Detail, ErcViolation};
use crate::evidence::netlist::{is_device_net, ExtractedNetlist, Technology, OFF_NET};
use crate::model::{LayerId, PolyId};
use crate::store::GeometryStore;
use vstd::prelude::*;

verus! {

/// Flags every polygon of the first two metal layers that is connected to no
/// device terminal.
pub struct UnconnectedPinCheck;

/// Whether a polygon is on a net no device is on, or on none.
pub open spec fn unconnected(ext: &ExtractedNetlist, p: int) -> bool {
    ext.net_of_poly@[p] == OFF_NET || !ext.device_net(ext.net_of_poly@[p])
}

/// The unconnected ones of the first `n` metal polygons.
pub open spec fn unconnected_to(
    ext: &ExtractedNetlist,
    metal: Seq<(LayerId, u32)>,
    n: nat,
) -> Seq<(LayerId, u32)>
    decreases n,
{
    if n == 0 {
        Seq::empty()
    } else {
        let before = unconnected_to(ext, metal, (n - 1) as nat);
        if unconnected(ext, metal[n - 1].1 as int) { before.push(metal[n - 1]) } else { before }
    }
}

/// Whether a finding is the one of a polygon.
pub open spec fn reports_pin(
    store: &GeometryStore,
    tech: &Technology,
    v: &ErcViolation,
    of: (LayerId, u32),
) -> bool {
    &&& v.check@ == "unconnected_pin"@
    &&& v.detail is NoDevice
    &&& v.detail->layer@ == tech.layer_name@[of.0.0 as int]@
    &&& v.x == store.bbox@[of.1 as int].xlo
    &&& v.y == store.bbox@[of.1 as int].ylo
}

pub open spec fn report_pins(
    store: &GeometryStore,
    tech: &Technology,
    found: Seq<ErcViolation>,
    of: Seq<(LayerId, u32)>,
) -> bool {
    &&& found.len() == of.len()
    &&& forall|i: int|
        0 <= i < found.len() ==> reports_pin(store, tech, #[trigger] &found[i], of[i])
}

impl UnconnectedPinCheck {
    pub fn id(&self) -> (r: &'static str)
        ensures
            r@ == "unconnected_pin"@,
    {
        "unconnected_pin"
    }

    /// One finding per unconnected metal polygon.
    pub fn check(&self, store: &GeometryStore, tech: &Technology, ext: &ExtractedNetlist) -> (r: Vec<
        ErcViolation,
    >)
        requires
            store.wf(),
            tech.wf(store),
            ext.wf(store),
        ensures
            report_pins(
                store,
                tech,
                r@,
                unconnected_to(
                    ext,
                    metal_polys(store, tech),
                    metal_polys(store, tech).len(),
                ),
            ),
    {
        let metal = find_metal(store, tech);
        let mut r: Vec<ErcViolation> = Vec::new();
        let mut n: usize = 0;
        while n < metal.len()
            invariant
                n <= metal@.len(),
                store.wf(),
                tech.wf(store),
                ext.wf(store),
                forall|i: int|
                    0 <= i < metal@.len() ==> (#[trigger] metal@[i]).1 < store.polys()
                        && metal@[i].0.0 < store.layers(),
                report_pins(store, tech, r@, unconnected_to(ext, metal@, n as nat)),
            decreases metal@.len() - n,
        {
            let ghost was = r@;
            let ghost then = unconnected_to(ext, metal@, n as nat);
            let (layer, p) = metal[n];
            assert(metal@[n as int].1 < store.polys());
            let net: u32 = ext.net_of_poly[p as usize];
            if net == OFF_NET || !is_device_net(ext, net) {
                let b = store.poly_bbox(PolyId(p));
                r.push(
                    ErcViolation {
                        check: "unconnected_pin".to_owned(),
                        detail: Detail::NoDevice {
                            layer: tech.layer_name[layer.0 as usize].clone(),
                        },
                        x: b.xlo,
                        y: b.ylo,
                    },
                );
            }
            proof {
                let now = unconnected_to(ext, metal@, (n + 1) as nat);
                assert forall|i: int| 0 <= i < r@.len() implies reports_pin(
                    store,
                    tech,
                    #[trigger] &r@[i],
                    now[i],
                ) by {
                    if i < was.len() {
                        assert(reports_pin(store, tech, &was[i], then[i]));
                    }
                }
            }
            n = n + 1;
        }
        r
    }
}

} // verus!
