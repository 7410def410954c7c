//! Metal too narrow for the current its net carries.
use crate::evidence::finding::{find_metal, metal_polys, Backend, Detail, ErcViolation};
use crate::evidence::netlist::{ExtractedNetlist, Technology, OFF_NET};
use crate::geom::{min_int, Bbox};
use crate::model::{LayerId, PolyId};
use crate::store::GeometryStore;
use vstd::prelude::*;

verus! {

/// Flags every narrow polygon of the first two metal layers on a net that a
/// transistor's source or drain is on.
pub struct EmCurrentDensityCheck;

/// Fewer boxes than this are not worth a kernel launch.
pub const GPU_MIN_LINEAR_WORK: usize = 4096;

/// How many boxes one kernel group takes.
pub const GROUP_SIZE: u32 = 64;

/// Whether the advisory pass is worth running on a device.
pub fn worth_a_launch(backend: Backend, boxes: usize) -> (r: bool)
    ensures
        r == (backend == Backend::Gpu && boxes >= GPU_MIN_LINEAR_WORK),
{
    backend == Backend::Gpu && boxes >= GPU_MIN_LINEAR_WORK
}

/// How many groups cover a number of boxes, along the first axis; never none.
pub fn groups(len: u32) -> (r: [u32; 3])
    ensures
        r@[0] == (if len == 0 { 1int } else { (len + GROUP_SIZE - 1) / GROUP_SIZE as int }),
        r@[1] == 1,
        r@[2] == 1,
        len <= r@[0] * GROUP_SIZE,
{
    let whole: u32 = len / GROUP_SIZE;
    let more: u32 = if len % GROUP_SIZE != 0 || len == 0 { 1 } else { 0 };
    let g: [u32; 3] = [whole + more, 1, 1];
    g
}

/// A box's narrow dimension.
pub open spec fn narrow_side(b: Bbox) -> int {
    min_int(b.xhi - b.xlo, b.yhi - b.ylo)
}

fn narrow_of(b: Bbox) -> (r: i64)
    requires
        b.wf(),
    ensures
        r == narrow_side(b),
{
    let w: i64 = b.xhi - b.xlo;
    let h: i64 = b.yhi - b.ylo;
    if w < h { w } else { h }
}

/// What the advisory pass finds: one for each box narrower than a width.
pub fn em_narrow_flags(boxes: &Vec<Bbox>, min_width: i64) -> (r: Vec<u32>)
    requires
        forall|i: int| 0 <= i < boxes@.len() ==> (#[trigger] boxes@[i]).wf(),
    ensures
        r@.len() == boxes@.len(),
        forall|i: int|
            0 <= i < boxes@.len() ==> (#[trigger] r@[i]) == (if narrow_side(boxes@[i])
                < min_width {
                1u32
            } else {
                0u32
            }),
{
    let mut r: Vec<u32> = Vec::new();
    let mut i: usize = 0;
    while i < boxes.len()
        invariant
            i <= boxes@.len(),
            forall|i: int| 0 <= i < boxes@.len() ==> (#[trigger] boxes@[i]).wf(),
            r@.len() == i,
            forall|k: int|
                0 <= k < i ==> (#[trigger] r@[k]) == (if narrow_side(boxes@[k]) < min_width {
                    1u32
                } else {
                    0u32
                }),
        decreases boxes@.len() - i,
    {
        assert(boxes@[i as int].wf());
        let flag: u32 = if narrow_of(boxes[i]) < min_width { 1 } else { 0 };
        r.push(flag);
        i = i + 1;
    }
    r
}

/// Whether a transistor's source or drain is on a net.
pub open spec fn carries_current(ext: &ExtractedNetlist, net: u32) -> bool {
    exists|d: int|
        0 <= d < ext.devices@.len() && ((#[trigger] ext.devices@[d]).source == net
            || ext.devices@[d].drain == net)
}

fn is_current_net(ext: &ExtractedNetlist, net: u32) -> (r: bool)
    ensures
        r == carries_current(ext, net),
{
    let mut d: usize = 0;
    while d < ext.devices.len()
        invariant
            d <= ext.devices@.len(),
            forall|k: int|
                0 <= k < d ==> (#[trigger] ext.devices@[k]).source != net && ext.devices@[k].drain
                    != net,
        decreases ext.devices@.len() - d,
    {
        if ext.devices[d].source == net || ext.devices[d].drain == net {
            assert(ext.devices@[d as int].source == net || ext.devices@[d as int].drain == net);
            return true;
        }
        d = d + 1;
    }
    false
}

/// Whether a polygon is too narrow for what its net carries.
pub open spec fn too_narrow(
    store: &GeometryStore,
    tech: &Technology,
    ext: &ExtractedNetlist,
    p: int,
) -> bool {
    let net = ext.net_of_poly@[p];
    net != OFF_NET && carries_current(ext, net) && narrow_side(store.bbox@[p]) < tech.em_min_width
}

/// The findings among the first `n` metal polygons. A polygon an advisory pass
/// flagged zero is not looked at.
pub open spec fn narrow_to(
    store: &GeometryStore,
    tech: &Technology,
    ext: &ExtractedNetlist,
    metal: Seq<(LayerId, u32)>,
    flags: Option<Seq<u32>>,
    n: nat,
) -> Seq<u32>
    decreases n,
{
    if n == 0 {
        Seq::empty()
    } else {
        let before = narrow_to(store, tech, ext, metal, flags, (n - 1) as nat);
        let p = metal[n - 1].1;
        if (flags is Some ==> (flags->0)[n - 1] != 0) && too_narrow(store, tech, ext, p as int) {
            before.push(p)
        } else {
            before
        }
    }
}

/// An advisory pass that flags every narrow polygon changes no finding.
pub proof fn lemma_advice_changes_nothing(
    store: &GeometryStore,
    tech: &Technology,
    ext: &ExtractedNetlist,
    metal: Seq<(LayerId, u32)>,
    flags: Seq<u32>,
    n: nat,
)
    requires
        n <= metal.len(),
        forall|i: int|
            0 <= i < n && narrow_side(store.bbox@[(#[trigger] metal[i]).1 as int])
                < tech.em_min_width ==> flags[i] != 0,
    ensures
        narrow_to(store, tech, ext, metal, Some(flags), n) == narrow_to(
            store,
            tech,
            ext,
            metal,
            None,
            n,
        ),
    decreases n,
{
    if n > 0 {
        lemma_advice_changes_nothing(store, tech, ext, metal, flags, (n - 1) as nat);
        let p = metal[n - 1].1;
        assert(too_narrow(store, tech, ext, p as int) ==> flags[n - 1] != 0);
    }
}

/// Whether a finding is the one of a polygon.
pub open spec fn reports_narrow(store: &GeometryStore, v: &ErcViolation, p: u32) -> bool {
    &&& v.check@ == "em_current_density"@
    &&& v.detail is NarrowMetal
    &&& v.detail->width == narrow_side(store.bbox@[p as int])
    &&& v.x == store.bbox@[p as int].xlo
    &&& v.y == store.bbox@[p as int].ylo
}

pub open spec fn report_narrow(
    store: &GeometryStore,
    found: Seq<ErcViolation>,
    of: Seq<u32>,
) -> bool {
    &&& found.len() == of.len()
    &&& forall|i: int| 0 <= i < found.len() ==> reports_narrow(store, #[trigger] &found[i], of[i])
}

/// The flags of an advisory pass, as a sequence.
pub open spec fn advice(flags: Option<Vec<u32>>) -> Option<Seq<u32>> {
    match flags {
        Some(v) => Some(v@),
        None => None,
    }
}

impl EmCurrentDensityCheck {
    pub fn id(&self) -> (r: &'static str)
        ensures
            r@ == "em_current_density"@,
    {
        "em_current_density"
    }

    /// One finding per narrow metal polygon on a current-carrying net.
    pub fn check(
        &self,
        store: &GeometryStore,
        tech: &Technology,
        ext: &ExtractedNetlist,
        flags: &Option<Vec<u32>>,
    ) -> (r: Vec<ErcViolation>)
        requires
            store.wf(),
            tech.wf(store),
            ext.wf(store),
            *flags is Some ==> (flags->0)@.len() == metal_polys(store, tech).len(),
        ensures
            report_narrow(
                store,
                r@,
                narrow_to(
                    store,
                    tech,
                    ext,
                    metal_polys(store, tech),
                    advice(*flags),
                    metal_polys(store, tech).len(),
                ),
            ),
    {
        let metal = find_metal(store, tech);
        let ghost given = advice(*flags);
        let mut r: Vec<ErcViolation> = Vec::new();
        let mut n: usize = 0;
        while n < metal.len()
            invariant
                n <= metal@.len(),
                store.wf(),
                ext.wf(store),
                given == advice(*flags),
                *flags is Some ==> (flags->0)@.len() == metal@.len(),
                forall|i: int|
                    0 <= i < metal@.len() ==> (#[trigger] metal@[i]).1 < store.polys()
                        && metal@[i].0.0 < store.layers(),
                report_narrow(store, r@, narrow_to(store, tech, ext, metal@, given, n as nat)),
            decreases metal@.len() - n,
        {
            let ghost was = r@;
            let ghost then = narrow_to(store, tech, ext, metal@, given, n as nat);
            let p: u32 = metal[n].1;
            assert(metal@[n as int].1 < store.polys());
            let look: bool = match flags {
                Some(v) => v[n] != 0,
                None => true,
            };
            let net: u32 = ext.net_of_poly[p as usize];
            if look && net != OFF_NET && is_current_net(ext, net) {
                let b = store.poly_bbox(PolyId(p));
                let width: i64 = narrow_of(b);
                if width < tech.em_min_width {
                    r.push(
                        ErcViolation {
                            check: "em_current_density".to_owned(),
                            detail: Detail::NarrowMetal { width },
                            x: b.xlo,
                            y: b.ylo,
                        },
                    );
                }
            }
            proof {
                let now = narrow_to(store, tech, ext, metal@, given, (n + 1) as nat);
                assert forall|i: int| 0 <= i < r@.len() implies reports_narrow(
                    store,
                    #[trigger] &r@[i],
                    now[i],
                ) by {
                    if i < was.len() {
                        assert(reports_narrow(store, &was[i], then[i]));
                    }
                }
            }
            n = n + 1;
        }
        r
    }
}

} // verus!
