//! What the netlist checks report, and the metal they look at.
use crate::evidence::names::{numbered, signed};
use crate::evidence::netlist::Technology;
use crate::model::LayerId;
use crate::number::Number;
use crate::store::GeometryStore;
use vstd::prelude::*;

verus! {

/// What a check measured.
pub enum Detail {
    /// Metal of this width on a net that carries device current.
    NarrowMetal { width: i64 },
    /// Metal on this layer that no device is on.
    NoDevice { layer: String },
    /// A net whose worst pair of attach points is this far apart, in ohms.
    NetResistance { net: u32, ohms: Number },
}

impl Detail {
    /// The words for a finding; none for a resistance, which is left to be written
    /// with as many places as its reader wants.
    pub open spec fn words(&self) -> Option<Seq<char>> {
        match *self {
            Detail::NarrowMetal { width } => Some(
                "narrow metal ("@ + signed(width as int) + "nm) on current-carrying net"@,
            ),
            Detail::NoDevice { layer } => Some(
                "metal on "@ + layer@ + " not connected to any device"@,
            ),
            Detail::NetResistance { .. } => None,
        }
    }

    /// The words for a finding.
    pub fn text(&self) -> (r: Option<String>)
        ensures
            r is Some <==> self.words() is Some,
            r is Some ==> (r->0)@ == self.words()->0,
    {
        match self {
            Detail::NarrowMetal { width } => {
                let width: i64 = *width;
                let mut r = if width < 0 {
                    numbered("narrow metal (-", (-(width + 1)) as u64 + 1)
                } else {
                    numbered("narrow metal (", width as u64)
                };
                proof {
                    reveal_strlit("narrow metal (-");
                    reveal_strlit("narrow metal (");
                    reveal_strlit("-");
                    assert("narrow metal (-"@ =~= "narrow metal ("@ + "-"@);
                    assert(r@ =~= "narrow metal ("@ + signed(width as int));
                }
                r.append("nm) on current-carrying net");
                Some(r)
            },
            Detail::NoDevice { layer } => {
                let mut r = "metal on ".to_owned();
                r.append(layer.as_str());
                r.append(" not connected to any device");
                Some(r)
            },
            Detail::NetResistance { .. } => None,
        }
    }
}

/// One finding, at the lower left of a polygon.
pub struct ErcViolation {
    pub check: String,
    pub detail: Detail,
    pub x: i64,
    pub y: i64,
}

/// Where a check may run its wide passes.
#[derive(Clone, Copy, Debug, PartialEq, Eq, Structural)]
pub enum Backend {
    Cpu,
    Gpu,
}

/// The first two metal layers, as far as the technology names them.
pub open spec fn metal_layers(tech: &Technology) -> Seq<LayerId> {
    let first = tech.layer_spec("met1"@);
    let second = tech.layer_spec("met2"@);
    (if first is Some { seq![first->0] } else { Seq::<LayerId>::empty() }) + (
    if second is Some { seq![second->0] } else { Seq::<LayerId>::empty() })
}

/// The polygons of the first `n` of a list of layers, each with its layer.
pub open spec fn polys_to(store: &GeometryStore, layers: Seq<LayerId>, n: nat) -> Seq<
    (LayerId, u32),
>
    decreases n,
{
    if n == 0 {
        Seq::empty()
    } else {
        let layer = layers[n - 1];
        let lo = store.row_lo(layer.0 as int);
        polys_to(store, layers, (n - 1) as nat) + Seq::new(
            (store.row_hi(layer.0 as int) - lo) as nat,
            |i: int| (layer, (lo + i) as u32),
        )
    }
}

/// The polygons of the first two metal layers.
pub open spec fn metal_polys(store: &GeometryStore, tech: &Technology) -> Seq<(LayerId, u32)> {
    let layers = metal_layers(tech);
    polys_to(store, layers, layers.len())
}

/// The polygons of the first two metal layers.
pub fn find_metal(store: &GeometryStore, tech: &Technology) -> (r: Vec<(LayerId, u32)>)
    requires
        store.wf(),
        tech.wf(store),
    ensures
        r@ == metal_polys(store, tech),
        forall|i: int|
            0 <= i < r@.len() ==> (#[trigger] r@[i]).1 < store.polys() && r@[i].0.0
                < store.layers(),
{
    let mut layers: Vec<LayerId> = Vec::new();
    match tech.layer("met1", Ghost(store)) {
        Some(layer) => {
            layers.push(layer);
        },
        None => {},
    }
    match tech.layer("met2", Ghost(store)) {
        Some(layer) => {
            layers.push(layer);
        },
        None => {},
    }
    assert(layers@ =~= metal_layers(tech));
    let mut r: Vec<(LayerId, u32)> = Vec::new();
    let mut n: usize = 0;
    while n < layers.len()
        invariant
            n <= layers@.len(),
            store.wf(),
            forall|i: int| 0 <= i < layers@.len() ==> (#[trigger] layers@[i]).0 < store.layers(),
            r@ == polys_to(store, layers@, n as nat),
            forall|i: int|
                0 <= i < r@.len() ==> (#[trigger] r@[i]).1 < store.polys() && r@[i].0.0
                    < store.layers(),
        decreases layers@.len() - n,
    {
        let layer = layers[n];
        let (lo, hi) = store.polys_on_layer(layer);
        let ghost before = r@;
        let ghost all = Seq::new(
            (hi - lo) as nat,
            |i: int| (layer, (store.row_lo(layer.0 as int) + i) as u32),
        );
        let mut p: u32 = lo;
        assert(r@ =~= before + all.take(0));
        while p < hi
            invariant
                lo <= p <= hi <= store.polys(),
                layer.0 < store.layers(),
                lo == store.row_lo(layer.0 as int),
                all == Seq::new(
                    (hi - lo) as nat,
                    |i: int| (layer, (store.row_lo(layer.0 as int) + i) as u32),
                ),
                r@ == before + all.take(p - lo),
                forall|i: int|
                    0 <= i < r@.len() ==> (#[trigger] r@[i]).1 < store.polys() && r@[i].0.0
                        < store.layers(),
            decreases hi - p,
        {
            r.push((layer, p));
            p = p + 1;
            assert(r@ =~= before + all.take(p - lo));
        }
        assert(all.take(p - lo) =~= all);
        n = n + 1;
    }
    r
}

} // verus!
