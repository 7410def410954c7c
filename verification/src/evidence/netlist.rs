//! The extracted netlist and the technology it was extracted under.
use crate::model::LayerId;
use crate::number::Number;
use crate::store::GeometryStore;
use crate::text::same_text;
use vstd::prelude::*;

verus! {

/// The net of a polygon that is on none.
pub const OFF_NET: u32 = 0xFFFF_FFFF;

/// What kind of transistor a device is.
#[derive(Clone, Copy, Debug, PartialEq, Eq, Structural)]
pub enum DeviceKind {
    Nmos,
    Pmos,
    Npn,
    Pnp,
}

/// A recognised MOS transistor; each terminal is a net.
pub struct MosDevice {
    pub kind: DeviceKind,
    pub gate: u32,
    pub source: u32,
    pub drain: u32,
    pub body: u32,
    /// The class the recognition rule tags the device with.
    pub device_class: Option<String>,
}

/// A recognised bipolar transistor.
pub struct BjtDevice {
    pub kind: DeviceKind,
    pub collector: u32,
    pub base: u32,
    pub emitter: u32,
    pub name: String,
}

#[derive(Clone, Copy, Debug, PartialEq, Eq, Structural)]
pub enum TwoTerminalKind {
    Resistor,
    Capacitor,
    Diode,
}

/// A recognised two-terminal device.
pub struct TwoTerminalDevice {
    pub kind: TwoTerminalKind,
    pub name: String,
    pub terminal_a: u32,
    pub terminal_b: u32,
    pub value: Number,
}

/// The names of nets, by net number.
pub struct NetNames {
    /// Ascending.
    pub net: Vec<u32>,
    pub name: Vec<String>,
}

impl NetNames {
    pub open spec fn wf(&self) -> bool {
        &&& self.net@.len() == self.name@.len()
        &&& forall|i: int, j: int| 0 <= i < j < self.net@.len() ==> self.net@[i] < self.net@[j]
    }

    /// The name of a net, where it has one.
    pub open spec fn name_spec(&self, net: u32) -> Option<Seq<char>> {
        if self.net@.contains(net) {
            Some(self.name@[self.net@.index_of(net)]@)
        } else {
            None
        }
    }

    /// The row of a net, where it has one.
    pub fn row_of(&self, net: u32) -> (r: Option<usize>)
        requires
            self.wf(),
        ensures
            r is Some <==> self.net@.contains(net),
            r is Some ==> r->0 < self.net@.len() && r->0 == self.net@.index_of(net)
                && self.net@[r->0 as int] == net,
    {
        let mut lo: usize = 0;
        let mut hi: usize = self.net.len();
        while lo < hi
            invariant
                self.wf(),
                lo <= hi <= self.net@.len(),
                forall|k: int| 0 <= k < lo ==> (#[trigger] self.net@[k]) < net,
                forall|k: int| hi <= k < self.net@.len() ==> (#[trigger] self.net@[k]) > net,
            decreases hi - lo,
        {
            let mid: usize = lo + (hi - lo) / 2;
            let here: u32 = self.net[mid];
            if here == net {
                assert(self.net@.index_of(net) == mid) by {
                    let k = self.net@.index_of(net);
                    assert(self.net@[mid as int] == net);
                    assert(self.net@[k] == net);
                }
                return Some(mid);
            }
            if here < net {
                lo = mid + 1;
            } else {
                hi = mid;
            }
        }
        assert(!self.net@.contains(net)) by {
            if self.net@.contains(net) {
                let k = self.net@.index_of(net);
                assert(self.net@[k] == net);
            }
        }
        None
    }
}

/// What was recognised in a layout.
pub struct ExtractedNetlist {
    pub devices: Vec<MosDevice>,
    pub bjt_devices: Vec<BjtDevice>,
    pub two_terminal: Vec<TwoTerminalDevice>,
    /// The net of each polygon.
    pub net_of_poly: Vec<u32>,
    pub net_names: NetNames,
}

impl ExtractedNetlist {
    /// Every polygon has an entry, and the names are in order.
    pub open spec fn wf(&self, store: &GeometryStore) -> bool {
        &&& self.net_of_poly@.len() == store.polys()
        &&& self.net_names.wf()
    }

    /// Whether a device has a terminal on a net.
    pub open spec fn device_net(&self, net: u32) -> bool {
        ||| exists|i: int|
            0 <= i < self.devices@.len() && on_mos(#[trigger] &self.devices@[i], net)
        ||| exists|i: int|
            0 <= i < self.bjt_devices@.len() && on_bjt(#[trigger] &self.bjt_devices@[i], net)
        ||| exists|i: int|
            0 <= i < self.two_terminal@.len() && on_pair(#[trigger] &self.two_terminal@[i], net)
    }
}

pub open spec fn on_mos(d: &MosDevice, net: u32) -> bool {
    d.gate == net || d.source == net || d.drain == net || d.body == net
}

pub open spec fn on_bjt(d: &BjtDevice, net: u32) -> bool {
    d.collector == net || d.base == net || d.emitter == net
}

pub open spec fn on_pair(d: &TwoTerminalDevice, net: u32) -> bool {
    d.terminal_a == net || d.terminal_b == net
}

/// How a layer conducts.
#[derive(Clone, Copy, Debug, PartialEq, Eq, Structural)]
pub struct LayerElectrics {
    pub sheet_res_ohm_sq: Number,
    pub via_res_ohm: Number,
}

/// A MOS recognition rule: a gate polygon over a channel polygon.
#[derive(Clone, Copy, Debug, PartialEq, Eq, Structural)]
pub struct MosRule {
    pub gate_layer: LayerId,
    pub channel_layer: LayerId,
}

/// A via layer and the layers it joins.
pub struct ViaRule {
    pub cut: LayerId,
    pub joins: Vec<LayerId>,
}

/// What the technology says about its layers.
pub struct Technology {
    /// The name of each layer of the store.
    pub layer_name: Vec<String>,
    /// The conductor layers, the lowest first.
    pub conductors: Vec<LayerId>,
    pub vias: Vec<ViaRule>,
    /// How each layer conducts, where that is stated.
    pub electrics: Vec<Option<LayerElectrics>>,
    pub mos_rules: Vec<MosRule>,
    /// Names that stand for one net throughout the design.
    pub global_nets: Vec<String>,
    /// Nanometres per database unit.
    pub dbu_nm: Number,
    /// Metal narrower than this is too narrow to carry device current.
    pub em_min_width: i64,
    /// Ohms.
    pub p2p_r_limit_ohm: Number,
}

impl Technology {
    pub open spec fn wf(&self, store: &GeometryStore) -> bool {
        &&& self.layer_name@.len() == store.layers()
        &&& self.electrics@.len() == store.layers()
        &&& forall|i: int|
            0 <= i < self.conductors@.len() ==> (#[trigger] self.conductors@[i]).0 < store.layers()
        &&& forall|i: int|
            0 <= i < self.vias@.len() ==> (#[trigger] self.vias@[i]).cut.0 < store.layers()
        &&& forall|i: int, j: int|
            0 <= i < self.vias@.len() && 0 <= j < self.vias@[i].joins@.len() ==> (
            #[trigger] self.vias@[i].joins@[j]).0 < store.layers()
        &&& forall|i: int|
            0 <= i < self.mos_rules@.len() ==> (#[trigger] self.mos_rules@[i]).gate_layer.0
                < store.layers() && self.mos_rules@[i].channel_layer.0 < store.layers()
    }

    /// Layer `k` is the first of a name.
    pub open spec fn named(&self, name: Seq<char>, k: int) -> bool {
        &&& 0 <= k < self.layer_name@.len()
        &&& self.layer_name@[k]@ == name
        &&& forall|j: int| 0 <= j < k ==> (#[trigger] self.layer_name@[j])@ != name
    }

    /// The layer of a name, where there is one.
    pub open spec fn layer_spec(&self, name: Seq<char>) -> Option<LayerId> {
        if exists|k: int| self.named(name, k) {
            Some(LayerId((choose|k: int| self.named(name, k)) as u32))
        } else {
            None
        }
    }

    /// The layer of a name, where there is one.
    pub fn layer(&self, name: &str, Ghost(store): Ghost<&GeometryStore>) -> (r: Option<LayerId>)
        requires
            store.wf(),
            self.wf(store),
        ensures
            r == self.layer_spec(name@),
            r is Some ==> (r->0).0 < store.layers(),
    {
        let mut k: usize = 0;
        while k < self.layer_name.len()
            invariant
                k <= self.layer_name@.len() == store.layers() <= 0xFFFF_FFFF,
                forall|j: int| 0 <= j < k ==> (#[trigger] self.layer_name@[j])@ != name@,
            decreases self.layer_name@.len() - k,
        {
            if same_text(self.layer_name[k].as_str(), name) {
                proof {
                    assert(self.named(name@, k as int));
                    let c = choose|c: int| self.named(name@, c);
                    assert(self.named(name@, c));
                    assert(c == k);
                }
                return Some(LayerId(k as u32));
            }
            k = k + 1;
        }
        None
    }
}

/// Whether a device has a terminal on a net.
pub fn is_device_net(ext: &ExtractedNetlist, net: u32) -> (r: bool)
    ensures
        r == ext.device_net(net),
{
    let mut i: usize = 0;
    while i < ext.devices.len()
        invariant
            i <= ext.devices@.len(),
            forall|k: int| 0 <= k < i ==> !on_mos(#[trigger] &ext.devices@[k], net),
        decreases ext.devices@.len() - i,
    {
        let d = &ext.devices[i];
        if d.gate == net || d.source == net || d.drain == net || d.body == net {
            assert(on_mos(&ext.devices@[i as int], net));
            return true;
        }
        i = i + 1;
    }
    let mut b: usize = 0;
    while b < ext.bjt_devices.len()
        invariant
            b <= ext.bjt_devices@.len(),
            forall|k: int| 0 <= k < b ==> !on_bjt(#[trigger] &ext.bjt_devices@[k], net),
        decreases ext.bjt_devices@.len() - b,
    {
        let d = &ext.bjt_devices[b];
        if d.collector == net || d.base == net || d.emitter == net {
            assert(on_bjt(&ext.bjt_devices@[b as int], net));
            return true;
        }
        b = b + 1;
    }
    let mut t: usize = 0;
    while t < ext.two_terminal.len()
        invariant
            t <= ext.two_terminal@.len(),
            forall|k: int| 0 <= k < t ==> !on_pair(#[trigger] &ext.two_terminal@[k], net),
        decreases ext.two_terminal@.len() - t,
    {
        let d = &ext.two_terminal[t];
        if d.terminal_a == net || d.terminal_b == net {
            assert(on_pair(&ext.two_terminal@[t as int], net));
            return true;
        }
        t = t + 1;
    }
    false
}

} // verus!
