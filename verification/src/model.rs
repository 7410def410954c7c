//! Identifiers and small enumerations shared by every table.
use vstd::prelude::*;

verus! {

/// A layer of the layout, as an index into the store's layer table.
#[derive(Clone, Copy, Debug, PartialEq, Eq, Structural)]
pub struct LayerId(pub u32);

/// A polygon of the layout, as a row of the store.
#[derive(Clone, Copy, Debug, PartialEq, Eq, Structural)]
pub struct PolyId(pub u32);

/// An extracted net.
#[derive(Clone, Copy, Debug, PartialEq, Eq, Structural)]
pub struct NetId(pub u32);

/// The id that stands for "on no net".
pub const NO_NET: u32 = 0xFFFF_FFFF;

/// A recognised device, as a row of the device table.
#[derive(Clone, Copy, Debug, PartialEq, Eq, Structural)]
pub struct DeviceId(pub u32);

/// An interned string.
#[derive(Clone, Copy, Debug, PartialEq, Eq, Structural)]
pub struct StrId(pub u32);

/// A voltage domain declared by the design owner.
#[derive(Clone, Copy, Debug, PartialEq, Eq, Structural)]
pub struct DomainId(pub u32);

/// What one terminal of a device is.
#[derive(Clone, Copy, Debug, PartialEq, Eq, Structural)]
pub enum TerminalRole {
    Gate,
    Source,
    Drain,
    Bulk,
    Base,
    Emitter,
    Collector,
    /// One end of a symmetric device.
    Pin(u8),
}

/// Which side of a domain a supply net carries.
#[derive(Clone, Copy, Debug, PartialEq, Eq, Structural)]
pub enum SupplyRole {
    Power,
    Ground,
}

/// A layer as a rule names it: one of the store's own, or a derived one.
#[derive(Clone, Copy, Debug, PartialEq, Eq, Structural)]
pub enum LayerRef {
    Base(LayerId),
    Named(StrId),
}

} // verus!
