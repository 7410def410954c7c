//! What a layout and its netlist show without being told: wells and taps, pads
//! and clamps, rails and their grid.
pub mod bearing;
pub mod esd;
pub mod finding;
pub mod grid;
pub mod mesh;
pub mod names;
pub mod narrow;
pub mod netlist;
pub mod p2p;
pub mod pins;
pub mod rails;
pub mod substrate;
pub mod worst;
