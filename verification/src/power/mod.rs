//! Resistive networks extracted from layout, and the solved state of one.
pub mod anchoring;
pub mod attach;
pub mod balance;
pub mod burden;
pub mod cholesky;
pub mod conduction;
pub mod descent;
pub mod factor;
pub mod joining;
pub mod kirchhoff;
pub mod matrix;
pub mod meshing;
pub mod nets;
pub mod network;
pub mod opposing;
pub mod pricing;
pub mod probe;
pub mod probing;
pub mod process;
pub mod profile;
pub mod rails;
pub mod reduce;
pub mod solve;
pub mod solving;
pub mod refusing;
pub mod settled;
pub mod sounding;
pub mod taps;
pub mod widening;
pub mod wiring;
