//! The rule tables and their transforms, grouped by what they need.
pub mod antenna;
pub mod charging;
pub mod connecting;
pub mod coverage;
pub mod density;
pub mod derating;
pub mod edges;
pub mod electrical;
pub mod enduring;
pub mod guarding;
pub mod judging;
pub mod kinship;
pub mod latchup;
pub mod levelling;
pub mod missing_tie;
pub mod redrawing;
pub mod reliability;
pub mod supply;
pub mod topology;
