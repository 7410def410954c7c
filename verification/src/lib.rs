pub mod addition;
pub mod clearance;
pub mod closeness;
pub mod components;
pub mod deck;
pub mod declaring;
pub mod design;
pub mod distance;
pub mod enclosing;
pub mod evidence;
pub mod facts;
pub mod filing;
pub mod fitting;
pub mod gating;
pub mod geom;
pub mod grid;
pub mod holding;
pub mod intent;
pub mod model;
pub mod number;
pub mod order;
pub mod parting;
pub mod paths;
pub mod power;
pub mod repeat;
pub mod report;
pub mod ring;
pub mod rooting;
pub mod rounding;
pub mod rules;
pub mod ruleset;
pub mod shape;
pub mod sorted;
pub mod stating;
pub mod store;
pub mod text;
pub mod winding;
