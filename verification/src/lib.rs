//! Decentralised control of a drone swarm that finds its way without a
//! positioning system.
//!
//! Every drone runs the same local loop on what it believes: it localises
//! itself, maps landmarks together with the others, tracks its neighbours,
//! agrees with them on where the goal is, and flies there without running into
//! anything. Quantities are single-precision numbers, computed bit by bit, so
//! that each contract says exactly which number comes out.
//!
//! Numbers: `number` says what arithmetic yields, `rounding` and `order` hold
//! the facts about it, `scalar`, `vector`, `matrix` and `angle` compute.
//! `error`, `metric` and `relative` relate the numbers to the real ones they stand
//! for; `forms` holds vectors and matrices of those.
pub mod number;
pub mod rounding;
pub mod order;
pub mod scalar;
pub mod vector;
pub mod margins;
pub mod matrix;
pub mod angle;
pub mod elevation;
pub mod error;
pub mod metric;
pub mod cauchy;
pub mod relative;
pub mod forms;
pub mod config;
pub mod noise;
pub mod metrics;
pub mod sim;
pub mod swarm;
pub mod broadcast;
pub mod fusion;
pub mod consistency;
pub mod preference;
pub mod spectra;
pub mod skew;
pub mod inversion;
pub mod soundness;
pub mod reversal;
pub mod diagonal;
pub mod intersection;
pub mod selection;
pub mod merging;
pub mod placement;
pub mod selfloc;
pub mod slam;
pub mod track;
pub mod turns;
pub mod foresight;
pub mod learning;
pub mod tolerance;
pub mod whereabouts;
pub mod surveying;
pub mod teaching;
pub mod neighbors;
pub mod tracking;
pub mod rollcall;
pub mod ranging;
pub mod gauges;
pub mod goal;
pub mod evidence;
pub mod agreement;
pub mod pooling;
pub mod consensus;
pub mod avoid;
pub mod bearings;
pub mod approach;
pub mod walls;
pub mod speed;
pub mod direction;
pub mod push;
pub mod retreat;
pub mod safety;
pub mod clearance;
pub mod crowd;
pub mod quad;
pub mod limits;
pub mod lookout;
pub mod piloting;
pub mod wishes;
pub mod scene;
pub mod overlay;
pub mod hud;
pub mod distances;
pub mod meeting;
