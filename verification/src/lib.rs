//! Core of a free-hand line editor: it turns a set of drawn line segments into
//! a planar arrangement (splitting lines at their mutual crossings), strips
//! dangling chains down to the topological 2-core, walks face boundaries with a
//! deterministic side-locked tracer, and selects the closed region enclosing a
//! user-indicated point so it can be filled as a polygon.
//!
//! All geometry is exact integer arithmetic on fixed-point coordinates
//! (`geom::SCALE` subunits per drawing unit), so every comparison the
//! algorithms make is deterministic and is stated exactly in the contracts.
//!
//! - `geom`, `poly`: exact scalar, angle, polygon and intersection
//!   primitives;
//! - `arrange`: the planar arrangement builder, a proven-deterministic
//!   function of the line list;
//! - `prune`: the two-core leaf stripping, with the proof that every
//!   surviving node keeps effective degree at least two;
//! - `trace`: the side-locked face walker with its proven step bound;
//! - `fill`: dual-trace fill selection, whose result provably contains the
//!   requested point;
//! - `trim`: destructive overhang removal;
//! - `dsu`, `counts`, `tracker`: the incremental closed-component tracker,
//!   whose per-component odd-degree counters are proven exact;
//! - `color`: fill-color parsing;
//! - `editor`: the owned aggregate with its undoable command history.

pub mod arrange;
pub mod color;
pub mod counts;
pub mod dsu;
pub mod editor;
pub mod fill;
pub mod geom;
pub mod poly;
pub mod prune;
pub mod trace;
pub mod tracker;
pub mod trim;
