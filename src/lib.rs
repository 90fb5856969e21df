//! Core of a tick-based space simulation, with machine-checked contracts:
//! the time order and staleness test of predicted collisions, the
//! broad-phase interval sweep, the collision phase of a tick as a state
//! machine, spacecraft layout and connectivity rules, and timing helpers.
//!
//! Geometry and physics run on floating point and are left to the caller:
//! coordinates and times enter as order keys (see `coordinate`).

pub mod assembly;
pub mod broad_phase;
pub mod collision;
pub mod component;
pub mod coordinate;
pub mod game;
pub mod ordering;
pub mod phase;
pub mod structure;
pub mod timing;

