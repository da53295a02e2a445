//! A deterministic, tick-driven grid-puzzle simulation: a box-pushing game
//! on a small fixed grid. The crate holds the entity/component store, the
//! movement resolver, the win detector and the level loader; windowing,
//! rendering and input capture live outside, against the read-only
//! interfaces this crate exposes.

pub mod components;
pub mod constants;
pub mod gameplay_state_system;
pub mod input_system;
pub mod level;
pub mod rendering;
pub mod resources;
pub mod world;
