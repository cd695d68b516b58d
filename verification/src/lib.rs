//! Sol 1: the rules of a small Mars exploration game, verified with Verus.
//!
//! The crate models the world grid, charging stations, the robot's
//! keyboard input, the autopilot's navigation and the daily progression
//! of the colony on integers and proves their contracts.
pub mod types;
pub mod world;
pub mod progress;
pub mod systems;
pub mod input;
pub mod ai;
