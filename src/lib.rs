//! Utility-AI decision engine.
//!
//! Behaviours are declared as decisions made of considerations, each of which
//! turns a cached scalar input into a weight through a response curve. Every
//! tick the engine scores each decision (and each candidate target of a
//! targeted decision) for an entity, applies inertia to the active choice and
//! picks the best one.
//!
//! All scalars are fixed-point numbers: an `i64` counts millionths, so
//! `fixed::SCALE` (1 000 000) stands for 1.0.

pub mod fixed;
pub mod identity;
pub mod response_curves;
pub mod considerations;
pub mod decisions;
pub mod definitions;
pub mod define_ai;
pub mod world;
pub mod ai_meta;
pub mod make_decisions;
pub mod inputs;
pub mod systems;
pub mod events;

pub use ai_meta::AIMeta;
pub use definitions::{AIDefinition, AIDefinitions, FilterDefinition, TargetedInputRequirements};
