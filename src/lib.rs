//! Patched-conic trajectory planning: the discrete core.
//!
//! Bodies form a hierarchy in which every orbiting body follows a chain of
//! conic segments, each around one parent. This crate holds the verified
//! bookkeeping of that model: building the hierarchy in dependency order,
//! the segment chains and their time contiguity, the encounter schedule and
//! the rules by which the solver picks and applies encounters. The numeric
//! payloads (times, conics, positions) are type parameters that this crate
//! carries without inspecting.

pub mod encounter;
pub mod hierarchy;
pub mod object;
pub mod solver;
