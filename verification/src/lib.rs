//! An archetype-indexed entity/component store.
//!
//! The store keeps per-category liveness tables (`ecs::World`), hands out
//! copyable entity handles, and attaches typed data to them through parallel
//! component columns (`ecs::ArchStorage`).  Access to shared table state is
//! mediated by a capability token and aliasing-aware cells (`cell`), whose
//! borrow discipline is stated in contracts and checked by the verifier.

pub mod cell;
pub mod ecs;
pub mod number;
