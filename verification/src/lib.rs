//! A verified evolution engine for a toroidal lattice of cognitive units.
//!
//! Each unit keeps a bounded history of records and advances by delegating
//! the computation of its next record to an external resolver; the lattice
//! advances every unit exactly once per step with concurrency bounded by the
//! size of the resolver pool.

pub mod chat;
pub mod codec;
pub mod compute;
pub mod entity;
pub mod manager;
pub mod outside;
pub mod resolver;
pub mod rule;
pub mod space;
pub mod step;
pub mod substrate;
pub mod unit;
