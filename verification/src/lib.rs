//! Historical shift-scheduling engine.
//!
//! The library keeps an append-only chain of schedule snapshots, answers
//! per-subject aggregate queries by walking the parent chain, and produces a
//! new snapshot by a weighted greedy assignment over an availability set.

pub mod availability;
pub mod catalog;
pub mod commands;
pub mod config;
pub mod error;
pub mod export;
pub mod generate;
pub mod ids;
pub mod import;
pub mod params;
pub mod schedule;
pub mod weight;

pub use availability::Availability;
pub use availability::AvailabilityEntry;
pub use catalog::Slot;
pub use catalog::Subject;
pub use error::Error;
pub use ids::EntityId;
pub use ids::EntityKind;
pub use params::Parameters;
pub use schedule::Assignment;
pub use schedule::Schedule;
pub use schedule::ScheduleStore;
