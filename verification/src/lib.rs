//! Verified core of an options-flow collector: OCC symbol parsing, the
//! session-aware expiry clock, and front-expiry chain selection.

pub mod calendar;
pub mod chain;
pub mod clock;
pub mod config;
pub mod models;
pub mod occ;
pub mod schedule;
pub mod strikes;

pub use calendar::Date;
pub use models::OptionKind;
