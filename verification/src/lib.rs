//! Core of a multi-resolver DNS diagnostic tool: the same A-record query is
//! sent to many DNS servers at once, each completion is classified and
//! counted, and the successful answers are ranked by how many servers agreed
//! on each address.
//!
//! This crate holds the verified engine: outcome classification, the
//! completion tracker, and the frequency-ranking aggregator. The network
//! queries themselves, configuration loading and report printing live in the
//! surrounding application.

pub mod aggregate;
pub mod outcome;
pub mod tracker;

pub use aggregate::aggregate;
pub use aggregate::flatten;

pub use tracker::Summary;
pub use tracker::Tracker;
pub use tracker::summarize;
pub use outcome::ErrorKind;
pub use outcome::OutcomeClass;
pub use outcome::QueryOutcome;
pub use outcome::ipv4_value;
