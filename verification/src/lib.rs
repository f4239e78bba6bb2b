//! Liveness tracking for consensus validators.
//!
//! The tracker keeps, for each validator identity it was told about, the
//! timestamp of the last round boundary it was scored at and the timestamp at
//! which it was last seen online.  From those two timestamps a fixed window
//! policy classifies each validator as active or offline, offline validators
//! can be turned into an index-based report, and reports received from peers
//! can be checked for consistency with local belief.

pub mod authority;
pub mod laws;
pub mod tracker;

pub use authority::AuthorityId;
pub use tracker::Observed;
pub use tracker::OfflineTracker;
pub use tracker::REPORT_TIME;
