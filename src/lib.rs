//! Roster processing: name filtering, per-person time totals, and the list of
//! people whose activity log has gone stale.
pub mod date;
pub mod reports;
pub mod text;
