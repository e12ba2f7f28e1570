//! Live CPU counter broadcasting: a verified parser for the counter text of
//! the operating system, a connection registry that fans parsed snapshots out
//! to every registered observer, and the per-tick decision of the sampling
//! pipeline. The transport and timer plumbing around these lives outside the
//! library.

pub mod connections;
pub mod stats;
pub mod stats_stream;
