//! Concurrent crawler core: a dotted-quad extractor over byte chunks, the
//! rendering of extracted addresses as output records, and the work queue with
//! its completion counter that a pool of workers drains.

pub mod extract;
pub mod format;
pub mod pool;

pub use extract::{extract, Octets};
pub use format::{chunk_records, format_record};
pub use pool::{Job, Phase, WorkQueue};
