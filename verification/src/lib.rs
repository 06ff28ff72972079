//! Line-count reporting: work distribution for a pool of counting workers,
//! per-language aggregation of their results, and rendering of the report.

pub mod aggregate;
pub mod count;
pub mod files;
pub mod filter;
pub mod lang;
pub mod laws;
pub mod options;
pub mod order;
pub mod pool;
pub mod protocol;
pub mod report;
pub mod sort;
pub mod text;
