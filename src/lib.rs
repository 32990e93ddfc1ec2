//! Folder-structured image datasets: class indexing from a directory listing,
//! epoch-based batching with optional reshuffling, and a reduce-on-plateau
//! learning-rate policy.

pub mod data;
pub mod scan;
pub mod scheduler;
