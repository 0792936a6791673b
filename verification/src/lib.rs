//! A small persistence layer for a job-posting registry.
//!
//! One flat, page-granular backing memory is multiplexed into independent
//! logical regions; a persistent counter lives in one region and a sorted
//! map of encoded records in another. A registry service composes the two
//! into create/read/update/delete operations over `Job` records, and a
//! separate in-memory matcher pairs employees with suitable postings.

pub mod cell;
pub mod codec;
pub mod errors;
pub mod matcher;
pub mod region;
pub mod storage;
pub mod store;
pub mod wire;
