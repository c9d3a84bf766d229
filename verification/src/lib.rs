//! Hourly, path-hierarchical traffic statistics aggregated from web-server
//! access-log records.

pub mod bucket;
pub mod laws;
pub mod metrics;
pub mod method;
pub mod node;
pub mod path;
pub mod request;
pub mod store;
