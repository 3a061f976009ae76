//! Flow aggregation for decoded packet-capture traces: tab-separated flow
//! records in, per-remote-host traffic statistics out.

pub mod addr;
pub mod aggregate;
pub mod filter;
pub mod local;
pub mod location;
pub mod merge;
pub mod pipeline;
pub mod record;
pub mod report;
pub mod stats;
pub mod text;
