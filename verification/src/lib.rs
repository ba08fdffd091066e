//! Operational health and upstream-traffic telemetry for a Reddit front-end.

pub mod bucket;
pub mod buckets;
pub mod clock;
pub mod counter;
pub mod health;
pub mod inbound;
pub mod ledger;
pub mod order;
pub mod percentile;
pub mod report;
pub mod route;
pub mod sum;
pub mod table;
pub mod telemetry;
pub mod text;
pub mod traffic;
pub mod window;
