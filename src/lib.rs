//! Monthly ride-distance aggregation: which ride records count toward which
//! (device, month) bucket, and the buckets themselves.

pub mod decimal;
pub mod request;
pub mod calendar;
pub mod record;
pub mod aggregate;
pub mod order;
pub mod laws;
