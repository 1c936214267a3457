//! Verified core of an HLS stream probe.

pub mod analyze;
pub mod clock;
pub mod double;
pub mod edge;
pub mod fetch;
pub mod live;
pub mod measure;
pub mod number;
pub mod playlist;
pub mod report;
pub mod single;
pub mod text;
pub mod timing;
