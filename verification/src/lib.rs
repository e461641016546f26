//! Assigns label values to the pods of an application so that every value of a label is
//! carried by its percentage of the pods.

pub mod binary64;
pub mod census;
pub mod conduct;
pub mod config;
pub mod controller;
pub mod convergence;
pub mod cycle;
pub mod distribution;
pub mod economy;
pub mod json;
pub mod labeler;
pub mod labels;
pub mod metrics;
pub mod patch;
pub mod pod;
pub mod precision;
pub mod quota;
pub mod resolve;
pub mod rounding;
pub mod scan;
pub mod shares;
pub mod sums;
pub mod text;
pub mod turns;
