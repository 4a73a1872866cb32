//! Environment materialization for behaviour-driven test specifications.
//!
//! Given-steps of a background are parsed into resource specifications,
//! checked against reference catalogs, registered as canonical indexes keyed
//! by an order-independent signature, and assembled into the environment
//! that the background owns. Data items backing those resources follow a
//! small download life cycle whose outcome records a content digest.

pub mod bano;
pub mod catalog;
pub mod digest;
pub mod item;
pub mod order;
pub mod pipeline;
pub mod signature;
pub mod status;
pub mod store;
pub mod step;
