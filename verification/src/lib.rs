//! A queryable, filtered snapshot of a service-discovery backend.
//!
//! The crate aggregates three backend collections — the service map, the
//! per-service node lists, and the per-service health lists — into one
//! immutable [`consul::Catalog`], applying optional service and tag filters
//! consistently across all three.

pub mod config;
pub mod consul;
pub mod present;
pub mod strutil;
