//! Retention of container-image tags.
//!
//! A tag is read as a [`version::Version`]; versions are totally ordered, oldest first.
//! The images of a registry stand in a catalog, [`image::Images`], by repository. The
//! retention engine, [`image::Images::delete`], sorts the versions of each repository
//! into buckets by branch and snapshot flag and tells which to evict so that every
//! bucket keeps its newest only.
//!
//! [`grammar`] states which strings are tags and [`retention`] states the rule of
//! retention; both hold the laws that are proved of them. [`pattern`] holds what is
//! taken on trust of the regular-expression engine.

pub mod arg;
pub mod docker_registry_type;
pub mod engine;
pub mod grammar;
pub mod image;
pub mod image_registry;
pub mod numeral;
pub mod pattern;
pub mod retention;
pub mod text;
pub mod version;
