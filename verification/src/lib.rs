//! An archetype-based entity-component store with cached queries.

pub mod archetype;
pub mod binding;
pub mod component;
pub mod debug_utils;
pub mod entity;
pub mod flags;
pub mod frames;
pub mod history;
pub mod query;
pub mod storage;
pub mod world;
