//! The registry of collections.

pub mod manager;

pub use self::manager::AtlasManager;
