//! Package metadata cache and version resolution for a game-server mod manager.
pub mod package_key;
pub mod version;
pub mod catalog;
pub mod requirements;
pub mod cache_file;
pub mod codec;
pub mod store;
pub mod update;
pub mod display;
