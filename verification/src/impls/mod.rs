//! Virtual filesystem implementations
pub mod dir_entries;
pub mod memory;
pub mod bindfs;
pub mod overlay;
pub mod memory_laws;
pub mod overlay_laws;
