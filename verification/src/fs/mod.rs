//! The easy-fs file system: its on-disk structures and the virtual file
//! system layer over them.
pub mod layout;
pub mod vfs;
pub mod file;
