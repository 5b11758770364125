//! Startup packs: recording the pages a restore touches first, and warming
//! the page cache from such a recording.

pub mod config;
pub mod digest;
pub mod execution;
pub mod identity;
pub mod leases;
pub mod prepare;
pub mod reads;
pub mod recording;
pub mod registry;
pub mod subscription;
