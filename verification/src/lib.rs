//! Verified core of guest-memory warm-up for snapshot restores.

pub mod idle_page_tracking;
pub mod manifest;
pub mod ordered;
pub mod prefault;
pub mod startup_pack;
pub mod text;
