//! Idle-page tracking: which guest pages were touched between two pauses.
//!
//! Host virtual addresses (HVAs) and host page frame numbers (PFNs) stay in
//! here; what comes out speaks of guest-physical addresses (GPAs) alone.

pub mod bitmap;
pub mod coalesce;
pub mod error;
pub mod native;
pub mod observation;
pub mod pagemap;
pub mod regions;
pub mod tracker;
pub mod transfer;
