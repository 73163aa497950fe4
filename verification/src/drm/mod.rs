//! Scanning software-composited frames out through DRM/KMS: mode and connector selection,
//! buffer geometry, and the flip bookkeeping around the kernel boundary.

pub mod error;
pub mod logic;
pub mod device;
pub mod present;
pub mod uapi;
