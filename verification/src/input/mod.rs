//! Evdev report assembly, key normalization and input epochs.
//!
//! Only the key vocabulary is normalized. Pointer, touch, tablet, switch, and gesture records
//! remain unhandled instead of being approximated.

pub mod error;
pub mod report;
pub mod epoch;
pub mod key;
pub mod device;
pub mod evdev;
pub mod readiness;
pub mod set;
