//! Verified state and decision logic for the Atria display server.

pub mod compositor;
pub mod drm;
mod errno;
pub mod input;
pub mod ioctl;
pub mod model;
pub mod output;
pub mod path;
