//! The compositor's per-connection bookkeeping: object identifiers, the errors an untrusted
//! request can earn, and the registry of objects one connection holds.

pub mod binding;
pub mod error;
pub mod registry;
pub mod state;
