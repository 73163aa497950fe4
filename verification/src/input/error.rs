//! The ways a read from an input device, or its normalization, can fail.

use vstd::prelude::*;

verus! {

/// A failed precondition at the evdev or normalization boundary.
#[derive(Clone, Copy, Debug, PartialEq, Eq, Structural)]
pub enum InputError {
    DeviceAbsent { event_index: u32 },
    OpenDevice { event_index: u32, errno: i32 },
    QueryEventTypes { event_index: u32, errno: i32 },
    QueryKeyCodes { event_index: u32, errno: i32 },
    QueryKeyState { event_index: u32, errno: i32 },
    SetMonotonicClock { event_index: u32, errno: i32 },
    DeviceUnhandled { event_index: u32 },
    ReadEvents { event_index: u32, errno: i32 },
    /// The device reported end of input: it is gone.
    EndOfInput { event_index: u32 },
    InvalidReadLength { bytes: usize },
    /// Waiting for readiness failed.
    PollDescriptors { errno: i32 },
    /// A wait longer than the platform can express, given as whole seconds and the nanoseconds
    /// beyond them.
    PollTimeoutTooLong { seconds: u64, subsec_nanos: u32 },
    /// A set of input devices was asked for with no key device in it.
    EmptyInputSet,
    ReacquisitionRequired,
    ReacquisitionNotRequired,
    EpochOverflow,
    ReportTooLarge,
    InvalidTimestamp { seconds: i64, microseconds: i64 },
    TimestampOverflow,
    InvalidKeyValue(i32),
}

} // verus!
