//! The evdev ABI facts the input logic depends on: event classes, buffer sizes and the request
//! numbers of the queries made of a device.

use vstd::prelude::*;

use crate::input::report::EV_KEY;
use crate::ioctl::{
    Platform,request, request_number, DIRECTION_READ, DIRECTION_WRITE};

verus! {

/// Relative motion events.
pub const EV_REL: u16 = 2;
/// Absolute motion events.
pub const EV_ABS: u16 = 3;
/// Switch events.
pub const EV_SW: u16 = 5;
/// Bytes in the bitmap of event classes a device supports.
pub const EVENT_TYPE_BYTES: usize = 4;
/// Bytes in a key bitmap: one bit for every key code up to the largest.
pub const KEY_STATE_BYTES: usize = 96;
/// Bytes in the clock identifier a device is told to stamp events with.
pub const CLOCK_ID_BYTES: u32 = 4;
/// The kind byte of evdev requests, `'E'`.
pub const EVDEV_KIND: u8 = 0x45;

/// The request that reads the bitmap of event classes a device supports.
pub fn get_event_types_request(platform: Platform) -> (code: u32)
    ensures
        code == request_number(platform, DIRECTION_READ, EVDEV_KIND, 0x20, EVENT_TYPE_BYTES as u32),
{
    request(platform, DIRECTION_READ, EVDEV_KIND, 0x20, 4)
}

/// The request that reads the bitmap of key codes a device can produce.
pub fn get_key_codes_request(platform: Platform) -> (code: u32)
    ensures
        code == request_number(platform, DIRECTION_READ,
            EVDEV_KIND,
            (0x20 + EV_KEY) as u8,
            KEY_STATE_BYTES as u32,
        ),
{
    request(platform, DIRECTION_READ, EVDEV_KIND, 0x21, 96)
}

/// The request that reads which keys are held down now.
pub fn get_key_state_request(platform: Platform) -> (code: u32)
    ensures
        code == request_number(platform, DIRECTION_READ, EVDEV_KIND, 0x18, KEY_STATE_BYTES as u32),
{
    request(platform, DIRECTION_READ, EVDEV_KIND, 0x18, 96)
}

/// The request that selects the clock a device stamps its events with.
pub fn set_clock_id_request(platform: Platform) -> (code: u32)
    ensures
        code == request_number(platform, DIRECTION_WRITE, EVDEV_KIND, 0xa0, CLOCK_ID_BYTES),
{
    request(platform, DIRECTION_WRITE, EVDEV_KIND, 0xa0, CLOCK_ID_BYTES)
}

} // verus!
