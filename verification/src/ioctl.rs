//! Encoding of ioctl request numbers: a direction, the size of the argument, a driver's kind
//! byte and a command number packed into one word.
//!
//! The packing differs between kernels. Linux keeps the direction in the top two bits and the
//! size in the fourteen below them; FreeBSD gives each direction a bit of its own (a request with
//! no argument has one too) and keeps thirteen bits of size.

use vstd::prelude::*;

verus! {

/// No argument is transferred.
pub const DIRECTION_NONE: u32 = 0;
/// The caller writes the argument to the driver.
pub const DIRECTION_WRITE: u32 = 1;
/// The driver writes the argument back to the caller.
pub const DIRECTION_READ: u32 = 2;
/// The argument goes both ways.
pub const DIRECTION_READ_WRITE: u32 = 3;

/// The largest argument size a Linux request can carry.
pub const MAX_ARGUMENT_BYTES: u32 = 0x3fff;

/// The kernel whose request packing is wanted.
#[derive(Clone, Copy, Debug, PartialEq, Eq, Structural)]
pub enum Platform {
    /// Linux and Android.
    Linux,
    /// FreeBSD.
    FreeBsd,
}

/// FreeBSD's direction word: `IOC_VOID`, `IOC_IN`, `IOC_OUT`, or both of the last two.
pub open spec fn freebsd_direction(direction: u32) -> int {
    if direction == DIRECTION_NONE {
        0x2000_0000
    } else if direction == DIRECTION_WRITE {
        0x8000_0000
    } else if direction == DIRECTION_READ {
        0x4000_0000
    } else {
        0xc000_0000
    }
}

/// The request number on `platform`.
///
/// Linux: the direction in the top two bits, then fourteen bits of argument size, then the kind
/// byte and the command number. FreeBSD: the direction word, the size masked to thirteen bits
/// (none for a request without an argument), then the kind byte and the command number.
pub open spec fn request_number(platform: Platform, direction: u32, kind: u8, number: u8, size: u32) -> int {
    match platform {
        Platform::Linux => direction * 0x4000_0000 + size * 0x1_0000 + kind * 0x100 + number,
        Platform::FreeBsd => freebsd_direction(direction) + (if direction == DIRECTION_NONE {
            0
        } else {
            (size % 0x2000) * 0x1_0000
        }) + kind * 0x100 + number,
    }
}

/// Packs a request number for `platform`.
pub fn request(platform: Platform, direction: u32, kind: u8, number: u8, size: u32) -> (code: u32)
    requires
        direction <= DIRECTION_READ_WRITE,
        platform == Platform::Linux ==> size <= MAX_ARGUMENT_BYTES,
    ensures
        code == request_number(platform, direction, kind, number, size),
{
    let wide_kind: u32 = kind as u32;
    let wide_number: u32 = number as u32;
    match platform {
        Platform::Linux => {
            let code: u32 = (direction << 30u32) | (size << 16u32) | (wide_kind << 8u32)
                | wide_number;
            assert(code == direction * 0x4000_0000 + size * 0x1_0000 + wide_kind * 0x100
                + wide_number) by (bit_vector)
                requires
                    direction <= 3,
                    size <= 0x3fff,
                    wide_kind <= 0xff,
                    wide_number <= 0xff,
                    code == (direction << 30u32) | (size << 16u32) | (wide_kind << 8u32)
                        | wide_number,
            ;
            code
        },
        Platform::FreeBsd => {
            let word: u32 = if direction == DIRECTION_NONE {
                0x2000_0000
            } else if direction == DIRECTION_WRITE {
                0x8000_0000
            } else if direction == DIRECTION_READ {
                0x4000_0000
            } else {
                0xc000_0000
            };
            let length: u32 = if direction == DIRECTION_NONE {
                0
            } else {
                size & 0x1fff
            };
            assert(size & 0x1fff == size % 0x2000) by (bit_vector);
            let code: u32 = word | (length << 16u32) | (wide_kind << 8u32) | wide_number;
            assert(code == word + length * 0x1_0000 + wide_kind * 0x100 + wide_number)
                by (bit_vector)
                requires
                    word == 0x2000_0000 || word == 0x8000_0000 || word == 0x4000_0000
                        || word == 0xc000_0000,
                    length <= 0x1fff,
                    wide_kind <= 0xff,
                    wide_number <= 0xff,
                    code == word | (length << 16u32) | (wide_kind << 8u32) | wide_number,
            ;
            code
        },
    }
}

} // verus!
