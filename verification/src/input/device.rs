//! What a device advertises, whether Atria has a normalization path for it, and where it lives.

use vstd::prelude::*;

use crate::input::error::InputError;
use crate::input::evdev::{EV_ABS, EV_REL, EV_SW, KEY_STATE_BYTES};
use crate::input::key::{bit_is_set, evdev_code, key_for_code, KeyCode};
use crate::input::report::EV_KEY;
use crate::path::{decimal, indexed_path};

verus! {

/// Whether the bit for `event_type` is set in an event-class bitmap.
pub open spec fn has_type(bits: u32, event_type: u16) -> bool
    recommends
        event_type < 32,
{
    bits & (1u32 << event_type) != 0u32
}

/// Event classes advertised by an input device.
#[derive(Clone, Copy, Debug, Default, PartialEq, Eq, Structural)]
pub struct EventTypeSet(u32);

impl EventTypeSet {
    /// The bitmap, one bit per event class.
    pub closed spec fn bits(self) -> u32 {
        self.0
    }

    pub fn has_keys(self) -> (present: bool)
        ensures
            present == has_type(self.bits(), EV_KEY),
    {
        self.contains(EV_KEY)
    }

    pub fn has_relative_motion(self) -> (present: bool)
        ensures
            present == has_type(self.bits(), EV_REL),
    {
        self.contains(EV_REL)
    }

    pub fn has_absolute_motion(self) -> (present: bool)
        ensures
            present == has_type(self.bits(), EV_ABS),
    {
        self.contains(EV_ABS)
    }

    pub fn has_switches(self) -> (present: bool)
        ensures
            present == has_type(self.bits(), EV_SW),
    {
        self.contains(EV_SW)
    }

    pub fn from_bits(bits: u32) -> (set: EventTypeSet)
        ensures
            set.bits() == bits,
    {
        EventTypeSet(bits)
    }

    /// Whether the class `event_type` is advertised.
    pub fn contains(self, event_type: u16) -> (present: bool)
        requires
            event_type < 32,
        ensures
            present == has_type(self.bits(), event_type),
    {
        let mask: u32 = 1u32 << event_type;
        self.0 & mask != 0
    }
}

/// Whether this package has a normalization path for an opened device.
#[derive(Clone, Copy, Debug, PartialEq, Eq, Structural)]
pub enum DeviceClass {
    KeyboardRemote,
    Unhandled { event_types: EventTypeSet },
}

/// The largest code a key bitmap has a bit for.
pub open spec fn last_bitmap_code() -> int {
    KEY_STATE_BYTES * 8 - 1
}

/// Every code whose bit is set in a reported-key bitmap, in increasing order.
pub fn set_key_codes(bitmap: &[u8; 96]) -> (codes: Vec<u16>)
    ensures
        forall|a: int, b: int| 0 <= a < b < codes@.len() ==> codes@[a] < codes@[b],
        forall|code: u16| codes@.contains(code) <==> bit_is_set(bitmap@, code),
{
    let mut codes: Vec<u16> = Vec::new();
    let mut code: u16 = 0;
    while code < 768
        invariant
            code <= 768,
            bitmap@.len() == 96,
            forall|a: int, b: int| 0 <= a < b < codes@.len() ==> codes@[a] < codes@[b],
            forall|a: int| 0 <= a < codes@.len() ==> codes@[a] < code,
            forall|c: u16| c < code ==> (codes@.contains(c) <==> bit_is_set(bitmap@, c)),
            forall|c: u16| codes@.contains(c) ==> c < code,
        decreases 768 - code,
    {
        let byte: u8 = bitmap[(code / 8) as usize];
        let bit: u16 = code % 8;
        if byte & (1u8 << (bit as u8)) != 0 {
            let ghost before = codes@;
            codes.push(code);
            proof {
                assert forall|c: u16| c < code + 1 implies (codes@.contains(c) <==> bit_is_set(
                    bitmap@,
                    c,
                )) by {
                    if c < code {
                        if before.contains(c) {
                            let a = choose|a: int| 0 <= a < before.len() && before[a] == c;
                            assert(codes@[a] == c);
                        }
                        if codes@.contains(c) {
                            let a = choose|a: int| 0 <= a < codes@.len() && codes@[a] == c;
                            if a == before.len() {
                                assert(codes@[a] == code);
                            } else {
                                assert(before[a] == c);
                            }
                        }
                    } else {
                        assert(codes@[codes@.len() - 1] == code);
                    }
                }
                assert forall|c: u16| codes@.contains(c) implies c < code + 1 by {
                    let a = choose|a: int| 0 <= a < codes@.len() && codes@[a] == c;
                    if a < before.len() {
                        assert(before[a] == c);
                    }
                }
            }
        } else {
            proof {
                assert forall|c: u16| c < code + 1 implies (codes@.contains(c) <==> bit_is_set(
                    bitmap@,
                    c,
                )) by {
                    if c == code {
                        assert(!codes@.contains(c));
                    }
                }
            }
        }
        code = code + 1;
    }
    proof {
        assert forall|c: u16| codes@.contains(c) <==> bit_is_set(bitmap@, c) by {
            if c >= 768 {
                assert(!codes@.contains(c));
                assert(c / 8 >= 96);
            }
        }
    }
    codes
}

/// Whether a reported-key bitmap names any key of the vocabulary.
pub fn bitmap_has_supported_key(bitmap: &[u8; 96]) -> (supported: bool)
    ensures
        supported == exists|key: KeyCode| bit_is_set(bitmap@, #[trigger] evdev_code(key)),
{
    let codes = set_key_codes(bitmap);
    let mut i: usize = 0;
    while i < codes.len()
        invariant
            i <= codes@.len(),
            forall|c: u16| codes@.contains(c) <==> bit_is_set(bitmap@, c),
            forall|a: int| 0 <= a < i ==> key_for_code(#[trigger] codes@[a]) is None,
        decreases codes@.len() - i,
    {
        if KeyCode::is_supported_evdev(codes[i]) {
            proof {
                let key = choose|key: KeyCode| evdev_code(key) == codes@[i as int];
                assert(codes@.contains(codes@[i as int]));
            }
            return true;
        }
        i = i + 1;
    }
    proof {
        assert forall|key: KeyCode| !bit_is_set(bitmap@, #[trigger] evdev_code(key)) by {
            if bit_is_set(bitmap@, evdev_code(key)) {
                assert(codes@.contains(evdev_code(key)));
                let a = choose|a: int| 0 <= a < codes@.len() && codes@[a] == evdev_code(key);
                assert(key_for_code(codes@[a]) is None);
            }
        }
    }
    false
}

/// Whether a reported-key bitmap says the device can produce `key`.
///
/// Choosing a device by the keys it reports is what tells a keyboard from any other key source,
/// such as a power button, which reports one key and nothing else.
pub fn reports_key(reported_keys: &[u8; 96], key: KeyCode) -> (reported: bool)
    ensures
        reported == bit_is_set(reported_keys@, evdev_code(key)),
{
    let codes = set_key_codes(reported_keys);
    let mut i: usize = 0;
    while i < codes.len()
        invariant
            i <= codes@.len(),
            forall|c: u16| codes@.contains(c) <==> bit_is_set(reported_keys@, c),
            forall|a: int| 0 <= a < i ==> #[trigger] codes@[a] != evdev_code(key),
        decreases codes@.len() - i,
    {
        match KeyCode::from_evdev(codes[i]) {
            Some(found) => {
                if found == key {
                    proof {
                        assert(codes@.contains(codes@[i as int]));
                    }
                    return true;
                }
            },
            None => {},
        }
        i = i + 1;
    }
    proof {
        if bit_is_set(reported_keys@, evdev_code(key)) {
            assert(codes@.contains(evdev_code(key)));
            let a = choose|a: int| 0 <= a < codes@.len() && codes@[a] == evdev_code(key);
            assert(codes@[a] != evdev_code(key));
        }
    }
    false
}

/// The class of a device from the event classes it advertises and the keys it reports: a key
/// device is one that reports some key of the vocabulary.
pub fn class_for(event_types: EventTypeSet, reported_keys: &[u8; 96]) -> (class: DeviceClass)
    ensures
        class == (if has_type(event_types.bits(), EV_KEY) && exists|key: KeyCode|
            bit_is_set(reported_keys@, #[trigger] evdev_code(key)) {
            DeviceClass::KeyboardRemote
        } else {
            DeviceClass::Unhandled { event_types }
        }),
{
    if event_types.has_keys() && bitmap_has_supported_key(reported_keys) {
        DeviceClass::KeyboardRemote
    } else {
        DeviceClass::Unhandled { event_types }
    }
}

/// The bytes of `/dev/input/event`.
pub open spec fn input_path_prefix() -> Seq<u8> {
    seq![47u8, 100, 101, 118, 47, 105, 110, 112, 117, 116, 47, 101, 118, 101, 110, 116]
}

/// The path of input device node `event_index`, zero-padded, and its length.
pub fn device_path(event_index: u32) -> (path: ([u8; 32], usize))
    ensures
        path.1 == input_path_prefix().len() + decimal(event_index as nat).len(),
        path.0@.take(path.1 as int) == input_path_prefix() + decimal(event_index as nat),
        forall|i: int| path.1 <= i < 32 ==> path.0@[i] == 0,
{
    let prefix: Vec<u8> = vec![47u8, 100, 101, 118, 47, 105, 110, 112, 117, 116, 47, 101, 118, 101, 110, 116];
    assert(prefix@ =~= input_path_prefix());
    indexed_path(prefix.as_slice(), event_index)
}

/// Milliseconds a wait of `seconds` and `subsec_nanos` takes, rounded up so a wait never ends
/// early.
pub open spec fn wait_milliseconds(seconds: u64, subsec_nanos: u32) -> int {
    seconds * 1000 + subsec_nanos / 1_000_000 + if subsec_nanos % 1_000_000 != 0 {
        1int
    } else {
        0int
    }
}

/// The poll timeout for an optional wait, given as whole seconds and the nanoseconds beyond
/// them: `-1` waits forever, and a wait too long for the platform is refused.
pub fn timeout_milliseconds(timeout: Option<(u64, u32)>) -> (milliseconds: Result<i32, InputError>)
    requires
        timeout matches Some(span) ==> span.1 < 1_000_000_000,
    ensures
        timeout is None ==> milliseconds == Ok::<i32, InputError>(-1i32),
        timeout matches Some(span) ==> milliseconds == if wait_milliseconds(span.0, span.1)
            <= i32::MAX {
            Ok::<i32, InputError>(wait_milliseconds(span.0, span.1) as i32)
        } else {
            Err::<i32, InputError>(
                InputError::PollTimeoutTooLong { seconds: span.0, subsec_nanos: span.1 },
            )
        },
{
    match timeout {
        None => Ok(-1),
        Some((seconds, subsec_nanos)) => {
            let whole: u128 = (seconds as u128) * 1000 + (subsec_nanos / 1_000_000) as u128;
            let partial: u128 = if subsec_nanos % 1_000_000 != 0 {
                1
            } else {
                0
            };
            let total: u128 = whole + partial;
            if total <= i32::MAX as u128 {
                Ok(total as i32)
            } else {
                Err(InputError::PollTimeoutTooLong { seconds, subsec_nanos })
            }
        },
    }
}

/// What a failure to open input device node `event_index` means, from the system error it
/// reported, if any: an absent node is no device at all rather than an error, and a failure
/// without an error number is an input/output error.
pub fn open_failure(event_index: u32, errno: Option<i32>) -> (error: Option<InputError>)
    ensures
        errno == Some(2i32) ==> error is None,
        errno is Some && errno->0 != 2 ==> error == Some(
            InputError::OpenDevice { event_index, errno: errno->0 },
        ),
        errno is None ==> error == Some(InputError::OpenDevice { event_index, errno: 5 }),
{
    match errno {
        Some(e) => if e == crate::errno::no_such_file() {
            None
        } else {
            Some(InputError::OpenDevice { event_index, errno: e })
        },
        None => Some(InputError::OpenDevice { event_index, errno: crate::errno::input_output_error() }),
    }
}

/// How many whole records a read of `bytes` bytes returned: a read of nothing means the device
/// is gone, and a read that ends inside a record is torn.
pub fn read_record_count(event_index: u32, bytes: usize, record_bytes: usize) -> (count: Result<
    usize,
    InputError,
>)
    requires
        record_bytes > 0,
    ensures
        bytes == 0 ==> count == Err::<usize, InputError>(InputError::EndOfInput { event_index }),
        bytes != 0 && bytes % record_bytes != 0 ==> count == Err::<usize, InputError>(
            InputError::InvalidReadLength { bytes },
        ),
        bytes != 0 && bytes % record_bytes == 0 ==> count == Ok::<usize, InputError>(
            bytes / record_bytes,
        ),
{
    if bytes == 0 {
        return Err(InputError::EndOfInput { event_index });
    }
    if bytes % record_bytes != 0 {
        return Err(InputError::InvalidReadLength { bytes });
    }
    Ok(bytes / record_bytes)
}

} // verus!
