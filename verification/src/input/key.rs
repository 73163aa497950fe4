//! The key vocabulary Atria normalizes, and the normalizer that tracks which keys are held.

use vstd::prelude::*;

use crate::input::epoch::Epoch;
use crate::input::error::InputError;
use crate::input::report::{RawInputEvent, RawReport, EV_KEY};

verus! {

pub const KEY_ESC: u16 = 1;
pub const KEY_ENTER: u16 = 28;
pub const KEY_UP: u16 = 103;
pub const KEY_LEFT: u16 = 105;
pub const KEY_RIGHT: u16 = 106;
pub const KEY_DOWN: u16 = 108;
pub const KEY_MUTE: u16 = 113;
pub const KEY_VOLUMEDOWN: u16 = 114;
pub const KEY_VOLUMEUP: u16 = 115;
pub const KEY_POWER: u16 = 116;
pub const KEY_MENU: u16 = 139;
pub const KEY_BACK: u16 = 158;
pub const KEY_HOMEPAGE: u16 = 172;
pub const KEY_NEXTSONG: u16 = 163;
pub const KEY_PLAYPAUSE: u16 = 164;
pub const KEY_PREVIOUSSONG: u16 = 165;
pub const KEY_STOPCD: u16 = 166;
pub const KEY_RECORD: u16 = 167;
pub const KEY_REWIND: u16 = 168;
pub const KEY_EXIT: u16 = 174;
pub const KEY_FASTFORWARD: u16 = 208;
pub const KEY_CANCEL: u16 = 223;
pub const KEY_OK: u16 = 0x160;
pub const KEY_SELECT: u16 = 0x161;
pub const KEY_INFO: u16 = 0x166;
pub const KEY_EPG: u16 = 0x16d;
pub const KEY_SUBTITLE: u16 = 0x172;
pub const KEY_TV: u16 = 0x179;
pub const KEY_AUDIO: u16 = 0x188;
pub const KEY_VIDEO: u16 = 0x189;
pub const KEY_RED: u16 = 0x18e;
pub const KEY_GREEN: u16 = 0x18f;
pub const KEY_YELLOW: u16 = 0x190;
pub const KEY_BLUE: u16 = 0x191;
pub const KEY_CHANNELUP: u16 = 0x192;
pub const KEY_CHANNELDOWN: u16 = 0x193;
pub const KEY_NUMERIC_0: u16 = 0x200;
pub const KEY_NUMERIC_1: u16 = 0x201;
pub const KEY_NUMERIC_2: u16 = 0x202;
pub const KEY_NUMERIC_3: u16 = 0x203;
pub const KEY_NUMERIC_4: u16 = 0x204;
pub const KEY_NUMERIC_5: u16 = 0x205;
pub const KEY_NUMERIC_6: u16 = 0x206;
pub const KEY_NUMERIC_7: u16 = 0x207;
pub const KEY_NUMERIC_8: u16 = 0x208;
pub const KEY_NUMERIC_9: u16 = 0x209;
pub const KEY_NUMERIC_STAR: u16 = 0x20a;
pub const KEY_NUMERIC_POUND: u16 = 0x20b;

/// How many keys the vocabulary holds.
pub const KEY_CODE_COUNT: usize = 48;

/// The largest evdev key code, whose bit is the last one a key bitmap can hold.
pub const KEY_CODE_MAX: u16 = 0x2ff;

/// A physical key whose meaning is stable across the supported evdev ABIs.
#[derive(Clone, Copy, Debug, PartialEq, Eq, Structural)]
pub enum KeyCode {
    Escape,
    Enter,
    Up,
    Left,
    Right,
    Down,
    Mute,
    VolumeDown,
    VolumeUp,
    Power,
    Menu,
    Back,
    Home,
    NextTrack,
    PlayPause,
    PreviousTrack,
    Stop,
    Record,
    Rewind,
    Exit,
    FastForward,
    Cancel,
    OkButton,
    Select,
    Info,
    Guide,
    Subtitle,
    Tv,
    Audio,
    Video,
    Red,
    Green,
    Yellow,
    Blue,
    ChannelUp,
    ChannelDown,
    Numeric0,
    Numeric1,
    Numeric2,
    Numeric3,
    Numeric4,
    Numeric5,
    Numeric6,
    Numeric7,
    Numeric8,
    Numeric9,
    NumericStar,
    NumericPound,
}

/// The evdev code each key is reported under.
pub open spec fn evdev_code(key: KeyCode) -> u16 {
    match key {
        KeyCode::Escape => KEY_ESC,
        KeyCode::Enter => KEY_ENTER,
        KeyCode::Up => KEY_UP,
        KeyCode::Left => KEY_LEFT,
        KeyCode::Right => KEY_RIGHT,
        KeyCode::Down => KEY_DOWN,
        KeyCode::Mute => KEY_MUTE,
        KeyCode::VolumeDown => KEY_VOLUMEDOWN,
        KeyCode::VolumeUp => KEY_VOLUMEUP,
        KeyCode::Power => KEY_POWER,
        KeyCode::Menu => KEY_MENU,
        KeyCode::Back => KEY_BACK,
        KeyCode::Home => KEY_HOMEPAGE,
        KeyCode::NextTrack => KEY_NEXTSONG,
        KeyCode::PlayPause => KEY_PLAYPAUSE,
        KeyCode::PreviousTrack => KEY_PREVIOUSSONG,
        KeyCode::Stop => KEY_STOPCD,
        KeyCode::Record => KEY_RECORD,
        KeyCode::Rewind => KEY_REWIND,
        KeyCode::Exit => KEY_EXIT,
        KeyCode::FastForward => KEY_FASTFORWARD,
        KeyCode::Cancel => KEY_CANCEL,
        KeyCode::OkButton => KEY_OK,
        KeyCode::Select => KEY_SELECT,
        KeyCode::Info => KEY_INFO,
        KeyCode::Guide => KEY_EPG,
        KeyCode::Subtitle => KEY_SUBTITLE,
        KeyCode::Tv => KEY_TV,
        KeyCode::Audio => KEY_AUDIO,
        KeyCode::Video => KEY_VIDEO,
        KeyCode::Red => KEY_RED,
        KeyCode::Green => KEY_GREEN,
        KeyCode::Yellow => KEY_YELLOW,
        KeyCode::Blue => KEY_BLUE,
        KeyCode::ChannelUp => KEY_CHANNELUP,
        KeyCode::ChannelDown => KEY_CHANNELDOWN,
        KeyCode::Numeric0 => KEY_NUMERIC_0,
        KeyCode::Numeric1 => KEY_NUMERIC_1,
        KeyCode::Numeric2 => KEY_NUMERIC_2,
        KeyCode::Numeric3 => KEY_NUMERIC_3,
        KeyCode::Numeric4 => KEY_NUMERIC_4,
        KeyCode::Numeric5 => KEY_NUMERIC_5,
        KeyCode::Numeric6 => KEY_NUMERIC_6,
        KeyCode::Numeric7 => KEY_NUMERIC_7,
        KeyCode::Numeric8 => KEY_NUMERIC_8,
        KeyCode::Numeric9 => KEY_NUMERIC_9,
        KeyCode::NumericStar => KEY_NUMERIC_STAR,
        KeyCode::NumericPound => KEY_NUMERIC_POUND,
    }
}

/// The key an evdev code names, if it names one this vocabulary holds.
pub open spec fn key_for_code(code: u16) -> Option<KeyCode> {
    if exists|key: KeyCode| evdev_code(key) == code {
        Some(choose|key: KeyCode| evdev_code(key) == code)
    } else {
        None
    }
}

/// Where a key's state is kept: each key has its own slot below [`KEY_CODE_COUNT`].
pub open spec fn key_index(key: KeyCode) -> int {
    match key {
        KeyCode::Escape => 0,
        KeyCode::Enter => 1,
        KeyCode::Up => 2,
        KeyCode::Left => 3,
        KeyCode::Right => 4,
        KeyCode::Down => 5,
        KeyCode::Mute => 6,
        KeyCode::VolumeDown => 7,
        KeyCode::VolumeUp => 8,
        KeyCode::Power => 9,
        KeyCode::Menu => 10,
        KeyCode::Back => 11,
        KeyCode::Home => 12,
        KeyCode::NextTrack => 13,
        KeyCode::PlayPause => 14,
        KeyCode::PreviousTrack => 15,
        KeyCode::Stop => 16,
        KeyCode::Record => 17,
        KeyCode::Rewind => 18,
        KeyCode::Exit => 19,
        KeyCode::FastForward => 20,
        KeyCode::Cancel => 21,
        KeyCode::OkButton => 22,
        KeyCode::Select => 23,
        KeyCode::Info => 24,
        KeyCode::Guide => 25,
        KeyCode::Subtitle => 26,
        KeyCode::Tv => 27,
        KeyCode::Audio => 28,
        KeyCode::Video => 29,
        KeyCode::Red => 30,
        KeyCode::Green => 31,
        KeyCode::Yellow => 32,
        KeyCode::Blue => 33,
        KeyCode::ChannelUp => 34,
        KeyCode::ChannelDown => 35,
        KeyCode::Numeric0 => 36,
        KeyCode::Numeric1 => 37,
        KeyCode::Numeric2 => 38,
        KeyCode::Numeric3 => 39,
        KeyCode::Numeric4 => 40,
        KeyCode::Numeric5 => 41,
        KeyCode::Numeric6 => 42,
        KeyCode::Numeric7 => 43,
        KeyCode::Numeric8 => 44,
        KeyCode::Numeric9 => 45,
        KeyCode::NumericStar => 46,
        KeyCode::NumericPound => 47,
    }
}

/// Distinct keys have distinct codes and distinct slots.
pub proof fn keys_are_distinct(a: KeyCode, b: KeyCode)
    ensures
        0 <= key_index(a) < KEY_CODE_COUNT,
        evdev_code(a) <= KEY_CODE_MAX,
        evdev_code(a) == evdev_code(b) ==> a == b,
        key_index(a) == key_index(b) ==> a == b,
{
}

/// The evdev code of a key names that key and no other.
proof fn code_names_its_key(key: KeyCode)
    ensures
        key_for_code(evdev_code(key)) == Some(key),
{
    let found = choose|k: KeyCode| evdev_code(k) == evdev_code(key);
    keys_are_distinct(found, key);
}

/// Each key is the one Linux reports under its input-event code (`linux/input-event-codes.h`):
/// a record with that code is read as that key, whatever the order of the table that maps them.
pub proof fn keys_have_their_linux_codes()
    ensures
        key_for_code(1) == Some(KeyCode::Escape),
        key_for_code(28) == Some(KeyCode::Enter),
        key_for_code(103) == Some(KeyCode::Up),
        key_for_code(105) == Some(KeyCode::Left),
        key_for_code(106) == Some(KeyCode::Right),
        key_for_code(108) == Some(KeyCode::Down),
        key_for_code(113) == Some(KeyCode::Mute),
        key_for_code(114) == Some(KeyCode::VolumeDown),
        key_for_code(115) == Some(KeyCode::VolumeUp),
        key_for_code(116) == Some(KeyCode::Power),
        key_for_code(139) == Some(KeyCode::Menu),
        key_for_code(158) == Some(KeyCode::Back),
        key_for_code(172) == Some(KeyCode::Home),
        key_for_code(163) == Some(KeyCode::NextTrack),
        key_for_code(164) == Some(KeyCode::PlayPause),
        key_for_code(165) == Some(KeyCode::PreviousTrack),
        key_for_code(166) == Some(KeyCode::Stop),
        key_for_code(167) == Some(KeyCode::Record),
        key_for_code(168) == Some(KeyCode::Rewind),
        key_for_code(174) == Some(KeyCode::Exit),
        key_for_code(208) == Some(KeyCode::FastForward),
        key_for_code(223) == Some(KeyCode::Cancel),
        key_for_code(0x160) == Some(KeyCode::OkButton),
        key_for_code(0x161) == Some(KeyCode::Select),
        key_for_code(0x166) == Some(KeyCode::Info),
        key_for_code(0x16d) == Some(KeyCode::Guide),
        key_for_code(0x172) == Some(KeyCode::Subtitle),
        key_for_code(0x179) == Some(KeyCode::Tv),
        key_for_code(0x188) == Some(KeyCode::Audio),
        key_for_code(0x189) == Some(KeyCode::Video),
        key_for_code(0x18e) == Some(KeyCode::Red),
        key_for_code(0x18f) == Some(KeyCode::Green),
        key_for_code(0x190) == Some(KeyCode::Yellow),
        key_for_code(0x191) == Some(KeyCode::Blue),
        key_for_code(0x192) == Some(KeyCode::ChannelUp),
        key_for_code(0x193) == Some(KeyCode::ChannelDown),
        key_for_code(0x200) == Some(KeyCode::Numeric0),
        key_for_code(0x201) == Some(KeyCode::Numeric1),
        key_for_code(0x202) == Some(KeyCode::Numeric2),
        key_for_code(0x203) == Some(KeyCode::Numeric3),
        key_for_code(0x204) == Some(KeyCode::Numeric4),
        key_for_code(0x205) == Some(KeyCode::Numeric5),
        key_for_code(0x206) == Some(KeyCode::Numeric6),
        key_for_code(0x207) == Some(KeyCode::Numeric7),
        key_for_code(0x208) == Some(KeyCode::Numeric8),
        key_for_code(0x209) == Some(KeyCode::Numeric9),
        key_for_code(0x20a) == Some(KeyCode::NumericStar),
        key_for_code(0x20b) == Some(KeyCode::NumericPound),
{
    code_names_its_key(KeyCode::Escape);
    code_names_its_key(KeyCode::Enter);
    code_names_its_key(KeyCode::Up);
    code_names_its_key(KeyCode::Left);
    code_names_its_key(KeyCode::Right);
    code_names_its_key(KeyCode::Down);
    code_names_its_key(KeyCode::Mute);
    code_names_its_key(KeyCode::VolumeDown);
    code_names_its_key(KeyCode::VolumeUp);
    code_names_its_key(KeyCode::Power);
    code_names_its_key(KeyCode::Menu);
    code_names_its_key(KeyCode::Back);
    code_names_its_key(KeyCode::Home);
    code_names_its_key(KeyCode::NextTrack);
    code_names_its_key(KeyCode::PlayPause);
    code_names_its_key(KeyCode::PreviousTrack);
    code_names_its_key(KeyCode::Stop);
    code_names_its_key(KeyCode::Record);
    code_names_its_key(KeyCode::Rewind);
    code_names_its_key(KeyCode::Exit);
    code_names_its_key(KeyCode::FastForward);
    code_names_its_key(KeyCode::Cancel);
    code_names_its_key(KeyCode::OkButton);
    code_names_its_key(KeyCode::Select);
    code_names_its_key(KeyCode::Info);
    code_names_its_key(KeyCode::Guide);
    code_names_its_key(KeyCode::Subtitle);
    code_names_its_key(KeyCode::Tv);
    code_names_its_key(KeyCode::Audio);
    code_names_its_key(KeyCode::Video);
    code_names_its_key(KeyCode::Red);
    code_names_its_key(KeyCode::Green);
    code_names_its_key(KeyCode::Yellow);
    code_names_its_key(KeyCode::Blue);
    code_names_its_key(KeyCode::ChannelUp);
    code_names_its_key(KeyCode::ChannelDown);
    code_names_its_key(KeyCode::Numeric0);
    code_names_its_key(KeyCode::Numeric1);
    code_names_its_key(KeyCode::Numeric2);
    code_names_its_key(KeyCode::Numeric3);
    code_names_its_key(KeyCode::Numeric4);
    code_names_its_key(KeyCode::Numeric5);
    code_names_its_key(KeyCode::Numeric6);
    code_names_its_key(KeyCode::Numeric7);
    code_names_its_key(KeyCode::Numeric8);
    code_names_its_key(KeyCode::Numeric9);
    code_names_its_key(KeyCode::NumericStar);
    code_names_its_key(KeyCode::NumericPound);
}

impl KeyCode {
    /// The key an evdev code names, or `None` for a code outside the vocabulary.
    pub fn from_evdev(code: u16) -> (key: Option<KeyCode>)
        ensures
            key == key_for_code(code),
            key matches Some(k) ==> evdev_code(k) == code,
            key is None ==> forall|k: KeyCode| evdev_code(k) != code,
    {
        let key = match code {
            KEY_ESC => Some(KeyCode::Escape),
            KEY_ENTER => Some(KeyCode::Enter),
            KEY_UP => Some(KeyCode::Up),
            KEY_LEFT => Some(KeyCode::Left),
            KEY_RIGHT => Some(KeyCode::Right),
            KEY_DOWN => Some(KeyCode::Down),
            KEY_MUTE => Some(KeyCode::Mute),
            KEY_VOLUMEDOWN => Some(KeyCode::VolumeDown),
            KEY_VOLUMEUP => Some(KeyCode::VolumeUp),
            KEY_POWER => Some(KeyCode::Power),
            KEY_MENU => Some(KeyCode::Menu),
            KEY_BACK => Some(KeyCode::Back),
            KEY_HOMEPAGE => Some(KeyCode::Home),
            KEY_NEXTSONG => Some(KeyCode::NextTrack),
            KEY_PLAYPAUSE => Some(KeyCode::PlayPause),
            KEY_PREVIOUSSONG => Some(KeyCode::PreviousTrack),
            KEY_STOPCD => Some(KeyCode::Stop),
            KEY_RECORD => Some(KeyCode::Record),
            KEY_REWIND => Some(KeyCode::Rewind),
            KEY_EXIT => Some(KeyCode::Exit),
            KEY_FASTFORWARD => Some(KeyCode::FastForward),
            KEY_CANCEL => Some(KeyCode::Cancel),
            KEY_OK => Some(KeyCode::OkButton),
            KEY_SELECT => Some(KeyCode::Select),
            KEY_INFO => Some(KeyCode::Info),
            KEY_EPG => Some(KeyCode::Guide),
            KEY_SUBTITLE => Some(KeyCode::Subtitle),
            KEY_TV => Some(KeyCode::Tv),
            KEY_AUDIO => Some(KeyCode::Audio),
            KEY_VIDEO => Some(KeyCode::Video),
            KEY_RED => Some(KeyCode::Red),
            KEY_GREEN => Some(KeyCode::Green),
            KEY_YELLOW => Some(KeyCode::Yellow),
            KEY_BLUE => Some(KeyCode::Blue),
            KEY_CHANNELUP => Some(KeyCode::ChannelUp),
            KEY_CHANNELDOWN => Some(KeyCode::ChannelDown),
            KEY_NUMERIC_0 => Some(KeyCode::Numeric0),
            KEY_NUMERIC_1 => Some(KeyCode::Numeric1),
            KEY_NUMERIC_2 => Some(KeyCode::Numeric2),
            KEY_NUMERIC_3 => Some(KeyCode::Numeric3),
            KEY_NUMERIC_4 => Some(KeyCode::Numeric4),
            KEY_NUMERIC_5 => Some(KeyCode::Numeric5),
            KEY_NUMERIC_6 => Some(KeyCode::Numeric6),
            KEY_NUMERIC_7 => Some(KeyCode::Numeric7),
            KEY_NUMERIC_8 => Some(KeyCode::Numeric8),
            KEY_NUMERIC_9 => Some(KeyCode::Numeric9),
            KEY_NUMERIC_STAR => Some(KeyCode::NumericStar),
            KEY_NUMERIC_POUND => Some(KeyCode::NumericPound),
            _ => None,
        };
        proof {
            match key {
                Some(k) => {
                    assert(evdev_code(k) == code);
                    let chosen = choose|other: KeyCode| evdev_code(other) == code;
                    keys_are_distinct(chosen, k);
                },
                None => {
                    assert(!exists|other: KeyCode| evdev_code(other) == code);
                },
            }
        }
        key
    }

    /// Whether an evdev code names a key of this vocabulary.
    pub fn is_supported_evdev(code: u16) -> (supported: bool)
        ensures
            supported == key_for_code(code) is Some,
    {
        KeyCode::from_evdev(code).is_some()
    }

    /// The slot this key's state is kept in.
    pub fn index(self) -> (index: usize)
        ensures
            index == key_index(self),
            index < KEY_CODE_COUNT,
    {
        match self {
            KeyCode::Escape => 0,
            KeyCode::Enter => 1,
            KeyCode::Up => 2,
            KeyCode::Left => 3,
            KeyCode::Right => 4,
            KeyCode::Down => 5,
            KeyCode::Mute => 6,
            KeyCode::VolumeDown => 7,
            KeyCode::VolumeUp => 8,
            KeyCode::Power => 9,
            KeyCode::Menu => 10,
            KeyCode::Back => 11,
            KeyCode::Home => 12,
            KeyCode::NextTrack => 13,
            KeyCode::PlayPause => 14,
            KeyCode::PreviousTrack => 15,
            KeyCode::Stop => 16,
            KeyCode::Record => 17,
            KeyCode::Rewind => 18,
            KeyCode::Exit => 19,
            KeyCode::FastForward => 20,
            KeyCode::Cancel => 21,
            KeyCode::OkButton => 22,
            KeyCode::Select => 23,
            KeyCode::Info => 24,
            KeyCode::Guide => 25,
            KeyCode::Subtitle => 26,
            KeyCode::Tv => 27,
            KeyCode::Audio => 28,
            KeyCode::Video => 29,
            KeyCode::Red => 30,
            KeyCode::Green => 31,
            KeyCode::Yellow => 32,
            KeyCode::Blue => 33,
            KeyCode::ChannelUp => 34,
            KeyCode::ChannelDown => 35,
            KeyCode::Numeric0 => 36,
            KeyCode::Numeric1 => 37,
            KeyCode::Numeric2 => 38,
            KeyCode::Numeric3 => 39,
            KeyCode::Numeric4 => 40,
            KeyCode::Numeric5 => 41,
            KeyCode::Numeric6 => 42,
            KeyCode::Numeric7 => 43,
            KeyCode::Numeric8 => 44,
            KeyCode::Numeric9 => 45,
            KeyCode::NumericStar => 46,
            KeyCode::NumericPound => 47,
        }
    }
}

/// The transition carried by an evdev `EV_KEY` record.
#[derive(Clone, Copy, Debug, PartialEq, Eq, Structural)]
pub enum KeyAction {
    Released,
    Pressed,
    Repeated,
}

/// A normalized physical key event with the device-selected timestamp in nanoseconds.
#[derive(Clone, Copy, Debug, PartialEq, Eq, Structural)]
pub struct KeyEvent {
    pub timestamp_ns: u64,
    pub code: KeyCode,
    pub action: KeyAction,
    pub epoch: Epoch,
}

/// The transition an evdev key value stands for: 0 releases, 1 presses, 2 repeats.
pub open spec fn action_for_value(value: i32) -> Option<KeyAction> {
    if value == 0 {
        Some(KeyAction::Released)
    } else if value == 1 {
        Some(KeyAction::Pressed)
    } else if value == 2 {
        Some(KeyAction::Repeated)
    } else {
        None
    }
}

/// A device timestamp in nanoseconds: seconds must be non-negative and microseconds within one
/// second, and the total must fit in 64 bits.
pub open spec fn timestamp_of(seconds: i64, microseconds: i64) -> Result<u64, InputError> {
    if seconds < 0 || microseconds < 0 || microseconds >= 1_000_000 {
        Err(InputError::InvalidTimestamp { seconds, microseconds })
    } else if seconds * 1_000_000_000 + microseconds * 1_000 > u64::MAX {
        Err(InputError::TimestampOverflow)
    } else {
        Ok((seconds * 1_000_000_000 + microseconds * 1_000) as u64)
    }
}

/// Converts an evdev timestamp to nanoseconds.
pub fn timestamp_ns(seconds: i64, microseconds: i64) -> (nanoseconds: Result<u64, InputError>)
    ensures
        nanoseconds == timestamp_of(seconds, microseconds),
{
    if seconds < 0 || microseconds < 0 || microseconds >= 1_000_000 {
        return Err(InputError::InvalidTimestamp { seconds, microseconds });
    }
    let whole: u64 = seconds as u64;
    let fraction: u64 = (microseconds as u64) * 1_000;
    match whole.checked_mul(1_000_000_000) {
        Some(base) => match base.checked_add(fraction) {
            Some(total) => Ok(total),
            None => Err(InputError::TimestampOverflow),
        },
        None => Err(InputError::TimestampOverflow),
    }
}

/// Key state as held and suppressed slots, together with the events produced so far.
pub type NormalizedState = (Seq<bool>, Seq<bool>, Seq<KeyEvent>);

/// What one record does to the key state and the events produced so far.
///
/// Records of other classes, and key codes outside the vocabulary, pass through untouched. A
/// key record with an unknown value, or an invalid timestamp, is an error. A key whose slot is
/// suppressed produces no event, and its release lifts the suppression.
pub open spec fn normalize_one(state: NormalizedState, raw: RawInputEvent, epoch: Epoch) -> Result<
    NormalizedState,
    InputError,
> {
    let (held, suppressed, events) = state;
    if raw.event_type != EV_KEY {
        Ok(state)
    } else {
        match key_for_code(raw.code) {
            None => Ok(state),
            Some(key) => match action_for_value(raw.value) {
                None => Err(InputError::InvalidKeyValue(raw.value)),
                Some(action) => match timestamp_of(raw.seconds, raw.microseconds) {
                    Err(error) => Err(error),
                    Ok(timestamp_ns) => {
                        let slot = key_index(key);
                        let now_held = held.update(slot, action != KeyAction::Released);
                        if suppressed[slot] {
                            let now_suppressed = if action == KeyAction::Released {
                                suppressed.update(slot, false)
                            } else {
                                suppressed
                            };
                            Ok((now_held, now_suppressed, events))
                        } else {
                            Ok(
                                (
                                    now_held,
                                    suppressed,
                                    events.push(
                                        KeyEvent { timestamp_ns, code: key, action, epoch },
                                    ),
                                ),
                            )
                        }
                    },
                },
            },
        }
    }
}

/// The key state and events after a whole sequence of records, or the first error among them.
pub open spec fn normalize_all(
    held: Seq<bool>,
    suppressed: Seq<bool>,
    records: Seq<RawInputEvent>,
    epoch: Epoch,
) -> Result<NormalizedState, InputError>
    decreases records.len(),
{
    if records.len() == 0 {
        Ok((held, suppressed, Seq::empty()))
    } else {
        match normalize_all(held, suppressed, records.drop_last(), epoch) {
            Err(error) => Err(error),
            Ok(state) => normalize_one(state, records.last(), epoch),
        }
    }
}

/// Once a prefix of the records fails, every longer run fails the same way.
proof fn lemma_failure_persists(
    held: Seq<bool>,
    suppressed: Seq<bool>,
    records: Seq<RawInputEvent>,
    length: int,
    epoch: Epoch,
)
    requires
        0 <= length <= records.len(),
        normalize_all(held, suppressed, records.take(length), epoch) is Err,
    ensures
        normalize_all(held, suppressed, records, epoch) == normalize_all(
            held,
            suppressed,
            records.take(length),
            epoch,
        ),
    decreases records.len(),
{
    if records.len() == length {
        assert(records.take(length) =~= records);
    } else {
        let earlier = records.drop_last();
        assert(earlier.take(length) =~= records.take(length));
        lemma_failure_persists(held, suppressed, earlier, length, epoch);
    }
}

/// Whether the bit for `code` is set in a key bitmap; codes past its end are clear.
pub open spec fn bit_is_set(bitmap: Seq<u8>, code: u16) -> bool {
    &&& (code / 8) < bitmap.len()
    &&& bitmap[(code / 8) as int] & (1u8 << ((code % 8) as u8)) != 0u8
}

/// Tracks physical key state while translating complete reports.
#[derive(Debug)]
pub struct KeyNormalizer {
    down: [bool; 48],
    suppressed: [bool; 48],
}

impl KeyNormalizer {
    /// Which key slots are held down.
    pub closed spec fn held(&self) -> Seq<bool> {
        self.down@
    }

    /// Which key slots are suppressed: held across a cut, so nothing they do is reported until
    /// they are released.
    pub closed spec fn suppressed(&self) -> Seq<bool> {
        self.suppressed@
    }

    /// Every key has a held slot and a suppressed slot.
    pub proof fn lemma_slots(&self)
        ensures
            self.held().len() == KEY_CODE_COUNT,
            self.suppressed().len() == KEY_CODE_COUNT,
    {
    }

    pub fn new() -> (normalizer: KeyNormalizer)
        ensures
            normalizer.held().len() == KEY_CODE_COUNT,
            normalizer.suppressed().len() == KEY_CODE_COUNT,
            forall|slot: int|
                0 <= slot < KEY_CODE_COUNT ==> !normalizer.held()[slot]
                    && !normalizer.suppressed()[slot],
    {
        KeyNormalizer { down: [false; 48], suppressed: [false; 48] }
    }

    /// Normalizes supported key records without interpreting other event classes.
    ///
    /// A report with an invalid record is refused whole: the key state is left as it was.
    pub fn normalize(&mut self, report: &RawReport, epoch: Epoch) -> (result: Result<
        Vec<KeyEvent>,
        InputError,
    >)
        ensures
            match result {
                Ok(events) => normalize_all(old(self).held(), old(self).suppressed(), report@, epoch)
                    == Ok::<NormalizedState, InputError>(
                    (final(self).held(), final(self).suppressed(), events@),
                ),
                Err(error) => {
                    &&& normalize_all(old(self).held(), old(self).suppressed(), report@, epoch)
                        == Err::<NormalizedState, InputError>(error)
                    &&& final(self).held() == old(self).held()
                    &&& final(self).suppressed() == old(self).suppressed()
                },
            },
    {
        let records = report.events();
        let mut next_down = self.down;
        let mut next_suppressed = self.suppressed;
        let mut normalized: Vec<KeyEvent> = Vec::new();
        let mut k: usize = 0;
        while k < records.len()
            invariant
                k <= records@.len(),
                records@ == report@,
                normalize_all(self.held(), self.suppressed(), records@.take(k as int), epoch)
                    == Ok::<NormalizedState, InputError>(
                    (next_down@, next_suppressed@, normalized@),
                ),
            decreases records@.len() - k,
        {
            let raw = records[k];
            proof {
                assert(records@.take(k + 1).drop_last() =~= records@.take(k as int));
                assert(records@.take(k + 1).last() == raw);
            }
            if raw.event_type == EV_KEY {
                match KeyCode::from_evdev(raw.code) {
                    Some(code) => {
                        let action = if raw.value == 0 {
                            KeyAction::Released
                        } else if raw.value == 1 {
                            KeyAction::Pressed
                        } else if raw.value == 2 {
                            KeyAction::Repeated
                        } else {
                            proof {
                                lemma_failure_persists(
                                    self.held(),
                                    self.suppressed(),
                                    records@,
                                    k + 1,
                                    epoch,
                                );
                            }
                            return Err(InputError::InvalidKeyValue(raw.value));
                        };
                        let timestamp = match timestamp_ns(raw.seconds, raw.microseconds) {
                            Ok(timestamp) => timestamp,
                            Err(error) => {
                                proof {
                                    lemma_failure_persists(
                                        self.held(),
                                        self.suppressed(),
                                        records@,
                                        k + 1,
                                        epoch,
                                    );
                                }
                                return Err(error);
                            },
                        };
                        let index = code.index();
                        next_down[index] = action != KeyAction::Released;
                        if next_suppressed[index] {
                            if action == KeyAction::Released {
                                next_suppressed[index] = false;
                            }
                        } else {
                            normalized.push(
                                KeyEvent { timestamp_ns: timestamp, code, action, epoch },
                            );
                        }
                    },
                    None => {},
                }
            }
            k = k + 1;
        }
        proof {
            assert(records@.take(records@.len() as int) =~= records@);
        }
        self.down = next_down;
        self.suppressed = next_suppressed;
        Ok(normalized)
    }

    /// Whether a key is held down.
    pub fn is_down(&self, code: KeyCode) -> (down: bool)
        ensures
            down == self.held()[key_index(code)],
    {
        self.down[code.index()]
    }

    /// Suppresses every held key, so nothing it does is reported until it is released.
    pub fn suppress_held(&mut self)
        ensures
            final(self).held() == old(self).held(),
            final(self).suppressed() == old(self).held(),
    {
        let mut slot: usize = 0;
        while slot < KEY_CODE_COUNT
            invariant
                slot <= KEY_CODE_COUNT,
                self.down@ == old(self).down@,
                forall|i: int| 0 <= i < slot ==> self.suppressed@[i] == self.down@[i],
            decreases KEY_CODE_COUNT - slot,
        {
            self.suppressed[slot] = self.down[slot];
            slot = slot + 1;
        }
        assert(self.suppressed@ =~= self.down@);
    }

    /// Rebuilds key state from a key-state bitmap after a loss of continuity: each key is held,
    /// and suppressed, exactly when its bit is set.
    pub fn reacquire(&mut self, bitmap: &[u8])
        ensures
            forall|key: KeyCode|
                #![trigger key_index(key)]
                final(self).held()[key_index(key)] == bit_is_set(bitmap@, evdev_code(key))
                    && final(self).suppressed()[key_index(key)] == bit_is_set(
                    bitmap@,
                    evdev_code(key),
                ),
    {
        let mut code: u16 = 0;
        while code <= KEY_CODE_MAX
            invariant
                code <= KEY_CODE_MAX + 1,
                forall|key: KeyCode|
                    #![trigger key_index(key)]
                    evdev_code(key) < code ==> self.down@[key_index(key)] == bit_is_set(
                        bitmap@,
                        evdev_code(key),
                    ) && self.suppressed@[key_index(key)] == bit_is_set(
                        bitmap@,
                        evdev_code(key),
                    ),
            decreases KEY_CODE_MAX + 1 - code,
        {
            match KeyCode::from_evdev(code) {
                Some(key) => {
                    let byte_index: usize = (code / 8) as usize;
                    let bit_index: u16 = code % 8;
                    let down = byte_index < bitmap.len() && bitmap[byte_index] & (1u8
                        << (bit_index as u8)) != 0;
                    let index = key.index();
                    self.down[index] = down;
                    self.suppressed[index] = down;
                    proof {
                        assert forall|other: KeyCode|
                            #![trigger key_index(other)]
                            evdev_code(other) < code + 1 implies self.down@[key_index(other)]
                            == bit_is_set(bitmap@, evdev_code(other))
                            && self.suppressed@[key_index(other)] == bit_is_set(
                            bitmap@,
                            evdev_code(other),
                        ) by {
                            keys_are_distinct(other, key);
                        }
                    }
                },
                None => {},
            }
            code = code + 1;
        }
        proof {
            assert forall|key: KeyCode| #![trigger key_index(key)] evdev_code(key) < code by {
                keys_are_distinct(key, key);
            }
        }
    }
}

impl Default for KeyNormalizer {
    fn default() -> (normalizer: KeyNormalizer)
        ensures
            forall|slot: int|
                0 <= slot < KEY_CODE_COUNT ==> !normalizer.held()[slot]
                    && !normalizer.suppressed()[slot],
    {
        KeyNormalizer::new()
    }
}

/// A key suppressed across a cut stays silent: a record for it produces no event, and only its
/// release lifts the suppression.
pub proof fn suppressed_key_stays_silent(
    state: NormalizedState,
    raw: RawInputEvent,
    epoch: Epoch,
    key: KeyCode,
)
    requires
        raw.event_type == EV_KEY,
        key_for_code(raw.code) == Some(key),
        state.0.len() == KEY_CODE_COUNT,
        state.1.len() == KEY_CODE_COUNT,
        state.1[key_index(key)],
    ensures
        normalize_one(state, raw, epoch) matches Ok(next) ==> {
            &&& next.2 == state.2
            &&& next.1[key_index(key)] == (action_for_value(raw.value) != Some(
                KeyAction::Released,
            ))
        },
{
    keys_are_distinct(key, key);
}

/// Every event a report normalizes to carries the epoch it was normalized under.
pub proof fn normalized_events_carry_their_epoch(
    held: Seq<bool>,
    suppressed: Seq<bool>,
    records: Seq<RawInputEvent>,
    epoch: Epoch,
)
    ensures
        normalize_all(held, suppressed, records, epoch) matches Ok(state) ==> forall|i: int|
            0 <= i < state.2.len() ==> #[trigger] state.2[i].epoch == epoch,
    decreases records.len(),
{
    if records.len() > 0 {
        normalized_events_carry_their_epoch(held, suppressed, records.drop_last(), epoch);
    }
}


/// Whether a key is held after `records`: as its last key record left it (any value but a
/// release holds it), or as it was when no record in the run names it.
pub open spec fn held_after(initial: bool, records: Seq<RawInputEvent>, key: KeyCode) -> bool
    decreases records.len(),
{
    if records.len() == 0 {
        initial
    } else {
        let raw = records.last();
        if raw.event_type == EV_KEY && key_for_code(raw.code) == Some(key) {
            raw.value != 0
        } else {
            held_after(initial, records.drop_last(), key)
        }
    }
}

/// After a report is accepted, a key is held exactly when its last record in the report
/// pressed or repeated it, whether or not that record was reported; a key the report does not
/// name keeps its state.
pub proof fn held_state_follows_last_record(
    held: Seq<bool>,
    suppressed: Seq<bool>,
    records: Seq<RawInputEvent>,
    epoch: Epoch,
    key: KeyCode,
)
    requires
        held.len() == KEY_CODE_COUNT,
    ensures
        normalize_all(held, suppressed, records, epoch) matches Ok(state) ==> {
            &&& state.0.len() == KEY_CODE_COUNT
            &&& state.0[key_index(key)] == held_after(held[key_index(key)], records, key)
        },
    decreases records.len(),
{
    keys_are_distinct(key, key);
    if records.len() > 0 {
        held_state_follows_last_record(held, suppressed, records.drop_last(), epoch, key);
        let raw = records.last();
        if raw.event_type == EV_KEY {
            if let Some(other) = key_for_code(raw.code) {
                keys_are_distinct(other, key);
            }
        }
    }
}


/// After `normalize` accepts a report, `is_down` answers for each key as its last record in the
/// report left it: down after a press or a repeat, up after a release, whether or not that record
/// was reported; a key the report does not name keeps the state it had.
pub proof fn is_down_follows_last_record(
    before: &KeyNormalizer,
    after: &KeyNormalizer,
    report: Seq<RawInputEvent>,
    epoch: Epoch,
    events: Seq<KeyEvent>,
    key: KeyCode,
)
    requires
        normalize_all(before.held(), before.suppressed(), report, epoch) == Ok::<
            NormalizedState,
            InputError,
        >((after.held(), after.suppressed(), events)),
    ensures
        after.held()[key_index(key)] == held_after(before.held()[key_index(key)], report, key),
{
    before.lemma_slots();
    held_state_follows_last_record(before.held(), before.suppressed(), report, epoch, key);
}

} // verus!
