//! Presentation: reading the kernel's completion events, and what a failed commit or flip means.

use vstd::prelude::*;

use crate::drm::error::DrmError;
use crate::drm::logic::{fourcc, fourcc_code, format_code, next_buffer_index, DrmFormat, Mode};

verus! {

/// The kernel's event type for a completed page flip.
pub const EVENT_FLIP_COMPLETE: u32 = 2;
/// The tag Atria attaches to its own flips, to recognise their completion events.
pub const FLIP_USER_DATA: u64 = 0x4154_5249_4146_4c50;

/// `u16::from_ne_bytes([1, 0])`: the machine's own byte order applied to two bytes. It is 1 on
/// a little-endian machine and 0x100 on a big-endian one; which, is the machine's.
#[verifier::external_body]
fn native_order_probe() -> (probe: u16)
    ensures
        probe == 1 || probe == 0x100,
{
    u16::from_ne_bytes([1, 0])
}

/// The 32-bit word at `at`, in the given byte order.
pub open spec fn word32(bytes: Seq<u8>, at: int, little_endian: bool) -> int {
    if little_endian {
        fourcc_code(bytes[at], bytes[at + 1], bytes[at + 2], bytes[at + 3])
    } else {
        fourcc_code(bytes[at + 3], bytes[at + 2], bytes[at + 1], bytes[at])
    }
}

/// The 64-bit word at `at`, in the given byte order.
pub open spec fn word64(bytes: Seq<u8>, at: int, little_endian: bool) -> int {
    if little_endian {
        word32(bytes, at, true) + word32(bytes, at + 4, true) * 0x1_0000_0000
    } else {
        word32(bytes, at, false) * 0x1_0000_0000 + word32(bytes, at + 4, false)
    }
}

/// Whether the events from `offset` on hold the completion of one of Atria's flips.
///
/// Each event is a header of a type word and a length word, then its body; the length covers
/// the header. A header or event cut short, or a length shorter than a header, makes the buffer
/// invalid. A flip completion's tag is the 64-bit word after its header.
pub open spec fn flip_events_from(bytes: Seq<u8>, offset: int, little_endian: bool) -> Result<
    bool,
    DrmError,
>
    decreases bytes.len() - offset,
{
    if offset < 0 || offset >= bytes.len() {
        Ok(false)
    } else if offset + 8 > bytes.len() {
        Err(DrmError::InvalidFlipEvent)
    } else {
        let event_type = word32(bytes, offset, little_endian);
        let length = word32(bytes, offset + 4, little_endian);
        if length < 8 || offset + length > bytes.len() {
            Err(DrmError::InvalidFlipEvent)
        } else if event_type == EVENT_FLIP_COMPLETE && length < 16 {
            Err(DrmError::InvalidFlipEvent)
        } else if event_type == EVENT_FLIP_COMPLETE && word64(bytes, offset + 8, little_endian)
            == FLIP_USER_DATA {
            Ok(true)
        } else {
            flip_events_from(bytes, offset + length, little_endian)
        }
    }
}

fn read_word32(bytes: &[u8], at: usize, little_endian: bool) -> (word: u32)
    requires
        at + 4 <= bytes@.len(),
    ensures
        word == word32(bytes@, at as int, little_endian),
{
    let _length = bytes.len();
    if little_endian {
        fourcc(bytes[at], bytes[at + 1], bytes[at + 2], bytes[at + 3])
    } else {
        fourcc(bytes[at + 3], bytes[at + 2], bytes[at + 1], bytes[at])
    }
}

fn read_word64(bytes: &[u8], at: usize, little_endian: bool) -> (word: u64)
    requires
        at + 8 <= bytes@.len(),
    ensures
        word == word64(bytes@, at as int, little_endian),
{
    let _length = bytes.len();
    let first: u64 = read_word32(bytes, at, little_endian) as u64;
    let second: u64 = read_word32(bytes, at + 4, little_endian) as u64;
    if little_endian {
        first + second * 0x1_0000_0000
    } else {
        first * 0x1_0000_0000 + second
    }
}

/// Whether a buffer of completion events, in the given byte order, holds the completion of
/// one of Atria's flips.
pub fn parse_flip_events(bytes: &[u8], little_endian: bool) -> (found: Result<bool, DrmError>)
    ensures
        found == flip_events_from(bytes@, 0, little_endian),
{
    let mut offset: usize = 0;
    while offset < bytes.len()
        invariant
            offset <= bytes@.len(),
            flip_events_from(bytes@, 0, little_endian) == flip_events_from(
                bytes@,
                offset as int,
                little_endian,
            ),
        decreases bytes@.len() - offset,
    {
        if bytes.len() - offset < 8 {
            return Err(DrmError::InvalidFlipEvent);
        }
        let event_type = read_word32(bytes, offset, little_endian);
        let length: usize = read_word32(bytes, offset + 4, little_endian) as usize;
        if length < 8 || length > bytes.len() - offset {
            return Err(DrmError::InvalidFlipEvent);
        }
        if event_type == EVENT_FLIP_COMPLETE {
            if length < 16 {
                return Err(DrmError::InvalidFlipEvent);
            }
            if read_word64(bytes, offset + 8, little_endian) == FLIP_USER_DATA {
                return Ok(true);
            }
        }
        offset = offset + length;
    }
    Ok(false)
}

/// Whether a buffer of completion events the kernel wrote, in the machine's own byte order,
/// holds the completion of one of Atria's flips.
pub fn contains_flip_event(bytes: &[u8]) -> (found: Result<bool, DrmError>)
    ensures
        found == flip_events_from(bytes@, 0, true) || found == flip_events_from(bytes@, 0, false),
{
    parse_flip_events(bytes, native_order_probe() == 1)
}

/// A failed request to the display: losing access and contention are reported as such, and
/// anything else as `otherwise`.
pub open spec fn display_failure(errno: i32, otherwise: DrmError) -> DrmError {
    if errno == 13 {
        DrmError::DisplayAccessLost { errno }
    } else if errno == 16 {
        DrmError::DisplayBusy { errno }
    } else {
        otherwise
    }
}

fn classify_display_failure(errno: i32, otherwise: DrmError) -> (error: DrmError)
    ensures
        error == display_failure(errno, otherwise),
{
    if errno == crate::errno::permission_denied() {
        DrmError::DisplayAccessLost { errno }
    } else if errno == crate::errno::resource_busy() {
        DrmError::DisplayBusy { errno }
    } else {
        otherwise
    }
}

/// Why the initial modeset failed.
pub fn initial_modeset_error(errno: i32) -> (error: DrmError)
    ensures
        error == display_failure(errno, DrmError::InitialModeset { errno }),
{
    classify_display_failure(errno, DrmError::InitialModeset { errno })
}

/// Why an atomic commit failed.
pub fn atomic_commit_error(errno: i32) -> (error: DrmError)
    ensures
        error == display_failure(errno, DrmError::AtomicCommit { errno }),
{
    classify_display_failure(errno, DrmError::AtomicCommit { errno })
}

/// Why a legacy page flip failed.
pub fn page_flip_error(errno: i32) -> (error: DrmError)
    ensures
        error == display_failure(errno, DrmError::PageFlip { errno }),
{
    classify_display_failure(errno, DrmError::PageFlip { errno })
}

/// Why a test-only atomic commit refused the configuration.
pub fn test_commit_error(errno: i32) -> (error: DrmError)
    ensures
        error == display_failure(errno, DrmError::AtomicTestFailed { errno }),
{
    classify_display_failure(errno, DrmError::AtomicTestFailed { errno })
}

/// A property of a DRM object: its id, its value, and its NUL-terminated name.
#[derive(Clone, Copy, Debug)]
pub struct Property {
    pub id: u32,
    pub value: u64,
    pub name: [u8; 32],
}

/// A property name holds exactly `expected`, followed by its terminating NUL.
pub open spec fn names_match(name: Seq<u8>, expected: Seq<u8>) -> bool {
    &&& expected.len() < name.len()
    &&& name.take(expected.len() as int) == expected
    &&& name[expected.len() as int] == 0
}

/// Whether a property is named `expected`.
pub fn property_name(property: &Property, expected: &[u8]) -> (named: bool)
    ensures
        named == names_match(property.name@, expected@),
{
    if expected.len() >= 32 {
        return false;
    }
    let mut i: usize = 0;
    while i < expected.len()
        invariant
            i <= expected@.len(),
            expected@.len() < 32,
            property.name@.len() == 32,
            property.name@.take(i as int) == expected@.take(i as int),
        decreases expected@.len() - i,
    {
        if property.name[i] != expected[i] {
            proof {
                assert(property.name@.take(expected@.len() as int)[i as int] != expected@[i as int]);
            }
            return false;
        }
        i = i + 1;
        proof {
            assert(property.name@.take(i as int) =~= expected@.take(i as int));
        }
    }
    proof {
        assert(expected@.take(expected@.len() as int) =~= expected@);
    }
    property.name[expected.len()] == 0
}

/// The properties an atomic modeset names.
#[derive(Clone, Copy, Debug, PartialEq, Eq, Structural)]
pub enum AtomicProperty {
    CrtcId,
    ModeId,
    Active,
    FbId,
    SrcX,
    SrcY,
    SrcW,
    SrcH,
    CrtcX,
    CrtcY,
    CrtcW,
    CrtcH,
    PlaneType,
}

/// The name a property is known by.
pub open spec fn property_bytes(property: AtomicProperty) -> Seq<u8> {
    match property {
        AtomicProperty::CrtcId => seq![67u8, 82, 84, 67, 95, 73, 68],
        AtomicProperty::ModeId => seq![77u8, 79, 68, 69, 95, 73, 68],
        AtomicProperty::Active => seq![65u8, 67, 84, 73, 86, 69],
        AtomicProperty::FbId => seq![70u8, 66, 95, 73, 68],
        AtomicProperty::SrcX => seq![83u8, 82, 67, 95, 88],
        AtomicProperty::SrcY => seq![83u8, 82, 67, 95, 89],
        AtomicProperty::SrcW => seq![83u8, 82, 67, 95, 87],
        AtomicProperty::SrcH => seq![83u8, 82, 67, 95, 72],
        AtomicProperty::CrtcX => seq![67u8, 82, 84, 67, 95, 88],
        AtomicProperty::CrtcY => seq![67u8, 82, 84, 67, 95, 89],
        AtomicProperty::CrtcW => seq![67u8, 82, 84, 67, 95, 87],
        AtomicProperty::CrtcH => seq![67u8, 82, 84, 67, 95, 72],
        AtomicProperty::PlaneType => seq![116u8, 121, 112, 101],
    }
}

/// The label an error uses for a property.
pub open spec fn label_of(property: AtomicProperty) -> &'static str {
    match property {
        AtomicProperty::CrtcId => "CRTC_ID",
        AtomicProperty::ModeId => "MODE_ID",
        AtomicProperty::Active => "ACTIVE",
        AtomicProperty::FbId => "FB_ID",
        AtomicProperty::SrcX => "SRC_X",
        AtomicProperty::SrcY => "SRC_Y",
        AtomicProperty::SrcW => "SRC_W",
        AtomicProperty::SrcH => "SRC_H",
        AtomicProperty::CrtcX => "CRTC_X",
        AtomicProperty::CrtcY => "CRTC_Y",
        AtomicProperty::CrtcW => "CRTC_W",
        AtomicProperty::CrtcH => "CRTC_H",
        AtomicProperty::PlaneType => "type",
    }
}

impl AtomicProperty {
    pub fn name_bytes(self) -> (name: Vec<u8>)
        ensures
            name@ == property_bytes(self),
    {
        let name = match self {
            AtomicProperty::CrtcId => vec![67u8, 82, 84, 67, 95, 73, 68],
            AtomicProperty::ModeId => vec![77u8, 79, 68, 69, 95, 73, 68],
            AtomicProperty::Active => vec![65u8, 67, 84, 73, 86, 69],
            AtomicProperty::FbId => vec![70u8, 66, 95, 73, 68],
            AtomicProperty::SrcX => vec![83u8, 82, 67, 95, 88],
            AtomicProperty::SrcY => vec![83u8, 82, 67, 95, 89],
            AtomicProperty::SrcW => vec![83u8, 82, 67, 95, 87],
            AtomicProperty::SrcH => vec![83u8, 82, 67, 95, 72],
            AtomicProperty::CrtcX => vec![67u8, 82, 84, 67, 95, 88],
            AtomicProperty::CrtcY => vec![67u8, 82, 84, 67, 95, 89],
            AtomicProperty::CrtcW => vec![67u8, 82, 84, 67, 95, 87],
            AtomicProperty::CrtcH => vec![67u8, 82, 84, 67, 95, 72],
            AtomicProperty::PlaneType => vec![116u8, 121, 112, 101],
        };
        assert(name@ =~= property_bytes(self));
        name
    }

    /// The label an error uses for this property.
    pub fn label(self) -> (label: &'static str)
        ensures
            label == label_of(self),
    {
        match self {
            AtomicProperty::CrtcId => "CRTC_ID",
            AtomicProperty::ModeId => "MODE_ID",
            AtomicProperty::Active => "ACTIVE",
            AtomicProperty::FbId => "FB_ID",
            AtomicProperty::SrcX => "SRC_X",
            AtomicProperty::SrcY => "SRC_Y",
            AtomicProperty::SrcW => "SRC_W",
            AtomicProperty::SrcH => "SRC_H",
            AtomicProperty::CrtcX => "CRTC_X",
            AtomicProperty::CrtcY => "CRTC_Y",
            AtomicProperty::CrtcW => "CRTC_W",
            AtomicProperty::CrtcH => "CRTC_H",
            AtomicProperty::PlaneType => "type",
        }
    }
}

/// The error for an object that lacks a property an atomic modeset needs.
pub open spec fn missing_property(object_id: u32, property: AtomicProperty) -> DrmError {
    DrmError::MissingAtomicProperty { object_id, property_name: label_of(property) }
}

/// The first property named `name`, from position `from` on.
pub open spec fn property_from(properties: Seq<Property>, name: AtomicProperty, from: int) -> Option<
    u32,
>
    decreases properties.len() - from,
{
    if from < 0 || from >= properties.len() {
        None
    } else if names_match(properties[from].name@, property_bytes(name)) {
        Some(properties[from].id)
    } else {
        property_from(properties, name, from + 1)
    }
}

/// The id of the first property named `name`.
pub open spec fn property_id(properties: Seq<Property>, name: AtomicProperty) -> Option<u32> {
    property_from(properties, name, 0)
}

/// The id of the first of an object's properties named `name`.
pub fn required_property(properties: &[Property], object_id: u32, name: AtomicProperty) -> (id:
    Result<u32, DrmError>)
    ensures
        property_id(properties@, name) matches Some(found) ==> id == Ok::<u32, DrmError>(found),
        property_id(properties@, name) is None ==> id == Err::<u32, DrmError>(
            missing_property(object_id, name),
        ),
{
    let expected = name.name_bytes();
    let mut i: usize = 0;
    while i < properties.len()
        invariant
            i <= properties@.len(),
            expected@ == property_bytes(name),
            property_id(properties@, name) == property_from(properties@, name, i as int),
        decreases properties@.len() - i,
    {
        if property_name(&properties[i], expected.as_slice()) {
            return Ok(properties[i].id);
        }
        i = i + 1;
    }
    Err(DrmError::MissingAtomicProperty { object_id, property_name: name.label() })
}

/// The ids of the properties the initial atomic modeset sets.
#[derive(Clone, Copy, Debug, PartialEq, Eq, Structural)]
pub struct InitialAtomicProperties {
    pub connector_crtc_id: u32,
    pub crtc_mode_id: u32,
    pub crtc_active: u32,
    pub plane_fb_id: u32,
    pub plane_crtc_id: u32,
    pub plane_src_x: u32,
    pub plane_src_y: u32,
    pub plane_src_w: u32,
    pub plane_src_h: u32,
    pub plane_crtc_x: u32,
    pub plane_crtc_y: u32,
    pub plane_crtc_w: u32,
    pub plane_crtc_h: u32,
}

/// The properties the initial atomic modeset sets, looked up in turn on the connector, the CRTC
/// and the plane, or the first that is missing.
pub open spec fn initial_properties(
    connector: Seq<Property>,
    connector_id: u32,
    crtc: Seq<Property>,
    crtc_id: u32,
    plane: Seq<Property>,
    plane_id: u32,
) -> Result<InitialAtomicProperties, DrmError> {
    match property_id(connector, AtomicProperty::CrtcId) {
        None => Err(missing_property(connector_id, AtomicProperty::CrtcId)),
        Some(connector_crtc_id) => {
            match property_id(crtc, AtomicProperty::ModeId) {
                None => Err(missing_property(crtc_id, AtomicProperty::ModeId)),
                Some(crtc_mode_id) => {
                    match property_id(crtc, AtomicProperty::Active) {
                        None => Err(missing_property(crtc_id, AtomicProperty::Active)),
                        Some(crtc_active) => {
                            match property_id(plane, AtomicProperty::FbId) {
                                None => Err(missing_property(plane_id, AtomicProperty::FbId)),
                                Some(plane_fb_id) => {
                                    match property_id(plane, AtomicProperty::CrtcId) {
                                        None => Err(missing_property(plane_id, AtomicProperty::CrtcId)),
                                        Some(plane_crtc_id) => {
                                            match property_id(plane, AtomicProperty::SrcX) {
                                                None => Err(missing_property(plane_id, AtomicProperty::SrcX)),
                                                Some(plane_src_x) => {
                                                    match property_id(plane, AtomicProperty::SrcY) {
                                                        None => Err(missing_property(plane_id, AtomicProperty::SrcY)),
                                                        Some(plane_src_y) => {
                                                            match property_id(plane, AtomicProperty::SrcW) {
                                                                None => Err(missing_property(plane_id, AtomicProperty::SrcW)),
                                                                Some(plane_src_w) => {
                                                                    match property_id(plane, AtomicProperty::SrcH) {
                                                                        None => Err(missing_property(plane_id, AtomicProperty::SrcH)),
                                                                        Some(plane_src_h) => {
                                                                            match property_id(plane, AtomicProperty::CrtcX) {
                                                                                None => Err(missing_property(plane_id, AtomicProperty::CrtcX)),
                                                                                Some(plane_crtc_x) => {
                                                                                    match property_id(plane, AtomicProperty::CrtcY) {
                                                                                        None => Err(missing_property(plane_id, AtomicProperty::CrtcY)),
                                                                                        Some(plane_crtc_y) => {
                                                                                            match property_id(plane, AtomicProperty::CrtcW) {
                                                                                                None => Err(missing_property(plane_id, AtomicProperty::CrtcW)),
                                                                                                Some(plane_crtc_w) => {
                                                                                                    match property_id(plane, AtomicProperty::CrtcH) {
                                                                                                        None => Err(missing_property(plane_id, AtomicProperty::CrtcH)),
                                                                                                        Some(plane_crtc_h) => {
                                                                                                            Ok(InitialAtomicProperties { connector_crtc_id, crtc_mode_id, crtc_active, plane_fb_id, plane_crtc_id, plane_src_x, plane_src_y, plane_src_w, plane_src_h, plane_crtc_x, plane_crtc_y, plane_crtc_w, plane_crtc_h })
                                                                                                        },
                                                                                                    }
                                                                                                },
                                                                                            }
                                                                                        },
                                                                                    }
                                                                                },
                                                                            }
                                                                        },
                                                                    }
                                                                },
                                                            }
                                                        },
                                                    }
                                                },
                                            }
                                        },
                                    }
                                },
                            }
                        },
                    }
                },
            }
        },
    }
}

/// Looks up every property the initial atomic modeset sets.
pub fn initial_atomic_properties(
    connector: &[Property],
    connector_id: u32,
    crtc: &[Property],
    crtc_id: u32,
    plane: &[Property],
    plane_id: u32,
) -> (found: Result<InitialAtomicProperties, DrmError>)
    ensures
        found == initial_properties(connector@, connector_id, crtc@, crtc_id, plane@, plane_id),
{
    let connector_crtc_id = match required_property(connector, connector_id, AtomicProperty::CrtcId) {
        Ok(id) => id,
        Err(error) => {
            return Err(error);
        },
    };
    let crtc_mode_id = match required_property(crtc, crtc_id, AtomicProperty::ModeId) {
        Ok(id) => id,
        Err(error) => {
            return Err(error);
        },
    };
    let crtc_active = match required_property(crtc, crtc_id, AtomicProperty::Active) {
        Ok(id) => id,
        Err(error) => {
            return Err(error);
        },
    };
    let plane_fb_id = match required_property(plane, plane_id, AtomicProperty::FbId) {
        Ok(id) => id,
        Err(error) => {
            return Err(error);
        },
    };
    let plane_crtc_id = match required_property(plane, plane_id, AtomicProperty::CrtcId) {
        Ok(id) => id,
        Err(error) => {
            return Err(error);
        },
    };
    let plane_src_x = match required_property(plane, plane_id, AtomicProperty::SrcX) {
        Ok(id) => id,
        Err(error) => {
            return Err(error);
        },
    };
    let plane_src_y = match required_property(plane, plane_id, AtomicProperty::SrcY) {
        Ok(id) => id,
        Err(error) => {
            return Err(error);
        },
    };
    let plane_src_w = match required_property(plane, plane_id, AtomicProperty::SrcW) {
        Ok(id) => id,
        Err(error) => {
            return Err(error);
        },
    };
    let plane_src_h = match required_property(plane, plane_id, AtomicProperty::SrcH) {
        Ok(id) => id,
        Err(error) => {
            return Err(error);
        },
    };
    let plane_crtc_x = match required_property(plane, plane_id, AtomicProperty::CrtcX) {
        Ok(id) => id,
        Err(error) => {
            return Err(error);
        },
    };
    let plane_crtc_y = match required_property(plane, plane_id, AtomicProperty::CrtcY) {
        Ok(id) => id,
        Err(error) => {
            return Err(error);
        },
    };
    let plane_crtc_w = match required_property(plane, plane_id, AtomicProperty::CrtcW) {
        Ok(id) => id,
        Err(error) => {
            return Err(error);
        },
    };
    let plane_crtc_h = match required_property(plane, plane_id, AtomicProperty::CrtcH) {
        Ok(id) => id,
        Err(error) => {
            return Err(error);
        },
    };
    Ok(InitialAtomicProperties { connector_crtc_id, crtc_mode_id, crtc_active, plane_fb_id, plane_crtc_id, plane_src_x, plane_src_y, plane_src_w, plane_src_h, plane_crtc_x, plane_crtc_y, plane_crtc_w, plane_crtc_h })
}


/// The first position, from `from` on, that holds `id`.
pub open spec fn position_from(ids: Seq<u32>, id: u32, from: int) -> Option<int>
    decreases ids.len() - from,
{
    if from < 0 || from >= ids.len() {
        None
    } else if ids[from] == id {
        Some(from)
    } else {
        position_from(ids, id, from + 1)
    }
}

/// The capability bit a plane must have to feed the selected CRTC: the bit of the CRTC's
/// position in the device's list. A CRTC the device does not list, or one past the mask's
/// width, has no primary plane.
pub fn crtc_mask(crtc_ids: &[u32], crtc_id: u32) -> (mask: Result<u32, DrmError>)
    ensures
        match position_from(crtc_ids@, crtc_id, 0) {
            None => mask matches Err(DrmError::NoPrimaryPlane),
            Some(index) => if index > u32::MAX {
                mask matches Err(DrmError::ArithmeticOverflow)
            } else if index >= 32 {
                mask matches Err(DrmError::NoPrimaryPlane)
            } else {
                mask == Ok::<u32, DrmError>(1u32 << (index as u32))
            },
        },
{
    let mut i: usize = 0;
    while i < crtc_ids.len()
        invariant
            i <= crtc_ids@.len(),
            position_from(crtc_ids@, crtc_id, 0) == position_from(crtc_ids@, crtc_id, i as int),
        decreases crtc_ids@.len() - i,
    {
        if crtc_ids[i] == crtc_id {
            if i as u128 > u32::MAX as u128 {
                return Err(DrmError::ArithmeticOverflow);
            }
            let index: u32 = i as u32;
            if index >= 32 {
                return Err(DrmError::NoPrimaryPlane);
            }
            return Ok(1u32 << index);
        }
        i = i + 1;
    }
    Err(DrmError::NoPrimaryPlane)
}

/// The value of a plane's `type` property that marks it primary.
pub const PLANE_TYPE_PRIMARY: u64 = 1;

/// A plane can be the primary plane for the selected CRTC in `format`: it can feed the CRTC,
/// scans out the format, and says it is primary.
pub open spec fn suits_as_primary(
    possible_crtcs: u32,
    mask: u32,
    formats: Seq<u32>,
    format_code: u32,
    properties: Seq<Property>,
) -> bool {
    &&& possible_crtcs & mask != 0u32
    &&& formats.contains(format_code)
    &&& exists|i: int|
        0 <= i < properties.len() && names_match(
            #[trigger] properties[i].name@,
            property_bytes(AtomicProperty::PlaneType),
        ) && properties[i].value == PLANE_TYPE_PRIMARY
}

/// Whether a plane can be the primary plane for the CRTC with capability bit `mask`.
pub fn plane_suits(
    possible_crtcs: u32,
    mask: u32,
    formats: &[u32],
    format: DrmFormat,
    properties: &[Property],
) -> (suits: bool)
    ensures
        suits == suits_as_primary(
            possible_crtcs,
            mask,
            formats@,
            format_code(format) as u32,
            properties@,
        ),
{
    if possible_crtcs & mask == 0 {
        return false;
    }
    let code = format.fourcc();
    let mut listed = false;
    let mut i: usize = 0;
    while i < formats.len()
        invariant
            i <= formats@.len(),
            code == format_code(format),
            listed == exists|j: int| 0 <= j < i && formats@[j] == code,
        decreases formats@.len() - i,
    {
        if formats[i] == code {
            listed = true;
        }
        i = i + 1;
    }
    if !listed {
        return false;
    }
    proof {
        let j = choose|j: int| 0 <= j < formats@.len() && formats@[j] == code;
        assert(formats@[j] == format_code(format) as u32);
    }
    let kind = AtomicProperty::PlaneType.name_bytes();
    let mut k: usize = 0;
    while k < properties.len()
        invariant
            k <= properties@.len(),
            possible_crtcs & mask != 0u32,
            formats@.contains(format_code(format) as u32),
            kind@ == property_bytes(AtomicProperty::PlaneType),
            forall|j: int|
                0 <= j < k ==> !(names_match(
                    #[trigger] properties@[j].name@,
                    property_bytes(AtomicProperty::PlaneType),
                ) && properties@[j].value == PLANE_TYPE_PRIMARY),
        decreases properties@.len() - k,
    {
        if property_name(&properties[k], kind.as_slice()) && properties[k].value
            == PLANE_TYPE_PRIMARY {
            proof {
                assert(names_match(
                    properties@[k as int].name@,
                    property_bytes(AtomicProperty::PlaneType),
                ) && properties@[k as int].value == PLANE_TYPE_PRIMARY);
            }
            return true;
        }
        k = k + 1;
    }
    false
}

/// The objects, property counts, property ids and values of an atomic commit.
#[derive(Clone, Debug, PartialEq, Eq)]
pub struct AtomicRequest {
    pub objects: Vec<u32>,
    pub counts: Vec<u32>,
    pub properties: Vec<u32>,
    pub values: Vec<u64>,
}

/// What the atomic path keeps once the display is up: the plane scanned out of, its
/// framebuffer property, and the mode blob to release at the end.
#[derive(Clone, Copy, Debug, PartialEq, Eq, Structural)]
pub struct AtomicState {
    pub plane_id: u32,
    pub plane_fb_id: u32,
    pub mode_blob_id: u32,
}

/// How frames reach the screen.
#[derive(Clone, Copy, Debug, PartialEq, Eq, Structural)]
pub enum PresentationPath {
    Uninitialized,
    Legacy,
    Atomic(AtomicState),
}

/// The commit that brings the display up: the connector is routed to the CRTC, the CRTC takes
/// the mode and is activated, and the plane scans the first buffer out across the whole mode.
/// Plane source coordinates are 16.16 fixed point.
pub fn initial_atomic_request(
    connector_id: u32,
    crtc_id: u32,
    plane_id: u32,
    properties: InitialAtomicProperties,
    mode_blob_id: u32,
    framebuffer_id: u32,
    mode: Mode,
) -> (request: AtomicRequest)
    ensures
        request.objects@ == seq![connector_id, crtc_id, plane_id],
        request.counts@ == seq![1u32, 2, 10],
        request.properties@ == seq![
            properties.connector_crtc_id,
            properties.crtc_mode_id,
            properties.crtc_active,
            properties.plane_fb_id,
            properties.plane_crtc_id,
            properties.plane_src_x,
            properties.plane_src_y,
            properties.plane_src_w,
            properties.plane_src_h,
            properties.plane_crtc_x,
            properties.plane_crtc_y,
            properties.plane_crtc_w,
            properties.plane_crtc_h,
        ],
        request.values@ == seq![
            crtc_id as u64,
            mode_blob_id as u64,
            1u64,
            framebuffer_id as u64,
            crtc_id as u64,
            0u64,
            0u64,
            (mode.width * 0x1_0000) as u64,
            (mode.height * 0x1_0000) as u64,
            0u64,
            0u64,
            mode.width as u64,
            mode.height as u64,
        ],
{
    let source_width: u64 = (mode.width as u64) * 0x1_0000;
    let source_height: u64 = (mode.height as u64) * 0x1_0000;
    let request = AtomicRequest {
        objects: vec![connector_id, crtc_id, plane_id],
        counts: vec![1u32, 2, 10],
        properties: vec![
            properties.connector_crtc_id,
            properties.crtc_mode_id,
            properties.crtc_active,
            properties.plane_fb_id,
            properties.plane_crtc_id,
            properties.plane_src_x,
            properties.plane_src_y,
            properties.plane_src_w,
            properties.plane_src_h,
            properties.plane_crtc_x,
            properties.plane_crtc_y,
            properties.plane_crtc_w,
            properties.plane_crtc_h,
        ],
        values: vec![
            crtc_id as u64,
            mode_blob_id as u64,
            1u64,
            framebuffer_id as u64,
            crtc_id as u64,
            0u64,
            0u64,
            source_width,
            source_height,
            0u64,
            0u64,
            mode.width as u64,
            mode.height as u64,
        ],
    };
    assert(request.objects@ =~= seq![connector_id, crtc_id, plane_id]);
    assert(request.counts@ =~= seq![1u32, 2, 10]);
    assert(request.properties@ =~= seq![
        properties.connector_crtc_id,
        properties.crtc_mode_id,
        properties.crtc_active,
        properties.plane_fb_id,
        properties.plane_crtc_id,
        properties.plane_src_x,
        properties.plane_src_y,
        properties.plane_src_w,
        properties.plane_src_h,
        properties.plane_crtc_x,
        properties.plane_crtc_y,
        properties.plane_crtc_w,
        properties.plane_crtc_h,
    ]);
    assert(request.values@ =~= seq![
        crtc_id as u64,
        mode_blob_id as u64,
        1u64,
        framebuffer_id as u64,
        crtc_id as u64,
        0u64,
        0u64,
        (mode.width * 0x1_0000) as u64,
        (mode.height * 0x1_0000) as u64,
        0u64,
        0u64,
        mode.width as u64,
        mode.height as u64,
    ]);
    request
}

/// The commit that flips the plane to another framebuffer.
pub fn flip_request(state: AtomicState, framebuffer_id: u32) -> (request: AtomicRequest)
    ensures
        request.objects@ == seq![state.plane_id],
        request.counts@ == seq![1u32],
        request.properties@ == seq![state.plane_fb_id],
        request.values@ == seq![framebuffer_id as u64],
{
    let request = AtomicRequest {
        objects: vec![state.plane_id],
        counts: vec![1u32],
        properties: vec![state.plane_fb_id],
        values: vec![framebuffer_id as u64],
    };
    assert(request.objects@ =~= seq![state.plane_id]);
    assert(request.counts@ =~= seq![1u32]);
    assert(request.properties@ =~= seq![state.plane_fb_id]);
    assert(request.values@ =~= seq![framebuffer_id as u64]);
    request
}

/// Which of the two scanout buffers is on screen, and which, if any, a flip is queued to.
#[derive(Clone, Copy, Debug, PartialEq, Eq, Structural)]
pub struct FlipState {
    scanning_index: usize,
    pending_index: Option<usize>,
}

impl FlipState {
    /// The buffer on screen.
    pub closed spec fn scanning(self) -> usize {
        self.scanning_index
    }

    /// The buffer a queued flip will put on screen.
    pub closed spec fn pending(self) -> Option<usize> {
        self.pending_index
    }

    /// Both buffers are one of two, and a queued flip goes to the buffer not on screen.
    pub open spec fn wf(self) -> bool {
        &&& self.scanning() < 2
        &&& self.pending() matches Some(target) ==> target < 2 && target != self.scanning()
    }

    /// The first buffer is on screen and nothing is queued.
    pub fn new() -> (state: FlipState)
        ensures
            state.wf(),
            state.scanning() == 0,
            state.pending() is None,
    {
        FlipState { scanning_index: 0, pending_index: None }
    }

    /// The buffer to draw the next frame into: the one not on screen. Refused while a flip is
    /// queued, since both buffers are then spoken for.
    pub fn flip_target(&self) -> (target: Result<usize, DrmError>)
        requires
            self.wf(),
        ensures
            self.pending() is Some ==> target matches Err(DrmError::FlipPending),
            self.pending() is None ==> target == Ok::<usize, DrmError>((1 - self.scanning()) as usize),
    {
        if self.pending_index.is_some() {
            return Err(DrmError::FlipPending);
        }
        Ok(next_buffer_index(self.scanning_index))
    }

    /// Records a flip queued to `target`.
    pub fn flip_queued(&mut self, target: usize)
        requires
            old(self).wf(),
            old(self).pending() is None,
            target == 1 - old(self).scanning(),
        ensures
            final(self).wf(),
            final(self).scanning() == old(self).scanning(),
            final(self).pending() == Some(target),
    {
        self.pending_index = Some(target);
    }

    /// The buffer a queued flip will put on screen, if one is queued.
    pub fn pending_target(&self) -> (target: Option<usize>)
        ensures
            target == self.pending(),
    {
        self.pending_index
    }

    /// Settles a queued flip from what reading the completion events found: the flip's buffer
    /// goes on screen when its completion is among them. Nothing queued, or no completion,
    /// means the completion is missing; a read or parse failure is passed on.
    pub fn finish_flip(&mut self, events: Result<bool, DrmError>) -> (result: Result<(), DrmError>)
        requires
            old(self).wf(),
        ensures
            final(self).wf(),
            old(self).pending() is None ==> (result matches Err(DrmError::FlipEventMissing)
                && *final(self) == *old(self)),
            old(self).pending() matches Some(target) ==> match events {
                Ok(true) => result is Ok && final(self).scanning() == target
                    && final(self).pending() is None,
                Ok(false) => result matches Err(DrmError::FlipEventMissing) && *final(self)
                    == *old(self),
                Err(error) => result == Err::<(), DrmError>(error) && *final(self) == *old(self),
            },
    {
        match self.pending_index {
            None => Err(DrmError::FlipEventMissing),
            Some(target) => match events {
                Ok(true) => {
                    self.scanning_index = target;
                    self.pending_index = None;
                    Ok(())
                },
                Ok(false) => Err(DrmError::FlipEventMissing),
                Err(error) => Err(error),
            },
        }
    }
}

/// What stops row `row` from being copied, if anything: an offset or end past the largest
/// address, or a row that runs past the end of the source or the destination.
pub open spec fn row_failure(
    row: int,
    row_bytes: int,
    source_stride: int,
    destination_stride: int,
    source_len: int,
    destination_len: int,
) -> Option<DrmError> {
    let source_start = row * source_stride;
    let destination_start = row * destination_stride;
    if source_start > usize::MAX || source_start + row_bytes > usize::MAX || destination_start
        > usize::MAX || destination_start + row_bytes > usize::MAX {
        Some(DrmError::ArithmeticOverflow)
    } else if source_start + row_bytes > source_len || destination_start + row_bytes
        > destination_len {
        Some(DrmError::FrameBufferTooSmall)
    } else {
        None
    }
}

/// The destination with row `row` of the source copied into it.
pub open spec fn paste_row(
    destination: Seq<u8>,
    source: Seq<u8>,
    row: int,
    row_bytes: int,
    source_stride: int,
    destination_stride: int,
) -> Seq<u8> {
    Seq::new(
        destination.len(),
        |i: int|
            if row * destination_stride <= i < row * destination_stride + row_bytes {
                source[row * source_stride + (i - row * destination_stride)]
            } else {
                destination[i]
            },
    )
}

/// The destination after the first `rows` rows are copied in turn, and whether every one was:
/// copying stops at the first row that cannot be, keeping the rows before it.
pub open spec fn copy_outcome(
    destination: Seq<u8>,
    source: Seq<u8>,
    rows: nat,
    row_bytes: int,
    source_stride: int,
    destination_stride: int,
) -> (Seq<u8>, Result<(), DrmError>)
    decreases rows,
{
    if rows == 0 {
        (destination, Ok(()))
    } else {
        let (copied, result) = copy_outcome(
            destination,
            source,
            (rows - 1) as nat,
            row_bytes,
            source_stride,
            destination_stride,
        );
        if result is Err {
            (copied, result)
        } else {
            match row_failure(
                rows - 1,
                row_bytes,
                source_stride,
                destination_stride,
                source.len() as int,
                copied.len() as int,
            ) {
                Some(error) => (copied, Err(error)),
                None => (
                    paste_row(
                        copied,
                        source,
                        rows - 1,
                        row_bytes,
                        source_stride,
                        destination_stride,
                    ),
                    Ok(()),
                ),
            }
        }
    }
}

proof fn lemma_copy_keeps_length(
    destination: Seq<u8>,
    source: Seq<u8>,
    rows: nat,
    row_bytes: int,
    source_stride: int,
    destination_stride: int,
)
    ensures
        copy_outcome(destination, source, rows, row_bytes, source_stride, destination_stride).0.len()
            == destination.len(),
    decreases rows,
{
    if rows > 0 {
        lemma_copy_keeps_length(
            destination,
            source,
            (rows - 1) as nat,
            row_bytes,
            source_stride,
            destination_stride,
        );
    }
}

proof fn lemma_copy_failure_persists(
    destination: Seq<u8>,
    source: Seq<u8>,
    failed: nat,
    rows: nat,
    row_bytes: int,
    source_stride: int,
    destination_stride: int,
)
    requires
        failed <= rows,
        copy_outcome(destination, source, failed, row_bytes, source_stride, destination_stride).1 is Err,
    ensures
        copy_outcome(destination, source, rows, row_bytes, source_stride, destination_stride)
            == copy_outcome(destination, source, failed, row_bytes, source_stride, destination_stride),
    decreases rows,
{
    if rows > failed {
        lemma_copy_failure_persists(
            destination,
            source,
            failed,
            (rows - 1) as nat,
            row_bytes,
            source_stride,
            destination_stride,
        );
    }
}

/// Copies `rows` rows of `row_bytes` bytes from a frame laid out at `source_stride` into a
/// scanout buffer laid out at `destination_stride`, checking each row before touching it.
pub fn copy_rows(
    destination: &mut [u8],
    source: &[u8],
    rows: usize,
    row_bytes: usize,
    source_stride: usize,
    destination_stride: usize,
) -> (result: Result<(), DrmError>)
    ensures
        (final(destination)@, result) == copy_outcome(
            old(destination)@,
            source@,
            rows as nat,
            row_bytes as int,
            source_stride as int,
            destination_stride as int,
        ),
{
    let ghost original = destination@;
    let mut row: usize = 0;
    while row < rows
        invariant
            row <= rows,
            original == old(destination)@,
            destination@.len() == original.len(),
            (destination@, Ok::<(), DrmError>(())) == copy_outcome(
                original,
                source@,
                row as nat,
                row_bytes as int,
                source_stride as int,
                destination_stride as int,
            ),
        decreases rows - row,
    {
        proof {
            lemma_copy_keeps_length(
                original,
                source@,
                row as nat,
                row_bytes as int,
                source_stride as int,
                destination_stride as int,
            );
        }
        let source_start = match row.checked_mul(source_stride) {
            Some(start) => start,
            None => {
                proof {
                    assert(copy_outcome(
                        original,
                        source@,
                        (row + 1) as nat,
                        row_bytes as int,
                        source_stride as int,
                        destination_stride as int,
                    ) == (destination@, Err::<(), DrmError>(DrmError::ArithmeticOverflow)));
                    lemma_copy_failure_persists(
                        original,
                        source@,
                        (row + 1) as nat,
                        rows as nat,
                        row_bytes as int,
                        source_stride as int,
                        destination_stride as int,
                    );
                }
                return Err(DrmError::ArithmeticOverflow);
            },
        };
        let source_end = match source_start.checked_add(row_bytes) {
            Some(end) => end,
            None => {
                proof {
                    assert(copy_outcome(
                        original,
                        source@,
                        (row + 1) as nat,
                        row_bytes as int,
                        source_stride as int,
                        destination_stride as int,
                    ) == (destination@, Err::<(), DrmError>(DrmError::ArithmeticOverflow)));
                    lemma_copy_failure_persists(
                        original,
                        source@,
                        (row + 1) as nat,
                        rows as nat,
                        row_bytes as int,
                        source_stride as int,
                        destination_stride as int,
                    );
                }
                return Err(DrmError::ArithmeticOverflow);
            },
        };
        let destination_start = match row.checked_mul(destination_stride) {
            Some(start) => start,
            None => {
                proof {
                    assert(copy_outcome(
                        original,
                        source@,
                        (row + 1) as nat,
                        row_bytes as int,
                        source_stride as int,
                        destination_stride as int,
                    ) == (destination@, Err::<(), DrmError>(DrmError::ArithmeticOverflow)));
                    lemma_copy_failure_persists(
                        original,
                        source@,
                        (row + 1) as nat,
                        rows as nat,
                        row_bytes as int,
                        source_stride as int,
                        destination_stride as int,
                    );
                }
                return Err(DrmError::ArithmeticOverflow);
            },
        };
        let destination_end = match destination_start.checked_add(row_bytes) {
            Some(end) => end,
            None => {
                proof {
                    assert(copy_outcome(
                        original,
                        source@,
                        (row + 1) as nat,
                        row_bytes as int,
                        source_stride as int,
                        destination_stride as int,
                    ) == (destination@, Err::<(), DrmError>(DrmError::ArithmeticOverflow)));
                    lemma_copy_failure_persists(
                        original,
                        source@,
                        (row + 1) as nat,
                        rows as nat,
                        row_bytes as int,
                        source_stride as int,
                        destination_stride as int,
                    );
                }
                return Err(DrmError::ArithmeticOverflow);
            },
        };
        if source_end > source.len() || destination_end > destination.len() {
            proof {
                assert(copy_outcome(
                    original,
                    source@,
                    (row + 1) as nat,
                    row_bytes as int,
                    source_stride as int,
                    destination_stride as int,
                ) == (destination@, Err::<(), DrmError>(DrmError::FrameBufferTooSmall)));
                lemma_copy_failure_persists(
                    original,
                    source@,
                    (row + 1) as nat,
                    rows as nat,
                    row_bytes as int,
                    source_stride as int,
                    destination_stride as int,
                );
            }
            return Err(DrmError::FrameBufferTooSmall);
        }
        let ghost before = destination@;
        let mut offset: usize = 0;
        while offset < row_bytes
            invariant
                offset <= row_bytes,
                source_end == source_start + row_bytes,
                destination_end == destination_start + row_bytes,
                source_end <= source@.len(),
                destination_end <= before.len(),
                destination@.len() == before.len(),
                forall|i: int|
                    0 <= i < destination@.len() ==> #[trigger] destination@[i] == if destination_start
                        <= i < destination_start + offset {
                        source@[source_start + (i - destination_start)]
                    } else {
                        before[i]
                    },
            decreases row_bytes - offset,
        {
            destination[destination_start + offset] = source[source_start + offset];
            offset = offset + 1;
        }
        proof {
            assert(destination@ =~= paste_row(
                before,
                source@,
                row as int,
                row_bytes as int,
                source_stride as int,
                destination_stride as int,
            ));
        }
        row = row + 1;
    }
    Ok(())
}

/// The bytes of one row of a frame, once the frame is checked against the mode and the
/// layout it is to be scanned out in.
pub fn frame_row_bytes(
    frame_width: u32,
    frame_height: u32,
    mode: Mode,
    expected_bytes_per_pixel: u8,
    actual_bytes_per_pixel: u8,
) -> (row_bytes: Result<usize, DrmError>)
    ensures
        frame_width != mode.width || frame_height != mode.height ==> (row_bytes matches Err(
            DrmError::FrameSizeMismatch { frame_width: w, frame_height: h, mode_width: mw, mode_height: mh },
        ) && w == frame_width && h == frame_height && mw == mode.width && mh == mode.height),
        frame_width == mode.width && frame_height == mode.height && actual_bytes_per_pixel
            != expected_bytes_per_pixel ==> (row_bytes matches Err(
            DrmError::FrameLayoutMismatch { expected: e, actual: a },
        ) && e == expected_bytes_per_pixel && a == actual_bytes_per_pixel),
        frame_width == mode.width && frame_height == mode.height && actual_bytes_per_pixel
            == expected_bytes_per_pixel ==> row_bytes == Ok::<usize, DrmError>(
            (frame_width * expected_bytes_per_pixel) as usize,
        ),
{
    if frame_width != mode.width as u32 || frame_height != mode.height as u32 {
        return Err(
            DrmError::FrameSizeMismatch {
                frame_width,
                frame_height,
                mode_width: mode.width,
                mode_height: mode.height,
            },
        );
    }
    if actual_bytes_per_pixel != expected_bytes_per_pixel {
        return Err(
            DrmError::FrameLayoutMismatch {
                expected: expected_bytes_per_pixel,
                actual: actual_bytes_per_pixel,
            },
        );
    }
    proof {
        assert(frame_width * expected_bytes_per_pixel <= 0xffff * 0xff) by (nonlinear_arith)
            requires
                frame_width <= 0xffff,
                expected_bytes_per_pixel <= 0xff,
        ;
    }
    let row_bytes: usize = (frame_width as usize) * (expected_bytes_per_pixel as usize);
    Ok(row_bytes)
}

/// How a failed presentation reaches a frame sink: a flip still pending asks the caller to try
/// again later, failures the system reported keep their error number, and anything else is a
/// request the sink could not take.
#[derive(Clone, Copy, Debug, PartialEq, Eq, Structural)]
pub enum SinkFailure {
    WouldBlock,
    Os { errno: i32 },
    InvalidInput,
}

/// What a failed presentation means to a frame sink.
pub fn sink_failure(error: DrmError) -> (failure: SinkFailure)
    ensures
        failure == match error {
            DrmError::FlipPending => SinkFailure::WouldBlock,
            DrmError::DisplayAccessLost { errno } => SinkFailure::Os { errno },
            DrmError::DisplayBusy { errno } => SinkFailure::Os { errno },
            DrmError::AtomicCommit { errno } => SinkFailure::Os { errno },
            DrmError::PageFlip { errno } => SinkFailure::Os { errno },
            DrmError::ReadFlipEvent { errno } => SinkFailure::Os { errno },
            _ => SinkFailure::InvalidInput,
        },
{
    match error {
        DrmError::FlipPending => SinkFailure::WouldBlock,
        DrmError::DisplayAccessLost { errno }
        | DrmError::DisplayBusy { errno }
        | DrmError::AtomicCommit { errno }
        | DrmError::PageFlip { errno }
        | DrmError::ReadFlipEvent { errno } => SinkFailure::Os { errno },
        _ => SinkFailure::InvalidInput,
    }
}

} // verus!
