//! The ways opening a display, selecting its mode, or presenting to it can fail.

use vstd::prelude::*;

verus! {

#[derive(Clone, Copy, Debug)]
pub enum DrmError {
    DeviceAbsent { card_index: u32 },
    OpenDevice { errno: i32 },
    SetMaster { errno: i32 },
    GetCapability { capability: u64, errno: i32 },
    EnableAtomicClient { errno: i32 },
    EnumerateResources { errno: i32 },
    ResourcesChanged,
    QueryConnector { connector_id: u32, errno: i32 },
    QueryEncoder { encoder_id: u32, errno: i32 },
    NoConnectedConnector,
    RequestedConnectorUnavailable(u32),
    ConnectorHasNoEncoder(u32),
    NoCompatibleCrtc { connector_id: u32 },
    DumbBuffersUnavailable,
    CreateDumbBuffer { buffer_index: usize, errno: i32 },
    MapDumbBuffer { buffer_index: usize, errno: i32 },
    MappingOffsetOutOfRange { buffer_index: usize, offset: u64 },
    MapMemory { buffer_index: usize, errno: i32 },
    AddFramebuffer { buffer_index: usize, errno: i32 },
    FrameSizeMismatch { frame_width: u32, frame_height: u32, mode_width: u16, mode_height: u16 },
    FrameLayoutMismatch { expected: u8, actual: u8 },
    FrameBufferTooSmall,
    FlipPending,
    EnumeratePlanes { errno: i32 },
    QueryPlane { plane_id: u32, errno: i32 },
    NoPrimaryPlane,
    QueryObjectProperties { object_id: u32, errno: i32 },
    QueryProperty { property_id: u32, errno: i32 },
    MissingAtomicProperty { object_id: u32, property_name: &'static str },
    CreateModeBlob { errno: i32 },
    InitialModeset { errno: i32 },
    AtomicTestFailed { errno: i32 },
    AtomicCommit { errno: i32 },
    PageFlip { errno: i32 },
    DisplayAccessLost { errno: i32 },
    DisplayBusy { errno: i32 },
    ReadFlipEvent { errno: i32 },
    InvalidFlipEvent,
    FlipEventMissing,
    ZeroDimension,
    UnsupportedPixelLayout(u8),
    ArithmeticOverflow,
    PitchTooSmall { pitch: u32, required: u64 },
    BufferTooSmall { size: u64, required: u64 },
    NoModes,
    NoPreferredMode,
    RequestedModeUnavailable,
}

} // verus!
