//! The compositor's plain vocabulary: identifiers, geometry, buffer metadata and seat
//! capabilities.
//!
//! Everything here is a value: no sockets, descriptors or pixels. The compositor consumes these
//! after a backend has validated whatever external handle stood behind them.

use vstd::prelude::*;

verus! {

/// The largest text an input method may commit or compose in one message, in bytes.
pub const MAX_TEXT_BYTES: usize = 4096;

/// An input and routing domain. Focus belongs to a seat, so one machine with two people at it
/// has two.
#[derive(Clone, Copy, Debug, Default, PartialEq, Eq, Structural, Hash, PartialOrd, Ord)]
pub struct SeatId(pub u64);

/// What a person did to a window.
#[derive(Clone, Copy, Debug, PartialEq, Eq, Structural)]
pub enum InteractionKind {
    /// A pointer button went down over it. This is what click-to-focus is built from.
    PointerPress,
}

impl InteractionKind {
    /// The wire's number for this kind.
    pub fn into_raw(self) -> (raw: u32)
        ensures
            self == InteractionKind::PointerPress ==> raw == 0,
    {
        match self {
            InteractionKind::PointerPress => 0,
        }
    }
}

#[derive(Clone, Copy, Debug, PartialEq, Eq, Structural, Hash, PartialOrd, Ord)]
pub struct ConnectionId(pub u64);

#[derive(Clone, Copy, Debug, PartialEq, Eq, Structural, Hash, PartialOrd, Ord)]
pub struct CommitId(pub u64);

/// What an object on a connection is.
#[derive(Clone, Copy, Debug, PartialEq, Eq, Structural)]
pub enum ObjectKind {
    Display,
    Registry,
    /// The surface factory a client binds from the registry.
    Compositor,
    /// The shared-memory factory a client binds from the registry.
    Shm,
    /// The window role factory a client binds from the registry.
    Shell,
    /// A surface given window semantics.
    Toplevel,
    ShmPool,
    Seat,
    Session,
    Surface,
    Buffer,
    Fence,
    InputStream,
    /// The authority to arrange every window, bound from the registry by a shell.
    ShellControl,
    /// One seat's pointing device, as a client sees it.
    Pointer,
    /// One seat's keyboard, as the client holding focus sees it.
    Keyboard,
    /// A display, bound from the registry.
    Output,
}

/// Protocol error codes, chosen within the category ranges the protocol reserves.
#[derive(Clone, Copy, Debug, PartialEq, Eq, Structural)]
pub enum ErrorCode {
    InvalidObject,
    InvalidObjectId,
    ObjectIdAlreadyUsed,
    WrongObjectType,
    UnknownOpcode,
    ConnectionClosed,
    InvalidState,
    UnsupportedCapability,
    QuotaExceeded,
    EventQueueOverflow,
}

/// The number each error code carries on the wire.
pub open spec fn error_code_value(code: ErrorCode) -> u32 {
    match code {
        ErrorCode::InvalidObject => 0x0001,
        ErrorCode::InvalidObjectId => 0x0002,
        ErrorCode::ObjectIdAlreadyUsed => 0x0003,
        ErrorCode::WrongObjectType => 0x0004,
        ErrorCode::UnknownOpcode => 0x0005,
        ErrorCode::ConnectionClosed => 0x0006,
        ErrorCode::InvalidState => 0x0100,
        ErrorCode::UnsupportedCapability => 0x0101,
        ErrorCode::QuotaExceeded => 0x0200,
        ErrorCode::EventQueueOverflow => 0x0201,
    }
}

impl ErrorCode {
    /// The wire value of this code.
    pub fn value(self) -> (raw: u32)
        ensures
            raw == error_code_value(self),
    {
        match self {
            ErrorCode::InvalidObject => 0x0001,
            ErrorCode::InvalidObjectId => 0x0002,
            ErrorCode::ObjectIdAlreadyUsed => 0x0003,
            ErrorCode::WrongObjectType => 0x0004,
            ErrorCode::UnknownOpcode => 0x0005,
            ErrorCode::ConnectionClosed => 0x0006,
            ErrorCode::InvalidState => 0x0100,
            ErrorCode::UnsupportedCapability => 0x0101,
            ErrorCode::QuotaExceeded => 0x0200,
            ErrorCode::EventQueueOverflow => 0x0201,
        }
    }
}

/// How the compositor answers an error: a protocol error ends the connection, an object error
/// destroys the object, and the others leave both in place.
#[derive(Clone, Copy, Debug, PartialEq, Eq, Structural)]
pub enum ErrorCategory {
    Protocol,
    Object,
    Resource,
    Compositor,
}

impl ErrorCode {
    /// The category each code belongs to, by the range its value falls in.
    pub fn category(self) -> (category: ErrorCategory)
        ensures
            category == (if error_code_value(self) < 0x0100 {
                ErrorCategory::Protocol
            } else if error_code_value(self) < 0x0200 {
                ErrorCategory::Object
            } else {
                ErrorCategory::Resource
            }),
    {
        match self {
            ErrorCode::InvalidObject
            | ErrorCode::InvalidObjectId
            | ErrorCode::ObjectIdAlreadyUsed
            | ErrorCode::WrongObjectType
            | ErrorCode::UnknownOpcode
            | ErrorCode::ConnectionClosed => ErrorCategory::Protocol,
            ErrorCode::InvalidState | ErrorCode::UnsupportedCapability => ErrorCategory::Object,
            ErrorCode::QuotaExceeded | ErrorCode::EventQueueOverflow => ErrorCategory::Resource,
        }
    }
}

#[derive(Clone, Copy, Debug, PartialEq, Eq, Structural)]
pub struct Point {
    pub x: i32,
    pub y: i32,
}

impl Default for Point {
    /// The origin.
    fn default() -> (point: Point)
        ensures
            point == (Point { x: 0, y: 0 }),
    {
        Point { x: 0, y: 0 }
    }
}

#[derive(Clone, Copy, Debug, PartialEq, Eq, Structural)]
pub struct Size {
    pub width: u32,
    pub height: u32,
}

#[derive(Clone, Copy, Debug, PartialEq, Eq, Structural)]
pub struct Rect {
    pub x: i32,
    pub y: i32,
    pub width: u32,
    pub height: u32,
}

/// Whether `point` lies inside `rect`: on or right of its left edge and strictly left of its
/// right edge, and likewise vertically. Edges are measured exactly, without wrapping.
pub open spec fn rect_contains(rect: Rect, point: Point) -> bool {
    &&& rect.x <= point.x
    &&& point.x < rect.x + rect.width
    &&& rect.y <= point.y
    &&& point.y < rect.y + rect.height
}

impl Rect {
    pub fn contains(self, point: Point) -> (inside: bool)
        ensures
            inside == rect_contains(self, point),
    {
        let right: i64 = self.x as i64 + self.width as i64;
        let bottom: i64 = self.y as i64 + self.height as i64;
        let x: i64 = point.x as i64;
        let y: i64 = point.y as i64;
        x >= self.x as i64 && x < right && y >= self.y as i64 && y < bottom
    }
}

#[derive(Clone, Copy, Debug, PartialEq, Eq, Structural)]
pub enum Damage {
    /// No damage request was supplied, which conservatively means the full attached buffer.
    Full,
    Rect(Rect),
}

/// An opaque surface role. A surface may take one.
#[derive(Clone, Copy, Debug, PartialEq, Eq, Structural)]
pub struct SurfaceRole(pub u32);

/// The longest window title the protocol carries, in bytes.
pub const MAX_TITLE_BYTES: usize = 1024;

/// A window title, bounded at [`MAX_TITLE_BYTES`] bytes.
///
/// A newtype so the bound is enforced where the value is made: a title is text the compositor
/// keeps for as long as the window exists, which makes it a resource a client can grow.
#[derive(Clone, Debug, PartialEq, Eq)]
pub struct TitleText(String);

impl Default for TitleText {
    /// The empty title.
    fn default() -> (title: TitleText)
        ensures
            title@ == Seq::<char>::empty(),
    {
        TitleText(String::new())
    }
}

impl View for TitleText {
    type V = Seq<char>;

    closed spec fn view(&self) -> Seq<char> {
        self.0@
    }
}

impl TitleText {
    /// Take a title, refusing one longer than the protocol permits.
    pub fn new(text: &str) -> (title: Option<TitleText>)
        ensures
            title.is_some() <==> text.len() <= MAX_TITLE_BYTES,
            title matches Some(t) ==> t@ == text@,
    {
        if text.len() <= MAX_TITLE_BYTES {
            Some(TitleText(text.to_owned()))
        } else {
            None
        }
    }

    pub fn as_str(&self) -> (text: &str)
        ensures
            text@ == self@,
    {
        self.0.as_str()
    }
}

/// Text an input method commits or composes, bounded at [`MAX_TEXT_BYTES`] bytes.
///
/// A newtype so the bound is enforced where the value is made: an input method commits a
/// phrase, not a document.
#[derive(Clone, Debug, PartialEq, Eq)]
pub struct TextBuffer(String);

impl Default for TextBuffer {
    /// The empty text.
    fn default() -> (text: TextBuffer)
        ensures
            text@ == Seq::<char>::empty(),
    {
        TextBuffer(String::new())
    }
}

impl View for TextBuffer {
    type V = Seq<char>;

    closed spec fn view(&self) -> Seq<char> {
        self.0@
    }
}

impl TextBuffer {
    /// Take text, refusing any longer than the protocol carries.
    pub fn new(text: &str) -> (buffer: Option<TextBuffer>)
        ensures
            buffer.is_some() <==> text.len() <= MAX_TEXT_BYTES,
            buffer matches Some(b) ==> b@ == text@,
    {
        if text.len() <= MAX_TEXT_BYTES {
            Some(TextBuffer(text.to_owned()))
        } else {
            None
        }
    }

    pub fn as_str(&self) -> (text: &str)
        ensures
            text@ == self@,
    {
        self.0.as_str()
    }
}

/// Shared-memory pixel formats the protocol names, and the only values `create_buffer` accepts.
pub const FORMAT_XRGB8888: u32 = 0;

pub const FORMAT_ARGB8888: u32 = 1;

pub const FORMAT_RGB565: u32 = 2;

/// Whether the compositor knows what this format means. An unknown value is refused rather than
/// defaulted: guessing a layout would let a client and the compositor disagree about the bytes.
pub fn pixel_format_is_known(format: u32) -> (known: bool)
    ensures
        known <==> (format == FORMAT_XRGB8888 || format == FORMAT_ARGB8888 || format
            == FORMAT_RGB565),
{
    format == FORMAT_XRGB8888 || format == FORMAT_ARGB8888 || format == FORMAT_RGB565
}

#[derive(Clone, Copy, Debug, PartialEq, Eq, Structural)]
pub enum BufferTransport {
    SoftwareShm,
    GpuPrime,
}

/// Metadata retained after a backend has validated the passed handle.
#[derive(Clone, Copy, Debug, PartialEq, Eq, Structural)]
pub struct BufferDescriptor {
    pub transport: BufferTransport,
    pub size: Size,
    pub stride: u32,
    pub byte_len: u64,
}

/// A buffer is structurally valid when it has area, a stride, and enough bytes for every row.
pub open spec fn descriptor_is_valid(descriptor: BufferDescriptor) -> bool {
    &&& descriptor.size.width != 0
    &&& descriptor.size.height != 0
    &&& descriptor.stride != 0
    &&& descriptor.stride * descriptor.size.height <= descriptor.byte_len
}

impl BufferDescriptor {
    pub fn is_structurally_valid(self) -> (valid: bool)
        ensures
            valid == descriptor_is_valid(self),
    {
        if self.size.width == 0 || self.size.height == 0 || self.stride == 0 {
            return false;
        }
        let stride: u64 = self.stride as u64;
        let height: u64 = self.size.height as u64;
        assert(stride * height <= u32::MAX * u32::MAX) by (nonlinear_arith)
            requires
                stride <= u32::MAX,
                height <= u32::MAX,
        ;
        stride * height <= self.byte_len
    }
}

/// Which devices a seat offers. Absent devices are reported, never emulated.
#[derive(Clone, Copy, Debug, PartialEq, Eq, Structural)]
pub struct SeatCapabilities(u8);

impl Default for SeatCapabilities {
    /// No devices: the same value as [`SeatCapabilities::empty`].
    fn default() -> (caps: SeatCapabilities)
        ensures
            caps.bits() == 0,
            caps@ == (false, false, false),
    {
        SeatCapabilities::empty()
    }
}

impl SeatCapabilities {
    /// The capabilities as (pointer, keyboard, touch).
    pub closed spec fn view(self) -> (bool, bool, bool) {
        ((self.0 & 1u8) != 0, (self.0 & 2u8) != 0, (self.0 & 4u8) != 0)
    }

    /// The flag byte: pointer, keyboard and touch in the low three bits.
    pub closed spec fn bits(self) -> u8 {
        self.0
    }

    /// Two capability values with one flag byte are one value.
    pub proof fn bits_determine(a: SeatCapabilities, b: SeatCapabilities)
        requires
            a.bits() == b.bits(),
        ensures
            a == b,
    {
    }

    /// Adding a device a seat already offers changes nothing; adding devices in either order
    /// gives one value.
    pub proof fn builders_settle(bits: u8)
        ensures
            (bits | 1u8) | 1u8 == bits | 1u8,
            (bits | 2u8) | 2u8 == bits | 2u8,
            (bits | 4u8) | 4u8 == bits | 4u8,
            (bits | 1u8) | 2u8 == (bits | 2u8) | 1u8,
            (bits | 1u8) | 4u8 == (bits | 4u8) | 1u8,
            (bits | 2u8) | 4u8 == (bits | 4u8) | 2u8,
    {
        assert((bits | 1u8) | 1u8 == bits | 1u8) by (bit_vector);
        assert((bits | 2u8) | 2u8 == bits | 2u8) by (bit_vector);
        assert((bits | 4u8) | 4u8 == bits | 4u8) by (bit_vector);
        assert((bits | 1u8) | 2u8 == (bits | 2u8) | 1u8) by (bit_vector);
        assert((bits | 1u8) | 4u8 == (bits | 4u8) | 1u8) by (bit_vector);
        assert((bits | 2u8) | 4u8 == (bits | 4u8) | 2u8) by (bit_vector);
    }

    pub fn empty() -> (caps: SeatCapabilities)
        ensures
            caps.bits() == 0,
            caps@ == (false, false, false),
    {
        assert((0u8 & 1u8) == 0 && (0u8 & 2u8) == 0 && (0u8 & 4u8) == 0) by (bit_vector);
        SeatCapabilities(0)
    }

    pub fn with_pointer(self) -> (caps: SeatCapabilities)
        ensures
            caps.bits() == self.bits() | 1u8,
            caps@ == (true, self@.1, self@.2),
    {
        let bits: u8 = self.0;
        assert(((bits | 1u8) & 1u8) != 0 && ((bits | 1u8) & 2u8) == (bits & 2u8) && ((bits | 1u8)
            & 4u8) == (bits & 4u8)) by (bit_vector);
        SeatCapabilities(bits | 1)
    }

    pub fn with_keyboard(self) -> (caps: SeatCapabilities)
        ensures
            caps.bits() == self.bits() | 2u8,
            caps@ == (self@.0, true, self@.2),
    {
        let bits: u8 = self.0;
        assert(((bits | 2u8) & 2u8) != 0 && ((bits | 2u8) & 1u8) == (bits & 1u8) && ((bits | 2u8)
            & 4u8) == (bits & 4u8)) by (bit_vector);
        SeatCapabilities(bits | 2)
    }

    pub fn with_touch(self) -> (caps: SeatCapabilities)
        ensures
            caps.bits() == self.bits() | 4u8,
            caps@ == (self@.0, self@.1, true),
    {
        let bits: u8 = self.0;
        assert(((bits | 4u8) & 4u8) != 0 && ((bits | 4u8) & 1u8) == (bits & 1u8) && ((bits | 4u8)
            & 2u8) == (bits & 2u8)) by (bit_vector);
        SeatCapabilities(bits | 4)
    }

    pub fn has_pointer(self) -> (present: bool)
        ensures
            present == self@.0,
    {
        self.0 & 1 != 0
    }

    pub fn has_keyboard(self) -> (present: bool)
        ensures
            present == self@.1,
    {
        self.0 & 2 != 0
    }

    pub fn has_touch(self) -> (present: bool)
        ensures
            present == self@.2,
    {
        self.0 & 4 != 0
    }
}

#[derive(Clone, Copy, Debug, PartialEq, Eq, Structural)]
pub struct SeatSnapshot {
    pub capabilities: SeatCapabilities,
    pub active: bool,
}

/// Shared memory a client handed over, validated by a backend and not yet mapped.
///
/// Opaque on purpose: the compositor may know how large it is and name it; reading or writing
/// it belongs to the backend.
#[derive(Clone, Copy, Debug, PartialEq, Eq, Structural)]
pub struct SharedMemory {
    id: u64,
    size: u64,
}

impl SharedMemory {
    pub closed spec fn spec_id(self) -> u64 {
        self.id
    }

    pub closed spec fn spec_size(self) -> u64 {
        self.size
    }

    /// Record a resource a backend has already validated.
    pub fn new(id: u64, size: u64) -> (memory: SharedMemory)
        ensures
            memory.spec_id() == id,
            memory.spec_size() == size,
    {
        SharedMemory { id, size }
    }

    /// The backend's name for this resource.
    pub fn id(self) -> (id: u64)
        ensures
            id == self.spec_id(),
    {
        self.id
    }

    /// Bytes the resource holds. A buffer carved out of it must fit inside this.
    pub fn size(self) -> (size: u64)
        ensures
            size == self.spec_size(),
    {
        self.size
    }
}

/// Where a buffer's pixels live: a region of memory a client handed over.
#[derive(Clone, Copy, Debug, PartialEq, Eq, Structural)]
pub struct BufferSource {
    pub memory: SharedMemory,
    pub offset: u32,
    pub descriptor: BufferDescriptor,
}

/// Bounds on the compositor as a whole, rather than on any one connection.
#[derive(Clone, Copy, Debug, PartialEq, Eq, Structural)]
pub struct ServerLimits {
    pub max_connections: usize,
}

impl Default for ServerLimits {
    fn default() -> (limits: ServerLimits)
        ensures
            limits.max_connections == 64,
    {
        // One connection is one channel on Artery, and the kernel bounds channel pairs at 64.
        ServerLimits { max_connections: 64 }
    }
}

/// Bounds on one connection.
#[derive(Clone, Copy, Debug, PartialEq, Eq, Structural)]
pub struct ConnectionLimits {
    pub max_objects: usize,
    pub max_surfaces: usize,
    pub max_buffers: usize,
    pub max_imported_handles: usize,
    pub max_damage_rects_per_commit: usize,
    /// Events one connection may have waiting between drains.
    pub max_pending_events: usize,
}

impl Default for ConnectionLimits {
    fn default() -> (limits: ConnectionLimits)
        ensures
            limits.max_objects == 1024,
            limits.max_surfaces == 256,
            limits.max_buffers == 64,
            limits.max_imported_handles == 64,
            limits.max_damage_rects_per_commit == 256,
            limits.max_pending_events == 256,
    {
        ConnectionLimits {
            max_objects: 1024,
            max_surfaces: 256,
            max_buffers: 64,
            max_imported_handles: 64,
            max_damage_rects_per_commit: 256,
            max_pending_events: 256,
        }
    }
}

/// A window, as a shell refers to it: compositor-wide, stable while the window exists, and
/// never reused once retired.
#[derive(Clone, Copy, Debug, PartialEq, Eq, Structural, Hash, PartialOrd, Ord)]
pub struct ToplevelHandle(pub u64);

/// Why a shell's request was refused.
#[derive(Clone, Copy, Debug, PartialEq, Eq, Structural)]
pub enum ShellError {
    /// The connection does not hold the authority to arrange windows.
    NotGranted,
    /// No window answers to this handle. It was retired, or never existed.
    UnknownHandle { handle: ToplevelHandle },
    /// No seat answers to this name.
    UnknownSeat { seat: SeatId },
}

} // verus!
