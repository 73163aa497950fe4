//! Object identifiers and the checked failures a client's request can cause.

use vstd::prelude::*;

use crate::model::{ErrorCategory, ErrorCode, ObjectKind};

verus! {

/// An object's identifier on one connection. Identifiers are per connection: the same number on
/// two connections names two unrelated objects.
#[derive(Clone, Copy, Debug, PartialEq, Eq, Structural, Hash, PartialOrd, Ord)]
pub struct ObjectId(pub u32);

/// The raw value of the null identifier, which names no object.
pub const NULL_OBJECT: u32 = 0;
/// The raw value of the identifier every connection's display object holds from the start.
pub const DISPLAY_OBJECT: u32 = 1;

impl ObjectId {
    /// The display object every connection starts with.
    pub fn display() -> (id: ObjectId)
        ensures
            id == ObjectId(DISPLAY_OBJECT),
    {
        ObjectId(DISPLAY_OBJECT)
    }

    /// Whether this is the null identifier.
    pub fn is_null(self) -> (null: bool)
        ensures
            null == (self.0 == NULL_OBJECT),
    {
        self.0 == NULL_OBJECT
    }

    /// Whether a client may create an object under this identifier: any but the null one and
    /// the display's, which the compositor holds.
    pub fn is_client_allocatable(self) -> (allowed: bool)
        ensures
            allowed == client_allocatable(self),
    {
        self.0 != NULL_OBJECT && self.0 != DISPLAY_OBJECT
    }
}

/// Whether a client may create an object under `id`.
pub open spec fn client_allocatable(id: ObjectId) -> bool {
    id.0 != NULL_OBJECT && id.0 != DISPLAY_OBJECT
}

/// A request's number within its object's interface.
#[derive(Clone, Copy, Debug, PartialEq, Eq, Structural)]
pub struct Opcode(pub u16);

/// What a connection may be allowed to do.
#[derive(Clone, Copy, Debug, PartialEq, Eq, Structural)]
pub enum Capability {
    SurfaceCreate,
    BufferImport,
    SoftwareShm,
    GpuPrime,
    ExplicitGpuFence,
    RevocableSeat,
    ExtendedInput,
    PrivilegedSession,
    ShellControl,
    ShortcutControl,
    InputMethod,
    Screencopy,
}

/// The bit each capability takes in a [`CapabilitySet`].
pub open spec fn capability_bit(capability: Capability) -> u16 {
    match capability {
        Capability::SurfaceCreate => 0x1,
        Capability::BufferImport => 0x2,
        Capability::SoftwareShm => 0x4,
        Capability::GpuPrime => 0x8,
        Capability::ExplicitGpuFence => 0x10,
        Capability::RevocableSeat => 0x20,
        Capability::ExtendedInput => 0x40,
        Capability::PrivilegedSession => 0x80,
        Capability::ShellControl => 0x100,
        Capability::ShortcutControl => 0x200,
        Capability::InputMethod => 0x400,
        Capability::Screencopy => 0x800,
    }
}

fn bit_of(capability: Capability) -> (bit: u16)
    ensures
        bit == capability_bit(capability),
{
    match capability {
        Capability::SurfaceCreate => 0x1,
        Capability::BufferImport => 0x2,
        Capability::SoftwareShm => 0x4,
        Capability::GpuPrime => 0x8,
        Capability::ExplicitGpuFence => 0x10,
        Capability::RevocableSeat => 0x20,
        Capability::ExtendedInput => 0x40,
        Capability::PrivilegedSession => 0x80,
        Capability::ShellControl => 0x100,
        Capability::ShortcutControl => 0x200,
        Capability::InputMethod => 0x400,
        Capability::Screencopy => 0x800,
    }
}

/// One capability's bit.
pub open spec fn single_bit(b: u16) -> bool {
    b == 0x1 || b == 0x2 || b == 0x4 || b == 0x8 || b == 0x10 || b == 0x20 || b == 0x40 || b
        == 0x80 || b == 0x100 || b == 0x200 || b == 0x400 || b == 0x800
}

proof fn lemma_bits(x: u16, y: u16, a: u16, b: u16)
    requires
        single_bit(a),
        single_bit(b),
    ensures
        ((x | a) & b != 0) == ((x & b != 0) || a == b),
        ((x & !a) & b != 0) == ((x & b != 0) && a != b),
        ((x & y) & b != 0) == ((x & b != 0) && (y & b != 0)),
        (0u16 & b) == 0,
{
    assert(((x | a) & b != 0) == ((x & b != 0) || a == b)) by (bit_vector)
        requires
            single_bit(a),
            single_bit(b),
    ;
    assert(((x & !a) & b != 0) == ((x & b != 0) && a != b)) by (bit_vector)
        requires
            single_bit(a),
            single_bit(b),
    ;
    assert(((x & y) & b != 0) == ((x & b != 0) && (y & b != 0))) by (bit_vector)
        requires
            single_bit(b),
    ;
    assert((0u16 & b) == 0) by (bit_vector);
}

proof fn lemma_bit_is_single(capability: Capability)
    ensures
        single_bit(capability_bit(capability)),
{
}

/// Distinct capabilities take distinct bits.
proof fn lemma_bits_distinct(a: Capability, b: Capability)
    ensures
        (capability_bit(a) == capability_bit(b)) == (a == b),
{
}

/// A set of capabilities.
#[derive(Clone, Copy, Debug, PartialEq, Eq, Structural)]
pub struct CapabilitySet(u16);

impl CapabilitySet {
    /// The set's bits, one per capability it holds.
    pub closed spec fn bits(self) -> u16 {
        self.0
    }

    /// This set with `capability` added.
    pub closed spec fn added(self, capability: Capability) -> CapabilitySet {
        CapabilitySet(self.0 | capability_bit(capability))
    }

    /// This set with `capability` taken out.
    pub closed spec fn removed(self, capability: Capability) -> CapabilitySet {
        CapabilitySet(self.0 & !capability_bit(capability))
    }

    /// What this set and `other` both hold.
    pub closed spec fn common(self, other: CapabilitySet) -> CapabilitySet {
        CapabilitySet(self.0 & other.0)
    }

    /// Whether the set holds `capability`.
    pub open spec fn has(self, capability: Capability) -> bool {
        self.bits() & capability_bit(capability) != 0
    }

    pub fn empty() -> (set: CapabilitySet)
        ensures
            forall|c: Capability| !#[trigger] set.has(c),
    {
        proof {
            assert forall|c: Capability| !#[trigger] CapabilitySet(0).has(c) by {
                lemma_bit_is_single(c);
                lemma_bits(0, 0, capability_bit(c), capability_bit(c));
            }
        }
        CapabilitySet(0)
    }

    /// What a connection holds without anyone granting it: creating surfaces and importing
    /// buffers, the two the draw path cannot do without.
    pub fn default_grants() -> (set: CapabilitySet)
        ensures
            forall|c: Capability|
                #[trigger] set.has(c) == (c == Capability::SurfaceCreate || c == Capability::BufferImport),
    {
        CapabilitySet::empty().with(Capability::SurfaceCreate).with(Capability::BufferImport)
    }

    pub fn with(self, capability: Capability) -> (set: CapabilitySet)
        ensures
            set == self.added(capability),
            forall|c: Capability| #[trigger] set.has(c) == (self.has(c) || c == capability),
    {
        let bit = bit_of(capability);
        proof {
            assert forall|c: Capability| #[trigger] CapabilitySet(self.0 | bit).has(c) == (self.has(c)
                || c == capability) by {
                lemma_bit_is_single(c);
                lemma_bit_is_single(capability);
                lemma_bits_distinct(c, capability);
                lemma_bits(self.0, 0, bit, capability_bit(c));
            }
        }
        CapabilitySet(self.0 | bit)
    }

    pub fn without(self, capability: Capability) -> (set: CapabilitySet)
        ensures
            set == self.removed(capability),
            forall|c: Capability| #[trigger] set.has(c) == (self.has(c) && c != capability),
    {
        let bit = bit_of(capability);
        proof {
            assert forall|c: Capability| #[trigger] CapabilitySet(self.0 & !bit).has(c) == (self.has(c)
                && c != capability) by {
                lemma_bit_is_single(c);
                lemma_bit_is_single(capability);
                lemma_bits_distinct(c, capability);
                lemma_bits(self.0, 0, bit, capability_bit(c));
            }
        }
        CapabilitySet(self.0 & !bit)
    }

    pub fn intersection(self, other: CapabilitySet) -> (set: CapabilitySet)
        ensures
            set == self.common(other),
            forall|c: Capability| #[trigger] set.has(c) == (self.has(c) && other.has(c)),
    {
        proof {
            assert forall|c: Capability| #[trigger] CapabilitySet(self.0 & other.0).has(c) == (self.has(c)
                && other.has(c)) by {
                lemma_bit_is_single(c);
                lemma_bits(self.0, other.0, capability_bit(c), capability_bit(c));
            }
        }
        CapabilitySet(self.0 & other.0)
    }

    pub fn contains(self, capability: Capability) -> (held: bool)
        ensures
            held == self.has(capability),
    {
        self.0 & bit_of(capability) != 0
    }

    /// Whether this set holds everything `required` names.
    pub fn satisfies(self, required: CapabilitySet) -> (enough: bool)
        ensures
            enough == forall|c: Capability| #[trigger] required.has(c) ==> self.has(c),
    {
        let all: [Capability; 12] = [
            Capability::SurfaceCreate,
            Capability::BufferImport,
            Capability::SoftwareShm,
            Capability::GpuPrime,
            Capability::ExplicitGpuFence,
            Capability::RevocableSeat,
            Capability::ExtendedInput,
            Capability::PrivilegedSession,
            Capability::ShellControl,
            Capability::ShortcutControl,
            Capability::InputMethod,
            Capability::Screencopy,
        ];
        let mut k: usize = 0;
        while k < 12
            invariant
                k <= 12,
                all@.len() == 12,
                all@ == seq![
                    Capability::SurfaceCreate,
                    Capability::BufferImport,
                    Capability::SoftwareShm,
                    Capability::GpuPrime,
                    Capability::ExplicitGpuFence,
                    Capability::RevocableSeat,
                    Capability::ExtendedInput,
                    Capability::PrivilegedSession,
                    Capability::ShellControl,
                    Capability::ShortcutControl,
                    Capability::InputMethod,
                    Capability::Screencopy,
                ],
                forall|i: int| 0 <= i < k ==> (required.has(#[trigger] all@[i]) ==> self.has(all@[i])),
            decreases 12 - k,
        {
            let capability = all[k];
            if required.contains(capability) && !self.contains(capability) {
                return false;
            }
            k = k + 1;
        }
        proof {
            assert forall|c: Capability| #[trigger] required.has(c) implies self.has(c) by {
                let i: int = match c {
                    Capability::SurfaceCreate => 0,
                    Capability::BufferImport => 1,
                    Capability::SoftwareShm => 2,
                    Capability::GpuPrime => 3,
                    Capability::ExplicitGpuFence => 4,
                    Capability::RevocableSeat => 5,
                    Capability::ExtendedInput => 6,
                    Capability::PrivilegedSession => 7,
                    Capability::ShellControl => 8,
                    Capability::ShortcutControl => 9,
                    Capability::InputMethod => 10,
                    Capability::Screencopy => 11,
                };
                assert(all@[i] == c);
            }
        }
        true
    }
}

/// A checked failure caused by an untrusted request.
#[derive(Clone, Copy, Debug, PartialEq, Eq, Structural)]
pub enum StateError {
    InvalidObject { object_id: ObjectId },
    InvalidObjectId { object_id: ObjectId },
    ObjectIdAlreadyUsed { object_id: ObjectId },
    WrongObjectType { object_id: ObjectId, expected: ObjectKind, actual: ObjectKind },
    UnknownOpcode { object_id: ObjectId, opcode: Opcode },
    ConnectionClosed,
    InvalidState { object_id: ObjectId },
    UnsupportedCapability { object_id: ObjectId, capability: Capability },
    QuotaExceeded { object_id: ObjectId },
    /// The connection has more events queued than it may hold, so it is not reading them.
    EventQueueOverflow { queued: usize },
}

/// The protocol code each error is reported under.
pub open spec fn code_of(error: StateError) -> ErrorCode {
    match error {
        StateError::InvalidObject { .. } => ErrorCode::InvalidObject,
        StateError::InvalidObjectId { .. } => ErrorCode::InvalidObjectId,
        StateError::ObjectIdAlreadyUsed { .. } => ErrorCode::ObjectIdAlreadyUsed,
        StateError::WrongObjectType { .. } => ErrorCode::WrongObjectType,
        StateError::UnknownOpcode { .. } => ErrorCode::UnknownOpcode,
        StateError::ConnectionClosed => ErrorCode::ConnectionClosed,
        StateError::InvalidState { .. } => ErrorCode::InvalidState,
        StateError::UnsupportedCapability { .. } => ErrorCode::UnsupportedCapability,
        StateError::QuotaExceeded { .. } => ErrorCode::QuotaExceeded,
        StateError::EventQueueOverflow { .. } => ErrorCode::EventQueueOverflow,
    }
}

/// The object an error is about; errors about the connection as a whole name the display.
pub open spec fn object_of(error: StateError) -> ObjectId {
    match error {
        StateError::InvalidObject { object_id } => object_id,
        StateError::InvalidObjectId { object_id } => object_id,
        StateError::ObjectIdAlreadyUsed { object_id } => object_id,
        StateError::WrongObjectType { object_id, .. } => object_id,
        StateError::UnknownOpcode { object_id, .. } => object_id,
        StateError::InvalidState { object_id } => object_id,
        StateError::UnsupportedCapability { object_id, .. } => object_id,
        StateError::QuotaExceeded { object_id } => object_id,
        StateError::ConnectionClosed => ObjectId(DISPLAY_OBJECT),
        StateError::EventQueueOverflow { .. } => ObjectId(DISPLAY_OBJECT),
    }
}

/// The category of an error's code.
pub open spec fn category_of(error: StateError) -> ErrorCategory {
    match code_of(error) {
        ErrorCode::InvalidObject | ErrorCode::InvalidObjectId | ErrorCode::ObjectIdAlreadyUsed
        | ErrorCode::WrongObjectType | ErrorCode::UnknownOpcode
        | ErrorCode::ConnectionClosed => ErrorCategory::Protocol,
        ErrorCode::InvalidState | ErrorCode::UnsupportedCapability => ErrorCategory::Object,
        ErrorCode::QuotaExceeded | ErrorCode::EventQueueOverflow => ErrorCategory::Resource,
    }
}

/// What a refused request costs the connection that sent it.
#[derive(Clone, Copy, Debug, PartialEq, Eq, Structural)]
pub enum Consequence {
    /// A protocol violation: the connection is closed.
    CloseConnection,
    /// The object the error names is terminated.
    DestroyObject(ObjectId),
    /// The error is reported and nothing else happens.
    ReportOnly,
}

/// The consequence of an error, by its category.
pub open spec fn consequence_of(error: StateError) -> Consequence {
    match category_of(error) {
        ErrorCategory::Protocol => Consequence::CloseConnection,
        ErrorCategory::Object => Consequence::DestroyObject(object_of(error)),
        _ => Consequence::ReportOnly,
    }
}

impl StateError {
    pub fn code(self) -> (code: ErrorCode)
        ensures
            code == code_of(self),
    {
        match self {
            StateError::InvalidObject { .. } => ErrorCode::InvalidObject,
            StateError::InvalidObjectId { .. } => ErrorCode::InvalidObjectId,
            StateError::ObjectIdAlreadyUsed { .. } => ErrorCode::ObjectIdAlreadyUsed,
            StateError::WrongObjectType { .. } => ErrorCode::WrongObjectType,
            StateError::UnknownOpcode { .. } => ErrorCode::UnknownOpcode,
            StateError::ConnectionClosed => ErrorCode::ConnectionClosed,
            StateError::InvalidState { .. } => ErrorCode::InvalidState,
            StateError::UnsupportedCapability { .. } => ErrorCode::UnsupportedCapability,
            StateError::QuotaExceeded { .. } => ErrorCode::QuotaExceeded,
            StateError::EventQueueOverflow { .. } => ErrorCode::EventQueueOverflow,
        }
    }

    pub fn category(self) -> (category: ErrorCategory)
        ensures
            category == category_of(self),
    {
        self.code().category()
    }

    pub fn object_id(self) -> (id: ObjectId)
        ensures
            id == object_of(self),
    {
        match self {
            StateError::InvalidObject { object_id } => object_id,
            StateError::InvalidObjectId { object_id } => object_id,
            StateError::ObjectIdAlreadyUsed { object_id } => object_id,
            StateError::WrongObjectType { object_id, .. } => object_id,
            StateError::UnknownOpcode { object_id, .. } => object_id,
            StateError::InvalidState { object_id } => object_id,
            StateError::UnsupportedCapability { object_id, .. } => object_id,
            StateError::QuotaExceeded { object_id } => object_id,
            StateError::ConnectionClosed => ObjectId(DISPLAY_OBJECT),
            StateError::EventQueueOverflow { .. } => ObjectId(DISPLAY_OBJECT),
        }
    }

    /// What dispatching a request that failed with this error does to the connection: a
    /// protocol error closes it, an object error terminates the object named, and a resource
    /// error is only reported.
    pub fn consequence(self) -> (consequence: Consequence)
        ensures
            consequence == consequence_of(self),
    {
        match self.category() {
            ErrorCategory::Protocol => Consequence::CloseConnection,
            ErrorCategory::Object => Consequence::DestroyObject(self.object_id()),
            _ => Consequence::ReportOnly,
        }
    }
}

} // verus!
