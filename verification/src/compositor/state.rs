//! The per-connection protocol state machine: connections, the objects each holds (seats,
//! sessions, surfaces, buffers, fences), the requests that create, change and destroy them, the
//! scene the surfaces are stacked in, keyboard focus, and the events owed to each client.
//!
//! Every operation is stated against [`CompositorModel`], the abstract state, by a spec
//! function of the same shape, so what a request does can be read off without the vectors the
//! state is kept in.

use vstd::prelude::*;

use crate::compositor::error::{
    Capability, CapabilitySet, category_of, client_allocatable, consequence_of, object_of,
    Consequence, ObjectId, Opcode, StateError, DISPLAY_OBJECT, NULL_OBJECT,
};
use crate::compositor::binding::{interface_for, interface_of, Interface};
use crate::compositor::registry::{
    holds, ids_distinct, kind_in, newest_first, position_of, ObjectRegistry, Teardown,
};
use crate::model::{
    descriptor_is_valid, pixel_format_is_known, rect_contains, BufferDescriptor, BufferSource,
    BufferTransport, CommitId, ConnectionId, ConnectionLimits, Damage, ErrorCategory, ObjectKind,
    Point, Rect, SeatCapabilities, SeatSnapshot, ServerLimits, SharedMemory, Size, SurfaceRole,
    TitleText, FORMAT_ARGB8888, FORMAT_RGB565, FORMAT_XRGB8888,
};

verus! {

/// A surface, named compositor-wide by the connection that holds it and its identifier there.
#[derive(Clone, Copy, Debug, PartialEq, Eq, Structural)]
pub struct SurfaceKey {
    pub connection: ConnectionId,
    pub object_id: ObjectId,
}

/// What the compositor has to tell a client.
#[derive(Clone, Copy, Debug, PartialEq, Eq, Structural)]
pub enum EventKind {
    /// A request failed.
    Error(StateError),
    /// An object was destroyed.
    ObjectDestroyed(ObjectKind),
    /// The identifier is retired and the client may allocate it again.
    IdRetired,
    /// The connection no longer holds this capability.
    CapabilityRevoked(Capability),
    /// The compositor is done with a buffer; the client may reuse it.
    BufferRelease,
    /// The surface lost keyboard focus.
    KeyboardLeave,
    /// The surface gained keyboard focus.
    KeyboardEnter,
    /// The frame the client asked to hear about was presented at `timestamp_ns`.
    FrameDone { serial: u32, timestamp_ns: u64 },
    /// The surface has missed its presentation deadline twice running.
    FrameLate,
    /// When the next frame is due, and how often frames come.
    FrameDeadline { deadline_ns: u64, refresh_interval_ns: u64 },
    /// The compositor is done with a buffer once `fence` signals.
    BufferReleaseWithFence { fence: ObjectId },
    /// The window is asked to close.
    Close,
    /// The registry offers a global.
    Global { name: u32, interface: Interface, version: u32 },
    /// A global is no longer offered.
    GlobalRemove { name: u32 },
    /// Which window holds keyboard focus, as a shell names windows; 0 for none.
    ShellFocusChanged { handle: u64 },
}

/// One event, addressed to an object on a connection.
#[derive(Clone, Copy, Debug, PartialEq, Eq, Structural)]
pub struct Event {
    pub connection: ConnectionId,
    pub object_id: ObjectId,
    pub kind: EventKind,
}

/// A keyboard focus change, as reported to whoever moved focus.
#[derive(Clone, Copy, Debug, PartialEq, Eq, Structural)]
pub enum FocusEvent {
    KeyboardLeave(SurfaceKey),
    KeyboardEnter(SurfaceKey),
}

/// A request after framing and decoding.
#[derive(Clone, Debug, PartialEq, Eq)]
pub enum ClientRequest {
    CreateRegistry { new_id: ObjectId },
    /// Take the global the registry offers under `name`, at a version it offers.
    Bind { name: u32, version: u32, new_id: ObjectId },
    /// The session is the connection's, not the request's.
    CreateSurface { new_id: ObjectId },
    ImportBuffer { new_id: ObjectId, descriptor: BufferDescriptor },
    /// Hand over a region of memory to carve shared-memory buffers from.
    CreatePool { new_id: ObjectId, memory: SharedMemory },
    /// Carve a buffer of `size` rows of `stride` bytes in `format` out of a pool, at `offset`.
    CreateBuffer { new_id: ObjectId, pool: ObjectId, offset: u32, size: Size, stride: u32, format: u32 },
    Attach { surface: ObjectId, buffer: ObjectId, offset: Point, acquire_fence: Option<ObjectId> },
    Commit { surface: ObjectId },
    SetRole { surface: ObjectId, role: SurfaceRole },
    /// Ask to be told, with `serial`, when the next committed content is presented.
    RequestFrame { surface: ObjectId, serial: u32 },
    /// The refresh rates, in hertz, the surface's next commit would like to be shown at.
    SetRefreshRange { surface: ObjectId, min_hz: u32, max_hz: u32 },
    /// Mark a rectangle of the surface as changed in the next commit.
    Damage { surface: ObjectId, rect: Rect },
    /// Give a surface window semantics, as a toplevel at `new_id`.
    GetToplevel { surface: ObjectId, new_id: ObjectId },
    SetTitle { toplevel: ObjectId, title: TitleText },
    SetMinSize { toplevel: ObjectId, size: Size },
    SetMaxSize { toplevel: ObjectId, size: Size },
    Destroy { object: ObjectId },
    Unknown { object: ObjectId, opcode: Opcode },
}

/// Why a connection could not be made.
#[derive(Clone, Copy, Debug, PartialEq, Eq, Structural)]
pub enum NegotiationError {
    /// The connection requires capabilities neither end can offer it.
    UnsupportedCapabilities { required: CapabilitySet, available: CapabilitySet },
    ConnectionIdExhausted,
    /// The compositor already holds its limit of connections.
    ConnectionLimitReached { limit: usize },
}

/// Who holds a buffer's contents.
#[derive(Clone, Copy, Debug, PartialEq, Eq, Structural)]
pub enum BufferState {
    /// The client may write it.
    Available,
    /// Attached to a surface, waiting for the commit that shows it.
    Pending { surface: SurfaceKey },
    /// Shown by a commit; the compositor reads it until it releases it.
    CompositorHeld { surface: SurfaceKey, commit: CommitId },
}

/// What a commit will do to a surface's content. A commit that attaches nothing keeps what the
/// surface shows; a null attach takes it away.
#[derive(Clone, Copy, Debug, PartialEq, Eq, Structural)]
pub enum PendingAttachment {
    Unchanged,
    Attach(ObjectId, Point),
    Detach,
}

/// The refresh rates, in hertz, a surface would like to be shown at.
#[derive(Clone, Copy, Debug, PartialEq, Eq, Structural)]
pub struct RefreshRange {
    pub min_hz: u32,
    pub max_hz: u32,
}

/// What a surface shows since its last commit that gave it content.
#[derive(Clone, Copy, Debug, PartialEq, Eq, Structural)]
pub struct SurfaceContent {
    pub buffer: ObjectId,
    pub offset: Point,
    pub commit: CommitId,
    pub acquire_fence: Option<ObjectId>,
    /// The refresh range in force: the one this commit set, or the one the content before it had.
    pub refresh_range: Option<RefreshRange>,
    /// Whether presenting this content owes the client a frame event, and with which serial.
    pub frame_callback: bool,
    pub frame_serial: u32,
}

/// A surface's state: its session, its role, what the next commit will do and what it shows.
#[derive(Clone, Copy, Debug, PartialEq, Eq, Structural)]
pub struct SurfaceState {
    pub session: ObjectId,
    pub role: Option<SurfaceRole>,
    pub pending: PendingAttachment,
    pub pending_fence: Option<ObjectId>,
    pub pending_refresh: Option<RefreshRange>,
    /// A frame event was asked for and no commit has taken it up yet.
    pub frame_requested: bool,
    pub frame_serial: u32,
    /// Presentation deadlines missed since the surface was last presented, saturating.
    pub deadline_misses: u8,
    pub current: Option<SurfaceContent>,
    /// Where the scene places it. A surface keeps its place across a detach.
    pub position: Option<Point>,
}

/// A toplevel window: the surface it gives window semantics, its size bounds, and the handle a
/// shell names it by. Its title is kept beside it, in the compositor.
#[derive(Clone, Copy, Debug, PartialEq, Eq, Structural)]
pub struct ToplevelState {
    pub surface: ObjectId,
    pub minimum: Option<Size>,
    pub maximum: Option<Size>,
    pub handle: u64,
}

/// A window as a shell refers to it: its handle, where it lives, and its title.
#[derive(Clone, Debug, PartialEq, Eq)]
pub struct ToplevelRecord {
    pub handle: u64,
    pub connection: ConnectionId,
    pub object_id: ObjectId,
    pub title: String,
}

/// A session as a caller sees it: the seat it runs on, if any, and whether it is active.
#[derive(Clone, Copy, Debug, PartialEq, Eq, Structural)]
pub struct SessionSnapshot {
    pub seat: Option<ObjectId>,
    pub active: bool,
}

/// A global the registry offers: the interface and kind of what binding it creates, and the
/// newest version offered.
#[derive(Clone, Copy, Debug, PartialEq, Eq, Structural)]
pub struct Global {
    pub interface: Interface,
    pub kind: ObjectKind,
    pub version: u32,
}

/// An object a connection holds.
#[derive(Clone, Copy, Debug, PartialEq, Eq, Structural)]
pub enum Object {
    Display,
    Registry,
    /// A global the client bound. Destroying it gives up the reference and nothing else.
    Global,
    Seat { capabilities: SeatCapabilities, active: bool },
    Session { seat: Option<ObjectId>, active: bool },
    Surface(SurfaceState),
    Buffer { descriptor: BufferDescriptor, state: BufferState, source: Option<BufferSource> },
    /// A region of memory the client handed over, for buffers to be carved from.
    ShmPool(SharedMemory),
    /// A stream of extended input events.
    InputStream,
    /// A toplevel window.
    Toplevel(ToplevelState),
    Fence { signaled: bool },
}

/// Whether a connection can be offered `c`: both ends can, or it is one every connection has.
pub open spec fn offered(server: CapabilitySet, client: CapabilitySet, c: Capability) -> bool {
    (server.has(c) && client.has(c)) || c == Capability::SurfaceCreate || c
        == Capability::BufferImport
}

/// Whether a connection holds `c` from the start when it is offered: the default grants and the
/// backend facts. Everything else is a policy authority's to grant.
pub open spec fn granted_at_connect(c: Capability) -> bool {
    c == Capability::SurfaceCreate || c == Capability::BufferImport || c == Capability::SoftwareShm
        || c == Capability::GpuPrime || c == Capability::ExplicitGpuFence || c
        == Capability::RevocableSeat
}

/// Whether everything `required` names can be offered.
pub open spec fn negotiates(server: CapabilitySet, client: CapabilitySet, required: CapabilitySet) -> bool {
    forall|c: Capability| #[trigger] required.has(c) ==> offered(server, client, c)
}

/// One connection, abstractly: its undrained events and the objects it holds.
pub struct ConnectionModel {
    pub pending_events: usize,
    /// Live objects, oldest first.
    pub entries: Seq<(ObjectId, ObjectKind)>,
    /// What each live object is, in the same order.
    pub values: Seq<Object>,
    /// Identifiers a new object may not take.
    pub used: Set<ObjectId>,
    /// The session this connection's surfaces belong to, once one is established.
    pub session: Option<ObjectId>,
    /// What both ends could offer this connection when it was made.
    pub available: CapabilitySet,
    /// What this connection holds now.
    pub capabilities: CapabilitySet,
}

impl ConnectionModel {
    pub open spec fn with_pending(self, pending_events: usize) -> ConnectionModel {
        ConnectionModel { pending_events, ..self }
    }

    pub open spec fn with_objects(
        self,
        entries: Seq<(ObjectId, ObjectKind)>,
        values: Seq<Object>,
    ) -> ConnectionModel {
        ConnectionModel { entries, values, ..self }
    }

    pub open spec fn with_used(self, used: Set<ObjectId>) -> ConnectionModel {
        ConnectionModel { used, ..self }
    }

    pub open spec fn with_session(self, session: Option<ObjectId>) -> ConnectionModel {
        ConnectionModel { session, ..self }
    }

    pub open spec fn with_capabilities(self, capabilities: CapabilitySet) -> ConnectionModel {
        ConnectionModel { capabilities, ..self }
    }

    /// Whether a live object holds `id`.
    pub open spec fn holds(self, id: ObjectId) -> bool {
        holds(self.entries, id)
    }

    /// Where the object holding `id` stands.
    pub open spec fn at(self, id: ObjectId) -> int {
        position_of(self.entries, id)
    }

    /// The kind of the object holding `id`.
    pub open spec fn kind_of(self, id: ObjectId) -> ObjectKind {
        self.entries[self.at(id)].1
    }

    /// The object holding `id`.
    pub open spec fn object(self, id: ObjectId) -> Object {
        self.values[self.at(id)]
    }

    /// The same connection with the object holding `id` replaced.
    pub open spec fn with_object(self, id: ObjectId, value: Object) -> ConnectionModel {
        self.with_objects(self.entries, self.values.update(self.at(id), value))
    }

    /// How many live objects are of `kind`.
    pub open spec fn count_kind(self, kind: ObjectKind) -> nat {
        count_kind(self.entries, kind)
    }
}

/// How many entries are of `kind`.
pub open spec fn count_kind(entries: Seq<(ObjectId, ObjectKind)>, kind: ObjectKind) -> nat
    decreases entries.len(),
{
    if entries.len() == 0 {
        0
    } else {
        count_kind(entries.drop_last(), kind) + if entries.last().1 == kind {
            1nat
        } else {
            0nat
        }
    }
}

/// The compositor, abstractly.
pub struct CompositorModel {
    /// What the compositor can offer any connection.
    pub server_capabilities: CapabilitySet,
    pub server_limits: ServerLimits,
    pub limits: ConnectionLimits,
    /// Globals by name, in the order they were first offered; names only grow.
    pub globals: Seq<(u32, Global)>,
    pub next_global: u32,
    pub next_connection: u64,
    pub next_commit: u64,
    /// Connections, oldest first.
    pub connections: Seq<(ConnectionId, ConnectionModel)>,
    /// The scene's surfaces, bottom to top.
    pub stack: Seq<SurfaceKey>,
    pub keyboard_focus: Option<SurfaceKey>,
    /// The surface the pointer was last found over.
    pub pointer_target: Option<SurfaceKey>,
    /// Damage staged for each surface's next commit, in the order it arrived.
    pub pending_damage: Seq<(SurfaceKey, Rect)>,
    /// The damage each surface's current content was committed with.
    pub shown_damage: Seq<(SurfaceKey, Damage)>,
    /// Toplevel windows, named by connection and object, with their handles, oldest first.
    pub toplevels: Seq<(SurfaceKey, u64)>,
    /// The next handle a window gets; handles are never reused.
    pub next_handle: u64,
    /// Each window's title.
    pub titles: Seq<(SurfaceKey, Seq<char>)>,
    /// Events queued since the last drain, oldest first.
    pub events: Seq<Event>,
}

impl CompositorModel {
    pub open spec fn connected(self, c: ConnectionId) -> bool {
        exists|i: int| 0 <= i < self.connections.len() && #[trigger] self.connections[i].0 == c
    }

    pub open spec fn slot(self, c: ConnectionId) -> int {
        choose|i: int| 0 <= i < self.connections.len() && #[trigger] self.connections[i].0 == c
    }

    pub open spec fn connection(self, c: ConnectionId) -> ConnectionModel {
        self.connections[self.slot(c)].1
    }

    pub open spec fn with_connection(self, c: ConnectionId, conn: ConnectionModel) -> CompositorModel {
        CompositorModel { connections: self.connections.update(self.slot(c), (c, conn)), ..self }
    }

    pub open spec fn with_event(self, event: Event) -> CompositorModel {
        CompositorModel { events: self.events.push(event), ..self }
    }

    pub open spec fn with_stack(self, stack: Seq<SurfaceKey>) -> CompositorModel {
        CompositorModel { stack, ..self }
    }

    pub open spec fn with_focus(self, keyboard_focus: Option<SurfaceKey>) -> CompositorModel {
        CompositorModel { keyboard_focus, ..self }
    }

    pub open spec fn with_pointer(self, pointer_target: Option<SurfaceKey>) -> CompositorModel {
        CompositorModel { pointer_target, ..self }
    }

    /// Whether `c` is open and holds `id`.
    pub open spec fn has_object(self, c: ConnectionId, id: ObjectId) -> bool {
        self.connected(c) && self.connection(c).holds(id)
    }

    /// The object `c` holds under `id`.
    pub open spec fn object(self, c: ConnectionId, id: ObjectId) -> Object {
        self.connection(c).object(id)
    }

    /// The same compositor with the object `c` holds under `id` replaced.
    pub open spec fn with_object(self, c: ConnectionId, id: ObjectId, value: Object) -> CompositorModel {
        self.with_connection(c, self.connection(c).with_object(id, value))
    }
}

/// No connection identifier appears twice.
pub open spec fn connection_ids_distinct(connections: Seq<(ConnectionId, ConnectionModel)>) -> bool {
    forall|i: int, j: int|
        0 <= i < j < connections.len() ==> #[trigger] connections[i].0 != #[trigger] connections[j].0
}

/// Identifiers are distinct, per connection and across connections, and each connection has a
/// value for every live object.
pub open spec fn model_ok(m: CompositorModel) -> bool {
    &&& connection_ids_distinct(m.connections)
    &&& forall|i: int|
        0 <= i < m.connections.len() ==> ids_distinct((#[trigger] m.connections[i]).1.entries)
            && m.connections[i].1.entries.len() == m.connections[i].1.values.len()
}

/// The stack without `c`'s surfaces.
pub open spec fn without_connection(stack: Seq<SurfaceKey>, c: ConnectionId) -> Seq<SurfaceKey>
    decreases stack.len(),
{
    if stack.len() == 0 {
        stack
    } else {
        let rest = without_connection(stack.drop_last(), c);
        if stack.last().connection == c {
            rest
        } else {
            rest.push(stack.last())
        }
    }
}

/// The stack without one surface.
pub open spec fn without_surface(stack: Seq<SurfaceKey>, key: SurfaceKey) -> Seq<SurfaceKey>
    decreases stack.len(),
{
    if stack.len() == 0 {
        stack
    } else {
        let rest = without_surface(stack.drop_last(), key);
        if stack.last() == key {
            rest
        } else {
            rest.push(stack.last())
        }
    }
}

/// The values `entries` holds for `key`, in order.
pub open spec fn entries_for<T>(entries: Seq<(SurfaceKey, T)>, key: SurfaceKey) -> Seq<T>
    decreases entries.len(),
{
    if entries.len() == 0 {
        Seq::empty()
    } else {
        let rest = entries_for(entries.drop_last(), key);
        if entries.last().0 == key {
            rest.push(entries.last().1)
        } else {
            rest
        }
    }
}

/// `entries` without those for `key`.
pub open spec fn entries_without<T>(entries: Seq<(SurfaceKey, T)>, key: SurfaceKey) -> Seq<(SurfaceKey, T)>
    decreases entries.len(),
{
    if entries.len() == 0 {
        entries
    } else {
        let rest = entries_without(entries.drop_last(), key);
        if entries.last().0 == key {
            rest
        } else {
            rest.push(entries.last())
        }
    }
}

/// `entries` without those for surfaces of connection `c`.
pub open spec fn entries_off<T>(entries: Seq<(SurfaceKey, T)>, c: ConnectionId) -> Seq<(SurfaceKey, T)>
    decreases entries.len(),
{
    if entries.len() == 0 {
        entries
    } else {
        let rest = entries_off(entries.drop_last(), c);
        if entries.last().0.connection == c {
            rest
        } else {
            rest.push(entries.last())
        }
    }
}

/// The damage a commit records for `key`: the rectangles staged, or the whole buffer when none
/// were.
pub open spec fn committed_damage(key: SurfaceKey, rects: Seq<Rect>) -> Seq<(SurfaceKey, Damage)> {
    if rects.len() == 0 {
        seq![(key, Damage::Full)]
    } else {
        rects.map_values(|rect: Rect| (key, Damage::Rect(rect)))
    }
}

/// Closing a connection: it is removed with what it held, newest first; its surfaces leave the
/// scene and it loses keyboard focus. Closing one that is not there changes nothing.
pub open spec fn close_step(m: CompositorModel, c: ConnectionId) -> (
    CompositorModel,
    Seq<(ObjectId, ObjectKind)>,
) {
    if !m.connected(c) {
        (m, Seq::empty())
    } else {
        (
            CompositorModel {
                connections: m.connections.remove(m.slot(c)),
                stack: without_connection(m.stack, c),
                keyboard_focus: match m.keyboard_focus {
                    Some(key) => if key.connection == c {
                        None
                    } else {
                        m.keyboard_focus
                    },
                    None => None,
                },
                pointer_target: match m.pointer_target {
                    Some(key) => if key.connection == c {
                        None
                    } else {
                        m.pointer_target
                    },
                    None => None,
                },
                pending_damage: entries_off(m.pending_damage, c),
                shown_damage: entries_off(m.shown_damage, c),
                toplevels: entries_off(m.toplevels, c),
                titles: entries_off(m.titles, c),
                ..m
            },
            m.connection(c).entries.reverse(),
        )
    }
}

/// Queueing an event. A connection with a full queue is not reading: it is told why and closed.
pub open spec fn push_event_step(
    m: CompositorModel,
    c: ConnectionId,
    object: ObjectId,
    kind: EventKind,
) -> CompositorModel {
    if !m.connected(c) {
        m
    } else {
        let conn = m.connection(c);
        if conn.pending_events >= m.limits.max_pending_events {
            close_step(
                m.with_event(
                    Event {
                        connection: c,
                        object_id: ObjectId(DISPLAY_OBJECT),
                        kind: EventKind::Error(
                            StateError::EventQueueOverflow { queued: conn.pending_events },
                        ),
                    },
                ),
                c,
            ).0
        } else {
            m.with_connection(c, conn.with_pending((conn.pending_events + 1) as usize)).with_event(
                Event { connection: c, object_id: object, kind },
            )
        }
    }
}

/// Taking an object out of its connection, telling the client, and then retiring its identifier.
pub open spec fn remove_object_step(m: CompositorModel, c: ConnectionId, id: ObjectId, kind: ObjectKind) -> CompositorModel {
    if !m.has_object(c, id) {
        m
    } else {
        let conn = m.connection(c);
        let removed = m.with_connection(
            c,
            conn.with_objects(conn.entries.remove(conn.at(id)), conn.values.remove(conn.at(id))),
        );
        let told = push_event_step(
            push_event_step(removed, c, id, EventKind::ObjectDestroyed(kind)),
            c,
            id,
            EventKind::IdRetired,
        );
        if told.connected(c) {
            told.with_connection(c, told.connection(c).with_used(told.connection(c).used.remove(id)))
        } else {
            told
        }
    }
}


/// Whether a buffer's state ties it to `key`.
pub open spec fn held_by(state: BufferState, key: SurfaceKey) -> bool {
    match state {
        BufferState::Pending { surface } => surface == key,
        BufferState::CompositorHeld { surface, .. } => surface == key,
        BufferState::Available => false,
    }
}

/// The live objects satisfying `pick`, newest first.
pub open spec fn newest_where(
    entries: Seq<(ObjectId, ObjectKind)>,
    values: Seq<Object>,
    pick: spec_fn(ObjectKind, Object) -> bool,
) -> Seq<ObjectId>
    decreases entries.len(),
{
    if entries.len() == 0 || values.len() == 0 {
        Seq::empty()
    } else {
        let rest = newest_where(entries.drop_first(), values.drop_first(), pick);
        if pick(entries[0].1, values[0]) {
            rest.push(entries[0].0)
        } else {
            rest
        }
    }
}

/// A surface of `session`.
pub open spec fn surface_of_session(kind: ObjectKind, value: Object, session: ObjectId) -> bool {
    kind == ObjectKind::Surface && (value matches Object::Surface(s) && s.session == session)
}

/// A session on `seat`.
pub open spec fn session_on_seat(kind: ObjectKind, value: Object, seat: ObjectId) -> bool {
    kind == ObjectKind::Session && (value matches Object::Session { seat: Some(s), .. } && s == seat)
}

/// A surface that waits on `fence`, pending or shown.
pub open spec fn waits_on_fence(kind: ObjectKind, value: Object, fence: ObjectId) -> bool {
    kind == ObjectKind::Surface && (value matches Object::Surface(s) && (s.pending_fence == Some(fence)
        || (s.current matches Some(content) && content.acquire_fence == Some(fence))))
}

/// What depends on an object of `kind` held under `id`: a seat's sessions, a session's surfaces,
/// and the surfaces that wait on a fence.
pub open spec fn dependent_pick(kind: ObjectKind, id: ObjectId) -> spec_fn(ObjectKind, Object) -> bool {
    |k: ObjectKind, v: Object|
        if kind == ObjectKind::Seat {
            session_on_seat(k, v, id)
        } else if kind == ObjectKind::Session {
            surface_of_session(k, v, id)
        } else {
            waits_on_fence(k, v, id)
        }
}

/// Handing back the buffer at position `i` if it is tied to `key`.
pub open spec fn release_at(m: CompositorModel, c: ConnectionId, key: SurfaceKey, i: int) -> CompositorModel {
    if !m.connected(c) {
        m
    } else {
        let conn = m.connection(c);
        if i < 0 || i >= conn.values.len() || i >= conn.entries.len() {
            m
        } else if conn.entries[i].1 == ObjectKind::Buffer && (conn.values[i] matches Object::Buffer {
            state,
            ..
        } && held_by(state, key)) {
            let descriptor = conn.values[i]->descriptor;
            let source = conn.values[i]->source;
            push_event_step(
                m.with_connection(
                    c,
                    conn.with_objects(
                        conn.entries,
                        conn.values.update(i, Object::Buffer { descriptor, state: BufferState::Available, source }),
                    ),
                ),
                c,
                conn.entries[i].0,
                EventKind::BufferRelease,
            )
        } else {
            m
        }
    }
}

/// Handing back every buffer among the first `n` objects tied to `key`, oldest first.
pub open spec fn release_upto(m: CompositorModel, c: ConnectionId, key: SurfaceKey, n: nat) -> CompositorModel
    decreases n,
{
    if n == 0 {
        m
    } else {
        release_at(release_upto(m, c, key, (n - 1) as nat), c, key, n - 1)
    }
}

/// A surface stripped of what it takes from `buffer`.
pub open spec fn without_buffer(value: Object, buffer: ObjectId) -> Object {
    match value {
        Object::Surface(s) => Object::Surface(
            SurfaceState {
                pending: if (s.pending matches PendingAttachment::Attach(b, _) && b == buffer) {
                    PendingAttachment::Unchanged
                } else {
                    s.pending
                },
                current: if (s.current matches Some(content) && content.buffer == buffer) {
                    None
                } else {
                    s.current
                },
                ..s
            },
        ),
        _ => value,
    }
}

/// Forgetting `buffer` in the first `n` objects.
pub open spec fn forget_buffer_upto(m: CompositorModel, c: ConnectionId, buffer: ObjectId, n: nat) -> CompositorModel
    decreases n,
{
    if n == 0 {
        m
    } else {
        let before = forget_buffer_upto(m, c, buffer, (n - 1) as nat);
        if !before.connected(c) || n - 1 >= before.connection(c).values.len() {
            before
        } else {
            let conn = before.connection(c);
            before.with_connection(
                c,
                conn.with_objects(
                    conn.entries,
                    conn.values.update(n - 1, without_buffer(conn.values[n - 1], buffer)),
                ),
            )
        }
    }
}

/// What goes with a surface: buffers it holds are handed back, it leaves the scene, and it loses
/// keyboard focus, which its client is told.
pub open spec fn surface_teardown(m: CompositorModel, c: ConnectionId, id: ObjectId) -> CompositorModel {
    let key = SurfaceKey { connection: c, object_id: id };
    let released = release_upto(m, c, key, m.connection(c).values.len());
    let unstacked = released.with_stack(without_surface(released.stack, key));
    let unfocused = if unstacked.keyboard_focus == Some(key) {
        push_event_step(unstacked, c, id, EventKind::KeyboardLeave).with_focus(None)
    } else {
        unstacked
    };
    let released_pointer = if unfocused.pointer_target == Some(key) {
        unfocused.with_pointer(None)
    } else {
        unfocused
    };
    CompositorModel {
        pending_damage: entries_without(released_pointer.pending_damage, key),
        shown_damage: entries_without(released_pointer.shown_damage, key),
        ..released_pointer
    }
}

/// Destroying an object and what depends on it: a seat takes its sessions, a session and a
/// fence the surfaces that use them; a surface hands back its buffers and leaves the scene; a
/// buffer is forgotten by the surfaces that named it. `fuel` bounds the nesting, which is at
/// most seat, session, surface.
pub open spec fn destroy_with(m: CompositorModel, c: ConnectionId, id: ObjectId, fuel: nat) -> (
    CompositorModel,
    Seq<(ObjectId, ObjectKind)>,
)
    decreases fuel, 1nat,
{
    if !m.has_object(c, id) {
        (m, Seq::empty())
    } else {
        let conn = m.connection(c);
        let kind = conn.kind_of(id);
        let (cascaded, gone) = if (kind == ObjectKind::Session || kind == ObjectKind::Seat || kind
            == ObjectKind::Fence) && fuel > 0 {
            destroy_all(
                m,
                c,
                newest_where(conn.entries, conn.values, dependent_pick(kind, id)),
                (fuel - 1) as nat,
            )
        } else if kind == ObjectKind::Surface {
            (surface_teardown(m, c, id), Seq::empty())
        } else if kind == ObjectKind::Buffer {
            (forget_buffer_upto(m, c, id, conn.values.len()), Seq::empty())
        } else if kind == ObjectKind::Toplevel {
            (forget_toplevel(m, SurfaceKey { connection: c, object_id: id }), Seq::empty())
        } else {
            (m, Seq::empty())
        };
        if cascaded.has_object(c, id) {
            (remove_object_step(cascaded, c, id, kind), gone.push((id, kind)))
        } else {
            (cascaded, gone)
        }
    }
}

/// Where `titles` keeps the title of `key`, searching from the newest.
pub open spec fn title_at(titles: Seq<(SurfaceKey, Seq<char>)>, key: SurfaceKey) -> Option<int>
    decreases titles.len(),
{
    if titles.len() == 0 {
        None
    } else if titles.last().0 == key {
        Some(titles.len() - 1)
    } else {
        title_at(titles.drop_last(), key)
    }
}

/// A window's handle and title going with it.
pub open spec fn forget_toplevel(m: CompositorModel, key: SurfaceKey) -> CompositorModel {
    CompositorModel {
        toplevels: entries_without(m.toplevels, key),
        titles: match title_at(m.titles, key) {
            Some(i) => m.titles.remove(i),
            None => m.titles,
        },
        ..m
    }
}

/// The title kept for `key`, or the empty title if none is.
pub open spec fn title_of(titles: Seq<(SurfaceKey, Seq<char>)>, key: SurfaceKey) -> Seq<char> {
    match title_at(titles, key) {
        Some(i) => titles[i].1,
        None => Seq::empty(),
    }
}

/// Every live window among the first `n` of `m.toplevels`, in handle order: its handle, where
/// it lives and its title.
pub open spec fn windows_upto(m: CompositorModel, n: nat) -> Seq<(u64, SurfaceKey, Seq<char>)>
    decreases n,
{
    if n == 0 {
        Seq::empty()
    } else {
        let rest = windows_upto(m, (n - 1) as nat);
        let (key, handle) = m.toplevels[n - 1];
        if toplevel_error(m, key.connection, key.object_id) is None {
            rest.push((handle, key, title_of(m.titles, key)))
        } else {
            rest
        }
    }
}

/// Whether connection `conn` has a toplevel for surface `surface`.
pub open spec fn has_toplevel_for(conn: ConnectionModel, surface: ObjectId) -> bool {
    exists|i: int| 0 <= i < conn.values.len() && (#[trigger] conn.values[i] matches Object::Toplevel(t) && t.surface == surface)
}

/// Giving a surface a toplevel. The surface may have one; the window gets the next handle,
/// which is spent even if the object cannot then be made, and starts with an empty title.
pub open spec fn get_toplevel_step(m: CompositorModel, c: ConnectionId, surface: ObjectId, new_id: ObjectId) -> (
    CompositorModel,
    Result<(), StateError>,
) {
    match kind_error(m, c, surface, ObjectKind::Surface) {
        Some(error) => (m, Err(error)),
        None => if has_toplevel_for(m.connection(c), surface) {
            (m, Err(StateError::InvalidState { object_id: surface }))
        } else {
            match quota_error(m, c, ObjectKind::Toplevel) {
                Some(error) => (m, Err(error)),
                None => if m.next_handle == u64::MAX {
                    (m, Err(StateError::QuotaExceeded { object_id: new_id }))
                } else {
                    let handle = m.next_handle;
                    let bumped = CompositorModel { next_handle: (handle + 1) as u64, ..m };
                    let (made, result) = allocate_step(
                        bumped,
                        c,
                        new_id,
                        ObjectKind::Toplevel,
                        Object::Toplevel(ToplevelState { surface, minimum: None, maximum: None, handle }),
                    );
                    match result {
                        Err(error) => (made, Err(error)),
                        Ok(()) => {
                            let key = SurfaceKey { connection: c, object_id: new_id };
                            (
                                CompositorModel {
                                    toplevels: made.toplevels.push((key, handle)),
                                    titles: made.titles.push((key, Seq::empty())),
                                    ..made
                                },
                                Ok(()),
                            )
                        },
                    }
                },
            }
        },
    }
}

/// The error a request naming `toplevel` as a window earns, if any.
pub open spec fn toplevel_error(m: CompositorModel, c: ConnectionId, toplevel: ObjectId) -> Option<StateError> {
    if !m.connected(c) {
        Some(StateError::ConnectionClosed)
    } else if !m.connection(c).holds(toplevel) {
        Some(StateError::InvalidObject { object_id: toplevel })
    } else if !(m.object(c, toplevel) is Toplevel) {
        Some(
            StateError::WrongObjectType {
                object_id: toplevel,
                expected: ObjectKind::Toplevel,
                actual: m.connection(c).kind_of(toplevel),
            },
        )
    } else {
        None
    }
}

/// Setting a window's title.
pub open spec fn set_title_step(m: CompositorModel, c: ConnectionId, toplevel: ObjectId, title: Seq<char>) -> (
    CompositorModel,
    Result<(), StateError>,
) {
    let key = SurfaceKey { connection: c, object_id: toplevel };
    match toplevel_error(m, c, toplevel) {
        Some(error) => (m, Err(error)),
        None => (
            CompositorModel {
                titles: match title_at(m.titles, key) {
                    Some(i) => m.titles.update(i, (key, title)),
                    None => m.titles.push((key, title)),
                },
                ..m
            },
            Ok(()),
        ),
    }
}

/// Setting a window's smallest or largest size.
pub open spec fn set_bound_step(m: CompositorModel, c: ConnectionId, toplevel: ObjectId, size: Size, largest: bool) -> (
    CompositorModel,
    Result<(), StateError>,
) {
    match toplevel_error(m, c, toplevel) {
        Some(error) => (m, Err(error)),
        None => {
            let state = m.object(c, toplevel)->Toplevel_0;
            let bounded = if largest {
                ToplevelState { maximum: Some(size), ..state }
            } else {
                ToplevelState { minimum: Some(size), ..state }
            };
            (m.with_object(c, toplevel, Object::Toplevel(bounded)), Ok(()))
        },
    }
}

/// Asking a window to close; it goes when its client destroys it.
pub open spec fn close_toplevel_step(m: CompositorModel, c: ConnectionId, toplevel: ObjectId) -> (
    CompositorModel,
    Result<(), StateError>,
) {
    match kind_error(m, c, toplevel, ObjectKind::Toplevel) {
        Some(error) => (m, Err(error)),
        None => (push_event_step(m, c, toplevel, EventKind::Close), Ok(())),
    }
}

/// Destroying each of `ids` in turn.
pub open spec fn destroy_all(m: CompositorModel, c: ConnectionId, ids: Seq<ObjectId>, fuel: nat) -> (
    CompositorModel,
    Seq<(ObjectId, ObjectKind)>,
)
    decreases fuel, ids.len() + 2,
{
    if ids.len() == 0 {
        (m, Seq::empty())
    } else {
        let (before, gone) = destroy_all(m, c, ids.drop_last(), fuel);
        let (after, more) = destroy_with(before, c, ids.last(), fuel);
        (after, gone + more)
    }
}

/// Destroying an object with everything that depends on it.
pub open spec fn destroy_step(m: CompositorModel, c: ConnectionId, id: ObjectId) -> (
    CompositorModel,
    Seq<(ObjectId, ObjectKind)>,
) {
    destroy_with(m, c, id, 3)
}


/// The capability a buffer's transport needs.
pub open spec fn transport_capability(transport: BufferTransport) -> Capability {
    match transport {
        BufferTransport::SoftwareShm => Capability::SoftwareShm,
        BufferTransport::GpuPrime => Capability::GpuPrime,
    }
}

/// The error a request on `c` naming `id` earns when `c` lacks `capability`.
pub open spec fn lacks(m: CompositorModel, c: ConnectionId, id: ObjectId, capability: Capability) -> Option<StateError> {
    if !m.connected(c) {
        Some(StateError::ConnectionClosed)
    } else if !m.connection(c).capabilities.has(capability) {
        Some(StateError::UnsupportedCapability { object_id: id, capability })
    } else {
        None
    }
}

/// The error a request naming `id` as an object of `expected` kind earns, if any.
pub open spec fn kind_error(m: CompositorModel, c: ConnectionId, id: ObjectId, expected: ObjectKind) -> Option<StateError> {
    if !m.connected(c) {
        Some(StateError::ConnectionClosed)
    } else if !m.connection(c).holds(id) {
        Some(StateError::InvalidObject { object_id: id })
    } else if m.connection(c).kind_of(id) != expected {
        Some(
            StateError::WrongObjectType {
                object_id: id,
                expected,
                actual: m.connection(c).kind_of(id),
            },
        )
    } else {
        None
    }
}

/// The error a request naming a surface earns, if any: it must be a live surface.
pub open spec fn surface_error(m: CompositorModel, c: ConnectionId, id: ObjectId) -> Option<StateError> {
    match kind_error(m, c, id, ObjectKind::Surface) {
        Some(error) => Some(error),
        None => if m.object(c, id) is Surface {
            None
        } else {
            Some(StateError::InvalidState { object_id: id })
        },
    }
}

/// The state of surface `id`, once [`surface_error`] has passed.
pub open spec fn surface_of(m: CompositorModel, c: ConnectionId, id: ObjectId) -> SurfaceState {
    m.object(c, id)->Surface_0
}

/// Whether a session is active, on an active seat if it has one; the error if not.
pub open spec fn session_error(m: CompositorModel, c: ConnectionId, session: ObjectId) -> Option<StateError> {
    match kind_error(m, c, session, ObjectKind::Session) {
        Some(error) => Some(error),
        None => match m.object(c, session) {
            Object::Session { seat, active } => if !active {
                Some(StateError::InvalidState { object_id: session })
            } else {
                match seat {
                    None => None,
                    Some(seat_id) => match kind_error(m, c, seat_id, ObjectKind::Seat) {
                        Some(error) => Some(error),
                        None => match m.object(c, seat_id) {
                            Object::Seat { active: seat_active, .. } => if !seat_active {
                                Some(StateError::InvalidState { object_id: session })
                            } else {
                                None
                            },
                            _ => Some(StateError::InvalidState { object_id: seat_id }),
                        },
                    },
                }
            },
            _ => Some(StateError::InvalidState { object_id: session }),
        },
    }
}

/// How many live objects of `kind` one connection may hold.
pub open spec fn kind_limit(limits: ConnectionLimits, kind: ObjectKind) -> usize {
    match kind {
        ObjectKind::Surface => limits.max_surfaces,
        ObjectKind::Buffer => if limits.max_buffers <= limits.max_imported_handles {
            limits.max_buffers
        } else {
            limits.max_imported_handles
        },
        ObjectKind::ShmPool => limits.max_imported_handles,
        ObjectKind::Toplevel => limits.max_surfaces,
        _ => limits.max_objects,
    }
}

/// The error creating another object of `kind` on `c` earns, if any.
pub open spec fn quota_error(m: CompositorModel, c: ConnectionId, kind: ObjectKind) -> Option<StateError> {
    if !m.connected(c) {
        Some(StateError::ConnectionClosed)
    } else if m.connection(c).count_kind(kind) >= kind_limit(m.limits, kind) {
        Some(StateError::QuotaExceeded { object_id: ObjectId(DISPLAY_OBJECT) })
    } else {
        None
    }
}

/// Creating an object under a client-chosen identifier on a connection.
pub open spec fn allocate_step(
    m: CompositorModel,
    c: ConnectionId,
    id: ObjectId,
    kind: ObjectKind,
    value: Object,
) -> (CompositorModel, Result<(), StateError>) {
    let conn = m.connection(c);
    if !m.connected(c) {
        (m, Err(StateError::ConnectionClosed))
    } else if conn.entries.len() >= m.limits.max_objects {
        (m, Err(StateError::QuotaExceeded { object_id: id }))
    } else if !client_allocatable(id) {
        (m, Err(StateError::InvalidObjectId { object_id: id }))
    } else if conn.used.contains(id) {
        (m, Err(StateError::ObjectIdAlreadyUsed { object_id: id }))
    } else {
        (
            m.with_connection(
                c,
                conn.with_objects(conn.entries.push((id, kind)), conn.values.push(value)).with_used(
                    conn.used.insert(id),
                ),
            ),
            Ok(()),
        )
    }
}

/// A surface as created: in the connection's session, with no role, nothing pending and
/// nothing shown.
pub open spec fn fresh_surface(session: ObjectId) -> SurfaceState {
    SurfaceState {
        session,
        role: None,
        pending: PendingAttachment::Unchanged,
        pending_fence: None,
        pending_refresh: None,
        frame_requested: false,
        frame_serial: 0,
        deadline_misses: 0,
        current: None,
        position: None,
    }
}

/// Creating a surface in the connection's session.
pub open spec fn create_surface_step(m: CompositorModel, c: ConnectionId, new_id: ObjectId) -> (
    CompositorModel,
    Result<(), StateError>,
) {
    match lacks(m, c, new_id, Capability::SurfaceCreate) {
        Some(error) => (m, Err(error)),
        None => match m.connection(c).session {
            None => (m, Err(StateError::InvalidState { object_id: new_id })),
            Some(session) => match session_error(m, c, session) {
                Some(error) => (m, Err(error)),
                None => match quota_error(m, c, ObjectKind::Surface) {
                    Some(error) => (m, Err(error)),
                    None => allocate_step(
                        m,
                        c,
                        new_id,
                        ObjectKind::Surface,
                        Object::Surface(fresh_surface(session)),
                    ),
                },
            },
        },
    }
}

/// Taking in a buffer a backend has already resolved.
pub open spec fn import_buffer_step(
    m: CompositorModel,
    c: ConnectionId,
    new_id: ObjectId,
    descriptor: BufferDescriptor,
) -> (CompositorModel, Result<(), StateError>) {
    match lacks(m, c, new_id, Capability::BufferImport) {
        Some(error) => (m, Err(error)),
        None => match lacks(m, c, new_id, transport_capability(descriptor.transport)) {
            Some(error) => (m, Err(error)),
            None => if !descriptor_is_valid(descriptor) {
                (m, Err(StateError::InvalidState { object_id: new_id }))
            } else {
                match quota_error(m, c, ObjectKind::Buffer) {
                    Some(error) => (m, Err(error)),
                    None => allocate_step(
                        m,
                        c,
                        new_id,
                        ObjectKind::Buffer,
                        Object::Buffer { descriptor, state: BufferState::Available, source: None },
                    ),
                }
            },
        }
    }
}

/// Handing over memory for a pool. Pools count against the connection's allowance of handed-over
/// resources.
pub open spec fn create_pool_step(m: CompositorModel, c: ConnectionId, new_id: ObjectId, memory: SharedMemory) -> (
    CompositorModel,
    Result<(), StateError>,
) {
    match lacks(m, c, new_id, Capability::BufferImport) {
        Some(error) => (m, Err(error)),
        None => match quota_error(m, c, ObjectKind::ShmPool) {
            Some(error) => (m, Err(error)),
            None => allocate_step(m, c, new_id, ObjectKind::ShmPool, Object::ShmPool(memory)),
        },
    }
}

/// The descriptor of a shared-memory buffer of `size` rows of `stride` bytes.
pub open spec fn pool_descriptor(size: Size, stride: u32) -> BufferDescriptor {
    BufferDescriptor {
        transport: BufferTransport::SoftwareShm,
        size,
        stride,
        byte_len: (stride * size.height) as u64,
    }
}

/// Whether the protocol names this pixel format.
pub open spec fn format_known(format: u32) -> bool {
    format == FORMAT_XRGB8888 || format == FORMAT_ARGB8888 || format == FORMAT_RGB565
}

/// Carving a buffer out of a pool. The pool must be one; the buffer must be structurally valid,
/// in a known format, and lie wholly inside the pool's memory.
pub open spec fn create_buffer_step(
    m: CompositorModel,
    c: ConnectionId,
    new_id: ObjectId,
    pool: ObjectId,
    offset: u32,
    size: Size,
    stride: u32,
    format: u32,
) -> (CompositorModel, Result<(), StateError>) {
    match lacks(m, c, new_id, Capability::BufferImport) {
        Some(error) => (m, Err(error)),
        None => if !m.has_object(c, pool) {
            (m, Err(StateError::InvalidObject { object_id: pool }))
        } else {
            match m.object(c, pool) {
                Object::ShmPool(memory) => {
                    let descriptor = pool_descriptor(size, stride);
                    if !descriptor_is_valid(descriptor) || !format_known(format) {
                        (m, Err(StateError::InvalidState { object_id: new_id }))
                    } else if offset + descriptor.byte_len > memory.spec_size() {
                        (m, Err(StateError::InvalidState { object_id: new_id }))
                    } else {
                        match quota_error(m, c, ObjectKind::Buffer) {
                            Some(error) => (m, Err(error)),
                            None => allocate_step(
                                m,
                                c,
                                new_id,
                                ObjectKind::Buffer,
                                Object::Buffer {
                                    descriptor,
                                    state: BufferState::Available,
                                    source: Some(BufferSource { memory, offset, descriptor }),
                                },
                            ),
                        }
                    }
                },
                _ => (
                    m,
                    Err(
                        StateError::WrongObjectType {
                            object_id: pool,
                            expected: ObjectKind::ShmPool,
                            actual: m.connection(c).kind_of(pool),
                        },
                    ),
                ),
            }
        },
    }
}

/// Attaching a buffer, or nothing, for the next commit. A second attach before that commit is
/// refused; a fence needs the explicit-fence capability.
pub open spec fn attach_step(
    m: CompositorModel,
    c: ConnectionId,
    surface: ObjectId,
    buffer: ObjectId,
    offset: Point,
    acquire_fence: Option<ObjectId>,
) -> (CompositorModel, Result<(), StateError>) {
    let key = SurfaceKey { connection: c, object_id: surface };
    match kind_error(m, c, surface, ObjectKind::Surface) {
        Some(error) => (m, Err(error)),
        None => match surface_error(m, c, surface) {
            Some(error) => (m, Err(error)),
            None => {
                let state = surface_of(m, c, surface);
                if state.pending != PendingAttachment::Unchanged {
                    (m, Err(StateError::InvalidState { object_id: surface }))
                } else if buffer.0 == NULL_OBJECT {
                    if acquire_fence is Some {
                        (m, Err(StateError::InvalidState { object_id: surface }))
                    } else {
                        (
                            m.with_object(
                                c,
                                surface,
                                Object::Surface(SurfaceState { pending: PendingAttachment::Detach, ..state }),
                            ),
                            Ok(()),
                        )
                    }
                } else {
                    match kind_error(m, c, buffer, ObjectKind::Buffer) {
                        Some(error) => (m, Err(error)),
                        None => {
                            let fence_error = match acquire_fence {
                                None => None,
                                Some(fence) => match lacks(m, c, surface, Capability::ExplicitGpuFence) {
                                    Some(error) => Some(error),
                                    None => kind_error(m, c, fence, ObjectKind::Fence),
                                },
                            };
                            match fence_error {
                                Some(error) => (m, Err(error)),
                                None => match m.object(c, buffer) {
                                    Object::Buffer { descriptor, state: buffer_state, source } => if buffer_state
                                        != BufferState::Available {
                                        (m, Err(StateError::InvalidState { object_id: buffer }))
                                    } else {
                                        let held = m.with_object(
                                            c,
                                            buffer,
                                            Object::Buffer {
                                                descriptor,
                                                state: BufferState::Pending { surface: key },
                                                source,
                                            },
                                        );
                                        (
                                            held.with_object(
                                                c,
                                                surface,
                                                Object::Surface(
                                                    SurfaceState {
                                                        pending: PendingAttachment::Attach(buffer, offset),
                                                        pending_fence: acquire_fence,
                                                        ..state
                                                    },
                                                ),
                                            ),
                                            Ok(()),
                                        )
                                    },
                                    _ => (m, Err(StateError::InvalidState { object_id: buffer })),
                                },
                            }
                        },
                    }
                }
            },
        },
    }
}

/// Setting a buffer's state; the errors a request naming a non-buffer earns.
pub open spec fn set_buffer_state_step(m: CompositorModel, c: ConnectionId, buffer: ObjectId, state: BufferState) -> (
    CompositorModel,
    Result<(), StateError>,
) {
    match kind_error(m, c, buffer, ObjectKind::Buffer) {
        Some(error) => (m, Err(error)),
        None => match m.object(c, buffer) {
            Object::Buffer { descriptor, source, .. } => (
                m.with_object(c, buffer, Object::Buffer { descriptor, state, source }),
                Ok(()),
            ),
            _ => (m, Err(StateError::InvalidState { object_id: buffer })),
        },
    }
}

/// Putting a surface that has content into the scene: at its place, or the origin if it has
/// none, on top, unless it is there already.
pub open spec fn map_step(m: CompositorModel, c: ConnectionId, surface: ObjectId) -> CompositorModel {
    let key = SurfaceKey { connection: c, object_id: surface };
    if m.stack.contains(key) {
        m
    } else {
        let state = surface_of(m, c, surface);
        let placed = if state.position is Some {
            m
        } else {
            m.with_object(
                c,
                surface,
                Object::Surface(SurfaceState { position: Some(Point { x: 0, y: 0 }), ..state }),
            )
        };
        placed.with_stack(placed.stack.push(key))
    }
}

/// A surface with nothing pending.
pub open spec fn cleared(state: SurfaceState) -> SurfaceState {
    SurfaceState { pending: PendingAttachment::Unchanged, pending_fence: None, pending_refresh: None, ..state }
}

/// A surface whose pending state a commit with content has taken up, frame request included.
pub open spec fn taken_up(state: SurfaceState) -> SurfaceState {
    SurfaceState { frame_requested: false, ..cleared(state) }
}

/// The refresh range a commit leaves in force.
pub open spec fn refresh_after(state: SurfaceState) -> Option<RefreshRange> {
    match state.pending_refresh {
        Some(range) => Some(range),
        None => match state.current {
            Some(content) => content.refresh_range,
            None => None,
        },
    }
}

/// Committing a surface. What it shows next is what was attached, or what it already showed
/// when nothing was; a null attach takes its content away, hands its buffer back and takes it
/// out of the scene. Content is numbered by commit, and the buffer shown is held by the
/// compositor under that number.
pub open spec fn commit_core(m: CompositorModel, c: ConnectionId, surface: ObjectId) -> (
    CompositorModel,
    Result<(), StateError>,
) {
    let key = SurfaceKey { connection: c, object_id: surface };
    if m.next_commit == u64::MAX {
        (m, Err(StateError::QuotaExceeded { object_id: surface }))
    } else {
        match surface_error(m, c, surface) {
            Some(error) => (m, Err(error)),
            None => {
                let state = surface_of(m, c, surface);
                match state.pending {
                    PendingAttachment::Detach => match state.current {
                        None => (m.with_object(c, surface, Object::Surface(cleared(state))), Ok(())),
                        Some(content) => {
                            let (released, result) = set_buffer_state_step(
                                m,
                                c,
                                content.buffer,
                                BufferState::Available,
                            );
                            match result {
                                Err(error) => (released, Err(error)),
                                Ok(()) => {
                                    let told = push_event_step(
                                        released,
                                        c,
                                        content.buffer,
                                        EventKind::BufferRelease,
                                    );
                                    match surface_error(told, c, surface) {
                                        Some(error) => (told, Err(error)),
                                        None => {
                                            let now = surface_of(told, c, surface);
                                            let gone = told.with_object(
                                                c,
                                                surface,
                                                Object::Surface(SurfaceState { current: None, ..now }),
                                            );
                                            let unstacked = gone.with_stack(without_surface(gone.stack, key));
                                            (
                                                unstacked.with_object(
                                                    c,
                                                    surface,
                                                    Object::Surface(
                                                        cleared(surface_of(unstacked, c, surface)),
                                                    ),
                                                ),
                                                Ok(()),
                                            )
                                        },
                                    }
                                },
                            }
                        },
                    },
                    _ => {
                        let carried = match state.pending {
                            PendingAttachment::Attach(buffer, offset) => Some((buffer, offset)),
                            _ => match state.current {
                                Some(content) => Some((content.buffer, content.offset)),
                                None => None,
                            },
                        };
                        match carried {
                            None => (m.with_object(c, surface, Object::Surface(cleared(state))), Ok(())),
                            Some((buffer, offset)) => {
                                let commit = CommitId(m.next_commit);
                                let taken = CompositorModel {
                                    next_commit: (m.next_commit + 1) as u64,
                                    ..m.with_object(c, surface, Object::Surface(taken_up(state)))
                                };
                                let (held, result) = set_buffer_state_step(
                                    taken,
                                    c,
                                    buffer,
                                    BufferState::CompositorHeld { surface: key, commit },
                                );
                                match result {
                                    Err(error) => (held, Err(error)),
                                    Ok(()) => {
                                        let now = surface_of(held, c, surface);
                                        let shown = held.with_object(
                                            c,
                                            surface,
                                            Object::Surface(
                                                SurfaceState {
                                                    current: Some(
                                                        SurfaceContent {
                                                            buffer,
                                                            offset,
                                                            commit,
                                                            acquire_fence: state.pending_fence,
                                                            refresh_range: refresh_after(state),
                                                            frame_callback: state.frame_requested,
                                                            frame_serial: state.frame_serial,
                                                        },
                                                    ),
                                                    ..now
                                                },
                                            ),
                                        );
                                        (map_step(shown, c, surface), Ok(()))
                                    },
                                }
                            },
                        }
                    },
                }
            },
        }
    }
}

/// Committing a surface: [`commit_core`], after which the damage staged for it is taken up. When
/// the surface shows content, that content carries the staged rectangles, or the whole buffer if
/// none were staged; when it shows nothing, it carries no damage.
pub open spec fn commit_step(m: CompositorModel, c: ConnectionId, surface: ObjectId) -> (
    CompositorModel,
    Result<(), StateError>,
) {
    let (after, result) = commit_core(m, c, surface);
    match result {
        Err(error) => (after, Err(error)),
        Ok(()) => (settle_damage(after, SurfaceKey { connection: c, object_id: surface }), Ok(())),
    }
}

/// Taking up the damage staged for `key` at a commit.
pub open spec fn settle_damage(m: CompositorModel, key: SurfaceKey) -> CompositorModel {
    let kept = entries_without(m.shown_damage, key);
    let shows = surface_error(m, key.connection, key.object_id) is None && surface_of(
        m,
        key.connection,
        key.object_id,
    ).current is Some;
    CompositorModel {
        pending_damage: entries_without(m.pending_damage, key),
        shown_damage: if shows {
            kept + committed_damage(key, entries_for(m.pending_damage, key))
        } else {
            kept
        },
        ..m
    }
}

/// Staging damage for the next commit. An empty rectangle is refused, and so is one past the
/// per-commit allowance.
pub open spec fn damage_step(m: CompositorModel, c: ConnectionId, surface: ObjectId, rect: Rect) -> (
    CompositorModel,
    Result<(), StateError>,
) {
    let key = SurfaceKey { connection: c, object_id: surface };
    if rect.width == 0 || rect.height == 0 {
        (m, Err(StateError::InvalidState { object_id: surface }))
    } else {
        match surface_error(m, c, surface) {
            Some(error) => (m, Err(error)),
            None => if entries_for(m.pending_damage, key).len() >= m.limits.max_damage_rects_per_commit {
                (m, Err(StateError::QuotaExceeded { object_id: surface }))
            } else {
                (CompositorModel { pending_damage: m.pending_damage.push((key, rect)), ..m }, Ok(()))
            },
        }
    }
}

/// Asking for a frame event. One request may be outstanding: a second before a commit takes the
/// first up is refused.
pub open spec fn request_frame_step(m: CompositorModel, c: ConnectionId, surface: ObjectId, serial: u32) -> (
    CompositorModel,
    Result<(), StateError>,
) {
    match surface_error(m, c, surface) {
        Some(error) => (m, Err(error)),
        None => {
            let state = surface_of(m, c, surface);
            if state.frame_requested {
                (m, Err(StateError::InvalidState { object_id: surface }))
            } else {
                (
                    m.with_object(
                        c,
                        surface,
                        Object::Surface(SurfaceState { frame_requested: true, frame_serial: serial, ..state }),
                    ),
                    Ok(()),
                )
            }
        },
    }
}

/// Setting the refresh range the next commit asks for. The range must be non-empty and start
/// above zero; that is checked before the surface is looked at.
pub open spec fn set_refresh_range_step(
    m: CompositorModel,
    c: ConnectionId,
    surface: ObjectId,
    min_hz: u32,
    max_hz: u32,
) -> (CompositorModel, Result<(), StateError>) {
    if min_hz == 0 || min_hz > max_hz {
        (m, Err(StateError::InvalidState { object_id: surface }))
    } else {
        match surface_error(m, c, surface) {
            Some(error) => (m, Err(error)),
            None => (
                m.with_object(
                    c,
                    surface,
                    Object::Surface(
                        SurfaceState { pending_refresh: Some(RefreshRange { min_hz, max_hz }), ..surface_of(m, c, surface) },
                    ),
                ),
                Ok(()),
            ),
        }
    }
}

/// Giving a surface a role. A surface takes one role; asking again for the same one is fine.
pub open spec fn set_role_step(m: CompositorModel, c: ConnectionId, surface: ObjectId, role: SurfaceRole) -> (
    CompositorModel,
    Result<(), StateError>,
) {
    match surface_error(m, c, surface) {
        Some(error) => (m, Err(error)),
        None => {
            let state = surface_of(m, c, surface);
            match state.role {
                None => (
                    m.with_object(c, surface, Object::Surface(SurfaceState { role: Some(role), ..state })),
                    Ok(()),
                ),
                Some(existing) => if existing == role {
                    (m, Ok(()))
                } else {
                    (m, Err(StateError::InvalidState { object_id: surface }))
                },
            }
        },
    }
}


/// Destroying, newest first, each of `ids` that needs `capability` at the time it is reached.
pub open spec fn revoke_all(m: CompositorModel, c: ConnectionId, ids: Seq<ObjectId>, capability: Capability) -> (
    CompositorModel,
    Seq<(ObjectId, ObjectKind)>,
)
    decreases ids.len(),
{
    if ids.len() == 0 {
        (m, Seq::empty())
    } else {
        let (before, gone) = revoke_all(m, c, ids.drop_last(), capability);
        if requires_capability(before, c, ids.last(), capability) {
            let (after, more) = destroy_step(before, c, ids.last());
            (after, gone + more)
        } else {
            (before, gone)
        }
    }
}

/// Whether the object `c` holds under `id` exists only by virtue of `capability`.
pub open spec fn requires_capability(m: CompositorModel, c: ConnectionId, id: ObjectId, capability: Capability) -> bool {
    if !m.has_object(c, id) {
        false
    } else {
        let kind = m.connection(c).kind_of(id);
        ||| (kind == ObjectKind::Surface && capability == Capability::SurfaceCreate)
        ||| (kind == ObjectKind::Buffer && capability == Capability::BufferImport)
        ||| (kind == ObjectKind::Fence && capability == Capability::ExplicitGpuFence)
        ||| (kind == ObjectKind::InputStream && capability == Capability::ExtendedInput)
        ||| (kind == ObjectKind::Session && capability == Capability::PrivilegedSession)
        ||| (kind == ObjectKind::Seat && capability == Capability::RevocableSeat)
        ||| (kind == ObjectKind::Buffer && (m.object(c, id) matches Object::Buffer { descriptor, .. }
            && transport_capability(descriptor.transport) == capability))
    }
}

/// Revoking a capability: it goes, the connection is told, and then every object that needed
/// it is destroyed, newest first, with what depends on it.
pub open spec fn revoke_step(m: CompositorModel, c: ConnectionId, capability: Capability) -> (
    CompositorModel,
    Result<Seq<(ObjectId, ObjectKind)>, StateError>,
) {
    if !m.connected(c) {
        (m, Err(StateError::ConnectionClosed))
    } else {
        let conn = m.connection(c);
        let ids = conn.entries.reverse().map_values(|entry: (ObjectId, ObjectKind)| entry.0);
        let told = push_event_step(
            m.with_connection(c, conn.with_capabilities(conn.capabilities.removed(capability))),
            c,
            ObjectId(DISPLAY_OBJECT),
            EventKind::CapabilityRevoked(capability),
        );
        let (after, gone) = revoke_all(told, c, ids, capability);
        (after, Ok(gone))
    }
}

/// Recording a grant: only something the connection could be offered can be granted.
pub open spec fn grant_step(m: CompositorModel, c: ConnectionId, capability: Capability) -> (
    CompositorModel,
    Result<(), StateError>,
) {
    if !m.connected(c) {
        (m, Err(StateError::ConnectionClosed))
    } else if !m.connection(c).available.has(capability) {
        (
            m,
            Err(
                StateError::UnsupportedCapability { object_id: ObjectId(DISPLAY_OBJECT), capability },
            ),
        )
    } else {
        (
            m.with_connection(
                c,
                m.connection(c).with_capabilities(m.connection(c).capabilities.added(capability)),
            ),
            Ok(()),
        )
    }
}

/// Adding a seat a platform authority has vouched for.
pub open spec fn create_seat_step(
    m: CompositorModel,
    c: ConnectionId,
    id: ObjectId,
    capabilities: SeatCapabilities,
    active: bool,
) -> (CompositorModel, Result<(), StateError>) {
    allocate_step(m, c, id, ObjectKind::Seat, Object::Seat { capabilities, active })
}

/// Adding the connection's one session, on a seat it holds if it names one.
pub open spec fn create_session_step(
    m: CompositorModel,
    c: ConnectionId,
    id: ObjectId,
    seat: Option<ObjectId>,
    active: bool,
) -> (CompositorModel, Result<(), StateError>) {
    let seat_error = match seat {
        Some(seat_id) => kind_error(m, c, seat_id, ObjectKind::Seat),
        None => None,
    };
    match seat_error {
        Some(error) => (m, Err(error)),
        None => if !m.connected(c) {
            (m, Err(StateError::ConnectionClosed))
        } else if m.connection(c).session is Some {
            (m, Err(StateError::InvalidState { object_id: id }))
        } else {
            let (made, result) = allocate_step(
                m,
                c,
                id,
                ObjectKind::Session,
                Object::Session { seat, active },
            );
            match result {
                Err(error) => (made, Err(error)),
                Ok(()) => (made.with_connection(c, made.connection(c).with_session(Some(id))), Ok(())),
            }
        },
    }
}

/// Adding an explicit-synchronization fence, unsignalled.
pub open spec fn create_fence_step(m: CompositorModel, c: ConnectionId, id: ObjectId) -> (
    CompositorModel,
    Result<(), StateError>,
) {
    match lacks(m, c, id, Capability::ExplicitGpuFence) {
        Some(error) => (m, Err(error)),
        None => allocate_step(m, c, id, ObjectKind::Fence, Object::Fence { signaled: false }),
    }
}

/// Signalling a fence.
pub open spec fn signal_fence_step(m: CompositorModel, c: ConnectionId, fence: ObjectId) -> (
    CompositorModel,
    Result<(), StateError>,
) {
    match kind_error(m, c, fence, ObjectKind::Fence) {
        Some(error) => (m, Err(error)),
        None => match m.object(c, fence) {
            Object::Fence { .. } => (m.with_object(c, fence, Object::Fence { signaled: true }), Ok(())),
            _ => (m, Err(StateError::InvalidState { object_id: fence })),
        },
    }
}

/// Switching a seat on or off.
pub open spec fn set_seat_active_step(m: CompositorModel, c: ConnectionId, seat: ObjectId, active: bool) -> (
    CompositorModel,
    Result<(), StateError>,
) {
    match kind_error(m, c, seat, ObjectKind::Seat) {
        Some(error) => (m, Err(error)),
        None => match m.object(c, seat) {
            Object::Seat { capabilities, .. } => (
                m.with_object(c, seat, Object::Seat { capabilities, active }),
                Ok(()),
            ),
            _ => (m, Err(StateError::InvalidState { object_id: seat })),
        },
    }
}

/// Changing what a seat offers.
pub open spec fn set_seat_capabilities_step(
    m: CompositorModel,
    c: ConnectionId,
    seat: ObjectId,
    capabilities: SeatCapabilities,
) -> (CompositorModel, Result<(), StateError>) {
    match kind_error(m, c, seat, ObjectKind::Seat) {
        Some(error) => (m, Err(error)),
        None => match m.object(c, seat) {
            Object::Seat { active, .. } => (
                m.with_object(c, seat, Object::Seat { capabilities, active }),
                Ok(()),
            ),
            _ => (m, Err(StateError::InvalidState { object_id: seat })),
        },
    }
}

/// Whether `key` names a live surface of `session`'s on connection `c`.
pub open spec fn shown_for_session(m: CompositorModel, key: SurfaceKey, c: ConnectionId, session: ObjectId) -> bool {
    &&& key.connection == c
    &&& surface_error(m, key.connection, key.object_id) is None
    &&& surface_of(m, key.connection, key.object_id).session == session
}

/// Activating or deactivating a session. Deactivating it takes keyboard focus and the pointer
/// from its surfaces; losing focus is told to the surface and reported to the caller.
pub open spec fn set_session_active_step(m: CompositorModel, c: ConnectionId, session: ObjectId, active: bool) -> (
    CompositorModel,
    Result<Seq<FocusEvent>, StateError>,
) {
    match kind_error(m, c, session, ObjectKind::Session) {
        Some(error) => (m, Err(error)),
        None => match m.object(c, session) {
            Object::Session { seat, .. } => {
                let set = m.with_object(c, session, Object::Session { seat, active });
                if active {
                    (set, Ok(Seq::empty()))
                } else {
                    let (unfocused, told) = match set.keyboard_focus {
                        Some(key) => if shown_for_session(set, key, c, session) {
                            (
                                push_event_step(set, key.connection, key.object_id, EventKind::KeyboardLeave).with_focus(
                                    None,
                                ),
                                seq![FocusEvent::KeyboardLeave(key)],
                            )
                        } else {
                            (set, Seq::empty())
                        },
                        None => (set, Seq::empty()),
                    };
                    let released = match unfocused.pointer_target {
                        Some(key) => if shown_for_session(unfocused, key, c, session) {
                            unfocused.with_pointer(None)
                        } else {
                            unfocused
                        },
                        None => unfocused,
                    };
                    (released, Ok(told))
                }
            },
            _ => (m, Err(StateError::InvalidState { object_id: session })),
        },
    }
}

/// Handing back the buffer at position `i` if the compositor holds it for `key` under a commit
/// older than `commit`.
pub open spec fn release_older_at(m: CompositorModel, key: SurfaceKey, commit: CommitId, i: int) -> CompositorModel {
    let c = key.connection;
    if !m.connected(c) {
        m
    } else {
        let conn = m.connection(c);
        if i < 0 || i >= conn.values.len() || i >= conn.entries.len() {
            m
        } else if conn.entries[i].1 == ObjectKind::Buffer && (conn.values[i] matches Object::Buffer {
            state: BufferState::CompositorHeld { surface, commit: held },
            ..
        } && surface == key && held.0 < commit.0) {
            let descriptor = conn.values[i]->descriptor;
            let source = conn.values[i]->source;
            push_event_step(
                m.with_connection(
                    c,
                    conn.with_objects(
                        conn.entries,
                        conn.values.update(i, Object::Buffer { descriptor, state: BufferState::Available, source }),
                    ),
                ),
                c,
                conn.entries[i].0,
                EventKind::BufferRelease,
            )
        } else {
            m
        }
    }
}

/// Handing back, among the first `n` objects, every buffer held for `key` under an older commit.
pub open spec fn release_older_upto(m: CompositorModel, key: SurfaceKey, commit: CommitId, n: nat) -> CompositorModel
    decreases n,
{
    if n == 0 {
        m
    } else {
        release_older_at(release_older_upto(m, key, commit, (n - 1) as nat), key, commit, n - 1)
    }
}

/// After a present has handed buffers back: the frame event the content owes, if it owes one, and
/// the surface looked at again, which fails if telling the client closed its connection.
pub open spec fn frame_done_step(m: CompositorModel, key: SurfaceKey, content: SurfaceContent, timestamp_ns: u64) -> (
    CompositorModel,
    Result<CommitId, StateError>,
) {
    let c = key.connection;
    let id = key.object_id;
    if content.frame_callback {
        let told = push_event_step(
            m,
            c,
            id,
            EventKind::FrameDone { serial: content.frame_serial, timestamp_ns },
        );
        match surface_error(told, c, id) {
            Some(error) => (told, Err(error)),
            None => {
                let now = surface_of(told, c, id);
                let current = match now.current {
                    Some(shown) => Some(SurfaceContent { frame_callback: false, ..shown }),
                    None => None,
                };
                (
                    told.with_object(c, id, Object::Surface(SurfaceState { current, deadline_misses: 0, ..now })),
                    Ok(content.commit),
                )
            },
        }
    } else {
        match surface_error(m, c, id) {
            Some(error) => (m, Err(error)),
            None => (
                m.with_object(c, id, Object::Surface(SurfaceState { deadline_misses: 0, ..surface_of(m, c, id) })),
                Ok(content.commit),
            ),
        }
    }
}

/// Recording that a surface missed its presentation deadline. The second miss in a row, and
/// only the second, tells the client its frames are late.
pub open spec fn deadline_miss_step(m: CompositorModel, key: SurfaceKey) -> (
    CompositorModel,
    Result<(), StateError>,
) {
    let c = key.connection;
    let id = key.object_id;
    match surface_error(m, c, id) {
        Some(error) => (m, Err(error)),
        None => {
            let state = surface_of(m, c, id);
            let misses: u8 = if state.deadline_misses == u8::MAX {
                u8::MAX
            } else {
                (state.deadline_misses + 1) as u8
            };
            let counted = m.with_object(c, id, Object::Surface(SurfaceState { deadline_misses: misses, ..state }));
            if misses == 2 {
                (push_event_step(counted, c, id, EventKind::FrameLate), Ok(()))
            } else {
                (counted, Ok(()))
            }
        },
    }
}

/// Marking a surface's current commit presented. It must have content, and a fence it waits on
/// must have been signalled; the buffers it showed under older commits go back to the client,
/// and a frame event asked for with this content is sent, stamped with `timestamp_ns`.
pub open spec fn present_step(m: CompositorModel, key: SurfaceKey, timestamp_ns: u64) -> (
    CompositorModel,
    Result<CommitId, StateError>,
) {
    let c = key.connection;
    let id = key.object_id;
    match surface_error(m, c, id) {
        Some(error) => (m, Err(error)),
        None => match surface_of(m, c, id).current {
            None => (m, Err(StateError::InvalidState { object_id: id })),
            Some(content) => {
                let fence_error = match content.acquire_fence {
                    None => None,
                    Some(fence) => match kind_error(m, c, fence, ObjectKind::Fence) {
                        Some(error) => Some(error),
                        None => match m.object(c, fence) {
                            Object::Fence { signaled } => if signaled {
                                None
                            } else {
                                Some(StateError::InvalidState { object_id: id })
                            },
                            _ => Some(StateError::InvalidState { object_id: fence }),
                        },
                    },
                };
                match fence_error {
                    Some(error) => (m, Err(error)),
                    None => frame_done_step(
                        release_older_upto(m, key, content.commit, m.connection(c).values.len()),
                        key,
                        content,
                        timestamp_ns,
                    ),
                }
            },
        },
    }
}


/// Where a surface is on screen and how big: its place plus its content's offset, at the size of
/// the buffer it shows. A surface with no place, no content, a shown buffer that is gone, or a
/// corner past what a coordinate can hold has no area.
pub open spec fn surface_area(m: CompositorModel, key: SurfaceKey) -> Option<Rect> {
    let c = key.connection;
    let id = key.object_id;
    if surface_error(m, c, id) is Some {
        None
    } else {
        let state = surface_of(m, c, id);
        match (state.position, state.current) {
            (Some(position), Some(content)) => if kind_error(m, c, content.buffer, ObjectKind::Buffer) is Some
                || !(m.object(c, content.buffer) is Buffer) {
                None
            } else {
                let x = position.x + content.offset.x;
                let y = position.y + content.offset.y;
                if x < i32::MIN || x > i32::MAX || y < i32::MIN || y > i32::MAX {
                    None
                } else {
                    let size = m.object(c, content.buffer)->descriptor.size;
                    Some(Rect { x: x as i32, y: y as i32, width: size.width, height: size.height })
                }
            },
            _ => None,
        }
    }
}

/// The topmost of `stack` whose area holds `point`.
pub open spec fn topmost_under(m: CompositorModel, stack: Seq<SurfaceKey>, point: Point) -> Option<SurfaceKey>
    decreases stack.len(),
{
    if stack.len() == 0 {
        None
    } else {
        match surface_area(m, stack.last()) {
            Some(area) => if rect_contains(area, point) {
                Some(stack.last())
            } else {
                topmost_under(m, stack.drop_last(), point)
            },
            None => topmost_under(m, stack.drop_last(), point),
        }
    }
}

/// The global offered under `name`, if any.
pub open spec fn find_global(globals: Seq<(u32, Global)>, name: u32) -> Option<Global>
    decreases globals.len(),
{
    if globals.len() == 0 {
        None
    } else if globals.last().0 == name {
        Some(globals.last().1)
    } else {
        find_global(globals.drop_last(), name)
    }
}

/// The globals other than the one named `name`.
pub open spec fn without_global(globals: Seq<(u32, Global)>, name: u32) -> Seq<(u32, Global)>
    decreases globals.len(),
{
    if globals.len() == 0 {
        globals
    } else {
        let rest = without_global(globals.drop_last(), name);
        if globals.last().0 == name {
            rest
        } else {
            rest.push(globals.last())
        }
    }
}

/// The identifiers of the connections, oldest first.
pub open spec fn connection_ids(connections: Seq<(ConnectionId, ConnectionModel)>) -> Seq<ConnectionId> {
    connections.map_values(|entry: (ConnectionId, ConnectionModel)| entry.0)
}

/// Telling each of `ids`, in turn, `kind` on its display object.
pub open spec fn tell_each(m: CompositorModel, ids: Seq<ConnectionId>, kind: EventKind) -> CompositorModel
    decreases ids.len(),
{
    if ids.len() == 0 {
        m
    } else {
        push_event_step(tell_each(m, ids.drop_last(), kind), ids.last(), ObjectId(DISPLAY_OBJECT), kind)
    }
}

/// Offering a global for objects of `kind`, up to `version`. A kind without an interface is not
/// offered, and neither is anything once names are exhausted.
pub open spec fn advertise_step(m: CompositorModel, kind: ObjectKind, version: u32) -> (CompositorModel, Option<u32>) {
    match interface_for(kind) {
        None => (m, None),
        Some(interface) => if m.next_global == u32::MAX {
            (m, None)
        } else {
            (
                CompositorModel {
                    globals: m.globals.push((m.next_global, Global { interface, kind, version })),
                    next_global: (m.next_global + 1) as u32,
                    ..m
                },
                Some(m.next_global),
            )
        },
    }
}

/// Withdrawing a global: every connection, oldest first, is told it is gone.
pub open spec fn withdraw_step(m: CompositorModel, name: u32) -> (CompositorModel, bool) {
    if find_global(m.globals, name) is None {
        (m, false)
    } else {
        (
            tell_each(
                CompositorModel { globals: without_global(m.globals, name), ..m },
                connection_ids(m.connections),
                EventKind::GlobalRemove { name },
            ),
            true,
        )
    }
}

/// Telling connection `c`, in order, about the first `n` of `globals`.
pub open spec fn announce_upto(m: CompositorModel, c: ConnectionId, globals: Seq<(u32, Global)>, n: nat) -> CompositorModel
    decreases n,
{
    if n == 0 {
        m
    } else {
        let entry = globals[n - 1];
        push_event_step(
            announce_upto(m, c, globals, (n - 1) as nat),
            c,
            ObjectId(DISPLAY_OBJECT),
            EventKind::Global { name: entry.0, interface: entry.1.interface, version: entry.1.version },
        )
    }
}

/// Creating a registry, which announces every global offered, in the order they were offered.
pub open spec fn create_registry_step(m: CompositorModel, c: ConnectionId, new_id: ObjectId) -> (
    CompositorModel,
    Result<(), StateError>,
) {
    let (made, result) = allocate_step(m, c, new_id, ObjectKind::Registry, Object::Registry);
    match result {
        Ok(()) => (announce_upto(made, c, made.globals, made.globals.len()), Ok(())),
        Err(error) => (made, Err(error)),
    }
}

/// Binding a global. It must be offered, at a version from 1 to the one offered; a shell
/// control global also needs the capability. A bound shell control is told which window holds
/// focus, and no window exists here to hold it.
pub open spec fn bind_step(m: CompositorModel, c: ConnectionId, name: u32, version: u32, new_id: ObjectId) -> (
    CompositorModel,
    Result<(), StateError>,
) {
    match find_global(m.globals, name) {
        None => (m, Err(StateError::InvalidState { object_id: new_id })),
        Some(global) => if version == 0 || version > global.version {
            (m, Err(StateError::InvalidState { object_id: new_id }))
        } else if global.kind == ObjectKind::ShellControl && !(m.connected(c)
            && m.connection(c).capabilities.has(Capability::ShellControl)) {
            (m, Err(StateError::UnsupportedCapability { object_id: new_id, capability: Capability::ShellControl }))
        } else {
            let (bound, result) = allocate_step(m, c, new_id, global.kind, Object::Global);
            match result {
                Err(error) => (bound, Err(error)),
                Ok(()) => if global.kind == ObjectKind::ShellControl {
                    (push_event_step(bound, c, new_id, EventKind::ShellFocusChanged { handle: 0 }), Ok(()))
                } else {
                    (bound, Ok(()))
                },
            }
        },
    }
}

/// Whether a surface's current commit may be presented.
pub open spec fn commit_ready_of(m: CompositorModel, key: SurfaceKey) -> Result<bool, StateError> {
    let c = key.connection;
    let id = key.object_id;
    match surface_error(m, c, id) {
        Some(error) => Err(error),
        None => match surface_of(m, c, id).current {
            None => Err(StateError::InvalidState { object_id: id }),
            Some(content) => match content.acquire_fence {
                None => Ok(true),
                Some(fence) => match kind_error(m, c, fence, ObjectKind::Fence) {
                    Some(error) => Err(error),
                    None => match m.object(c, fence) {
                        Object::Fence { signaled } => Ok(signaled),
                        _ => Err(StateError::InvalidState { object_id: fence }),
                    },
                },
            },
        },
    }
}

/// Placing a surface. It keeps the place whether or not it is in the scene; one with content
/// that is not in the scene yet goes on top, and one with nothing to show stays out of it.
pub open spec fn place_step(m: CompositorModel, key: SurfaceKey, position: Point) -> (
    CompositorModel,
    Result<(), StateError>,
) {
    match surface_error(m, key.connection, key.object_id) {
        Some(error) => (m, Err(error)),
        None => {
            let state = surface_of(m, key.connection, key.object_id);
            let placed = m.with_object(
                key.connection,
                key.object_id,
                Object::Surface(SurfaceState { position: Some(position), ..state }),
            );
            if placed.stack.contains(key) || state.current is None {
                (placed, Ok(()))
            } else {
                (placed.with_stack(placed.stack.push(key)), Ok(()))
            }
        },
    }
}

/// Raising a surface to the top of the scene. One that is not in the scene stays out of it.
pub open spec fn raise_step(m: CompositorModel, key: SurfaceKey) -> (
    CompositorModel,
    Result<(), StateError>,
) {
    match surface_error(m, key.connection, key.object_id) {
        Some(error) => (m, Err(error)),
        None => if m.stack.contains(key) {
            (m.with_stack(without_surface(m.stack, key).push(key)), Ok(()))
        } else {
            (m, Ok(()))
        },
    }
}

/// Handing back a buffer the compositor holds, once scanout or composition is done with it.
pub open spec fn release_buffer_step(m: CompositorModel, c: ConnectionId, buffer: ObjectId) -> (
    CompositorModel,
    Result<(), StateError>,
) {
    match kind_error(m, c, buffer, ObjectKind::Buffer) {
        Some(error) => (m, Err(error)),
        None => match m.object(c, buffer) {
            Object::Buffer { descriptor, state, source } => if !(state is CompositorHeld) {
                (m, Err(StateError::InvalidState { object_id: buffer }))
            } else {
                (
                    push_event_step(
                        m.with_object(c, buffer, Object::Buffer { descriptor, state: BufferState::Available, source }),
                        c,
                        buffer,
                        EventKind::BufferRelease,
                    ),
                    Ok(()),
                )
            },
            _ => (m, Err(StateError::InvalidState { object_id: buffer })),
        },
    }
}

/// Handing a buffer back once `fence` signals. Needs the explicit-fence capability; the buffer
/// must be one the compositor holds.
pub open spec fn release_with_fence_step(m: CompositorModel, c: ConnectionId, buffer: ObjectId, fence: ObjectId) -> (
    CompositorModel,
    Result<(), StateError>,
) {
    match lacks(m, c, buffer, Capability::ExplicitGpuFence) {
        Some(error) => (m, Err(error)),
        None => match kind_error(m, c, fence, ObjectKind::Fence) {
            Some(error) => (m, Err(error)),
            None => match kind_error(m, c, buffer, ObjectKind::Buffer) {
                Some(error) => (m, Err(error)),
                None => match m.object(c, buffer) {
                    Object::Buffer { descriptor, state, source } => if !(state is CompositorHeld) {
                        (m, Err(StateError::InvalidState { object_id: buffer }))
                    } else {
                        (
                            push_event_step(
                                m.with_object(
                                    c,
                                    buffer,
                                    Object::Buffer { descriptor, state: BufferState::Available, source },
                                ),
                                c,
                                buffer,
                                EventKind::BufferReleaseWithFence { fence },
                            ),
                            Ok(()),
                        )
                    },
                    _ => (m, Err(StateError::InvalidState { object_id: buffer })),
                },
            },
        },
    }
}

/// Telling a surface when its next frame is due. The refresh interval must not be zero.
pub open spec fn frame_deadline_step(m: CompositorModel, key: SurfaceKey, deadline_ns: u64, refresh_interval_ns: u64) -> (
    CompositorModel,
    Result<(), StateError>,
) {
    match surface_error(m, key.connection, key.object_id) {
        Some(error) => (m, Err(error)),
        None => if refresh_interval_ns == 0 {
            (m, Err(StateError::InvalidState { object_id: key.object_id }))
        } else {
            (
                push_event_step(
                    m,
                    key.connection,
                    key.object_id,
                    EventKind::FrameDeadline { deadline_ns, refresh_interval_ns },
                ),
                Ok(()),
            )
        },
    }
}

/// Creating an input stream, which needs the extended-input capability.
pub open spec fn create_input_stream_step(m: CompositorModel, c: ConnectionId, id: ObjectId) -> (
    CompositorModel,
    Result<(), StateError>,
) {
    match lacks(m, c, id, Capability::ExtendedInput) {
        Some(error) => (m, Err(error)),
        None => allocate_step(m, c, id, ObjectKind::InputStream, Object::InputStream),
    }
}

/// The error focusing `key` earns, if any: it must show content, be in the scene, and belong to
/// an active session on an active seat.
pub open spec fn focus_error(m: CompositorModel, key: SurfaceKey) -> Option<StateError> {
    match surface_error(m, key.connection, key.object_id) {
        Some(error) => Some(error),
        None => {
            let state = surface_of(m, key.connection, key.object_id);
            if state.current is None || state.position is None {
                Some(StateError::InvalidState { object_id: key.object_id })
            } else {
                session_error(m, key.connection, state.session)
            }
        },
    }
}

/// Moving keyboard focus. Leave is always told before enter, to the clients and to the caller.
pub open spec fn focus_step(m: CompositorModel, target: Option<SurfaceKey>) -> (
    CompositorModel,
    Result<Seq<FocusEvent>, StateError>,
) {
    let refused = match target {
        Some(key) => focus_error(m, key),
        None => None,
    };
    match refused {
        Some(error) => (m, Err(error)),
        None => if m.keyboard_focus == target {
            (m, Ok(Seq::empty()))
        } else {
            let (left, leave) = match m.keyboard_focus {
                Some(old) => (
                    push_event_step(m, old.connection, old.object_id, EventKind::KeyboardLeave),
                    seq![FocusEvent::KeyboardLeave(old)],
                ),
                None => (m, Seq::empty()),
            };
            let (entered, enter) = match target {
                Some(new) => (
                    push_event_step(left, new.connection, new.object_id, EventKind::KeyboardEnter),
                    seq![FocusEvent::KeyboardEnter(new)],
                ),
                None => (left, Seq::empty()),
            };
            (entered.with_focus(target), Ok(leave + enter))
        },
    }
}

/// What a request does to a live connection before its failure, if any, is answered.
pub open spec fn checked_step(m: CompositorModel, c: ConnectionId, request: ClientRequest) -> (
    CompositorModel,
    Result<(), StateError>,
) {
    match request {
        ClientRequest::CreateRegistry { new_id } => create_registry_step(m, c, new_id),
        ClientRequest::Bind { name, version, new_id } => bind_step(m, c, name, version, new_id),
        ClientRequest::CreateSurface { new_id } => create_surface_step(m, c, new_id),
        ClientRequest::ImportBuffer { new_id, descriptor } => import_buffer_step(m, c, new_id, descriptor),
        ClientRequest::CreatePool { new_id, memory } => create_pool_step(m, c, new_id, memory),
        ClientRequest::CreateBuffer { new_id, pool, offset, size, stride, format } => create_buffer_step(
            m,
            c,
            new_id,
            pool,
            offset,
            size,
            stride,
            format,
        ),
        ClientRequest::Attach { surface, buffer, offset, acquire_fence } => attach_step(
            m,
            c,
            surface,
            buffer,
            offset,
            acquire_fence,
        ),
        ClientRequest::Commit { surface } => commit_step(m, c, surface),
        ClientRequest::SetRole { surface, role } => set_role_step(m, c, surface, role),
        ClientRequest::RequestFrame { surface, serial } => request_frame_step(m, c, surface, serial),
        ClientRequest::Damage { surface, rect } => damage_step(m, c, surface, rect),
        ClientRequest::GetToplevel { surface, new_id } => get_toplevel_step(m, c, surface, new_id),
        ClientRequest::SetTitle { toplevel, title } => set_title_step(m, c, toplevel, title@),
        ClientRequest::SetMinSize { toplevel, size } => set_bound_step(m, c, toplevel, size, false),
        ClientRequest::SetMaxSize { toplevel, size } => set_bound_step(m, c, toplevel, size, true),
        ClientRequest::SetRefreshRange { surface, min_hz, max_hz } => set_refresh_range_step(
            m,
            c,
            surface,
            min_hz,
            max_hz,
        ),
        ClientRequest::Destroy { object } => if object == ObjectId(DISPLAY_OBJECT) {
            (m, Err(StateError::InvalidState { object_id: object }))
        } else if !m.has_object(c, object) {
            (m, Err(StateError::InvalidObject { object_id: object }))
        } else if m.connection(c).kind_of(object) == ObjectKind::Buffer && (m.object(c, object) matches Object::Buffer {
            state,
            ..
        } && state != BufferState::Available) {
            (m, Err(StateError::InvalidState { object_id: object }))
        } else {
            (destroy_step(m, c, object).0, Ok(()))
        },
        ClientRequest::Unknown { object, opcode } => if !m.has_object(c, object) {
            (m, Err(StateError::InvalidObject { object_id: object }))
        } else {
            (m, Err(StateError::UnknownOpcode { object_id: object, opcode }))
        },
    }
}

/// Dispatching one request from a connection: a closed connection is refused; otherwise the
/// request runs, and a failure is reported to the client and then costs it what its category
/// says — the connection for a protocol error, the object for an object error, nothing more for
/// a resource error.
pub open spec fn dispatch_step(m: CompositorModel, c: ConnectionId, request: ClientRequest) -> (
    CompositorModel,
    Result<(), StateError>,
) {
    if !m.connected(c) {
        (m, Err(StateError::ConnectionClosed))
    } else {
        let (ran, result) = checked_step(m, c, request);
        match result {
            Ok(()) => (ran, result),
            Err(error) => {
                let told = push_event_step(ran, c, object_of(error), EventKind::Error(error));
                match consequence_of(error) {
                    Consequence::CloseConnection => (close_step(told, c).0, result),
                    Consequence::DestroyObject(id) => (destroy_step(told, c, id).0, result),
                    Consequence::ReportOnly => (told, result),
                }
            },
        }
    }
}


struct Connection {
    /// Events queued for this connection since the last drain.
    pending_events: usize,
    session: Option<ObjectId>,
    available: CapabilitySet,
    capabilities: CapabilitySet,
    registry: ObjectRegistry<Object>,
}

spec fn model_of(conn: Connection) -> ConnectionModel {
    ConnectionModel {
        pending_events: conn.pending_events,
        entries: conn.registry.entries(),
        values: conn.registry.values(),
        used: conn.registry.used(),
        session: conn.session,
        available: conn.available,
        capabilities: conn.capabilities,
    }
}

spec fn models_of(connections: Seq<(ConnectionId, Connection)>) -> Seq<(ConnectionId, ConnectionModel)> {
    connections.map_values(|entry: (ConnectionId, Connection)| (entry.0, model_of(entry.1)))
}

/// Every connection with its undrained-event count cleared.
pub open spec fn drained(connections: Seq<(ConnectionId, ConnectionModel)>) -> Seq<(ConnectionId, ConnectionModel)> {
    connections.map_values(|entry: (ConnectionId, ConnectionModel)| (entry.0, entry.1.with_pending(0)))
}

/// The protocol state machine between decoded messages and a display or input backend.
pub struct CompositorState {
    server_capabilities: CapabilitySet,
    server_limits: ServerLimits,
    limits: ConnectionLimits,
    globals: Vec<(u32, Global)>,
    next_global: u32,
    next_connection: u64,
    next_commit: u64,
    connections: Vec<(ConnectionId, Connection)>,
    stack: Vec<SurfaceKey>,
    keyboard_focus: Option<SurfaceKey>,
    pointer_target: Option<SurfaceKey>,
    pending_damage: Vec<(SurfaceKey, Rect)>,
    shown_damage: Vec<(SurfaceKey, Damage)>,
    toplevels: Vec<(SurfaceKey, u64)>,
    next_handle: u64,
    titles: Vec<(SurfaceKey, TitleText)>,
    events: Vec<Event>,
}

/// Titles as the model sees them.
spec fn titles_view(titles: Seq<(SurfaceKey, TitleText)>) -> Seq<(SurfaceKey, Seq<char>)> {
    titles.map_values(|entry: (SurfaceKey, TitleText)| (entry.0, entry.1@))
}

impl View for CompositorState {
    type V = CompositorModel;

    closed spec fn view(&self) -> CompositorModel {
        CompositorModel {
            server_capabilities: self.server_capabilities,
            server_limits: self.server_limits,
            limits: self.limits,
            globals: self.globals@,
            next_global: self.next_global,
            next_connection: self.next_connection,
            next_commit: self.next_commit,
            connections: models_of(self.connections@),
            stack: self.stack@,
            keyboard_focus: self.keyboard_focus,
            pointer_target: self.pointer_target,
            pending_damage: self.pending_damage@,
            shown_damage: self.shown_damage@,
            toplevels: self.toplevels@,
            next_handle: self.next_handle,
            titles: titles_view(self.titles@),
            events: self.events@,
        }
    }
}

/// With distinct identifiers, the connection found at `k` is the one `slot` names.
proof fn lemma_slot(m: CompositorModel, c: ConnectionId, k: int)
    requires
        connection_ids_distinct(m.connections),
        0 <= k < m.connections.len(),
        m.connections[k].0 == c,
    ensures
        m.connected(c),
        m.slot(c) == k,
{
    assert(m.connections[k].0 == c);
    let p = m.slot(c);
    assert(m.connections[p].0 == c);
    if p != k {
        if p < k {
            assert(m.connections[p].0 != m.connections[k].0);
        } else {
            assert(m.connections[k].0 != m.connections[p].0);
        }
    }
}

/// Replacing connection `k` in place is `with_connection`.
proof fn lemma_replaced(start: CompositorModel, after: CompositorModel, c: ConnectionId, k: int, conn: ConnectionModel)
    requires
        connection_ids_distinct(start.connections),
        0 <= k < start.connections.len(),
        start.connections[k].0 == c,
        after.connections =~= start.connections.update(k, (c, conn)),
        after.server_capabilities == start.server_capabilities,
        after.server_limits == start.server_limits,
        after.limits == start.limits,
        after.next_connection == start.next_connection,
        after.next_commit == start.next_commit,
        after.stack == start.stack,
        after.keyboard_focus == start.keyboard_focus,
        after.pointer_target == start.pointer_target,
        after.pending_damage == start.pending_damage,
        after.shown_damage == start.shown_damage,
        after.toplevels == start.toplevels,
        after.next_handle == start.next_handle,
        after.titles == start.titles,
        after.globals == start.globals,
        after.next_global == start.next_global,
        after.events == start.events,
    ensures
        after == start.with_connection(c, conn),
        connection_ids_distinct(after.connections),
        after.connected(c),
        after.slot(c) == k,
        after.connection(c) == conn,
{
    lemma_slot(start, c, k);
    let conns = after.connections;
    assert forall|i: int, j: int| 0 <= i < j < conns.len() implies #[trigger] conns[i].0
        != #[trigger] conns[j].0 by {
        assert(conns[i].0 == start.connections[i].0);
        assert(conns[j].0 == start.connections[j].0);
    }
    lemma_slot(after, c, k);
}


/// Once the object holding `id` is removed, no live object holds it.
proof fn lemma_removed_is_gone(entries: Seq<(ObjectId, ObjectKind)>, id: ObjectId)
    requires
        ids_distinct(entries),
        holds(entries, id),
    ensures
        !holds(entries.remove(position_of(entries, id)), id),
{
    let p = position_of(entries, id);
    let rest = entries.remove(p);
    if holds(rest, id) {
        let i = choose|i: int| 0 <= i < rest.len() && #[trigger] rest[i].0 == id;
        let a = if i < p { i } else { i + 1 };
        assert(rest[i] == entries[a]);
        if a < p {
            assert(entries[a].0 != entries[p].0);
        } else {
            assert(entries[p].0 != entries[a].0);
        }
    }
}

/// Queueing an event leaves a connection that stays open holding what it held.
proof fn lemma_push_keeps_objects(m: CompositorModel, c: ConnectionId, object: ObjectId, kind: EventKind)
    requires
        connection_ids_distinct(m.connections),
    ensures
        connection_ids_distinct(push_event_step(m, c, object, kind).connections),
        push_event_step(m, c, object, kind).connected(c) ==> m.connected(c) && push_event_step(
            m,
            c,
            object,
            kind,
        ).connection(c) == m.connection(c).with_pending(
            push_event_step(m, c, object, kind).connection(c).pending_events,
        ),
{
    let after = push_event_step(m, c, object, kind);
    if m.connected(c) {
        let p = m.slot(c);
        let conn = m.connection(c);
        if conn.pending_events >= m.limits.max_pending_events {
            let with = m.with_event(
                Event {
                    connection: c,
                    object_id: ObjectId(DISPLAY_OBJECT),
                    kind: EventKind::Error(StateError::EventQueueOverflow { queued: conn.pending_events }),
                },
            );
            assert(with.slot(c) == p);
            let conns = after.connections;
            assert(conns == m.connections.remove(p));
            assert forall|i: int, j: int| 0 <= i < j < conns.len() implies #[trigger] conns[i].0
                != #[trigger] conns[j].0 by {
                let a = if i < p { i } else { i + 1 };
                let b = if j < p { j } else { j + 1 };
                assert(conns[i] == m.connections[a] && conns[j] == m.connections[b]);
            }
            if after.connected(c) {
                let i = choose|i: int| 0 <= i < conns.len() && #[trigger] conns[i].0 == c;
                let a = if i < p { i } else { i + 1 };
                assert(conns[i] == m.connections[a]);
                assert(m.connections[p].0 == c);
            }
        } else {
            let conns = after.connections;
            assert forall|i: int, j: int| 0 <= i < j < conns.len() implies #[trigger] conns[i].0
                != #[trigger] conns[j].0 by {
                assert(conns[i].0 == m.connections[i].0);
                assert(conns[j].0 == m.connections[j].0);
            }
            assert(conns[p].0 == c);
            lemma_slot(after, c, p);
        }
    }
}


/// Replacing a connection's model keeps it open and identifiers distinct.
proof fn lemma_with_connection(m: CompositorModel, c: ConnectionId, conn: ConnectionModel)
    requires
        connection_ids_distinct(m.connections),
        m.connected(c),
    ensures
        connection_ids_distinct(m.with_connection(c, conn).connections),
        m.with_connection(c, conn).connected(c),
        m.with_connection(c, conn).connection(c) == conn,
{
    let p = m.slot(c);
    assert(m.connections[p].0 == c);
    lemma_replaced(m, m.with_connection(c, conn), c, p, conn);
}


/// Replacing one object leaves another the connection holds as it was.
proof fn lemma_with_object_other(m: CompositorModel, c: ConnectionId, id: ObjectId, other: ObjectId)
    requires
        model_ok(m),
        m.has_object(c, id),
        m.has_object(c, other),
        m.connection(c).kind_of(id) != m.connection(c).kind_of(other),
    ensures
        forall|v: Object|
            #![trigger m.with_object(c, id, v)]
            m.with_object(c, id, v).has_object(c, other) && m.with_object(c, id, v).object(c, other)
                == m.object(c, other) && m.with_object(c, id, v).connection(c).kind_of(other)
                == m.connection(c).kind_of(other),
{
    let conn = m.connection(c);
    let p = m.slot(c);
    assert(m.connections[p].0 == c);
    assert(ids_distinct(m.connections[p].1.entries));
    assert(m.connections[p].1.entries.len() == m.connections[p].1.values.len());
    let a = conn.at(id);
    let b = conn.at(other);
    assert(0 <= a < conn.entries.len() && conn.entries[a].0 == id);
    assert(0 <= b < conn.entries.len() && conn.entries[b].0 == other);
    assert(a != b);
    assert forall|v: Object|
        #![trigger m.with_object(c, id, v)]
        m.with_object(c, id, v).has_object(c, other) && m.with_object(c, id, v).object(c, other)
            == m.object(c, other) && m.with_object(c, id, v).connection(c).kind_of(other)
            == m.connection(c).kind_of(other) by {
        let changed = conn.with_object(id, v);
        lemma_with_connection(m, c, changed);
        assert(changed.entries == conn.entries);
        assert(changed.at(other) == b);
        assert(changed.values[b] == conn.values[b]);
        let after = m.with_object(c, id, v);
        assert(after.connection(c) == changed);
        assert(after.connected(c));
        assert(changed.holds(other));
        assert(after.has_object(c, other));
        assert(after.object(c, other) == changed.values[b]);
        assert(m.object(c, other) == conn.values[b]);
    }
}


/// `after` leaves every connection but `c` as `before` had it, and keeps identifiers distinct.
pub open spec fn keeps_others(before: CompositorModel, after: CompositorModel, c: ConnectionId) -> bool {
    &&& connection_ids_distinct(after.connections)
    &&& forall|d: ConnectionId|
        d != c && #[trigger] before.connected(d) ==> after.connected(d) && after.connection(d)
            == before.connection(d)
}

proof fn lemma_keeps_chain(a: CompositorModel, b: CompositorModel, z: CompositorModel, c: ConnectionId)
    requires
        keeps_others(a, b, c),
        keeps_others(b, z, c),
    ensures
        keeps_others(a, z, c),
{
    assert forall|d: ConnectionId| d != c && #[trigger] a.connected(d) implies z.connected(d)
        && z.connection(d) == a.connection(d) by {
        assert(b.connected(d));
    }
}

proof fn lemma_same_connections(m: CompositorModel, after: CompositorModel, c: ConnectionId)
    requires
        connection_ids_distinct(m.connections),
        after.connections == m.connections,
    ensures
        keeps_others(m, after, c),
{
}

proof fn lemma_with_connection_keeps(m: CompositorModel, c: ConnectionId, conn: ConnectionModel)
    requires
        connection_ids_distinct(m.connections),
        m.connected(c),
    ensures
        keeps_others(m, m.with_connection(c, conn), c),
        m.with_connection(c, conn).connected(c),
        m.with_connection(c, conn).connection(c) == conn,
{
    let after = m.with_connection(c, conn);
    let p = m.slot(c);
    assert(m.connections[p].0 == c);
    lemma_with_connection(m, c, conn);
    let conns = after.connections;
    assert forall|d: ConnectionId| d != c && #[trigger] m.connected(d) implies after.connected(d)
        && after.connection(d) == m.connection(d) by {
        let q = m.slot(d);
        assert(m.connections[q].0 == d);
        assert(conns[q] == m.connections[q]);
        lemma_slot(after, d, q);
    }
}

proof fn lemma_close_keeps(m: CompositorModel, c: ConnectionId)
    requires
        connection_ids_distinct(m.connections),
    ensures
        keeps_others(m, close_step(m, c).0, c),
        !close_step(m, c).0.connected(c),
{
    if m.connected(c) {
        let after = close_step(m, c).0;
        let p = m.slot(c);
        assert(m.connections[p].0 == c);
        let conns = after.connections;
        assert forall|i: int, j: int| 0 <= i < j < conns.len() implies #[trigger] conns[i].0
            != #[trigger] conns[j].0 by {
            let a = if i < p { i } else { i + 1 };
            let b = if j < p { j } else { j + 1 };
            assert(conns[i] == m.connections[a] && conns[j] == m.connections[b]);
        }
        assert forall|d: ConnectionId| d != c && #[trigger] m.connected(d) implies after.connected(d)
            && after.connection(d) == m.connection(d) by {
            let q = m.slot(d);
            assert(m.connections[q].0 == d);
            let i = if q < p { q } else { q - 1 };
            assert(conns[i] == m.connections[q]);
            lemma_slot(after, d, i);
        }
        if after.connected(c) {
            let i = choose|i: int| 0 <= i < conns.len() && #[trigger] conns[i].0 == c;
            let a = if i < p { i } else { i + 1 };
            assert(conns[i] == m.connections[a]);
        }
    }
}

proof fn lemma_push_keeps(m: CompositorModel, c: ConnectionId, object: ObjectId, kind: EventKind)
    requires
        connection_ids_distinct(m.connections),
    ensures
        keeps_others(m, push_event_step(m, c, object, kind), c),
{
    if m.connected(c) {
        let conn = m.connection(c);
        if conn.pending_events >= m.limits.max_pending_events {
            let with = m.with_event(
                Event {
                    connection: c,
                    object_id: ObjectId(DISPLAY_OBJECT),
                    kind: EventKind::Error(StateError::EventQueueOverflow { queued: conn.pending_events }),
                },
            );
            lemma_close_keeps(with, c);
            lemma_same_connections(m, with, c);
            lemma_keeps_chain(m, with, close_step(with, c).0, c);
        } else {
            let next = conn.with_pending((conn.pending_events + 1) as usize);
            lemma_with_connection_keeps(m, c, next);
            let updated = m.with_connection(c, next);
            let queued = updated.with_event(Event { connection: c, object_id: object, kind });
            lemma_same_connections(updated, queued, c);
            lemma_keeps_chain(m, updated, queued, c);
        }
    } else {
        lemma_same_connections(m, m, c);
    }
}

proof fn lemma_with_object_keeps(m: CompositorModel, c: ConnectionId, id: ObjectId, value: Object)
    requires
        connection_ids_distinct(m.connections),
        m.connected(c),
    ensures
        keeps_others(m, m.with_object(c, id, value), c),
{
    lemma_with_connection_keeps(m, c, m.connection(c).with_object(id, value));
}

proof fn lemma_release_keeps(m: CompositorModel, c: ConnectionId, key: SurfaceKey, n: nat)
    requires
        connection_ids_distinct(m.connections),
    ensures
        keeps_others(m, release_upto(m, c, key, n), c),
    decreases n,
{
    if n == 0 {
        lemma_same_connections(m, m, c);
    } else {
        lemma_release_keeps(m, c, key, (n - 1) as nat);
        let before = release_upto(m, c, key, (n - 1) as nat);
        let i = n - 1;
        if before.connected(c) {
            let conn = before.connection(c);
            if 0 <= i < conn.values.len() && i < conn.entries.len() && conn.entries[i].1
                == ObjectKind::Buffer && (conn.values[i] matches Object::Buffer { state, .. } && held_by(state, key)) {
                let descriptor = conn.values[i]->descriptor;
                let source = conn.values[i]->source;
                let changed = conn.with_objects(
                    conn.entries,
                    conn.values.update(i, Object::Buffer { descriptor, state: BufferState::Available, source }),
                );
                lemma_with_connection_keeps(before, c, changed);
                lemma_push_keeps(before.with_connection(c, changed), c, conn.entries[i].0, EventKind::BufferRelease);
                lemma_keeps_chain(before, before.with_connection(c, changed), release_upto(m, c, key, n), c);
            } else {
                lemma_same_connections(before, before, c);
            }
        } else {
            lemma_same_connections(before, before, c);
        }
        lemma_keeps_chain(m, before, release_upto(m, c, key, n), c);
    }
}

proof fn lemma_release_older_keeps(m: CompositorModel, key: SurfaceKey, commit: CommitId, n: nat)
    requires
        connection_ids_distinct(m.connections),
    ensures
        keeps_others(m, release_older_upto(m, key, commit, n), key.connection),
    decreases n,
{
    let c = key.connection;
    if n == 0 {
        lemma_same_connections(m, m, c);
    } else {
        lemma_release_older_keeps(m, key, commit, (n - 1) as nat);
        let before = release_older_upto(m, key, commit, (n - 1) as nat);
        let i = n - 1;
        if before.connected(c) {
            let conn = before.connection(c);
            if 0 <= i < conn.values.len() && i < conn.entries.len() && conn.entries[i].1
                == ObjectKind::Buffer && (conn.values[i] matches Object::Buffer {
                state: BufferState::CompositorHeld { surface, commit: held },
                ..
            } && surface == key && held.0 < commit.0) {
                let descriptor = conn.values[i]->descriptor;
                let source = conn.values[i]->source;
                let changed = conn.with_objects(
                    conn.entries,
                    conn.values.update(i, Object::Buffer { descriptor, state: BufferState::Available, source }),
                );
                lemma_with_connection_keeps(before, c, changed);
                lemma_push_keeps(before.with_connection(c, changed), c, conn.entries[i].0, EventKind::BufferRelease);
                lemma_keeps_chain(before, before.with_connection(c, changed), release_older_upto(m, key, commit, n), c);
            } else {
                lemma_same_connections(before, before, c);
            }
        } else {
            lemma_same_connections(before, before, c);
        }
        lemma_keeps_chain(m, before, release_older_upto(m, key, commit, n), c);
    }
}

proof fn lemma_forget_keeps(m: CompositorModel, c: ConnectionId, buffer: ObjectId, n: nat)
    requires
        connection_ids_distinct(m.connections),
    ensures
        keeps_others(m, forget_buffer_upto(m, c, buffer, n), c),
    decreases n,
{
    if n == 0 {
        lemma_same_connections(m, m, c);
    } else {
        lemma_forget_keeps(m, c, buffer, (n - 1) as nat);
        let before = forget_buffer_upto(m, c, buffer, (n - 1) as nat);
        if before.connected(c) && n - 1 < before.connection(c).values.len() {
            let conn = before.connection(c);
            lemma_with_connection_keeps(
                before,
                c,
                conn.with_objects(
                    conn.entries,
                    conn.values.update(n - 1, without_buffer(conn.values[n - 1], buffer)),
                ),
            );
        } else {
            lemma_same_connections(before, before, c);
        }
        lemma_keeps_chain(m, before, forget_buffer_upto(m, c, buffer, n), c);
    }
}

proof fn lemma_teardown_keeps(m: CompositorModel, c: ConnectionId, id: ObjectId)
    requires
        connection_ids_distinct(m.connections),
    ensures
        keeps_others(m, surface_teardown(m, c, id), c),
{
    let key = SurfaceKey { connection: c, object_id: id };
    let released = release_upto(m, c, key, m.connection(c).values.len());
    lemma_release_keeps(m, c, key, m.connection(c).values.len());
    let unstacked = released.with_stack(without_surface(released.stack, key));
    lemma_same_connections(released, unstacked, c);
    lemma_keeps_chain(m, released, unstacked, c);
    if unstacked.keyboard_focus == Some(key) {
        lemma_push_keeps(unstacked, c, id, EventKind::KeyboardLeave);
        let told = push_event_step(unstacked, c, id, EventKind::KeyboardLeave);
        lemma_same_connections(told, told.with_focus(None), c);
        lemma_keeps_chain(unstacked, told, told.with_focus(None), c);
        lemma_keeps_chain(m, unstacked, told.with_focus(None), c);
    }
}

proof fn lemma_remove_keeps(m: CompositorModel, c: ConnectionId, id: ObjectId, kind: ObjectKind)
    requires
        connection_ids_distinct(m.connections),
    ensures
        keeps_others(m, remove_object_step(m, c, id, kind), c),
{
    if !m.has_object(c, id) {
        lemma_same_connections(m, m, c);
    } else {
        let conn = m.connection(c);
        let changed = conn.with_objects(conn.entries.remove(conn.at(id)), conn.values.remove(conn.at(id)));
        let removed = m.with_connection(c, changed);
        lemma_with_connection_keeps(m, c, changed);
        let first = push_event_step(removed, c, id, EventKind::ObjectDestroyed(kind));
        lemma_push_keeps(removed, c, id, EventKind::ObjectDestroyed(kind));
        let told = push_event_step(first, c, id, EventKind::IdRetired);
        lemma_push_keeps(first, c, id, EventKind::IdRetired);
        lemma_keeps_chain(m, removed, first, c);
        lemma_keeps_chain(m, first, told, c);
        if told.connected(c) {
            lemma_with_connection_keeps(told, c, told.connection(c).with_used(told.connection(c).used.remove(id)));
            lemma_keeps_chain(m, told, remove_object_step(m, c, id, kind), c);
        }
    }
}

proof fn lemma_destroy_keeps(m: CompositorModel, c: ConnectionId, id: ObjectId, fuel: nat)
    requires
        connection_ids_distinct(m.connections),
    ensures
        keeps_others(m, destroy_with(m, c, id, fuel).0, c),
    decreases fuel, 1nat,
{
    if !m.has_object(c, id) {
        lemma_same_connections(m, m, c);
    } else {
        let conn = m.connection(c);
        let kind = conn.kind_of(id);
        let cascaded = if (kind == ObjectKind::Session || kind == ObjectKind::Seat || kind
            == ObjectKind::Fence) && fuel > 0 {
            let ids = newest_where(conn.entries, conn.values, dependent_pick(kind, id));
            lemma_destroy_all_keeps(m, c, ids, (fuel - 1) as nat);
            destroy_all(m, c, ids, (fuel - 1) as nat).0
        } else if kind == ObjectKind::Surface {
            lemma_teardown_keeps(m, c, id);
            surface_teardown(m, c, id)
        } else if kind == ObjectKind::Buffer {
            lemma_forget_keeps(m, c, id, conn.values.len());
            forget_buffer_upto(m, c, id, conn.values.len())
        } else if kind == ObjectKind::Toplevel {
            let forgotten = forget_toplevel(m, SurfaceKey { connection: c, object_id: id });
            lemma_same_connections(m, forgotten, c);
            forgotten
        } else {
            lemma_same_connections(m, m, c);
            m
        };
        assert(keeps_others(m, cascaded, c));
        if cascaded.has_object(c, id) {
            lemma_remove_keeps(cascaded, c, id, kind);
            lemma_keeps_chain(m, cascaded, remove_object_step(cascaded, c, id, kind), c);
        }
    }
}

proof fn lemma_destroy_all_keeps(m: CompositorModel, c: ConnectionId, ids: Seq<ObjectId>, fuel: nat)
    requires
        connection_ids_distinct(m.connections),
    ensures
        keeps_others(m, destroy_all(m, c, ids, fuel).0, c),
    decreases fuel, ids.len() + 2,
{
    if ids.len() == 0 {
        lemma_same_connections(m, m, c);
    } else {
        lemma_destroy_all_keeps(m, c, ids.drop_last(), fuel);
        let before = destroy_all(m, c, ids.drop_last(), fuel).0;
        lemma_destroy_keeps(before, c, ids.last(), fuel);
        lemma_keeps_chain(m, before, destroy_all(m, c, ids, fuel).0, c);
    }
}

proof fn lemma_allocate_keeps(m: CompositorModel, c: ConnectionId, id: ObjectId, kind: ObjectKind, value: Object)
    requires
        connection_ids_distinct(m.connections),
    ensures
        keeps_others(m, allocate_step(m, c, id, kind, value).0, c),
{
    let conn = m.connection(c);
    if m.connected(c) && conn.entries.len() < m.limits.max_objects && client_allocatable(id)
        && !conn.used.contains(id) {
        lemma_with_connection_keeps(
            m,
            c,
            conn.with_objects(conn.entries.push((id, kind)), conn.values.push(value)).with_used(
                conn.used.insert(id),
            ),
        );
    } else {
        lemma_same_connections(m, m, c);
    }
}

proof fn lemma_set_buffer_state_keeps(m: CompositorModel, c: ConnectionId, buffer: ObjectId, state: BufferState)
    requires
        connection_ids_distinct(m.connections),
    ensures
        keeps_others(m, set_buffer_state_step(m, c, buffer, state).0, c),
{
    if kind_error(m, c, buffer, ObjectKind::Buffer) is None && m.object(c, buffer) is Buffer {
        lemma_with_object_keeps(m, c, buffer, Object::Buffer { descriptor: m.object(c, buffer)->descriptor, state, source: m.object(c, buffer)->source });
    } else {
        lemma_same_connections(m, m, c);
    }
}

proof fn lemma_map_keeps(m: CompositorModel, c: ConnectionId, surface: ObjectId)
    requires
        connection_ids_distinct(m.connections),
        m.connected(c),
    ensures
        keeps_others(m, map_step(m, c, surface), c),
{
    let key = SurfaceKey { connection: c, object_id: surface };
    if m.stack.contains(key) {
        lemma_same_connections(m, m, c);
    } else {
        let state = surface_of(m, c, surface);
        let placed = if state.position is Some {
            lemma_same_connections(m, m, c);
            m
        } else {
            let v = Object::Surface(SurfaceState { position: Some(Point { x: 0, y: 0 }), ..state });
            lemma_with_object_keeps(m, c, surface, v);
            m.with_object(c, surface, v)
        };
        lemma_same_connections(placed, placed.with_stack(placed.stack.push(key)), c);
        lemma_keeps_chain(m, placed, placed.with_stack(placed.stack.push(key)), c);
    }
}

proof fn lemma_commit_keeps(m: CompositorModel, c: ConnectionId, surface: ObjectId)
    requires
        connection_ids_distinct(m.connections),
    ensures
        keeps_others(m, commit_step(m, c, surface).0, c),
{
    lemma_commit_core_keeps(m, c, surface);
    let (after, result) = commit_core(m, c, surface);
    if result is Ok {
        let settled = settle_damage(after, SurfaceKey { connection: c, object_id: surface });
        lemma_same_connections(after, settled, c);
        lemma_keeps_chain(m, after, settled, c);
    }
}

proof fn lemma_commit_core_keeps(m: CompositorModel, c: ConnectionId, surface: ObjectId)
    requires
        connection_ids_distinct(m.connections),
    ensures
        keeps_others(m, commit_core(m, c, surface).0, c),
{
    let key = SurfaceKey { connection: c, object_id: surface };
    if m.next_commit == u64::MAX || surface_error(m, c, surface) is Some {
        lemma_same_connections(m, m, c);
    } else {
        let state = surface_of(m, c, surface);
        match state.pending {
            PendingAttachment::Detach => match state.current {
                None => {
                    lemma_with_object_keeps(m, c, surface, Object::Surface(cleared(state)));
                },
                Some(content) => {
                    let (released, result) = set_buffer_state_step(m, c, content.buffer, BufferState::Available);
                    lemma_set_buffer_state_keeps(m, c, content.buffer, BufferState::Available);
                    if result is Ok {
                        let told = push_event_step(released, c, content.buffer, EventKind::BufferRelease);
                        lemma_push_keeps(released, c, content.buffer, EventKind::BufferRelease);
                        lemma_keeps_chain(m, released, told, c);
                        if surface_error(told, c, surface) is None {
                            let now = surface_of(told, c, surface);
                            let v = Object::Surface(SurfaceState { current: None, ..now });
                            let gone = told.with_object(c, surface, v);
                            lemma_with_object_keeps(told, c, surface, v);
                            lemma_keeps_chain(m, told, gone, c);
                            let unstacked = gone.with_stack(without_surface(gone.stack, key));
                            lemma_same_connections(gone, unstacked, c);
                            lemma_keeps_chain(m, gone, unstacked, c);
                            lemma_with_connection(told, c, told.connection(c).with_object(surface, v));
                            let w = Object::Surface(cleared(surface_of(unstacked, c, surface)));
                            lemma_with_object_keeps(unstacked, c, surface, w);
                            lemma_keeps_chain(m, unstacked, unstacked.with_object(c, surface, w), c);
                        }
                    }
                },
            },
            _ => {
                let carried = match state.pending {
                    PendingAttachment::Attach(buffer, offset) => Some((buffer, offset)),
                    _ => match state.current {
                        Some(content) => Some((content.buffer, content.offset)),
                        None => None,
                    },
                };
                match carried {
                    None => {
                        lemma_with_object_keeps(m, c, surface, Object::Surface(cleared(state)));
                    },
                    Some((buffer, offset)) => {
                        let commit = CommitId(m.next_commit);
                        let first = m.with_object(c, surface, Object::Surface(taken_up(state)));
                        lemma_with_object_keeps(m, c, surface, Object::Surface(taken_up(state)));
                        lemma_with_connection(m, c, m.connection(c).with_object(surface, Object::Surface(taken_up(state))));
                        let taken = CompositorModel { next_commit: (m.next_commit + 1) as u64, ..first };
                        lemma_same_connections(first, taken, c);
                        lemma_keeps_chain(m, first, taken, c);
                        let (held, result) = set_buffer_state_step(
                            taken,
                            c,
                            buffer,
                            BufferState::CompositorHeld { surface: key, commit },
                        );
                        lemma_set_buffer_state_keeps(taken, c, buffer, BufferState::CompositorHeld { surface: key, commit });
                        lemma_keeps_chain(m, taken, held, c);
                        if result is Ok {
                            assert(taken.connected(c)) by {
                                assert(taken.connections == first.connections);
                            }
                            lemma_with_connection(
                                taken,
                                c,
                                taken.connection(c).with_object(
                                    buffer,
                                    Object::Buffer {
                                        descriptor: taken.object(c, buffer)->descriptor,
                                        state: BufferState::CompositorHeld { surface: key, commit },
                                        source: taken.object(c, buffer)->source,
                                    },
                                ),
                            );
                            let now = surface_of(held, c, surface);
                            let v = Object::Surface(
                                SurfaceState {
                                    current: Some(
                                        SurfaceContent {
                                            buffer,
                                            offset,
                                            commit,
                                            acquire_fence: state.pending_fence,
                                            refresh_range: refresh_after(state),
                                            frame_callback: state.frame_requested,
                                            frame_serial: state.frame_serial,
                                        },
                                    ),
                                    ..now
                                },
                            );
                            assert(held.connected(c));
                            let shown = held.with_object(c, surface, v);
                            lemma_with_object_keeps(held, c, surface, v);
                            lemma_keeps_chain(m, held, shown, c);
                            lemma_with_connection(held, c, held.connection(c).with_object(surface, v));
                            lemma_map_keeps(shown, c, surface);
                            lemma_keeps_chain(m, shown, map_step(shown, c, surface), c);
                        }
                    },
                }
            },
        }
    }
}

proof fn lemma_announce_keeps(m: CompositorModel, c: ConnectionId, globals: Seq<(u32, Global)>, n: nat)
    requires
        connection_ids_distinct(m.connections),
    ensures
        keeps_others(m, announce_upto(m, c, globals, n), c),
    decreases n,
{
    if n == 0 {
        lemma_same_connections(m, m, c);
    } else {
        let prev = announce_upto(m, c, globals, (n - 1) as nat);
        lemma_announce_keeps(m, c, globals, (n - 1) as nat);
        let entry = globals[n - 1];
        let kind = EventKind::Global { name: entry.0, interface: entry.1.interface, version: entry.1.version };
        lemma_push_keeps(prev, c, ObjectId(DISPLAY_OBJECT), kind);
        lemma_keeps_chain(m, prev, announce_upto(m, c, globals, n), c);
    }
}

proof fn lemma_checked_keeps(m: CompositorModel, c: ConnectionId, request: ClientRequest)
    requires
        connection_ids_distinct(m.connections),
    ensures
        keeps_others(m, checked_step(m, c, request).0, c),
{
    match request {
        ClientRequest::CreateRegistry { new_id } => {
            lemma_allocate_keeps(m, c, new_id, ObjectKind::Registry, Object::Registry);
            let (made, result) = allocate_step(m, c, new_id, ObjectKind::Registry, Object::Registry);
            if result is Ok {
                lemma_announce_keeps(made, c, made.globals, made.globals.len());
                lemma_keeps_chain(m, made, announce_upto(made, c, made.globals, made.globals.len()), c);
            }
        },
        ClientRequest::Bind { name, version, new_id } => {
            lemma_same_connections(m, m, c);
            match find_global(m.globals, name) {
                Some(global) => {
                    lemma_allocate_keeps(m, c, new_id, global.kind, Object::Global);
                    let (bound, result) = allocate_step(m, c, new_id, global.kind, Object::Global);
                    if result is Ok && global.kind == ObjectKind::ShellControl {
                        lemma_push_keeps(bound, c, new_id, EventKind::ShellFocusChanged { handle: 0 });
                        lemma_keeps_chain(
                            m,
                            bound,
                            push_event_step(bound, c, new_id, EventKind::ShellFocusChanged { handle: 0 }),
                            c,
                        );
                    }
                },
                None => {},
            }
        },
        ClientRequest::CreateSurface { new_id } => {
            lemma_same_connections(m, m, c);
            if lacks(m, c, new_id, Capability::SurfaceCreate) is None {
                match m.connection(c).session {
                    Some(session) => {
                        lemma_allocate_keeps(m, c, new_id, ObjectKind::Surface, Object::Surface(fresh_surface(session)));
                    },
                    None => {},
                }
            }
        },
        ClientRequest::ImportBuffer { new_id, descriptor } => {
            lemma_same_connections(m, m, c);
            lemma_allocate_keeps(m, c, new_id, ObjectKind::Buffer, Object::Buffer { descriptor, state: BufferState::Available, source: None });
        },
        ClientRequest::CreatePool { new_id, memory } => {
            lemma_same_connections(m, m, c);
            lemma_allocate_keeps(m, c, new_id, ObjectKind::ShmPool, Object::ShmPool(memory));
        },
        ClientRequest::CreateBuffer { new_id, pool, offset, size, stride, format } => {
            lemma_same_connections(m, m, c);
            if m.has_object(c, pool) && m.object(c, pool) is ShmPool {
                let memory = m.object(c, pool)->ShmPool_0;
                let descriptor = pool_descriptor(size, stride);
                lemma_allocate_keeps(
                    m,
                    c,
                    new_id,
                    ObjectKind::Buffer,
                    Object::Buffer {
                        descriptor,
                        state: BufferState::Available,
                        source: Some(BufferSource { memory, offset, descriptor }),
                    },
                );
            }
        },
        ClientRequest::Attach { surface, buffer, offset, acquire_fence } => {
            lemma_same_connections(m, m, c);
            let key = SurfaceKey { connection: c, object_id: surface };
            if surface_error(m, c, surface) is None {
                let state = surface_of(m, c, surface);
                lemma_with_object_keeps(m, c, surface, Object::Surface(SurfaceState { pending: PendingAttachment::Detach, ..state }));
                if kind_error(m, c, buffer, ObjectKind::Buffer) is None && m.object(c, buffer) is Buffer {
                    let descriptor = m.object(c, buffer)->descriptor;
                    let source = m.object(c, buffer)->source;
                    let bv = Object::Buffer { descriptor, state: BufferState::Pending { surface: key }, source };
                    lemma_with_object_keeps(m, c, buffer, bv);
                    let held = m.with_object(c, buffer, bv);
                    lemma_with_connection(m, c, m.connection(c).with_object(buffer, bv));
                    let sv = Object::Surface(
                        SurfaceState {
                            pending: PendingAttachment::Attach(buffer, offset),
                            pending_fence: acquire_fence,
                            ..state
                        },
                    );
                    lemma_with_object_keeps(held, c, surface, sv);
                    lemma_keeps_chain(m, held, held.with_object(c, surface, sv), c);
                }
            }
        },
        ClientRequest::Commit { surface } => {
            lemma_commit_keeps(m, c, surface);
        },
        ClientRequest::SetRole { surface, role } => {
            lemma_same_connections(m, m, c);
            if surface_error(m, c, surface) is None {
                let state = surface_of(m, c, surface);
                lemma_with_object_keeps(m, c, surface, Object::Surface(SurfaceState { role: Some(role), ..state }));
            }
        },
        ClientRequest::GetToplevel { surface, new_id } => {
            lemma_same_connections(m, m, c);
            let handle = m.next_handle;
            let bumped = CompositorModel { next_handle: (handle + 1) as u64, ..m };
            lemma_same_connections(m, bumped, c);
            let value = Object::Toplevel(ToplevelState { surface, minimum: None, maximum: None, handle });
            lemma_allocate_keeps(bumped, c, new_id, ObjectKind::Toplevel, value);
            lemma_keeps_chain(m, bumped, allocate_step(bumped, c, new_id, ObjectKind::Toplevel, value).0, c);
            let made = allocate_step(bumped, c, new_id, ObjectKind::Toplevel, value).0;
            let key = SurfaceKey { connection: c, object_id: new_id };
            let done = CompositorModel {
                toplevels: made.toplevels.push((key, handle)),
                titles: made.titles.push((key, Seq::empty())),
                ..made
            };
            lemma_same_connections(made, done, c);
            lemma_keeps_chain(m, made, done, c);
        },
        ClientRequest::SetTitle { toplevel, title } => {
            lemma_same_connections(m, m, c);
            lemma_same_connections(m, set_title_step(m, c, toplevel, title@).0, c);
        },
        ClientRequest::SetMinSize { toplevel, size } => {
            lemma_same_connections(m, m, c);
            if toplevel_error(m, c, toplevel) is None {
                let state = m.object(c, toplevel)->Toplevel_0;
                lemma_with_object_keeps(m, c, toplevel, Object::Toplevel(ToplevelState { minimum: Some(size), ..state }));
            }
        },
        ClientRequest::SetMaxSize { toplevel, size } => {
            lemma_same_connections(m, m, c);
            if toplevel_error(m, c, toplevel) is None {
                let state = m.object(c, toplevel)->Toplevel_0;
                lemma_with_object_keeps(m, c, toplevel, Object::Toplevel(ToplevelState { maximum: Some(size), ..state }));
            }
        },
        ClientRequest::Damage { surface, rect } => {
            lemma_same_connections(m, m, c);
            let key = SurfaceKey { connection: c, object_id: surface };
            lemma_same_connections(m, CompositorModel { pending_damage: m.pending_damage.push((key, rect)), ..m }, c);
        },
        ClientRequest::RequestFrame { surface, serial } => {
            lemma_same_connections(m, m, c);
            if surface_error(m, c, surface) is None {
                let state = surface_of(m, c, surface);
                lemma_with_object_keeps(
                    m,
                    c,
                    surface,
                    Object::Surface(SurfaceState { frame_requested: true, frame_serial: serial, ..state }),
                );
            }
        },
        ClientRequest::SetRefreshRange { surface, min_hz, max_hz } => {
            lemma_same_connections(m, m, c);
            if surface_error(m, c, surface) is None {
                let state = surface_of(m, c, surface);
                lemma_with_object_keeps(
                    m,
                    c,
                    surface,
                    Object::Surface(SurfaceState { pending_refresh: Some(RefreshRange { min_hz, max_hz }), ..state }),
                );
            }
        },
        ClientRequest::Destroy { object } => {
            lemma_same_connections(m, m, c);
            lemma_destroy_keeps(m, c, object, 3);
        },
        ClientRequest::Unknown { .. } => {
            lemma_same_connections(m, m, c);
        },
    }
}

proof fn lemma_dispatch_keeps(m: CompositorModel, c: ConnectionId, request: ClientRequest)
    requires
        connection_ids_distinct(m.connections),
    ensures
        keeps_others(m, dispatch_step(m, c, request).0, c),
        dispatch_step(m, c, request).1 matches Err(error) && category_of(error) == ErrorCategory::Protocol
            ==> !dispatch_step(m, c, request).0.connected(c),
{
    if !m.connected(c) {
        lemma_same_connections(m, m, c);
    } else {
        let (ran, result) = checked_step(m, c, request);
        lemma_checked_keeps(m, c, request);
        if let Err(error) = result {
            let told = push_event_step(ran, c, object_of(error), EventKind::Error(error));
            lemma_push_keeps(ran, c, object_of(error), EventKind::Error(error));
            lemma_keeps_chain(m, ran, told, c);
            match consequence_of(error) {
                Consequence::CloseConnection => {
                    lemma_close_keeps(told, c);
                    lemma_keeps_chain(m, told, close_step(told, c).0, c);
                },
                Consequence::DestroyObject(id) => {
                    lemma_destroy_keeps(told, c, id, 3);
                    lemma_keeps_chain(m, told, destroy_step(told, c, id).0, c);
                },
                Consequence::ReportOnly => {},
            }
        }
    }
}

/// A request from one connection never changes another connection's objects, how many events
/// it has waiting, or whether it is open: objects are reachable only through the connection that
/// created them.
pub proof fn requests_stay_on_their_connection(
    m: CompositorModel,
    c: ConnectionId,
    request: ClientRequest,
    other: ConnectionId,
)
    requires
        connection_ids_distinct(m.connections),
        other != c,
        m.connected(other),
    ensures
        dispatch_step(m, c, request).0.connected(other),
        dispatch_step(m, c, request).0.connection(other) == m.connection(other),
{
    lemma_dispatch_keeps(m, c, request);
}

/// A request that fails with a protocol error leaves its connection closed; a closed
/// connection's requests are refused as such.
pub proof fn protocol_errors_close_the_connection(
    m: CompositorModel,
    c: ConnectionId,
    request: ClientRequest,
)
    requires
        connection_ids_distinct(m.connections),
    ensures
        dispatch_step(m, c, request).1 matches Err(error) && category_of(error)
            == ErrorCategory::Protocol ==> !dispatch_step(m, c, request).0.connected(c),
{
    lemma_dispatch_keeps(m, c, request);
}

/// A surface is hit where its content is: its area starts at its place in the scene moved by the
/// offset its current content was attached with, and is as large as the buffer that content
/// shows. A surface without a place, without content, or whose buffer is gone has no area.
pub proof fn a_surface_is_hit_where_its_content_is(m: CompositorModel, key: SurfaceKey)
    ensures
        surface_area(m, key) matches Some(area) ==> ({
            let c = key.connection;
            let id = key.object_id;
            let state = m.object(c, id)->Surface_0;
            &&& m.has_object(c, id)
            &&& m.object(c, id) is Surface
            &&& state.position matches Some(place)
            &&& state.current matches Some(content)
            &&& m.has_object(c, content.buffer)
            &&& m.object(c, content.buffer) is Buffer
            &&& area.x == place.x + content.offset.x
            &&& area.y == place.y + content.offset.y
            &&& area.width == m.object(c, content.buffer)->descriptor.size.width
            &&& area.height == m.object(c, content.buffer)->descriptor.size.height
        }),
        ({
            let c = key.connection;
            let id = key.object_id;
            let state = m.object(c, id)->Surface_0;
            &&& m.has_object(c, id)
            &&& m.connection(c).kind_of(id) == ObjectKind::Surface
            &&& m.object(c, id) is Surface
            &&& state.position matches Some(place)
            &&& state.current matches Some(content)
            &&& m.has_object(c, content.buffer)
            &&& m.connection(c).kind_of(content.buffer) == ObjectKind::Buffer
            &&& m.object(c, content.buffer) is Buffer
            &&& i32::MIN <= place.x + content.offset.x <= i32::MAX
            &&& i32::MIN <= place.y + content.offset.y <= i32::MAX
        }) ==> surface_area(m, key) is Some,
{
}

/// The pointer finds the topmost surface under it: the surface found is in the stack, its area
/// holds the point, and no surface above it has an area holding the point; when none is found,
/// no surface in the stack has an area holding the point.
pub proof fn the_pointer_finds_the_topmost_surface_under_it(m: CompositorModel, stack: Seq<SurfaceKey>, point: Point)
    ensures
        topmost_under(m, stack, point) matches Some(found) ==> exists|i: int|
            0 <= i < stack.len() && stack[i] == found && (surface_area(m, found) matches Some(area)
                && rect_contains(area, point)) && forall|j: int|
                i < j < stack.len() ==> !(#[trigger] surface_area(m, stack[j]) matches Some(other)
                    && rect_contains(other, point)),
        topmost_under(m, stack, point) is None ==> forall|j: int|
            0 <= j < stack.len() ==> !(#[trigger] surface_area(m, stack[j]) matches Some(other)
                && rect_contains(other, point)),
    decreases stack.len(),
{
    if stack.len() > 0 {
        let rest = stack.drop_last();
        the_pointer_finds_the_topmost_surface_under_it(m, rest, point);
        let top = stack.len() - 1;
        match topmost_under(m, stack, point) {
            Some(found) => {
                if surface_area(m, stack.last()) matches Some(area) && rect_contains(area, point) {
                    assert(stack[top] == found);
                } else {
                    let i = choose|i: int|
                        0 <= i < rest.len() && rest[i] == found && (surface_area(m, found) matches Some(
                            area,
                        ) && rect_contains(area, point)) && forall|j: int|
                            i < j < rest.len() ==> !(#[trigger] surface_area(m, rest[j]) matches Some(
                                other,
                            ) && rect_contains(other, point));
                    assert(stack[i] == found);
                    assert forall|j: int| i < j < stack.len() implies !(#[trigger] surface_area(
                        m,
                        stack[j],
                    ) matches Some(other) && rect_contains(other, point)) by {
                        if j < top {
                            assert(stack[j] == rest[j]);
                        }
                    }
                }
            },
            None => {
                assert forall|j: int| 0 <= j < stack.len() implies !(#[trigger] surface_area(
                    m,
                    stack[j],
                ) matches Some(other) && rect_contains(other, point)) by {
                    if j < top {
                        assert(stack[j] == rest[j]);
                    }
                }
            },
        }
    }
}

/// Replacing a live surface's state leaves a live surface with exactly that state.
proof fn lemma_surface_rewritten(base: CompositorModel, c: ConnectionId, id: ObjectId, state: SurfaceState)
    requires
        connection_ids_distinct(base.connections),
        surface_error(base, c, id) is None,
        base.connection(c).values.len() == base.connection(c).entries.len(),
    ensures
        surface_error(base.with_object(c, id, Object::Surface(state)), c, id) is None,
        surface_of(base.with_object(c, id, Object::Surface(state)), c, id) == state,
        base.with_object(c, id, Object::Surface(state)).connection(c).entries == base.connection(c).entries,
        base.with_object(c, id, Object::Surface(state)).connection(c).values.len() == base.connection(c).values.len(),
        base.with_object(c, id, Object::Surface(state)).events == base.events,
{
    let conn = base.connection(c);
    let changed = conn.with_object(id, Object::Surface(state));
    lemma_with_connection(base, c, changed);
    assert(0 <= conn.at(id) < conn.entries.len());
    assert(changed.values[conn.at(id)] == Object::Surface(state));
}

/// Handing back older buffers keeps the presenting connection's objects where they were.
proof fn lemma_release_older_keeps_own(m: CompositorModel, key: SurfaceKey, commit: CommitId, n: nat)
    requires
        connection_ids_distinct(m.connections),
    ensures
        ({
            let released = release_older_upto(m, key, commit, n);
            let c = key.connection;
            released.connected(c) ==> m.connected(c) && released.connection(c).entries == m.connection(
                c,
            ).entries && released.connection(c).values.len() == m.connection(c).values.len()
        }),
    decreases n,
{
    if n > 0 {
        let c = key.connection;
        let i = n - 1;
        let prev = release_older_upto(m, key, commit, (n - 1) as nat);
        lemma_release_older_keeps_own(m, key, commit, (n - 1) as nat);
        lemma_release_older_keeps(m, key, commit, (n - 1) as nat);
        if prev.connected(c) {
            let conn = prev.connection(c);
            if 0 <= i < conn.values.len() && i < conn.entries.len() {
                let descriptor = conn.values[i]->descriptor;
                let source = conn.values[i]->source;
                let changed = conn.with_objects(
                    conn.entries,
                    conn.values.update(i, Object::Buffer { descriptor, state: BufferState::Available, source }),
                );
                lemma_with_connection(prev, c, changed);
                lemma_push_keeps_objects(prev.with_connection(c, changed), c, conn.entries[i].0, EventKind::BufferRelease);
            }
        }
    }
}

/// A present that succeeds ends the surface's run of missed deadlines: afterwards its count of
/// consecutive misses is zero, so the next miss is the first of a new run and tells the client
/// nothing. Frames are late only after two misses with no present between them.
pub proof fn presenting_ends_a_run_of_missed_deadlines(m: CompositorModel, key: SurfaceKey, timestamp_ns: u64)
    requires
        model_ok(m),
    ensures
        ({
            let (shown, result) = present_step(m, key, timestamp_ns);
            result is Ok ==> {
                &&& surface_error(shown, key.connection, key.object_id) is None
                &&& surface_of(shown, key.connection, key.object_id).deadline_misses == 0
                &&& deadline_miss_step(shown, key).1 is Ok
                &&& deadline_miss_step(shown, key).0.events == shown.events
            }
        }),
{
    let c = key.connection;
    let id = key.object_id;
    let (shown, result) = present_step(m, key, timestamp_ns);
    if result is Ok {
        let content = surface_of(m, c, id).current->0;
        let n = m.connection(c).values.len();
        let released = release_older_upto(m, key, content.commit, n);
        lemma_release_older_keeps(m, key, content.commit, n);
        lemma_release_older_keeps_own(m, key, content.commit, n);
        let p = m.slot(c);
        assert(m.connections[p].1 == m.connection(c));
        let base = if content.frame_callback {
            let told = push_event_step(
                released,
                c,
                id,
                EventKind::FrameDone { serial: content.frame_serial, timestamp_ns },
            );
            lemma_push_keeps(released, c, id, EventKind::FrameDone { serial: content.frame_serial, timestamp_ns });
            lemma_push_keeps_objects(released, c, id, EventKind::FrameDone { serial: content.frame_serial, timestamp_ns });
            told
        } else {
            released
        };
        let now = surface_of(base, c, id);
        let state = if content.frame_callback {
            let current = match now.current {
                Some(shown_content) => Some(SurfaceContent { frame_callback: false, ..shown_content }),
                None => None,
            };
            SurfaceState { current, deadline_misses: 0, ..now }
        } else {
            SurfaceState { deadline_misses: 0, ..now }
        };
        lemma_surface_rewritten(base, c, id, state);
        assert(shown == base.with_object(c, id, Object::Surface(state)));
        let counted = shown.with_object(c, id, Object::Surface(SurfaceState { deadline_misses: 1, ..state }));
        assert(deadline_miss_step(shown, key).0 == counted);
    }
}

/// A missed deadline tells the client its frames are late exactly when it is the second miss
/// running: the count of consecutive misses goes up by one (it saturates), and only when it
/// reaches two is `FrameLate` told to the surface; every other miss tells nothing.
pub proof fn frames_are_late_at_the_second_miss_running(m: CompositorModel, key: SurfaceKey)
    requires
        model_ok(m),
        surface_error(m, key.connection, key.object_id) is None,
    ensures
        ({
            let c = key.connection;
            let id = key.object_id;
            let before = surface_of(m, c, id).deadline_misses;
            let (after, result) = deadline_miss_step(m, key);
            &&& result is Ok
            &&& before != 1 ==> after.events == m.events
            &&& before != 1 ==> surface_error(after, c, id) is None && surface_of(after, c, id).deadline_misses
                == if before == u8::MAX { before as int } else { before + 1 }
            &&& before == 1 && m.connection(c).pending_events < m.limits.max_pending_events ==> after.events
                == m.events.push(Event { connection: c, object_id: id, kind: EventKind::FrameLate })
        }),
{
    let c = key.connection;
    let id = key.object_id;
    let state = surface_of(m, c, id);
    let misses: u8 = if state.deadline_misses == u8::MAX {
        u8::MAX
    } else {
        (state.deadline_misses + 1) as u8
    };
    let p = m.slot(c);
    assert(m.connections[p].1 == m.connection(c));
    lemma_surface_rewritten(m, c, id, SurfaceState { deadline_misses: misses, ..state });
    let counted = m.with_object(c, id, Object::Surface(SurfaceState { deadline_misses: misses, ..state }));
    lemma_with_connection(m, c, m.connection(c).with_object(id, Object::Surface(SurfaceState { deadline_misses: misses, ..state })));
    assert(counted.connection(c).pending_events == m.connection(c).pending_events);
    assert(counted.limits == m.limits);
}

/// The values `entries` holds for `key`, in order.
fn entries_matching<T: Copy>(entries: &Vec<(SurfaceKey, T)>, key: SurfaceKey) -> (found: Vec<T>)
    ensures
        found@ == entries_for(entries@, key),
{
    let mut found: Vec<T> = Vec::new();
    let mut i: usize = 0;
    while i < entries.len()
        invariant
            i <= entries@.len(),
            found@ == entries_for(entries@.take(i as int), key),
        decreases entries@.len() - i,
    {
        proof {
            assert(entries@.take(i + 1).drop_last() =~= entries@.take(i as int));
        }
        let entry = entries[i];
        if entry.0 == key {
            found.push(entry.1);
        }
        i = i + 1;
    }
    proof {
        assert(entries@.take(entries@.len() as int) =~= entries@);
    }
    found
}

/// `entries` without those for `key`.
fn entries_dropping<T: Copy>(entries: &Vec<(SurfaceKey, T)>, key: SurfaceKey) -> (kept: Vec<(SurfaceKey, T)>)
    ensures
        kept@ == entries_without(entries@, key),
{
    let mut kept: Vec<(SurfaceKey, T)> = Vec::new();
    let mut i: usize = 0;
    while i < entries.len()
        invariant
            i <= entries@.len(),
            kept@ == entries_without(entries@.take(i as int), key),
        decreases entries@.len() - i,
    {
        proof {
            assert(entries@.take(i + 1).drop_last() =~= entries@.take(i as int));
        }
        let entry = entries[i];
        if entry.0 != key {
            kept.push(entry);
        }
        i = i + 1;
    }
    proof {
        assert(entries@.take(entries@.len() as int) =~= entries@);
    }
    kept
}

/// `titles` without those of windows on `connection`.
fn titles_without_connection(titles: Vec<(SurfaceKey, TitleText)>, connection: ConnectionId) -> (kept: Vec<
    (SurfaceKey, TitleText),
>)
    ensures
        titles_view(kept@) == entries_off(titles_view(titles@), connection),
{
    let ghost all = titles_view(titles@);
    let mut rest = titles;
    let mut kept: Vec<(SurfaceKey, TitleText)> = Vec::new();
    let ghost mut n: int = 0;
    while rest.len() > 0
        invariant
            0 <= n <= all.len(),
            titles_view(rest@) == all.skip(n),
            titles_view(kept@) == entries_off(all.take(n), connection),
        decreases rest@.len(),
    {
        let ghost before = rest@;
        proof {
            assert(titles_view(before).len() == before.len());
            assert(titles_view(before)[0] == (before[0].0, before[0].1@));
        }
        let entry = rest.remove(0);
        proof {
            assert(all.take(n + 1).drop_last() =~= all.take(n));
            assert(all.skip(n)[0] == all[n]);
            assert(rest@ =~= before.subrange(1, before.len() as int));
            assert(titles_view(rest@) =~= titles_view(before).subrange(1, before.len() as int));
            assert(titles_view(rest@) =~= all.skip(n + 1));
            assert(entry.0 == all[n].0 && entry.1@ == all[n].1);
        }
        let ghost kept_before = kept@;
        if entry.0.connection != connection {
            kept.push(entry);
            proof {
                assert(titles_view(kept@) =~= titles_view(kept_before).push(all[n]));
            }
        }
        proof {
            n = n + 1;
        }
    }
    proof {
        assert(all.take(n) =~= all);
    }
    kept
}

/// `entries` without those for surfaces of `connection`.
fn entries_dropping_connection<T: Copy>(entries: &Vec<(SurfaceKey, T)>, connection: ConnectionId) -> (kept: Vec<
    (SurfaceKey, T),
>)
    ensures
        kept@ == entries_off(entries@, connection),
{
    let mut kept: Vec<(SurfaceKey, T)> = Vec::new();
    let mut i: usize = 0;
    while i < entries.len()
        invariant
            i <= entries@.len(),
            kept@ == entries_off(entries@.take(i as int), connection),
        decreases entries@.len() - i,
    {
        proof {
            assert(entries@.take(i + 1).drop_last() =~= entries@.take(i as int));
        }
        let entry = entries[i];
        if entry.0.connection != connection {
            kept.push(entry);
        }
        i = i + 1;
    }
    proof {
        assert(entries@.take(entries@.len() as int) =~= entries@);
    }
    kept
}

impl CompositorState {
    /// Connection identifiers are distinct and below the next one to be issued, and every
    /// connection's registry is well formed.
    pub closed spec fn wf(&self) -> bool {
        &&& connection_ids_distinct(self@.connections)
        &&& forall|i: int|
            0 <= i < self.connections@.len() ==> (#[trigger] self.connections@[i]).0.0
                < self.next_connection
        &&& forall|i: int| 0 <= i < self.connections@.len() ==> (#[trigger] self.connections@[i]).1.registry.wf()
    }

    /// A well-formed state's model keeps identifiers distinct and a value for every object.
    pub proof fn lemma_model(&self)
        requires
            self.wf(),
        ensures
            model_ok(self@),
    {
        assert forall|i: int| 0 <= i < self@.connections.len() implies ids_distinct(
            (#[trigger] self@.connections[i]).1.entries,
        ) && self@.connections[i].1.entries.len() == self@.connections[i].1.values.len() by {
            assert(self@.connections[i].1 == model_of(self.connections@[i].1));
            self.connections@[i].1.registry.lemma_wf();
        }
    }

    /// The connection at `k` as the model sees it.
    proof fn lemma_at(&self, c: ConnectionId, k: int)
        requires
            self.wf(),
            0 <= k < self.connections@.len(),
            self.connections@[k].0 == c,
        ensures
            self@.connected(c),
            self@.slot(c) == k,
            self@.connection(c) == model_of(self.connections@[k].1),
            self.connections@[k].1.registry.wf(),
    {
        lemma_slot(self@, c, k);
    }

    /// A compositor with no connections. It can always offer surface creation and buffer
    /// import, whatever else the backend offers.
    pub fn new(
        server_capabilities: CapabilitySet,
        server_limits: ServerLimits,
        limits: ConnectionLimits,
    ) -> (state: CompositorState)
        ensures
            state.wf(),
            state@.server_capabilities == server_capabilities.added(Capability::SurfaceCreate).added(
                Capability::BufferImport,
            ),
            forall|c: Capability|
                #[trigger] state@.server_capabilities.has(c) == (server_capabilities.has(c) || c
                    == Capability::SurfaceCreate || c == Capability::BufferImport),
            state@.server_limits == server_limits,
            state@.limits == limits,
            state@.next_connection == 1,
            state@.next_commit == 1,
            state@.connections.len() == 0,
            state@.stack.len() == 0,
            state@.keyboard_focus is None,
            state@.pointer_target is None,
            state@.pending_damage.len() == 0,
            state@.shown_damage.len() == 0,
            state@.toplevels.len() == 0,
            state@.next_handle == 1,
            state@.titles.len() == 0,
            state@.globals.len() == 0,
            state@.next_global == 1,
            state@.events.len() == 0,
    {
        let offered = server_capabilities.with(Capability::SurfaceCreate).with(
            Capability::BufferImport,
        );
        let state = CompositorState {
            server_capabilities: offered,
            server_limits,
            limits,
            globals: Vec::new(),
            next_global: 1,
            next_connection: 1,
            next_commit: 1,
            connections: Vec::new(),
            stack: Vec::new(),
            keyboard_focus: None,
            pointer_target: None,
            pending_damage: Vec::new(),
            shown_damage: Vec::new(),
            toplevels: Vec::new(),
            next_handle: 1,
            titles: Vec::new(),
            events: Vec::new(),
        };
        proof {
            assert(state@.connections =~= Seq::<(ConnectionId, ConnectionModel)>::empty());
        }
        state
    }

    /// Where connection `c` is kept.
    fn find_connection(&self, c: ConnectionId) -> (found: Option<usize>)
        requires
            self.wf(),
        ensures
            match found {
                Some(k) => k < self.connections@.len() && self@.connected(c) && self@.slot(c)
                    == k as int && self.connections@[k as int].0 == c && self@.connection(c)
                    == model_of(self.connections@[k as int].1),
                None => !self@.connected(c),
            },
    {
        let mut k: usize = 0;
        while k < self.connections.len()
            invariant
                self.wf(),
                k <= self.connections@.len(),
                self@.connections.len() == self.connections@.len(),
                forall|i: int| 0 <= i < k ==> #[trigger] self@.connections[i].0 != c,
            decreases self.connections@.len() - k,
        {
            proof {
                assert(self@.connections[k as int].0 == self.connections@[k as int].0);
            }
            if self.connections[k].0 == c {
                proof {
                    self.lemma_at(c, k as int);
                }
                return Some(k);
            }
            k = k + 1;
        }
        None
    }

    pub fn is_connected(&self, connection: ConnectionId) -> (connected: bool)
        requires
            self.wf(),
        ensures
            connected == self@.connected(connection),
    {
        self.find_connection(connection).is_some()
    }

    /// Put connection `k` back after it was taken out to change what it holds.
    fn reinsert(
        &mut self,
        k: usize,
        id: ConnectionId,
        conn: Connection,
        Ghost(previous): Ghost<Seq<(ConnectionId, Connection)>>,
    )
        requires
            k < previous.len(),
            old(self).connections@ == previous.remove(k as int),
            previous[k as int].0 == id,
            conn.registry.wf(),
            connection_ids_distinct(models_of(previous)),
            forall|i: int| 0 <= i < previous.len() ==> (#[trigger] previous[i]).0.0 < old(self).next_connection
                && previous[i].1.registry.wf(),
        ensures
            final(self).wf(),
            final(self).connections@ == previous.update(k as int, (id, conn)),
            final(self)@.connections == models_of(previous).update(k as int, (id, model_of(conn))),
            final(self).next_connection == old(self).next_connection,
            final(self).next_commit == old(self).next_commit,
            final(self).events@ == old(self).events@,
            final(self).stack@ == old(self).stack@,
            final(self).keyboard_focus == old(self).keyboard_focus,
            final(self).pointer_target == old(self).pointer_target,
            final(self).pending_damage@ == old(self).pending_damage@,
            final(self).shown_damage@ == old(self).shown_damage@,
            final(self).toplevels@ == old(self).toplevels@,
            final(self).next_handle == old(self).next_handle,
            final(self).titles@ == old(self).titles@,
            final(self).globals@ == old(self).globals@,
            final(self).next_global == old(self).next_global,
            final(self).limits == old(self).limits,
            final(self).server_limits == old(self).server_limits,
            final(self).server_capabilities == old(self).server_capabilities,
    {
        self.connections.insert(k, (id, conn));
        proof {
            assert(self.connections@ =~= previous.update(k as int, (id, conn)));
            assert(self@.connections =~= models_of(previous).update(k as int, (id, model_of(conn))));
            let conns = self@.connections;
            assert forall|i: int, j: int| 0 <= i < j < conns.len() implies #[trigger] conns[i].0
                != #[trigger] conns[j].0 by {
                assert(conns[i].0 == models_of(previous)[i].0);
                assert(conns[j].0 == models_of(previous)[j].0);
            }
            assert forall|i: int| 0 <= i < self.connections@.len() implies (
            #[trigger] self.connections@[i]).0.0 < self.next_connection
                && self.connections@[i].1.registry.wf() by {
                if i != k {
                    assert(self.connections@[i] == previous[i]);
                }
            }
        }
    }

    /// Replace the object `c` holds under `id`.
    fn set_object(&mut self, connection: ConnectionId, id: ObjectId, value: Object)
        requires
            old(self).wf(),
            old(self)@.has_object(connection, id),
        ensures
            final(self).wf(),
            final(self)@ == old(self)@.with_object(connection, id, value),
    {
        let k = self.find_connection(connection).unwrap();
        let ghost previous = self.connections@;
        let ghost start = self@;
        let (cid, mut client) = self.connections.remove(k);
        client.registry.set_value(id, value);
        self.reinsert(k, cid, client, Ghost(previous));
        proof {
            assert(model_of(client) == start.connection(connection).with_object(id, value));
            lemma_replaced(start, self@, connection, k as int, model_of(client));
        }
    }

    /// Replace the object at position `i` of connection `c`.
    fn set_object_at(&mut self, connection: ConnectionId, i: usize, value: Object)
        requires
            old(self).wf(),
            old(self)@.connected(connection),
            i < old(self)@.connection(connection).entries.len(),
        ensures
            final(self).wf(),
            final(self)@ == old(self)@.with_connection(
                connection,
                old(self)@.connection(connection).with_objects(
                    old(self)@.connection(connection).entries,
                    old(self)@.connection(connection).values.update(i as int, value),
                ),
            ),
    {
        let k = self.find_connection(connection).unwrap();
        let ghost previous = self.connections@;
        let ghost start = self@;
        let (cid, mut client) = self.connections.remove(k);
        client.registry.set_value_at(i, value);
        self.reinsert(k, cid, client, Ghost(previous));
        proof {
            lemma_replaced(start, self@, connection, k as int, model_of(client));
        }
    }

    /// Accept a connection.
    ///
    /// What it is offered is what both ends can offer, plus surface creation and buffer import,
    /// which every connection has. It is refused when that leaves out something it requires,
    /// when the compositor already holds its limit of connections, or when connection
    /// identifiers are exhausted, in that order. It starts out holding the default grants and the
    /// backend facts it was offered (shared memory, GPU buffers, explicit fences, revocable
    /// seats); anything more a policy authority grants later.
    pub fn connect(&mut self, client_capabilities: CapabilitySet, required: CapabilitySet) -> (result:
        Result<ConnectionId, NegotiationError>)
        requires
            old(self).wf(),
        ensures
            final(self).wf(),
            !negotiates(old(self)@.server_capabilities, client_capabilities, required) ==> (
            result matches Err(NegotiationError::UnsupportedCapabilities { required: r, available: a })
                && r == required && forall|c: Capability|
                #[trigger] a.has(c) == offered(old(self)@.server_capabilities, client_capabilities, c)),
            negotiates(old(self)@.server_capabilities, client_capabilities, required)
                && old(self)@.connections.len() >= old(self)@.server_limits.max_connections ==> result
                == Err::<ConnectionId, NegotiationError>(
                NegotiationError::ConnectionLimitReached {
                    limit: old(self)@.server_limits.max_connections,
                },
            ),
            negotiates(old(self)@.server_capabilities, client_capabilities, required)
                && old(self)@.connections.len() < old(self)@.server_limits.max_connections
                && old(self)@.next_connection == u64::MAX ==> result == Err::<
                ConnectionId,
                NegotiationError,
            >(NegotiationError::ConnectionIdExhausted),
            negotiates(old(self)@.server_capabilities, client_capabilities, required)
                && old(self)@.connections.len() < old(self)@.server_limits.max_connections
                && old(self)@.next_connection < u64::MAX ==> result is Ok,
            result is Err ==> final(self)@ == old(self)@,
            result matches Ok(id) ==> {
                let conn = final(self)@.connections.last().1;
                &&& id == ConnectionId(old(self)@.next_connection)
                &&& !old(self)@.connected(id)
                &&& final(self)@ == (CompositorModel {
                    next_connection: (old(self)@.next_connection + 1) as u64,
                    connections: old(self)@.connections.push((id, conn)),
                    ..old(self)@
                })
                &&& conn.pending_events == 0
                &&& conn.entries == seq![(ObjectId(DISPLAY_OBJECT), ObjectKind::Display)]
                &&& conn.values == seq![Object::Display]
                &&& conn.used == set![ObjectId(DISPLAY_OBJECT)]
                &&& conn.session is None
                &&& forall|c: Capability|
                    #[trigger] conn.available.has(c) == offered(
                        old(self)@.server_capabilities,
                        client_capabilities,
                        c,
                    )
                &&& forall|c: Capability|
                    #[trigger] conn.capabilities.has(c) == (offered(
                        old(self)@.server_capabilities,
                        client_capabilities,
                        c,
                    ) && granted_at_connect(c))
            },
    {
        let available = self.server_capabilities.intersection(client_capabilities).with(
            Capability::SurfaceCreate,
        ).with(Capability::BufferImport);
        if !available.satisfies(required) {
            return Err(NegotiationError::UnsupportedCapabilities { required, available });
        }
        if self.connections.len() >= self.server_limits.max_connections {
            return Err(
                NegotiationError::ConnectionLimitReached { limit: self.server_limits.max_connections },
            );
        }
        if self.next_connection == u64::MAX {
            return Err(NegotiationError::ConnectionIdExhausted);
        }
        let mut capabilities = available.intersection(CapabilitySet::default_grants());
        if available.contains(Capability::SoftwareShm) {
            capabilities = capabilities.with(Capability::SoftwareShm);
        }
        if available.contains(Capability::GpuPrime) {
            capabilities = capabilities.with(Capability::GpuPrime);
        }
        if available.contains(Capability::ExplicitGpuFence) {
            capabilities = capabilities.with(Capability::ExplicitGpuFence);
        }
        if available.contains(Capability::RevocableSeat) {
            capabilities = capabilities.with(Capability::RevocableSeat);
        }
        let id = ConnectionId(self.next_connection);
        let ghost before = self@.connections;
        proof {
            assert(!self@.connected(id)) by {
                if self@.connected(id) {
                    let i = choose|i: int| 0 <= i < before.len() && #[trigger] before[i].0 == id;
                    assert(self.connections@[i].0 == before[i].0);
                }
            }
        }
        self.next_connection = self.next_connection + 1;
        let registry = ObjectRegistry::new(Object::Display);
        let connection = Connection {
            pending_events: 0,
            session: None,
            available,
            capabilities,
            registry,
        };
        self.connections.push((id, connection));
        proof {
            let conns = self@.connections;
            assert(conns =~= before.push((id, model_of(connection))));
            assert forall|i: int, j: int| 0 <= i < j < conns.len() implies #[trigger] conns[i].0
                != #[trigger] conns[j].0 by {
                if j == before.len() {
                    assert(conns[i].0 == self.connections@[i].0);
                    assert(self.connections@[i] == old(self).connections@[i]);
                } else {
                    assert(conns[i] == before[i] && conns[j] == before[j]);
                }
            }
            assert forall|i: int| 0 <= i < self.connections@.len() implies (
            #[trigger] self.connections@[i]).0.0 < self.next_connection && self.connections@[i].1.registry.wf() by {
                if i < before.len() {
                    assert(self.connections@[i] == old(self).connections@[i]);
                }
            }
        }
        Ok(id)
    }

    /// Close a connection: what it holds is destroyed newest first, its surfaces leave the scene
    /// and it loses keyboard focus.
    pub fn close_connection(&mut self, connection: ConnectionId) -> (teardown: Teardown)
        requires
            old(self).wf(),
        ensures
            final(self).wf(),
            (final(self)@, teardown.destroyed@) == close_step(old(self)@, connection),
            !final(self)@.connected(connection),
    {
        match self.find_connection(connection) {
            None => {
                let destroyed: Vec<(ObjectId, ObjectKind)> = Vec::new();
                proof {
                    assert(destroyed@ =~= Seq::<(ObjectId, ObjectKind)>::empty());
                }
                Teardown { destroyed }
            },
            Some(k) => {
                let ghost before = self@;
                let (_, mut client) = self.connections.remove(k);
                let teardown = client.registry.tear_down();
                let mut kept: Vec<SurfaceKey> = Vec::new();
                let mut i: usize = 0;
                while i < self.stack.len()
                    invariant
                        i <= self.stack@.len(),
                        self.stack@ == before.stack,
                        kept@ == without_connection(before.stack.take(i as int), connection),
                    decreases self.stack@.len() - i,
                {
                    proof {
                        assert(before.stack.take(i + 1).drop_last() =~= before.stack.take(i as int));
                    }
                    let key = self.stack[i];
                    if key.connection != connection {
                        kept.push(key);
                    }
                    i = i + 1;
                }
                proof {
                    assert(before.stack.take(before.stack.len() as int) =~= before.stack);
                }
                self.stack = kept;
                match self.keyboard_focus {
                    Some(key) => {
                        if key.connection == connection {
                            self.keyboard_focus = None;
                        }
                    },
                    None => {},
                }
                match self.pointer_target {
                    Some(key) => {
                        if key.connection == connection {
                            self.pointer_target = None;
                        }
                    },
                    None => {},
                }
                self.pending_damage = entries_dropping_connection(&self.pending_damage, connection);
                self.shown_damage = entries_dropping_connection(&self.shown_damage, connection);
                self.toplevels = entries_dropping_connection(&self.toplevels, connection);
                let mut taken: Vec<(SurfaceKey, TitleText)> = Vec::new();
                std::mem::swap(&mut taken, &mut self.titles);
                self.titles = titles_without_connection(taken, connection);
                proof {
                    let entries = before.connection(connection).entries;
                    assert(teardown.destroyed@ =~= entries.reverse());
                    assert(self@.connections =~= before.connections.remove(k as int));
                    let conns = self@.connections;
                    assert forall|i: int, j: int| 0 <= i < j < conns.len() implies #[trigger] conns[i].0
                        != #[trigger] conns[j].0 by {
                        let a = if i < k { i } else { i + 1 };
                        let b = if j < k { j } else { j + 1 };
                        assert(conns[i] == before.connections[a] && conns[j] == before.connections[b]);
                    }
                    assert forall|i: int| 0 <= i < self.connections@.len() implies (
                    #[trigger] self.connections@[i]).0.0 < self.next_connection
                        && self.connections@[i].1.registry.wf() by {
                        let a = if i < k { i } else { i + 1 };
                        assert(self.connections@[i] == old(self).connections@[a]);
                    }
                    assert(!self@.connected(connection)) by {
                        if self@.connected(connection) {
                            let i = choose|i: int| 0 <= i < conns.len() && #[trigger] conns[i].0 == connection;
                            let a = if i < k { i } else { i + 1 };
                            assert(conns[i] == before.connections[a]);
                            assert(before.connections[k as int].0 == connection);
                        }
                    }
                }
                teardown
            },
        }
    }

    /// Queue an event for a connection. A connection whose queue is full is not reading: it is
    /// told why, bypassing the bound, and closed.
    fn push_event(&mut self, connection: ConnectionId, object_id: ObjectId, kind: EventKind)
        requires
            old(self).wf(),
        ensures
            final(self).wf(),
            final(self)@ == push_event_step(old(self)@, connection, object_id, kind),
    {
        match self.find_connection(connection) {
            None => {},
            Some(k) => {
                let pending = self.connections[k].1.pending_events;
                if pending >= self.limits.max_pending_events {
                    self.events.push(
                        Event {
                            connection,
                            object_id: ObjectId(DISPLAY_OBJECT),
                            kind: EventKind::Error(StateError::EventQueueOverflow { queued: pending }),
                        },
                    );
                    proof {
                        let ghost queued = Event {
                            connection,
                            object_id: ObjectId(DISPLAY_OBJECT),
                            kind: EventKind::Error(StateError::EventQueueOverflow { queued: pending }),
                        };
                        assert(self@ == old(self)@.with_event(queued));
                        lemma_slot(self@, connection, k as int);
                    }
                    let _ = self.close_connection(connection);
                } else {
                    let ghost previous = self.connections@;
                    let ghost start = self@;
                    let (cid, mut client) = self.connections.remove(k);
                    client.pending_events = pending + 1;
                    self.reinsert(k, cid, client, Ghost(previous));
                    proof {
                        lemma_replaced(start, self@, connection, k as int, model_of(client));
                    }
                    self.events.push(Event { connection, object_id, kind });
                }
            },
        }
    }

    /// Hand over every queued event and reset each connection's count of undrained ones.
    pub fn take_events(&mut self) -> (events: Vec<Event>)
        requires
            old(self).wf(),
        ensures
            final(self).wf(),
            events@ == old(self)@.events,
            final(self)@ == (CompositorModel {
                connections: drained(old(self)@.connections),
                events: Seq::empty(),
                ..old(self)@
            }),
    {
        let mut drained_connections: Vec<(ConnectionId, Connection)> = Vec::new();
        let n = self.connections.len();
        let ghost original = self.connections@;
        while self.connections.len() > 0
            invariant
                self.connections@.len() + drained_connections@.len() == n,
                n == original.len(),
                self.connections@ == original.subrange(drained_connections@.len() as int, n as int),
                self.events@ == old(self).events@,
                self.next_connection == old(self).next_connection,
                self.next_commit == old(self).next_commit,
                self.stack@ == old(self).stack@,
                self.keyboard_focus == old(self).keyboard_focus,
                self.pointer_target == old(self).pointer_target,
                self.pending_damage@ == old(self).pending_damage@,
                self.shown_damage@ == old(self).shown_damage@,
                self.toplevels@ == old(self).toplevels@,
                self.next_handle == old(self).next_handle,
                self.titles@ == old(self).titles@,
                self.globals@ == old(self).globals@,
                self.next_global == old(self).next_global,
                self.limits == old(self).limits,
                self.server_limits == old(self).server_limits,
                self.server_capabilities == old(self).server_capabilities,
                original == old(self).connections@,
                old(self).wf(),
                forall|i: int|
                    0 <= i < drained_connections@.len() ==> (#[trigger] drained_connections@[i]).0
                        == original[i].0 && drained_connections@[i].1.pending_events == 0
                        && drained_connections@[i].1.registry == original[i].1.registry
                        && drained_connections@[i].1.session == original[i].1.session
                        && drained_connections@[i].1.available == original[i].1.available
                        && drained_connections@[i].1.capabilities == original[i].1.capabilities,
            decreases self.connections@.len(),
        {
            let (id, mut client) = self.connections.remove(0);
            proof {
                assert(original[drained_connections@.len() as int] == (id, client));
            }
            client.pending_events = 0;
            drained_connections.push((id, client));
            proof {
                assert(self.connections@ =~= original.subrange(drained_connections@.len() as int, n as int));
            }
        }
        self.connections = drained_connections;
        let mut events: Vec<Event> = Vec::new();
        std::mem::swap(&mut events, &mut self.events);
        proof {
            assert(self@.connections =~= drained(old(self)@.connections)) by {
                assert forall|i: int| 0 <= i < self@.connections.len() implies #[trigger] self@.connections[i]
                    == drained(old(self)@.connections)[i] by {
                    assert(self.connections@[i].0 == original[i].0);
                    assert(model_of(self.connections@[i].1) == model_of(original[i].1).with_pending(0));
                }
            }
            let conns = self@.connections;
            assert forall|i: int, j: int| 0 <= i < j < conns.len() implies #[trigger] conns[i].0
                != #[trigger] conns[j].0 by {
                assert(conns[i].0 == old(self)@.connections[i].0);
                assert(conns[j].0 == old(self)@.connections[j].0);
            }
            assert forall|i: int| 0 <= i < self.connections@.len() implies (
            #[trigger] self.connections@[i]).0.0 < self.next_connection
                && self.connections@[i].1.registry.wf() by {
                assert(self.connections@[i].0 == original[i].0);
                assert(self.connections@[i].1.registry == original[i].1.registry);
                assert(original[i].1.registry.wf());
                assert(original[i].0.0 < self.next_connection);
            }
        }
        events
    }

    /// Create an object on a connection, within its object quota.
    fn allocate_client(&mut self, connection: ConnectionId, id: ObjectId, kind: ObjectKind, value: Object) -> (result: Result<
        (),
        StateError,
    >)
        requires
            old(self).wf(),
        ensures
            final(self).wf(),
            (final(self)@, result) == allocate_step(old(self)@, connection, id, kind, value),
    {
        let k = match self.find_connection(connection) {
            Some(k) => k,
            None => return Err(StateError::ConnectionClosed),
        };
        if self.connections[k].1.registry.len() >= self.limits.max_objects {
            return Err(StateError::QuotaExceeded { object_id: id });
        }
        let ghost previous = self.connections@;
        let ghost start = self@;
        let (cid, mut client) = self.connections.remove(k);
        let outcome = client.registry.allocate_client(id, kind, value);
        self.reinsert(k, cid, client, Ghost(previous));
        let result: Result<(), StateError> = match outcome {
            Ok(_) => Ok(()),
            Err(error) => Err(error),
        };
        proof {
            lemma_replaced(start, self@, connection, k as int, model_of(client));
            if result is Err {
                assert(model_of(client) == start.connection(connection));
                assert(self@.connections =~= start.connections);
            }
        }
        result
    }

    /// Take an object out of its connection, tell the client, then retire its identifier.
    fn remove_object(&mut self, connection: ConnectionId, id: ObjectId, kind: ObjectKind)
        requires
            old(self).wf(),
        ensures
            final(self).wf(),
            final(self)@ == remove_object_step(old(self)@, connection, id, kind),
            !final(self)@.has_object(connection, id),
    {
        let k = match self.find_connection(connection) {
            Some(k) => k,
            None => return,
        };
        if self.connections[k].1.registry.kind_of(id).is_none() {
            return;
        }
        let ghost previous = self.connections@;
        let ghost start = self@;
        let (cid, mut client) = self.connections.remove(k);
        let _ = client.registry.remove(id);
        self.reinsert(k, cid, client, Ghost(previous));
        proof {
            lemma_replaced(start, self@, connection, k as int, model_of(client));
            previous[k as int].1.registry.lemma_wf();
            lemma_removed_is_gone(start.connection(connection).entries, id);
        }
        let ghost removed = self@;
        self.push_event(connection, id, EventKind::ObjectDestroyed(kind));
        let ghost first = self@;
        self.push_event(connection, id, EventKind::IdRetired);
        proof {
            lemma_push_keeps_objects(removed, connection, id, EventKind::ObjectDestroyed(kind));
            lemma_push_keeps_objects(first, connection, id, EventKind::IdRetired);
        }
        match self.find_connection(connection) {
            None => {},
            Some(k2) => {
                let ghost previous2 = self.connections@;
                let ghost told = self@;
                let (cid2, mut client2) = self.connections.remove(k2);
                client2.registry.retire(id);
                self.reinsert(k2, cid2, client2, Ghost(previous2));
                proof {
                    lemma_replaced(told, self@, connection, k2 as int, model_of(client2));
                }
            },
        }
    }

    /// The object `c` holds under `id`.
    fn object_value(&self, connection: ConnectionId, id: ObjectId) -> (value: Object)
        requires
            self.wf(),
            self@.has_object(connection, id),
        ensures
            value == self@.object(connection, id),
    {
        let k = self.find_connection(connection).unwrap();
        *self.connections[k].1.registry.get(id).unwrap()
    }

    /// The error a request naming `id` as an object of `expected` kind earns, if any.
    fn kind_check(&self, connection: ConnectionId, id: ObjectId, expected: ObjectKind) -> (error: Option<StateError>)
        requires
            self.wf(),
        ensures
            error == kind_error(self@, connection, id, expected),
    {
        match self.find_connection(connection) {
            None => Some(StateError::ConnectionClosed),
            Some(k) => match self.connections[k].1.registry.kind_of(id) {
                None => Some(StateError::InvalidObject { object_id: id }),
                Some(actual) => if actual != expected {
                    Some(StateError::WrongObjectType { object_id: id, expected, actual })
                } else {
                    None
                },
            },
        }
    }

    /// The error a request naming a surface earns, if any.
    fn surface_check(&self, connection: ConnectionId, id: ObjectId) -> (error: Option<StateError>)
        requires
            self.wf(),
        ensures
            error == surface_error(self@, connection, id),
            error is None ==> self@.has_object(connection, id),
    {
        match self.kind_check(connection, id, ObjectKind::Surface) {
            Some(error) => Some(error),
            None => match self.object_value(connection, id) {
                Object::Surface(_) => None,
                _ => Some(StateError::InvalidState { object_id: id }),
            },
        }
    }

    /// The error a connection lacking `capability` earns for a request naming `id`, if any.
    fn capability_check(&self, connection: ConnectionId, id: ObjectId, capability: Capability) -> (error: Option<StateError>)
        requires
            self.wf(),
        ensures
            error == lacks(self@, connection, id, capability),
    {
        match self.find_connection(connection) {
            None => Some(StateError::ConnectionClosed),
            Some(k) => if !self.connections[k].1.capabilities.contains(capability) {
                Some(StateError::UnsupportedCapability { object_id: id, capability })
            } else {
                None
            },
        }
    }

    /// The error a surface of `session` earns when the session, or its seat, is not active.
    fn session_check(&self, connection: ConnectionId, session: ObjectId) -> (error: Option<StateError>)
        requires
            self.wf(),
        ensures
            error == session_error(self@, connection, session),
    {
        match self.kind_check(connection, session, ObjectKind::Session) {
            Some(error) => Some(error),
            None => match self.object_value(connection, session) {
                Object::Session { seat, active } => if !active {
                    Some(StateError::InvalidState { object_id: session })
                } else {
                    match seat {
                        None => None,
                        Some(seat_id) => match self.kind_check(connection, seat_id, ObjectKind::Seat) {
                            Some(error) => Some(error),
                            None => match self.object_value(connection, seat_id) {
                                Object::Seat { active: seat_active, .. } => if !seat_active {
                                    Some(StateError::InvalidState { object_id: session })
                                } else {
                                    None
                                },
                                _ => Some(StateError::InvalidState { object_id: seat_id }),
                            },
                        },
                    }
                },
                _ => Some(StateError::InvalidState { object_id: session }),
            },
        }
    }

    /// The error creating another object of `kind` earns, if any.
    fn quota_check(&self, connection: ConnectionId, kind: ObjectKind) -> (error: Option<StateError>)
        requires
            self.wf(),
        ensures
            error == quota_error(self@, connection, kind),
    {
        match self.find_connection(connection) {
            None => Some(StateError::ConnectionClosed),
            Some(k) => {
                let count = self.connections[k].1.registry.count_kind(kind);
                let limit = match kind {
                    ObjectKind::Surface => self.limits.max_surfaces,
                    ObjectKind::Buffer => if self.limits.max_buffers <= self.limits.max_imported_handles {
                        self.limits.max_buffers
                    } else {
                        self.limits.max_imported_handles
                    },
                    ObjectKind::ShmPool => self.limits.max_imported_handles,
                    ObjectKind::Toplevel => self.limits.max_surfaces,
                    _ => self.limits.max_objects,
                };
                if count >= limit {
                    Some(StateError::QuotaExceeded { object_id: ObjectId(DISPLAY_OBJECT) })
                } else {
                    None
                }
            },
        }
    }

    /// What depends on the object of `kind` that `c` holds under `id`, newest first.
    fn dependents(&self, connection: ConnectionId, id: ObjectId, kind: ObjectKind) -> (ids: Vec<ObjectId>)
        requires
            self.wf(),
            self@.connected(connection),
        ensures
            ids@ == newest_where(
                self@.connection(connection).entries,
                self@.connection(connection).values,
                dependent_pick(kind, id),
            ),
    {
        let k = self.find_connection(connection).unwrap();
        let registry = &self.connections[k].1.registry;
        proof {
            registry.lemma_wf();
        }
        let n = registry.len();
        let ghost entries = registry.entries();
        let ghost values = registry.values();
        let ghost pick = dependent_pick(kind, id);
        let mut ids: Vec<ObjectId> = Vec::new();
        let mut i: usize = n;
        while i > 0
            invariant
                i <= n,
                n == entries.len(),
                entries.len() == values.len(),
                entries == registry.entries(),
                values == registry.values(),
                pick == dependent_pick(kind, id),
                ids@ == newest_where(entries.subrange(i as int, n as int), values.subrange(i as int, n as int), pick),
            decreases i,
        {
            i = i - 1;
            let (entry_id, entry_kind) = registry.entry_at(i);
            let value = *registry.value_at(i);
            let picked = if kind == ObjectKind::Seat {
                entry_kind == ObjectKind::Session && match value {
                    Object::Session { seat: Some(s), .. } => s == id,
                    _ => false,
                }
            } else if kind == ObjectKind::Session {
                entry_kind == ObjectKind::Surface && match value {
                    Object::Surface(s) => s.session == id,
                    _ => false,
                }
            } else {
                entry_kind == ObjectKind::Surface && match value {
                    Object::Surface(s) => s.pending_fence == Some(id) || match s.current {
                        Some(content) => content.acquire_fence == Some(id),
                        None => false,
                    },
                    _ => false,
                }
            };
            proof {
                let es = entries.subrange(i as int, n as int);
                let vs = values.subrange(i as int, n as int);
                assert(es.drop_first() =~= entries.subrange(i + 1, n as int));
                assert(vs.drop_first() =~= values.subrange(i + 1, n as int));
                assert(es[0] == (entry_id, entry_kind));
                assert(vs[0] == value);
                assert(picked == pick(entry_kind, value));
            }
            if picked {
                ids.push(entry_id);
            }
        }
        proof {
            assert(entries.subrange(0, n as int) =~= entries);
            assert(values.subrange(0, n as int) =~= values);
        }
        ids
    }

    /// Hand back the buffer at position `i` of `c` if it is tied to `key`.
    fn release_one(&mut self, connection: ConnectionId, key: SurfaceKey, i: usize)
        requires
            old(self).wf(),
        ensures
            final(self).wf(),
            final(self)@ == release_at(old(self)@, connection, key, i as int),
    {
        let k = match self.find_connection(connection) {
            Some(k) => k,
            None => return,
        };
        proof {
            self.connections@[k as int].1.registry.lemma_wf();
        }
        if i >= self.connections[k].1.registry.len() {
            return;
        }
        let (entry_id, entry_kind) = self.connections[k].1.registry.entry_at(i);
        let value = *self.connections[k].1.registry.value_at(i);
        match value {
            Object::Buffer { descriptor, state, source } => {
                let tied = match state {
                    BufferState::Pending { surface } => surface == key,
                    BufferState::CompositorHeld { surface, .. } => surface == key,
                    BufferState::Available => false,
                };
                if entry_kind == ObjectKind::Buffer && tied {
                    self.set_object_at(
                        connection,
                        i,
                        Object::Buffer { descriptor, state: BufferState::Available, source },
                    );
                    self.push_event(connection, entry_id, EventKind::BufferRelease);
                }
            },
            _ => {},
        }
    }

    /// Hand back, among the first `n` objects of `c`, every buffer tied to `key`, oldest first.
    fn release_tied(&mut self, connection: ConnectionId, key: SurfaceKey, n: usize)
        requires
            old(self).wf(),
        ensures
            final(self).wf(),
            final(self)@ == release_upto(old(self)@, connection, key, n as nat),
    {
        let ghost start = self@;
        let mut i: usize = 0;
        while i < n
            invariant
                self.wf(),
                i <= n,
                self@ == release_upto(start, connection, key, i as nat),
            decreases n - i,
        {
            self.release_one(connection, key, i);
            i = i + 1;
        }
    }

    /// Hand back the buffer at position `i` if it is held for `key` under a commit older than
    /// `commit`.
    fn release_older_one(&mut self, key: SurfaceKey, commit: CommitId, i: usize)
        requires
            old(self).wf(),
        ensures
            final(self).wf(),
            final(self)@ == release_older_at(old(self)@, key, commit, i as int),
    {
        let connection = key.connection;
        let k = match self.find_connection(connection) {
            Some(k) => k,
            None => return,
        };
        proof {
            self.connections@[k as int].1.registry.lemma_wf();
        }
        if i >= self.connections[k].1.registry.len() {
            return;
        }
        let (entry_id, entry_kind) = self.connections[k].1.registry.entry_at(i);
        let value = *self.connections[k].1.registry.value_at(i);
        match value {
            Object::Buffer { descriptor, state: BufferState::CompositorHeld { surface, commit: held }, source } => {
                if entry_kind == ObjectKind::Buffer && surface == key && held.0 < commit.0 {
                    self.set_object_at(
                        connection,
                        i,
                        Object::Buffer { descriptor, state: BufferState::Available, source },
                    );
                    self.push_event(connection, entry_id, EventKind::BufferRelease);
                }
            },
            _ => {},
        }
    }

    /// Hand back, among the first `n` objects, every buffer held for `key` under an older commit.
    fn release_older(&mut self, key: SurfaceKey, commit: CommitId, n: usize)
        requires
            old(self).wf(),
        ensures
            final(self).wf(),
            final(self)@ == release_older_upto(old(self)@, key, commit, n as nat),
    {
        let ghost start = self@;
        let mut i: usize = 0;
        while i < n
            invariant
                self.wf(),
                i <= n,
                self@ == release_older_upto(start, key, commit, i as nat),
            decreases n - i,
        {
            self.release_older_one(key, commit, i);
            i = i + 1;
        }
    }

    /// Forget `buffer` in the first `n` objects of `c`.
    fn forget_buffer(&mut self, connection: ConnectionId, buffer: ObjectId, n: usize)
        requires
            old(self).wf(),
        ensures
            final(self).wf(),
            final(self)@ == forget_buffer_upto(old(self)@, connection, buffer, n as nat),
    {
        let ghost start = self@;
        let mut i: usize = 0;
        while i < n
            invariant
                self.wf(),
                i <= n,
                self@ == forget_buffer_upto(start, connection, buffer, i as nat),
            decreases n - i,
        {
            match self.find_connection(connection) {
                None => {},
                Some(k) => {
                    proof {
                        self.connections@[k as int].1.registry.lemma_wf();
                    }
                    if i < self.connections[k].1.registry.len() {
                        let value = *self.connections[k].1.registry.value_at(i);
                        let stripped = match value {
                            Object::Surface(s) => Object::Surface(
                                SurfaceState {
                                    pending: match s.pending {
                                        PendingAttachment::Attach(b, _) => if b == buffer {
                                            PendingAttachment::Unchanged
                                        } else {
                                            s.pending
                                        },
                                        _ => s.pending,
                                    },
                                    current: match s.current {
                                        Some(content) => if content.buffer == buffer {
                                            None
                                        } else {
                                            s.current
                                        },
                                        None => None,
                                    },
                                    ..s
                                },
                            ),
                            _ => value,
                        };
                        proof {
                            assert(stripped == without_buffer(value, buffer));
                        }
                        self.set_object_at(connection, i, stripped);
                    }
                },
            }
            i = i + 1;
        }
    }

    /// What goes with a surface: the buffers it holds are handed back, it leaves the scene, and
    /// it loses keyboard focus, which its client is told.
    fn surface_teardown(&mut self, connection: ConnectionId, id: ObjectId)
        requires
            old(self).wf(),
            old(self)@.connected(connection),
        ensures
            final(self).wf(),
            final(self)@ == surface_teardown(old(self)@, connection, id),
    {
        let key = SurfaceKey { connection, object_id: id };
        let k = self.find_connection(connection).unwrap();
        let n = self.connections[k].1.registry.len();
        proof {
            self.connections@[k as int].1.registry.lemma_wf();
        }
        self.release_tied(connection, key, n);
        let ghost released = self@;
        let mut kept: Vec<SurfaceKey> = Vec::new();
        let mut i: usize = 0;
        while i < self.stack.len()
            invariant
                i <= self.stack@.len(),
                self.stack@ == released.stack,
                kept@ == without_surface(released.stack.take(i as int), key),
            decreases self.stack@.len() - i,
        {
            proof {
                assert(released.stack.take(i + 1).drop_last() =~= released.stack.take(i as int));
            }
            let entry = self.stack[i];
            if entry != key {
                kept.push(entry);
            }
            i = i + 1;
        }
        proof {
            assert(released.stack.take(released.stack.len() as int) =~= released.stack);
        }
        self.stack = kept;
        if self.keyboard_focus == Some(key) {
            self.push_event(connection, id, EventKind::KeyboardLeave);
            self.keyboard_focus = None;
        }
        if self.pointer_target == Some(key) {
            self.pointer_target = None;
        }
        self.pending_damage = entries_dropping(&self.pending_damage, key);
        self.shown_damage = entries_dropping(&self.shown_damage, key);
    }

    /// Destroy an object and what depends on it.
    fn destroy_with(&mut self, connection: ConnectionId, id: ObjectId, fuel: u8) -> (gone: Vec<(ObjectId, ObjectKind)>)
        requires
            old(self).wf(),
        ensures
            final(self).wf(),
            (final(self)@, gone@) == destroy_with(old(self)@, connection, id, fuel as nat),
            !final(self)@.has_object(connection, id),
        decreases fuel,
    {
        let k = match self.find_connection(connection) {
            Some(k) => k,
            None => return Vec::new(),
        };
        let kind = match self.connections[k].1.registry.kind_of(id) {
            Some(kind) => kind,
            None => return Vec::new(),
        };
        let ghost start = self@;
        let mut gone: Vec<(ObjectId, ObjectKind)> = Vec::new();
        if (kind == ObjectKind::Session || kind == ObjectKind::Seat || kind == ObjectKind::Fence) && fuel
            > 0 {
            let ids = self.dependents(connection, id, kind);
            let mut i: usize = 0;
            while i < ids.len()
                invariant
                    self.wf(),
                    i <= ids@.len(),
                    fuel > 0,
                    (self@, gone@) == destroy_all(start, connection, ids@.take(i as int), (fuel - 1) as nat),
                decreases ids@.len() - i,
            {
                proof {
                    assert(ids@.take(i + 1).drop_last() =~= ids@.take(i as int));
                }
                let mut more = self.destroy_with(connection, ids[i], fuel - 1);
                gone.append(&mut more);
                i = i + 1;
            }
            proof {
                assert(ids@.take(ids@.len() as int) =~= ids@);
            }
        } else if kind == ObjectKind::Surface {
            self.surface_teardown(connection, id);
            proof {
                assert(gone@ =~= Seq::<(ObjectId, ObjectKind)>::empty());
            }
        } else if kind == ObjectKind::Buffer {
            let n = self.connections[k].1.registry.len();
            proof {
                self.connections@[k as int].1.registry.lemma_wf();
            }
            self.forget_buffer(connection, id, n);
            proof {
                assert(gone@ =~= Seq::<(ObjectId, ObjectKind)>::empty());
            }
        } else if kind == ObjectKind::Toplevel {
            self.forget_toplevel(SurfaceKey { connection, object_id: id });
            proof {
                assert(gone@ =~= Seq::<(ObjectId, ObjectKind)>::empty());
            }
        } else {
            proof {
                assert(gone@ =~= Seq::<(ObjectId, ObjectKind)>::empty());
            }
        }
        let still = match self.find_connection(connection) {
            None => false,
            Some(k2) => self.connections[k2].1.registry.kind_of(id).is_some(),
        };
        if still {
            self.remove_object(connection, id, kind);
            gone.push((id, kind));
        }
        gone
    }

    /// Destroy an object with everything that depends on it, reporting what went.
    fn destroy_object(&mut self, connection: ConnectionId, id: ObjectId) -> (gone: Vec<(ObjectId, ObjectKind)>)
        requires
            old(self).wf(),
        ensures
            final(self).wf(),
            (final(self)@, gone@) == destroy_step(old(self)@, connection, id),
            !final(self)@.has_object(connection, id),
    {
        self.destroy_with(connection, id, 3)
    }

    fn create_surface(&mut self, connection: ConnectionId, new_id: ObjectId) -> (result: Result<(), StateError>)
        requires
            old(self).wf(),
        ensures
            final(self).wf(),
            (final(self)@, result) == create_surface_step(old(self)@, connection, new_id),
    {
        if let Some(error) = self.capability_check(connection, new_id, Capability::SurfaceCreate) {
            return Err(error);
        }
        let k = self.find_connection(connection).unwrap();
        let session = match self.connections[k].1.session {
            None => return Err(StateError::InvalidState { object_id: new_id }),
            Some(session) => session,
        };
        if let Some(error) = self.session_check(connection, session) {
            return Err(error);
        }
        if let Some(error) = self.quota_check(connection, ObjectKind::Surface) {
            return Err(error);
        }
        let state = SurfaceState {
            session,
            role: None,
            pending: PendingAttachment::Unchanged,
            pending_fence: None,
            pending_refresh: None,
            frame_requested: false,
            frame_serial: 0,
            deadline_misses: 0,
            current: None,
            position: None,
        };
        self.allocate_client(connection, new_id, ObjectKind::Surface, Object::Surface(state))
    }

    fn import_buffer(&mut self, connection: ConnectionId, new_id: ObjectId, descriptor: BufferDescriptor) -> (result: Result<(), StateError>)
        requires
            old(self).wf(),
        ensures
            final(self).wf(),
            (final(self)@, result) == import_buffer_step(old(self)@, connection, new_id, descriptor),
    {
        if let Some(error) = self.capability_check(connection, new_id, Capability::BufferImport) {
            return Err(error);
        }
        let transport = match descriptor.transport {
            BufferTransport::SoftwareShm => Capability::SoftwareShm,
            BufferTransport::GpuPrime => Capability::GpuPrime,
        };
        if let Some(error) = self.capability_check(connection, new_id, transport) {
            return Err(error);
        }
        if !descriptor.is_structurally_valid() {
            return Err(StateError::InvalidState { object_id: new_id });
        }
        if let Some(error) = self.quota_check(connection, ObjectKind::Buffer) {
            return Err(error);
        }
        self.allocate_client(
            connection,
            new_id,
            ObjectKind::Buffer,
            Object::Buffer { descriptor, state: BufferState::Available, source: None },
        )
    }

    fn create_pool(&mut self, connection: ConnectionId, new_id: ObjectId, memory: SharedMemory) -> (result: Result<
        (),
        StateError,
    >)
        requires
            old(self).wf(),
        ensures
            final(self).wf(),
            (final(self)@, result) == create_pool_step(old(self)@, connection, new_id, memory),
    {
        if let Some(error) = self.capability_check(connection, new_id, Capability::BufferImport) {
            return Err(error);
        }
        if let Some(error) = self.quota_check(connection, ObjectKind::ShmPool) {
            return Err(error);
        }
        self.allocate_client(connection, new_id, ObjectKind::ShmPool, Object::ShmPool(memory))
    }

    fn create_buffer(
        &mut self,
        connection: ConnectionId,
        new_id: ObjectId,
        pool: ObjectId,
        offset: u32,
        size: Size,
        stride: u32,
        format: u32,
    ) -> (result: Result<(), StateError>)
        requires
            old(self).wf(),
        ensures
            final(self).wf(),
            (final(self)@, result) == create_buffer_step(old(self)@, connection, new_id, pool, offset, size, stride, format),
    {
        if let Some(error) = self.capability_check(connection, new_id, Capability::BufferImport) {
            return Err(error);
        }
        let kind = match self.object_kind(connection, pool) {
            None => return Err(StateError::InvalidObject { object_id: pool }),
            Some(kind) => kind,
        };
        let memory = match self.object_value(connection, pool) {
            Object::ShmPool(memory) => memory,
            _ => {
                return Err(
                    StateError::WrongObjectType { object_id: pool, expected: ObjectKind::ShmPool, actual: kind },
                )
            },
        };
        assert((stride as u64) * (size.height as u64) <= u64::MAX) by (nonlinear_arith)
            requires
                stride <= u32::MAX,
                size.height <= u32::MAX,
        ;
        let byte_len: u64 = (stride as u64) * (size.height as u64);
        let descriptor = BufferDescriptor { transport: BufferTransport::SoftwareShm, size, stride, byte_len };
        if !descriptor.is_structurally_valid() || !pixel_format_is_known(format) {
            return Err(StateError::InvalidState { object_id: new_id });
        }
        let end = match (offset as u64).checked_add(byte_len) {
            None => return Err(StateError::InvalidState { object_id: new_id }),
            Some(end) => end,
        };
        if end > memory.size() {
            return Err(StateError::InvalidState { object_id: new_id });
        }
        if let Some(error) = self.quota_check(connection, ObjectKind::Buffer) {
            return Err(error);
        }
        self.allocate_client(
            connection,
            new_id,
            ObjectKind::Buffer,
            Object::Buffer {
                descriptor,
                state: BufferState::Available,
                source: Some(BufferSource { memory, offset, descriptor }),
            },
        )
    }

    fn attach(
        &mut self,
        connection: ConnectionId,
        surface: ObjectId,
        buffer: ObjectId,
        offset: Point,
        acquire_fence: Option<ObjectId>,
    ) -> (result: Result<(), StateError>)
        requires
            old(self).wf(),
        ensures
            final(self).wf(),
            (final(self)@, result) == attach_step(old(self)@, connection, surface, buffer, offset, acquire_fence),
    {
        let key = SurfaceKey { connection, object_id: surface };
        if let Some(error) = self.kind_check(connection, surface, ObjectKind::Surface) {
            return Err(error);
        }
        if let Some(error) = self.surface_check(connection, surface) {
            return Err(error);
        }
        let state = match self.object_value(connection, surface) {
            Object::Surface(state) => state,
            _ => return Err(StateError::InvalidState { object_id: surface }),
        };
        if state.pending != PendingAttachment::Unchanged {
            return Err(StateError::InvalidState { object_id: surface });
        }
        if buffer.0 == NULL_OBJECT {
            if acquire_fence.is_some() {
                return Err(StateError::InvalidState { object_id: surface });
            }
            self.set_object(
                connection,
                surface,
                Object::Surface(SurfaceState { pending: PendingAttachment::Detach, ..state }),
            );
            return Ok(());
        }
        if let Some(error) = self.kind_check(connection, buffer, ObjectKind::Buffer) {
            return Err(error);
        }
        match acquire_fence {
            None => {},
            Some(fence) => {
                if let Some(error) = self.capability_check(connection, surface, Capability::ExplicitGpuFence) {
                    return Err(error);
                }
                if let Some(error) = self.kind_check(connection, fence, ObjectKind::Fence) {
                    return Err(error);
                }
            },
        }
        match self.object_value(connection, buffer) {
            Object::Buffer { descriptor, state: buffer_state, source } => {
                if buffer_state != BufferState::Available {
                    return Err(StateError::InvalidState { object_id: buffer });
                }
                self.set_object(
                    connection,
                    buffer,
                    Object::Buffer { descriptor, state: BufferState::Pending { surface: key }, source },
                );
                proof {
                    lemma_with_connection(old(self)@, connection, old(self)@.connection(connection).with_object(buffer, Object::Buffer { descriptor, state: BufferState::Pending { surface: key }, source }));
                }
                self.set_object(
                    connection,
                    surface,
                    Object::Surface(
                        SurfaceState {
                            pending: PendingAttachment::Attach(buffer, offset),
                            pending_fence: acquire_fence,
                            ..state
                        },
                    ),
                );
                Ok(())
            },
            _ => Err(StateError::InvalidState { object_id: buffer }),
        }
    }

    fn set_buffer_state(&mut self, connection: ConnectionId, buffer: ObjectId, state: BufferState) -> (result: Result<(), StateError>)
        requires
            old(self).wf(),
        ensures
            final(self).wf(),
            (final(self)@, result) == set_buffer_state_step(old(self)@, connection, buffer, state),
    {
        if let Some(error) = self.kind_check(connection, buffer, ObjectKind::Buffer) {
            return Err(error);
        }
        match self.object_value(connection, buffer) {
            Object::Buffer { descriptor, source, .. } => {
                self.set_object(connection, buffer, Object::Buffer { descriptor, state, source });
                Ok(())
            },
            _ => Err(StateError::InvalidState { object_id: buffer }),
        }
    }

    /// Whether the scene holds `key`.
    fn in_scene(&self, key: SurfaceKey) -> (found: bool)
        ensures
            found == self@.stack.contains(key),
    {
        let mut i: usize = 0;
        while i < self.stack.len()
            invariant
                i <= self.stack@.len(),
                forall|j: int| 0 <= j < i ==> self.stack@[j] != key,
            decreases self.stack@.len() - i,
        {
            if self.stack[i] == key {
                proof {
                    assert(self.stack@[i as int] == key);
                }
                return true;
            }
            i = i + 1;
        }
        false
    }

    /// Take `key` out of the scene.
    fn unstack(&mut self, key: SurfaceKey)
        ensures
            final(self)@ == old(self)@.with_stack(without_surface(old(self)@.stack, key)),
            final(self).connections@ == old(self).connections@,
            final(self).next_connection == old(self).next_connection,
    {
        let ghost before = self.stack@;
        let mut kept: Vec<SurfaceKey> = Vec::new();
        let mut i: usize = 0;
        while i < self.stack.len()
            invariant
                i <= self.stack@.len(),
                self.stack@ == before,
                kept@ == without_surface(before.take(i as int), key),
            decreases self.stack@.len() - i,
        {
            proof {
                assert(before.take(i + 1).drop_last() =~= before.take(i as int));
            }
            let entry = self.stack[i];
            if entry != key {
                kept.push(entry);
            }
            i = i + 1;
        }
        proof {
            assert(before.take(before.len() as int) =~= before);
        }
        self.stack = kept;
    }

    /// Put a surface that has content into the scene.
    fn map_surface(&mut self, connection: ConnectionId, surface: ObjectId)
        requires
            old(self).wf(),
            old(self)@.has_object(connection, surface),
            old(self)@.object(connection, surface) is Surface,
        ensures
            final(self).wf(),
            final(self)@ == map_step(old(self)@, connection, surface),
    {
        let key = SurfaceKey { connection, object_id: surface };
        if self.in_scene(key) {
            return;
        }
        match self.object_value(connection, surface) {
            Object::Surface(state) => {
                if state.position.is_none() {
                    self.set_object(
                        connection,
                        surface,
                        Object::Surface(SurfaceState { position: Some(Point { x: 0, y: 0 }), ..state }),
                    );
                }
            },
            _ => {},
        }
        self.stack.push(key);
    }

    fn commit(&mut self, connection: ConnectionId, surface: ObjectId) -> (result: Result<(), StateError>)
        requires
            old(self).wf(),
        ensures
            final(self).wf(),
            (final(self)@, result) == commit_step(old(self)@, connection, surface),
    {
        match self.commit_core(connection, surface) {
            Err(error) => Err(error),
            Ok(()) => {
                let key = SurfaceKey { connection, object_id: surface };
                let shows = if self.surface_check(connection, surface).is_some() {
                    false
                } else {
                    match self.object_value(connection, surface) {
                        Object::Surface(state) => state.current.is_some(),
                        _ => false,
                    }
                };
                let rects = entries_matching(&self.pending_damage, key);
                let mut shown = entries_dropping(&self.shown_damage, key);
                if shows {
                    if rects.len() == 0 {
                        shown.push((key, Damage::Full));
                        proof {
                            assert(shown@ =~= entries_without(old(self)@.shown_damage, key) + seq![(key, Damage::Full)]);
                        }
                    } else {
                        let ghost kept = shown@;
                        let mut j: usize = 0;
                        while j < rects.len()
                            invariant
                                j <= rects@.len(),
                                shown@ == kept + rects@.take(j as int).map_values(|rect: Rect| (key, Damage::Rect(rect))),
                            decreases rects@.len() - j,
                        {
                            proof {
                                assert(rects@.take(j + 1).map_values(|rect: Rect| (key, Damage::Rect(rect))) =~= rects@.take(
                                    j as int,
                                ).map_values(|rect: Rect| (key, Damage::Rect(rect))).push((key, Damage::Rect(rects@[j as int]))));
                            }
                            shown.push((key, Damage::Rect(rects[j])));
                            j = j + 1;
                        }
                        proof {
                            assert(rects@.take(rects@.len() as int) =~= rects@);
                        }
                    }
                }
                self.pending_damage = entries_dropping(&self.pending_damage, key);
                self.shown_damage = shown;
                Ok(())
            },
        }
    }

    fn commit_core(&mut self, connection: ConnectionId, surface: ObjectId) -> (result: Result<(), StateError>)
        requires
            old(self).wf(),
        ensures
            final(self).wf(),
            (final(self)@, result) == commit_core(old(self)@, connection, surface),
    {
        let key = SurfaceKey { connection, object_id: surface };
        if self.next_commit == u64::MAX {
            return Err(StateError::QuotaExceeded { object_id: surface });
        }
        if let Some(error) = self.surface_check(connection, surface) {
            return Err(error);
        }
        let state = match self.object_value(connection, surface) {
            Object::Surface(state) => state,
            _ => return Err(StateError::InvalidState { object_id: surface }),
        };
        let ghost start = self@;
        proof {
            self.lemma_model();
        }
        match state.pending {
            PendingAttachment::Detach => match state.current {
                None => {
                    self.set_object(
                        connection,
                        surface,
                        Object::Surface(SurfaceState { pending: PendingAttachment::Unchanged, pending_fence: None, pending_refresh: None, ..state }),
                    );
                    Ok(())
                },
                Some(content) => {
                    match self.set_buffer_state(connection, content.buffer, BufferState::Available) {
                        Err(error) => return Err(error),
                        Ok(()) => {},
                    }
                    self.push_event(connection, content.buffer, EventKind::BufferRelease);
                    if let Some(error) = self.surface_check(connection, surface) {
                        return Err(error);
                    }
                    let now = match self.object_value(connection, surface) {
                        Object::Surface(now) => now,
                        _ => return Err(StateError::InvalidState { object_id: surface }),
                    };
                    let ghost pre = self@;
                    self.set_object(
                        connection,
                        surface,
                        Object::Surface(SurfaceState { current: None, ..now }),
                    );
                    let ghost gone = self@;
                    proof {
                        lemma_with_connection(
                            pre,
                            connection,
                            pre.connection(connection).with_object(surface, Object::Surface(SurfaceState { current: None, ..now })),
                        );
                    }
                    self.unstack(key);
                    proof {
                        assert(self@.connections == gone.connections);
                        lemma_with_connection(gone, connection, gone.connection(connection));
                    }
                    let again = match self.object_value(connection, surface) {
                        Object::Surface(again) => again,
                        _ => return Err(StateError::InvalidState { object_id: surface }),
                    };
                    self.set_object(
                        connection,
                        surface,
                        Object::Surface(SurfaceState { pending: PendingAttachment::Unchanged, pending_fence: None, pending_refresh: None, ..again }),
                    );
                    Ok(())
                },
            },
            _ => {
                let carried = match state.pending {
                    PendingAttachment::Attach(buffer, offset) => Some((buffer, offset)),
                    _ => match state.current {
                        Some(content) => Some((content.buffer, content.offset)),
                        None => None,
                    },
                };
                match carried {
                    None => {
                        self.set_object(
                            connection,
                            surface,
                            Object::Surface(SurfaceState { pending: PendingAttachment::Unchanged, pending_fence: None, pending_refresh: None, ..state }),
                        );
                        Ok(())
                    },
                    Some((buffer, offset)) => {
                        let commit = CommitId(self.next_commit);
                        let refresh_range = match state.pending_refresh {
                            Some(range) => Some(range),
                            None => match state.current {
                                Some(content) => content.refresh_range,
                                None => None,
                            },
                        };
                        self.set_object(
                            connection,
                            surface,
                            Object::Surface(SurfaceState { pending: PendingAttachment::Unchanged, pending_fence: None, pending_refresh: None, frame_requested: false, ..state }),
                        );
                        self.next_commit = self.next_commit + 1;
                        let ghost taken = self@;
                        proof {
                            lemma_with_connection(start, connection, start.connection(connection).with_object(surface, Object::Surface(taken_up(state))));
                        }
                        match self.set_buffer_state(
                            connection,
                            buffer,
                            BufferState::CompositorHeld { surface: key, commit },
                        ) {
                            Err(error) => return Err(error),
                            Ok(()) => {},
                        }
                        proof {
                            lemma_with_object_other(taken, connection, buffer, surface);
                        }
                        let now = match self.object_value(connection, surface) {
                            Object::Surface(now) => now,
                            _ => return Err(StateError::InvalidState { object_id: surface }),
                        };
                        let shown_value = Object::Surface(
                            SurfaceState {
                                current: Some(
                                    SurfaceContent {
                                        buffer,
                                        offset,
                                        commit,
                                        acquire_fence: state.pending_fence,
                                        refresh_range,
                                        frame_callback: state.frame_requested,
                                        frame_serial: state.frame_serial,
                                    },
                                ),
                                ..now
                            },
                        );
                        let ghost pre = self@;
                        self.set_object(connection, surface, shown_value);
                        proof {
                            lemma_with_connection(
                                pre,
                                connection,
                                pre.connection(connection).with_object(surface, shown_value),
                            );
                        }
                        self.map_surface(connection, surface);
                        Ok(())
                    },
                }
            },
        }
    }

    fn set_role(&mut self, connection: ConnectionId, surface: ObjectId, role: SurfaceRole) -> (result: Result<(), StateError>)
        requires
            old(self).wf(),
        ensures
            final(self).wf(),
            (final(self)@, result) == set_role_step(old(self)@, connection, surface, role),
    {
        if let Some(error) = self.surface_check(connection, surface) {
            return Err(error);
        }
        let state = match self.object_value(connection, surface) {
            Object::Surface(state) => state,
            _ => return Err(StateError::InvalidState { object_id: surface }),
        };
        match state.role {
            None => {
                self.set_object(
                    connection,
                    surface,
                    Object::Surface(SurfaceState { role: Some(role), ..state }),
                );
                Ok(())
            },
            Some(existing) => if existing == role {
                Ok(())
            } else {
                Err(StateError::InvalidState { object_id: surface })
            },
        }
    }

    /// Where the title of `key` is kept, searching from the newest.
    fn title_index(&self, key: SurfaceKey) -> (index: Option<usize>)
        ensures
            self@.titles.len() == self.titles@.len(),
            index matches Some(i) ==> i < self.titles@.len(),
            match index {
                Some(i) => title_at(self@.titles, key) == Some(i as int),
                None => title_at(self@.titles, key) is None,
            },
    {
        let mut i = self.titles.len();
        proof {
            assert(self@.titles.take(i as int) =~= self@.titles);
        }
        while i > 0
            invariant
                i <= self.titles@.len(),
                self@.titles.len() == self.titles@.len(),
                title_at(self@.titles, key) == title_at(self@.titles.take(i as int), key),
            decreases i,
        {
            proof {
                assert(self@.titles.take(i as int).drop_last() =~= self@.titles.take(i - 1));
                assert(self@.titles.take(i as int).last() == self@.titles[i - 1]);
            }
            i = i - 1;
            if self.titles[i].0 == key {
                return Some(i);
            }
        }
        proof {
            assert(self@.titles.take(0) =~= Seq::<(SurfaceKey, Seq<char>)>::empty());
        }
        None
    }

    /// Let go of a window's handle and title.
    fn forget_toplevel(&mut self, key: SurfaceKey)
        requires
            old(self).wf(),
        ensures
            final(self).wf(),
            final(self)@ == forget_toplevel(old(self)@, key),
    {
        self.toplevels = entries_dropping(&self.toplevels, key);
        match self.title_index(key) {
            Some(i) => {
                let ghost before = self.titles@;
                let _ = self.titles.remove(i);
                proof {
                    assert(titles_view(self.titles@) =~= titles_view(before).remove(i as int));
                }
            },
            None => {},
        }
    }

    fn get_toplevel(&mut self, connection: ConnectionId, surface: ObjectId, new_id: ObjectId) -> (result: Result<
        (),
        StateError,
    >)
        requires
            old(self).wf(),
        ensures
            final(self).wf(),
            (final(self)@, result) == get_toplevel_step(old(self)@, connection, surface, new_id),
    {
        if let Some(error) = self.kind_check(connection, surface, ObjectKind::Surface) {
            return Err(error);
        }
        let k = self.find_connection(connection).unwrap();
        let n = self.connections[k].1.registry.len();
        proof {
            self.connections@[k as int].1.registry.lemma_wf();
            self.lemma_at(connection, k as int);
        }
        let ghost start = self@;
        let mut i: usize = 0;
        while i < n
            invariant
                self.wf(),
                self@ == start,
                start == old(self)@,
                kind_error(start, connection, surface, ObjectKind::Surface) is None,
                0 <= k < self.connections@.len(),
                self.connections@[k as int].0 == connection,
                n == self@.connection(connection).values.len(),
                i <= n,
                forall|j: int| 0 <= j < i ==> !(#[trigger] self@.connection(connection).values[j] matches Object::Toplevel(t) && t.surface == surface),
            decreases n - i,
        {
            proof {
                self.lemma_at(connection, k as int);
                self.connections@[k as int].1.registry.lemma_wf();
            }
            let value = *self.connections[k].1.registry.value_at(i);
            proof {
                assert(self@.connection(connection).values[i as int] == value);
            }
            match value {
                Object::Toplevel(t) => {
                    if t.surface == surface {
                        proof {
                            assert(has_toplevel_for(self@.connection(connection), surface));
                        }
                        return Err(StateError::InvalidState { object_id: surface });
                    }
                },
                _ => {},
            }
            i = i + 1;
        }
        if let Some(error) = self.quota_check(connection, ObjectKind::Toplevel) {
            return Err(error);
        }
        if self.next_handle == u64::MAX {
            return Err(StateError::QuotaExceeded { object_id: new_id });
        }
        let handle = self.next_handle;
        self.next_handle = self.next_handle + 1;
        let value = Object::Toplevel(ToplevelState { surface, minimum: None, maximum: None, handle });
        match self.allocate_client(connection, new_id, ObjectKind::Toplevel, value) {
            Err(error) => Err(error),
            Ok(()) => {
                let key = SurfaceKey { connection, object_id: new_id };
                self.toplevels.push((key, handle));
                let ghost before = self.titles@;
                self.titles.push((key, TitleText::default()));
                proof {
                    assert(titles_view(self.titles@) =~= titles_view(before).push((key, Seq::<char>::empty())));
                }
                Ok(())
            },
        }
    }

    fn toplevel_check(&self, connection: ConnectionId, toplevel: ObjectId) -> (error: Option<StateError>)
        requires
            self.wf(),
        ensures
            error == toplevel_error(self@, connection, toplevel),
    {
        let k = match self.find_connection(connection) {
            None => return Some(StateError::ConnectionClosed),
            Some(k) => k,
        };
        let kind = match self.connections[k].1.registry.kind_of(toplevel) {
            None => return Some(StateError::InvalidObject { object_id: toplevel }),
            Some(kind) => kind,
        };
        proof {
            self.lemma_at(connection, k as int);
        }
        match self.object_value(connection, toplevel) {
            Object::Toplevel(_) => None,
            _ => Some(StateError::WrongObjectType { object_id: toplevel, expected: ObjectKind::Toplevel, actual: kind }),
        }
    }

    fn set_title(&mut self, connection: ConnectionId, toplevel: ObjectId, title: TitleText) -> (result: Result<
        (),
        StateError,
    >)
        requires
            old(self).wf(),
        ensures
            final(self).wf(),
            (final(self)@, result) == set_title_step(old(self)@, connection, toplevel, title@),
    {
        if let Some(error) = self.toplevel_check(connection, toplevel) {
            return Err(error);
        }
        let key = SurfaceKey { connection, object_id: toplevel };
        let ghost before = self.titles@;
        let ghost seen = title@;
        match self.title_index(key) {
            Some(i) => {
                self.titles.set(i, (key, title));
                proof {
                    assert(titles_view(self.titles@) =~= titles_view(before).update(i as int, (key, seen)));
                }
            },
            None => {
                self.titles.push((key, title));
                proof {
                    assert(titles_view(self.titles@) =~= titles_view(before).push((key, seen)));
                }
            },
        }
        Ok(())
    }

    fn set_bound(&mut self, connection: ConnectionId, toplevel: ObjectId, size: Size, largest: bool) -> (result: Result<
        (),
        StateError,
    >)
        requires
            old(self).wf(),
        ensures
            final(self).wf(),
            (final(self)@, result) == set_bound_step(old(self)@, connection, toplevel, size, largest),
    {
        if let Some(error) = self.toplevel_check(connection, toplevel) {
            return Err(error);
        }
        let state = match self.object_value(connection, toplevel) {
            Object::Toplevel(state) => state,
            _ => return Err(StateError::InvalidState { object_id: toplevel }),
        };
        let bounded = if largest {
            ToplevelState { maximum: Some(size), ..state }
        } else {
            ToplevelState { minimum: Some(size), ..state }
        };
        self.set_object(connection, toplevel, Object::Toplevel(bounded));
        Ok(())
    }

    /// Ask a window to close. It goes when its client destroys it.
    pub fn close_toplevel(&mut self, connection: ConnectionId, toplevel: ObjectId) -> (result: Result<(), StateError>)
        requires
            old(self).wf(),
        ensures
            final(self).wf(),
            (final(self)@, result) == close_toplevel_step(old(self)@, connection, toplevel),
    {
        if let Some(error) = self.kind_check(connection, toplevel, ObjectKind::Toplevel) {
            return Err(error);
        }
        self.push_event(connection, toplevel, EventKind::Close);
        Ok(())
    }

    /// Every window that exists, in the order their handles were issued, as a shell refers to
    /// them: a shell starting for the first time and one replacing a shell that died are handed
    /// the same list.
    pub fn shell_toplevels(&self) -> (records: Vec<ToplevelRecord>)
        requires
            self.wf(),
        ensures
            records@.len() == windows_upto(self@, self@.toplevels.len()).len(),
            forall|i: int| 0 <= i < records@.len() ==> {
                let (handle, key, title) = #[trigger] windows_upto(self@, self@.toplevels.len())[i];
                &&& records@[i].handle == handle
                &&& records@[i].connection == key.connection
                &&& records@[i].object_id == key.object_id
                &&& records@[i].title@ == title
            },
    {
        let mut records: Vec<ToplevelRecord> = Vec::new();
        let mut i: usize = 0;
        while i < self.toplevels.len()
            invariant
                self.wf(),
                i <= self@.toplevels.len(),
                self@.toplevels == self.toplevels@,
                records@.len() == windows_upto(self@, i as nat).len(),
                forall|j: int| 0 <= j < records@.len() ==> {
                    let (handle, key, title) = #[trigger] windows_upto(self@, i as nat)[j];
                    &&& records@[j].handle == handle
                    &&& records@[j].connection == key.connection
                    &&& records@[j].object_id == key.object_id
                    &&& records@[j].title@ == title
                },
            decreases self@.toplevels.len() - i,
        {
            let (key, handle) = self.toplevels[i];
            if self.toplevel_check(key.connection, key.object_id).is_none() {
                let title = match self.title_index(key) {
                    Some(t) => {
                        proof {
                            assert(self@.titles[t as int] == (self.titles@[t as int].0, self.titles@[t as int].1@));
                        }
                        self.titles[t].1.as_str().to_owned()
                    },
                    None => String::new(),
                };
                records.push(ToplevelRecord { handle, connection: key.connection, object_id: key.object_id, title });
            }
            i = i + 1;
        }
        records
    }

    /// The handle a shell names a window by.
    pub fn toplevel_handle(&self, connection: ConnectionId, toplevel: ObjectId) -> (handle: Option<u64>)
        requires
            self.wf(),
        ensures
            handle == (if toplevel_error(self@, connection, toplevel) is None {
                Some(self@.object(connection, toplevel)->Toplevel_0.handle)
            } else {
                None
            }),
    {
        if self.toplevel_check(connection, toplevel).is_some() {
            return None;
        }
        match self.object_value(connection, toplevel) {
            Object::Toplevel(state) => Some(state.handle),
            _ => None,
        }
    }

    /// The title a window has set, for a shell that shows it.
    pub fn toplevel_title(&self, connection: ConnectionId, toplevel: ObjectId) -> (title: Option<&str>)
        requires
            self.wf(),
        ensures
            title is Some <==> (toplevel_error(self@, connection, toplevel) is None && title_at(
                self@.titles,
                SurfaceKey { connection, object_id: toplevel },
            ) is Some),
            title matches Some(text) ==> text@ == self@.titles[title_at(
                self@.titles,
                SurfaceKey { connection, object_id: toplevel },
            )->0].1,
    {
        if self.toplevel_check(connection, toplevel).is_some() {
            return None;
        }
        match self.title_index(SurfaceKey { connection, object_id: toplevel }) {
            Some(i) => {
                proof {
                    assert(self@.titles[i as int] == (self.titles@[i as int].0, self.titles@[i as int].1@));
                }
                Some(self.titles[i].1.as_str())
            },
            None => None,
        }
    }

    fn damage(&mut self, connection: ConnectionId, surface: ObjectId, rect: Rect) -> (result: Result<(), StateError>)
        requires
            old(self).wf(),
        ensures
            final(self).wf(),
            (final(self)@, result) == damage_step(old(self)@, connection, surface, rect),
    {
        if rect.width == 0 || rect.height == 0 {
            return Err(StateError::InvalidState { object_id: surface });
        }
        if let Some(error) = self.surface_check(connection, surface) {
            return Err(error);
        }
        let key = SurfaceKey { connection, object_id: surface };
        let staged = entries_matching(&self.pending_damage, key);
        if staged.len() >= self.limits.max_damage_rects_per_commit {
            return Err(StateError::QuotaExceeded { object_id: surface });
        }
        self.pending_damage.push((key, rect));
        Ok(())
    }

    /// The damage a surface's current content was committed with; nothing when it shows nothing.
    pub fn surface_damage(&self, surface: SurfaceKey) -> (damage: Vec<Damage>)
        ensures
            damage@ == entries_for(self@.shown_damage, surface),
    {
        entries_matching(&self.shown_damage, surface)
    }

    fn request_frame(&mut self, connection: ConnectionId, surface: ObjectId, serial: u32) -> (result: Result<(), StateError>)
        requires
            old(self).wf(),
        ensures
            final(self).wf(),
            (final(self)@, result) == request_frame_step(old(self)@, connection, surface, serial),
    {
        if let Some(error) = self.surface_check(connection, surface) {
            return Err(error);
        }
        let state = match self.object_value(connection, surface) {
            Object::Surface(state) => state,
            _ => return Err(StateError::InvalidState { object_id: surface }),
        };
        if state.frame_requested {
            return Err(StateError::InvalidState { object_id: surface });
        }
        self.set_object(
            connection,
            surface,
            Object::Surface(SurfaceState { frame_requested: true, frame_serial: serial, ..state }),
        );
        Ok(())
    }

    fn set_refresh_range(
        &mut self,
        connection: ConnectionId,
        surface: ObjectId,
        min_hz: u32,
        max_hz: u32,
    ) -> (result: Result<(), StateError>)
        requires
            old(self).wf(),
        ensures
            final(self).wf(),
            (final(self)@, result) == set_refresh_range_step(old(self)@, connection, surface, min_hz, max_hz),
    {
        if min_hz == 0 || min_hz > max_hz {
            return Err(StateError::InvalidState { object_id: surface });
        }
        if let Some(error) = self.surface_check(connection, surface) {
            return Err(error);
        }
        let state = match self.object_value(connection, surface) {
            Object::Surface(state) => state,
            _ => return Err(StateError::InvalidState { object_id: surface }),
        };
        self.set_object(
            connection,
            surface,
            Object::Surface(SurfaceState { pending_refresh: Some(RefreshRange { min_hz, max_hz }), ..state }),
        );
        Ok(())
    }

    /// The global offered under `name`.
    fn global_named(&self, name: u32) -> (global: Option<Global>)
        ensures
            global == find_global(self@.globals, name),
    {
        let mut i = self.globals.len();
        proof {
            assert(self@.globals.take(i as int) =~= self@.globals);
        }
        while i > 0
            invariant
                i <= self.globals@.len(),
                find_global(self@.globals, name) == find_global(self@.globals.take(i as int), name),
            decreases i,
        {
            proof {
                assert(self@.globals.take(i as int).drop_last() =~= self@.globals.take(i - 1));
                assert(self@.globals.take(i as int).last() == self@.globals[i - 1]);
            }
            i = i - 1;
            if self.globals[i].0 == name {
                return Some(self.globals[i].1);
            }
        }
        proof {
            assert(self@.globals.take(0) =~= Seq::<(u32, Global)>::empty());
        }
        None
    }

    /// Tell a connection, in order, about every global offered.
    fn announce_globals(&mut self, connection: ConnectionId)
        requires
            old(self).wf(),
        ensures
            final(self).wf(),
            final(self)@ == announce_upto(old(self)@, connection, old(self)@.globals, old(self)@.globals.len()),
    {
        let ghost start = self@;
        let n = self.globals.len();
        let mut i: usize = 0;
        while i < n
            invariant
                self.wf(),
                i <= n,
                n == start.globals.len(),
                self.globals@ == start.globals,
                self@ == announce_upto(start, connection, start.globals, i as nat),
            decreases n - i,
        {
            let entry = self.globals[i];
            self.push_event(
                connection,
                ObjectId(DISPLAY_OBJECT),
                EventKind::Global { name: entry.0, interface: entry.1.interface, version: entry.1.version },
            );
            i = i + 1;
        }
    }

    fn create_registry(&mut self, connection: ConnectionId, new_id: ObjectId) -> (result: Result<(), StateError>)
        requires
            old(self).wf(),
        ensures
            final(self).wf(),
            (final(self)@, result) == create_registry_step(old(self)@, connection, new_id),
    {
        match self.allocate_client(connection, new_id, ObjectKind::Registry, Object::Registry) {
            Err(error) => Err(error),
            Ok(()) => {
                self.announce_globals(connection);
                Ok(())
            },
        }
    }

    fn bind_global(&mut self, connection: ConnectionId, name: u32, version: u32, new_id: ObjectId) -> (result:
        Result<(), StateError>)
        requires
            old(self).wf(),
        ensures
            final(self).wf(),
            (final(self)@, result) == bind_step(old(self)@, connection, name, version, new_id),
    {
        let global = match self.global_named(name) {
            None => return Err(StateError::InvalidState { object_id: new_id }),
            Some(global) => global,
        };
        if version == 0 || version > global.version {
            return Err(StateError::InvalidState { object_id: new_id });
        }
        if global.kind == ObjectKind::ShellControl {
            let held = match self.capabilities(connection) {
                Some(held) => held.contains(Capability::ShellControl),
                None => false,
            };
            if !held {
                return Err(
                    StateError::UnsupportedCapability { object_id: new_id, capability: Capability::ShellControl },
                );
            }
        }
        match self.allocate_client(connection, new_id, global.kind, Object::Global) {
            Err(error) => Err(error),
            Ok(()) => {
                if global.kind == ObjectKind::ShellControl {
                    self.push_event(connection, new_id, EventKind::ShellFocusChanged { handle: 0 });
                }
                Ok(())
            },
        }
    }

    /// Offer a global for objects of `kind`, up to `version`, under a name never used before. A
    /// kind no interface answers is not offered, and nothing is once names run out.
    pub fn advertise_global(&mut self, kind: ObjectKind, version: u32) -> (name: Option<u32>)
        requires
            old(self).wf(),
        ensures
            final(self).wf(),
            (final(self)@, name) == advertise_step(old(self)@, kind, version),
    {
        let interface = match interface_of(kind) {
            None => return None,
            Some(interface) => interface,
        };
        if self.next_global == u32::MAX {
            return None;
        }
        let name = self.next_global;
        self.globals.push((name, Global { interface, kind, version }));
        self.next_global = self.next_global + 1;
        Some(name)
    }

    /// Stop offering the global named `name`, telling every connection, oldest first. Whether it
    /// was offered is returned.
    pub fn withdraw_global(&mut self, name: u32) -> (withdrawn: bool)
        requires
            old(self).wf(),
        ensures
            final(self).wf(),
            (final(self)@, withdrawn) == withdraw_step(old(self)@, name),
    {
        if self.global_named(name).is_none() {
            return false;
        }
        let ghost start = self@;
        let mut kept: Vec<(u32, Global)> = Vec::new();
        let mut i: usize = 0;
        while i < self.globals.len()
            invariant
                i <= self.globals@.len(),
                self.globals@ == start.globals,
                kept@ == without_global(start.globals.take(i as int), name),
            decreases self.globals@.len() - i,
        {
            proof {
                assert(start.globals.take(i + 1).drop_last() =~= start.globals.take(i as int));
            }
            let entry = self.globals[i];
            if entry.0 != name {
                kept.push(entry);
            }
            i = i + 1;
        }
        proof {
            assert(start.globals.take(start.globals.len() as int) =~= start.globals);
        }
        self.globals = kept;
        let mut ids: Vec<ConnectionId> = Vec::new();
        let mut j: usize = 0;
        while j < self.connections.len()
            invariant
                j <= self.connections@.len(),
                self@.connections == start.connections,
                ids@ == connection_ids(start.connections).take(j as int),
            decreases self.connections@.len() - j,
        {
            proof {
                assert(connection_ids(start.connections).take(j + 1) =~= connection_ids(start.connections).take(
                    j as int,
                ).push(self.connections@[j as int].0));
            }
            ids.push(self.connections[j].0);
            j = j + 1;
        }
        proof {
            assert(ids@ =~= connection_ids(start.connections));
        }
        let ghost removed = self@;
        let kind = EventKind::GlobalRemove { name };
        let mut k: usize = 0;
        while k < ids.len()
            invariant
                self.wf(),
                k <= ids@.len(),
                self@ == tell_each(removed, ids@.take(k as int), kind),
            decreases ids@.len() - k,
        {
            proof {
                assert(ids@.take(k + 1).drop_last() =~= ids@.take(k as int));
            }
            self.push_event(ids[k], ObjectId(DISPLAY_OBJECT), kind);
            k = k + 1;
        }
        proof {
            assert(ids@.take(ids@.len() as int) =~= ids@);
        }
        true
    }

    /// What a request does to a live connection, before a failure is answered.
    fn dispatch_checked(&mut self, connection: ConnectionId, request: ClientRequest) -> (result: Result<
        (),
        StateError,
    >)
        requires
            old(self).wf(),
        ensures
            final(self).wf(),
            (final(self)@, result) == checked_step(old(self)@, connection, request),
    {
        match request {
            ClientRequest::CreateRegistry { new_id } => self.create_registry(connection, new_id),
            ClientRequest::Bind { name, version, new_id } => self.bind_global(connection, name, version, new_id),
            ClientRequest::CreateSurface { new_id } => self.create_surface(connection, new_id),
            ClientRequest::CreatePool { new_id, memory } => self.create_pool(connection, new_id, memory),
            ClientRequest::CreateBuffer { new_id, pool, offset, size, stride, format } => self.create_buffer(
                connection,
                new_id,
                pool,
                offset,
                size,
                stride,
                format,
            ),
            ClientRequest::ImportBuffer { new_id, descriptor } => self.import_buffer(
                connection,
                new_id,
                descriptor,
            ),
            ClientRequest::Attach { surface, buffer, offset, acquire_fence } => self.attach(
                connection,
                surface,
                buffer,
                offset,
                acquire_fence,
            ),
            ClientRequest::Commit { surface } => self.commit(connection, surface),
            ClientRequest::SetRole { surface, role } => self.set_role(connection, surface, role),
            ClientRequest::RequestFrame { surface, serial } => self.request_frame(connection, surface, serial),
            ClientRequest::Damage { surface, rect } => self.damage(connection, surface, rect),
            ClientRequest::GetToplevel { surface, new_id } => self.get_toplevel(connection, surface, new_id),
            ClientRequest::SetTitle { toplevel, title } => self.set_title(connection, toplevel, title),
            ClientRequest::SetMinSize { toplevel, size } => self.set_bound(connection, toplevel, size, false),
            ClientRequest::SetMaxSize { toplevel, size } => self.set_bound(connection, toplevel, size, true),
            ClientRequest::SetRefreshRange { surface, min_hz, max_hz } => self.set_refresh_range(
                connection,
                surface,
                min_hz,
                max_hz,
            ),
            ClientRequest::Destroy { object } => {
                if object.0 == DISPLAY_OBJECT {
                    return Err(StateError::InvalidState { object_id: object });
                }
                let k = match self.find_connection(connection) {
                    Some(k) => k,
                    None => return Err(StateError::InvalidObject { object_id: object }),
                };
                let kind = match self.connections[k].1.registry.kind_of(object) {
                    Some(kind) => kind,
                    None => return Err(StateError::InvalidObject { object_id: object }),
                };
                if kind == ObjectKind::Buffer {
                    match self.object_value(connection, object) {
                        Object::Buffer { state, .. } => {
                            if state != BufferState::Available {
                                return Err(StateError::InvalidState { object_id: object });
                            }
                        },
                        _ => {},
                    }
                }
                let _ = self.destroy_object(connection, object);
                Ok(())
            },
            ClientRequest::Unknown { object, opcode } => {
                let k = match self.find_connection(connection) {
                    Some(k) => k,
                    None => return Err(StateError::InvalidObject { object_id: object }),
                };
                if self.connections[k].1.registry.kind_of(object).is_none() {
                    return Err(StateError::InvalidObject { object_id: object });
                }
                Err(StateError::UnknownOpcode { object_id: object, opcode })
            },
        }
    }

    /// Dispatch one request from a connection.
    ///
    /// A closed connection is refused. Otherwise the request runs; a failure is reported to the
    /// client, and then a protocol error closes the connection, an object error destroys the
    /// object it names, with what depends on it, and a resource error costs nothing more.
    pub fn dispatch(&mut self, connection: ConnectionId, request: ClientRequest) -> (result: Result<
        (),
        StateError,
    >)
        requires
            old(self).wf(),
        ensures
            final(self).wf(),
            (final(self)@, result) == dispatch_step(old(self)@, connection, request),
            result matches Err(error) ==> {
                &&& category_of(error) == ErrorCategory::Protocol ==> !final(self)@.connected(connection)
                &&& category_of(error) == ErrorCategory::Object ==> !final(self)@.has_object(
                    connection,
                    object_of(error),
                )
                &&& category_of(error) == ErrorCategory::Resource && final(self)@.connected(connection)
                    ==> final(self)@.events.last() == (Event {
                    connection,
                    object_id: object_of(error),
                    kind: EventKind::Error(error),
                })
            },
    {
        if !self.is_connected(connection) {
            return Err(StateError::ConnectionClosed);
        }
        let result = self.dispatch_checked(connection, request);
        match result {
            Ok(()) => {},
            Err(error) => {
                self.push_event(connection, error.object_id(), EventKind::Error(error));
                match error.consequence() {
                    Consequence::CloseConnection => {
                        let _ = self.close_connection(connection);
                    },
                    Consequence::DestroyObject(id) => {
                        let _ = self.destroy_object(connection, id);
                    },
                    Consequence::ReportOnly => {},
                }
            },
        }
        result
    }

    /// Add a seat a platform authority has vouched for.
    pub fn create_seat(
        &mut self,
        connection: ConnectionId,
        id: ObjectId,
        capabilities: SeatCapabilities,
        active: bool,
    ) -> (result: Result<(), StateError>)
        requires
            old(self).wf(),
        ensures
            final(self).wf(),
            (final(self)@, result) == create_seat_step(old(self)@, connection, id, capabilities, active),
    {
        self.allocate_client(connection, id, ObjectKind::Seat, Object::Seat { capabilities, active })
    }

    /// Add the connection's one session, on a seat it holds if it names one. Authenticating
    /// the session is for whoever calls this.
    pub fn create_session(
        &mut self,
        connection: ConnectionId,
        id: ObjectId,
        seat: Option<ObjectId>,
        active: bool,
    ) -> (result: Result<(), StateError>)
        requires
            old(self).wf(),
        ensures
            final(self).wf(),
            (final(self)@, result) == create_session_step(old(self)@, connection, id, seat, active),
    {
        match seat {
            Some(seat_id) => {
                if let Some(error) = self.kind_check(connection, seat_id, ObjectKind::Seat) {
                    return Err(error);
                }
            },
            None => {},
        }
        let k = match self.find_connection(connection) {
            Some(k) => k,
            None => return Err(StateError::ConnectionClosed),
        };
        if self.connections[k].1.session.is_some() {
            return Err(StateError::InvalidState { object_id: id });
        }
        let ghost pre = self@;
        let result = self.allocate_client(
            connection,
            id,
            ObjectKind::Session,
            Object::Session { seat, active },
        );
        match result {
            Err(error) => Err(error),
            Ok(()) => {
                proof {
                    let conn = pre.connection(connection);
                    lemma_with_connection(
                        pre,
                        connection,
                        conn.with_objects(
                            conn.entries.push((id, ObjectKind::Session)),
                            conn.values.push(Object::Session { seat, active }),
                        ).with_used(conn.used.insert(id)),
                    );
                }
                let k2 = self.find_connection(connection).unwrap();
                let ghost previous = self.connections@;
                let ghost made = self@;
                let (cid, mut client) = self.connections.remove(k2);
                client.session = Some(id);
                self.reinsert(k2, cid, client, Ghost(previous));
                proof {
                    lemma_replaced(made, self@, connection, k2 as int, model_of(client));
                }
                Ok(())
            },
        }
    }

    /// The session this connection's surfaces belong to, if one has been established.
    pub fn session_of(&self, connection: ConnectionId) -> (session: Option<ObjectId>)
        requires
            self.wf(),
        ensures
            session == (if self@.connected(connection) {
                self@.connection(connection).session
            } else {
                None
            }),
    {
        match self.find_connection(connection) {
            None => None,
            Some(k) => self.connections[k].1.session,
        }
    }

    /// Add an explicit-synchronization fence, unsignalled.
    pub fn create_fence(&mut self, connection: ConnectionId, id: ObjectId) -> (result: Result<(), StateError>)
        requires
            old(self).wf(),
        ensures
            final(self).wf(),
            (final(self)@, result) == create_fence_step(old(self)@, connection, id),
    {
        if let Some(error) = self.capability_check(connection, id, Capability::ExplicitGpuFence) {
            return Err(error);
        }
        self.allocate_client(connection, id, ObjectKind::Fence, Object::Fence { signaled: false })
    }

    /// Signal a fence. Waiting on the platform's fence is the backend's concern.
    pub fn signal_fence(&mut self, connection: ConnectionId, fence: ObjectId) -> (result: Result<(), StateError>)
        requires
            old(self).wf(),
        ensures
            final(self).wf(),
            (final(self)@, result) == signal_fence_step(old(self)@, connection, fence),
    {
        if let Some(error) = self.kind_check(connection, fence, ObjectKind::Fence) {
            return Err(error);
        }
        match self.object_value(connection, fence) {
            Object::Fence { .. } => {
                self.set_object(connection, fence, Object::Fence { signaled: true });
                Ok(())
            },
            _ => Err(StateError::InvalidState { object_id: fence }),
        }
    }

    /// Switch a seat on or off.
    pub fn set_seat_active(&mut self, connection: ConnectionId, seat: ObjectId, active: bool) -> (result:
        Result<(), StateError>)
        requires
            old(self).wf(),
        ensures
            final(self).wf(),
            (final(self)@, result) == set_seat_active_step(old(self)@, connection, seat, active),
    {
        if let Some(error) = self.kind_check(connection, seat, ObjectKind::Seat) {
            return Err(error);
        }
        match self.object_value(connection, seat) {
            Object::Seat { capabilities, .. } => {
                self.set_object(connection, seat, Object::Seat { capabilities, active });
                Ok(())
            },
            _ => Err(StateError::InvalidState { object_id: seat }),
        }
    }

    /// Change what a seat offers.
    pub fn set_seat_capabilities(
        &mut self,
        connection: ConnectionId,
        seat: ObjectId,
        capabilities: SeatCapabilities,
    ) -> (result: Result<(), StateError>)
        requires
            old(self).wf(),
        ensures
            final(self).wf(),
            (final(self)@, result) == set_seat_capabilities_step(old(self)@, connection, seat, capabilities),
    {
        if let Some(error) = self.kind_check(connection, seat, ObjectKind::Seat) {
            return Err(error);
        }
        match self.object_value(connection, seat) {
            Object::Seat { active, .. } => {
                self.set_object(connection, seat, Object::Seat { capabilities, active });
                Ok(())
            },
            _ => Err(StateError::InvalidState { object_id: seat }),
        }
    }

    /// Whether `key` names a live surface of `session`'s on `connection`.
    fn is_shown_for_session(&self, key: SurfaceKey, connection: ConnectionId, session: ObjectId) -> (shown: bool)
        requires
            self.wf(),
        ensures
            shown == shown_for_session(self@, key, connection, session),
    {
        if key.connection != connection || self.surface_check(key.connection, key.object_id).is_some() {
            return false;
        }
        match self.object_value(key.connection, key.object_id) {
            Object::Surface(state) => state.session == session,
            _ => false,
        }
    }

    /// Activate or deactivate a session. Deactivating it takes keyboard focus and the pointer
    /// from its surfaces; a focus loss is told to the surface and returned.
    pub fn set_session_active(&mut self, connection: ConnectionId, session: ObjectId, active: bool) -> (result:
        Result<Vec<FocusEvent>, StateError>)
        requires
            old(self).wf(),
        ensures
            final(self).wf(),
            match (set_session_active_step(old(self)@, connection, session, active), result) {
                ((model, Ok(told)), Ok(events)) => final(self)@ == model && events@ == told,
                ((model, Err(error)), Err(e)) => final(self)@ == model && e == error,
                _ => false,
            },
    {
        if let Some(error) = self.kind_check(connection, session, ObjectKind::Session) {
            return Err(error);
        }
        let seat = match self.object_value(connection, session) {
            Object::Session { seat, .. } => seat,
            _ => return Err(StateError::InvalidState { object_id: session }),
        };
        self.set_object(connection, session, Object::Session { seat, active });
        let mut told: Vec<FocusEvent> = Vec::new();
        if active {
            return Ok(told);
        }
        match self.keyboard_focus {
            Some(key) => {
                if self.is_shown_for_session(key, connection, session) {
                    told.push(FocusEvent::KeyboardLeave(key));
                    self.push_event(key.connection, key.object_id, EventKind::KeyboardLeave);
                    self.keyboard_focus = None;
                }
            },
            None => {},
        }
        match self.pointer_target {
            Some(key) => {
                if self.is_shown_for_session(key, connection, session) {
                    self.pointer_target = None;
                }
            },
            None => {},
        }
        proof {
            assert(told@ =~= set_session_active_step(old(self)@, connection, session, active).1->Ok_0);
        }
        Ok(told)
    }

    /// Mark a surface's current commit presented, handing back the buffers it showed under older
    /// commits and sending the frame event its content owes, stamped with `timestamp_ns`. A fence
    /// the content waits on must have been signalled.
    pub fn present(&mut self, surface: SurfaceKey, timestamp_ns: u64) -> (result: Result<CommitId, StateError>)
        requires
            old(self).wf(),
        ensures
            final(self).wf(),
            (final(self)@, result) == present_step(old(self)@, surface, timestamp_ns),
    {
        let connection = surface.connection;
        let id = surface.object_id;
        if let Some(error) = self.surface_check(connection, id) {
            return Err(error);
        }
        let state = match self.object_value(connection, id) {
            Object::Surface(state) => state,
            _ => return Err(StateError::InvalidState { object_id: id }),
        };
        let content = match state.current {
            None => return Err(StateError::InvalidState { object_id: id }),
            Some(content) => content,
        };
        match content.acquire_fence {
            None => {},
            Some(fence) => {
                if let Some(error) = self.kind_check(connection, fence, ObjectKind::Fence) {
                    return Err(error);
                }
                match self.object_value(connection, fence) {
                    Object::Fence { signaled } => {
                        if !signaled {
                            return Err(StateError::InvalidState { object_id: id });
                        }
                    },
                    _ => return Err(StateError::InvalidState { object_id: fence }),
                }
            },
        }
        let k = self.find_connection(connection).unwrap();
        let n = self.connections[k].1.registry.len();
        proof {
            self.connections@[k as int].1.registry.lemma_wf();
        }
        self.release_older(surface, content.commit, n);
        self.frame_done(surface, content, timestamp_ns)
    }

    fn frame_done(&mut self, surface: SurfaceKey, content: SurfaceContent, timestamp_ns: u64) -> (result: Result<
        CommitId,
        StateError,
    >)
        requires
            old(self).wf(),
        ensures
            final(self).wf(),
            (final(self)@, result) == frame_done_step(old(self)@, surface, content, timestamp_ns),
    {
        let connection = surface.connection;
        let id = surface.object_id;
        if content.frame_callback {
            self.push_event(
                connection,
                id,
                EventKind::FrameDone { serial: content.frame_serial, timestamp_ns },
            );
            if let Some(error) = self.surface_check(connection, id) {
                return Err(error);
            }
            let now = match self.object_value(connection, id) {
                Object::Surface(now) => now,
                _ => return Err(StateError::InvalidState { object_id: id }),
            };
            let current = match now.current {
                Some(shown) => Some(SurfaceContent { frame_callback: false, ..shown }),
                None => None,
            };
            self.set_object(connection, id, Object::Surface(SurfaceState { current, deadline_misses: 0, ..now }));
            Ok(content.commit)
        } else {
            if let Some(error) = self.surface_check(connection, id) {
                return Err(error);
            }
            let now = match self.object_value(connection, id) {
                Object::Surface(now) => now,
                _ => return Err(StateError::InvalidState { object_id: id }),
            };
            self.set_object(connection, id, Object::Surface(SurfaceState { deadline_misses: 0, ..now }));
            Ok(content.commit)
        }
    }

    /// Record that a surface missed its presentation deadline; the second miss running tells the
    /// client its frames are late.
    pub fn record_deadline_miss(&mut self, surface: SurfaceKey) -> (result: Result<(), StateError>)
        requires
            old(self).wf(),
        ensures
            final(self).wf(),
            (final(self)@, result) == deadline_miss_step(old(self)@, surface),
    {
        let connection = surface.connection;
        let id = surface.object_id;
        if let Some(error) = self.surface_check(connection, id) {
            return Err(error);
        }
        let state = match self.object_value(connection, id) {
            Object::Surface(state) => state,
            _ => return Err(StateError::InvalidState { object_id: id }),
        };
        let misses: u8 = if state.deadline_misses == u8::MAX {
            u8::MAX
        } else {
            state.deadline_misses + 1
        };
        self.set_object(connection, id, Object::Surface(SurfaceState { deadline_misses: misses, ..state }));
        if misses == 2 {
            self.push_event(connection, id, EventKind::FrameLate);
        }
        Ok(())
    }

    /// Place a surface in the scene, putting it on top if it is not there yet.
    pub fn place_surface(&mut self, surface: SurfaceKey, position: Point) -> (result: Result<(), StateError>)
        requires
            old(self).wf(),
        ensures
            final(self).wf(),
            (final(self)@, result) == place_step(old(self)@, surface, position),
    {
        if let Some(error) = self.surface_check(surface.connection, surface.object_id) {
            return Err(error);
        }
        let state = match self.object_value(surface.connection, surface.object_id) {
            Object::Surface(state) => state,
            _ => return Err(StateError::InvalidState { object_id: surface.object_id }),
        };
        self.set_object(
            surface.connection,
            surface.object_id,
            Object::Surface(SurfaceState { position: Some(position), ..state }),
        );
        if !self.in_scene(surface) && state.current.is_some() {
            self.stack.push(surface);
        }
        Ok(())
    }

    /// Raise a surface to the top of the scene.
    pub fn raise_surface(&mut self, surface: SurfaceKey) -> (result: Result<(), StateError>)
        requires
            old(self).wf(),
        ensures
            final(self).wf(),
            (final(self)@, result) == raise_step(old(self)@, surface),
    {
        if let Some(error) = self.surface_check(surface.connection, surface.object_id) {
            return Err(error);
        }
        if self.in_scene(surface) {
            self.unstack(surface);
            self.stack.push(surface);
        }
        Ok(())
    }

    /// The scene's surfaces, bottom to top.
    pub fn stacking_order(&self) -> (order: Vec<SurfaceKey>)
        ensures
            order@ == self@.stack,
    {
        self.stack.clone()
    }

    /// Where a surface is on screen and how big; see [`surface_area`].
    fn area_of(&self, key: SurfaceKey) -> (area: Option<Rect>)
        requires
            self.wf(),
        ensures
            area == surface_area(self@, key),
    {
        let connection = key.connection;
        let id = key.object_id;
        if self.surface_check(connection, id).is_some() {
            return None;
        }
        let state = match self.object_value(connection, id) {
            Object::Surface(state) => state,
            _ => return None,
        };
        let position = match state.position {
            Some(position) => position,
            None => return None,
        };
        let content = match state.current {
            Some(content) => content,
            None => return None,
        };
        if self.kind_check(connection, content.buffer, ObjectKind::Buffer).is_some() {
            return None;
        }
        let size = match self.object_value(connection, content.buffer) {
            Object::Buffer { descriptor, .. } => descriptor.size,
            _ => return None,
        };
        let x = match position.x.checked_add(content.offset.x) {
            Some(x) => x,
            None => return None,
        };
        let y = match position.y.checked_add(content.offset.y) {
            Some(y) => y,
            None => return None,
        };
        Some(Rect { x, y, width: size.width, height: size.height })
    }

    /// Find the topmost surface whose area holds `point` and make it the pointer's target.
    pub fn update_pointer_target(&mut self, point: Point) -> (target: Option<SurfaceKey>)
        requires
            old(self).wf(),
        ensures
            final(self).wf(),
            target == topmost_under(old(self)@, old(self)@.stack, point),
            final(self)@ == old(self)@.with_pointer(target),
    {
        let mut i = self.stack.len();
        let mut found: Option<SurfaceKey> = None;
        proof {
            assert(self@.stack.take(i as int) =~= self@.stack);
        }
        while i > 0 && found.is_none()
            invariant
                self.wf(),
                i <= self.stack@.len(),
                found is None ==> topmost_under(self@, self@.stack, point) == topmost_under(
                    self@,
                    self@.stack.take(i as int),
                    point,
                ),
                found is Some ==> found == topmost_under(self@, self@.stack, point),
            decreases i,
        {
            proof {
                assert(self@.stack.take(i as int).drop_last() =~= self@.stack.take(i - 1));
                assert(self@.stack.take(i as int).last() == self@.stack[i - 1]);
            }
            i = i - 1;
            let key = self.stack[i];
            match self.area_of(key) {
                Some(area) => {
                    if area.contains(point) {
                        found = Some(key);
                    }
                },
                None => {},
            }
        }
        proof {
            if found is None {
                assert(self@.stack.take(0) =~= Seq::<SurfaceKey>::empty());
            }
        }
        self.pointer_target = found;
        found
    }

    /// The surface the pointer was last found over.
    pub fn pointer_target(&self) -> (target: Option<SurfaceKey>)
        ensures
            target == self@.pointer_target,
    {
        self.pointer_target
    }

    /// Which surface holds keyboard focus.
    pub fn keyboard_target(&self) -> (target: Option<SurfaceKey>)
        ensures
            target == self@.keyboard_focus,
    {
        self.keyboard_focus
    }

    /// Move keyboard focus. Leave is always told before enter, to the clients and to the
    /// caller; a surface can take focus only while it shows content in the scene and its
    /// session, and that session's seat, are active.
    pub fn set_keyboard_focus(&mut self, target: Option<SurfaceKey>) -> (result: Result<Vec<FocusEvent>, StateError>)
        requires
            old(self).wf(),
        ensures
            final(self).wf(),
            match focus_step(old(self)@, target) {
                (model, Ok(events)) => final(self)@ == model && (result matches Ok(told) && told@ == events),
                (model, Err(error)) => final(self)@ == model && result == Err::<Vec<FocusEvent>, StateError>(error),
            },
    {
        match target {
            Some(key) => {
                if let Some(error) = self.surface_check(key.connection, key.object_id) {
                    return Err(error);
                }
                let state = match self.object_value(key.connection, key.object_id) {
                    Object::Surface(state) => state,
                    _ => return Err(StateError::InvalidState { object_id: key.object_id }),
                };
                if state.current.is_none() || state.position.is_none() {
                    return Err(StateError::InvalidState { object_id: key.object_id });
                }
                if let Some(error) = self.session_check(key.connection, state.session) {
                    return Err(error);
                }
            },
            None => {},
        }
        let mut told: Vec<FocusEvent> = Vec::new();
        if self.keyboard_focus == target {
            return Ok(told);
        }
        match self.keyboard_focus {
            Some(old_key) => {
                told.push(FocusEvent::KeyboardLeave(old_key));
                self.push_event(old_key.connection, old_key.object_id, EventKind::KeyboardLeave);
            },
            None => {},
        }
        match target {
            Some(new_key) => {
                told.push(FocusEvent::KeyboardEnter(new_key));
                self.push_event(new_key.connection, new_key.object_id, EventKind::KeyboardEnter);
            },
            None => {},
        }
        self.keyboard_focus = target;
        proof {
            assert(told@ =~= (match old(self)@.keyboard_focus {
                Some(old_key) => seq![FocusEvent::KeyboardLeave(old_key)],
                None => Seq::empty(),
            }) + (match target {
                Some(new_key) => seq![FocusEvent::KeyboardEnter(new_key)],
                None => Seq::empty(),
            }));
        }
        Ok(told)
    }

    /// Whether the object `c` holds under `id` exists only by virtue of `capability`.
    fn needs_capability(&self, connection: ConnectionId, id: ObjectId, capability: Capability) -> (needs: bool)
        requires
            self.wf(),
        ensures
            needs == requires_capability(self@, connection, id, capability),
    {
        let k = match self.find_connection(connection) {
            Some(k) => k,
            None => return false,
        };
        let kind = match self.connections[k].1.registry.kind_of(id) {
            Some(kind) => kind,
            None => return false,
        };
        let by_kind = (kind == ObjectKind::Surface && capability == Capability::SurfaceCreate) || (kind
            == ObjectKind::Buffer && capability == Capability::BufferImport) || (kind == ObjectKind::Fence
            && capability == Capability::ExplicitGpuFence) || (kind == ObjectKind::InputStream
            && capability == Capability::ExtendedInput) || (kind == ObjectKind::Session && capability
            == Capability::PrivilegedSession) || (kind == ObjectKind::Seat && capability
            == Capability::RevocableSeat);
        if by_kind {
            return true;
        }
        if kind == ObjectKind::Buffer {
            match self.object_value(connection, id) {
                Object::Buffer { descriptor, .. } => {
                    let transport = match descriptor.transport {
                        BufferTransport::SoftwareShm => Capability::SoftwareShm,
                        BufferTransport::GpuPrime => Capability::GpuPrime,
                    };
                    transport == capability
                },
                _ => false,
            }
        } else {
            false
        }
    }

    /// What a connection holds now, if it is open.
    pub fn capabilities(&self, connection: ConnectionId) -> (held: Option<CapabilitySet>)
        requires
            self.wf(),
        ensures
            held == (if self@.connected(connection) {
                Some(self@.connection(connection).capabilities)
            } else {
                None
            }),
    {
        match self.find_connection(connection) {
            None => None,
            Some(k) => Some(self.connections[k].1.capabilities),
        }
    }

    /// Record a policy authority's grant. The decision is the authority's; this refuses only
    /// what the connection could never be offered.
    pub fn grant_capability(&mut self, connection: ConnectionId, capability: Capability) -> (result:
        Result<(), StateError>)
        requires
            old(self).wf(),
        ensures
            final(self).wf(),
            (final(self)@, result) == grant_step(old(self)@, connection, capability),
    {
        let k = match self.find_connection(connection) {
            Some(k) => k,
            None => return Err(StateError::ConnectionClosed),
        };
        if !self.connections[k].1.available.contains(capability) {
            return Err(
                StateError::UnsupportedCapability { object_id: ObjectId(DISPLAY_OBJECT), capability },
            );
        }
        let ghost previous = self.connections@;
        let ghost start = self@;
        let (id, mut client) = self.connections.remove(k);
        client.capabilities = client.capabilities.with(capability);
        self.reinsert(k, id, client, Ghost(previous));
        proof {
            lemma_replaced(start, self@, connection, k as int, model_of(client));
        }
        Ok(())
    }

    /// Revoke a capability. The connection is told first; then every object that needed the
    /// capability is destroyed, newest first, with what depends on it, and the list of what went
    /// is returned.
    pub fn revoke_capability(&mut self, connection: ConnectionId, capability: Capability) -> (result:
        Result<Vec<(ObjectId, ObjectKind)>, StateError>)
        requires
            old(self).wf(),
        ensures
            final(self).wf(),
            match revoke_step(old(self)@, connection, capability) {
                (model, Ok(gone)) => final(self)@ == model && (result matches Ok(destroyed) && destroyed@ == gone),
                (model, Err(error)) => final(self)@ == model && result == Err::<Vec<(ObjectId, ObjectKind)>, StateError>(error),
            },
    {
        let k = match self.find_connection(connection) {
            Some(k) => k,
            None => return Err(StateError::ConnectionClosed),
        };
        let ids = self.connections[k].1.registry.ids_reverse_creation();
        let ghost entries = self@.connection(connection).entries;
        proof {
            assert(ids@ =~= entries.reverse().map_values(|entry: (ObjectId, ObjectKind)| entry.0));
        }
        let ghost previous = self.connections@;
        let ghost start = self@;
        let (id, mut client) = self.connections.remove(k);
        client.capabilities = client.capabilities.without(capability);
        self.reinsert(k, id, client, Ghost(previous));
        proof {
            lemma_replaced(start, self@, connection, k as int, model_of(client));
        }
        self.push_event(connection, ObjectId(DISPLAY_OBJECT), EventKind::CapabilityRevoked(capability));
        let ghost told = self@;
        let mut gone: Vec<(ObjectId, ObjectKind)> = Vec::new();
        let mut i: usize = 0;
        while i < ids.len()
            invariant
                self.wf(),
                i <= ids@.len(),
                (self@, gone@) == revoke_all(told, connection, ids@.take(i as int), capability),
            decreases ids@.len() - i,
        {
            proof {
                assert(ids@.take(i + 1).drop_last() =~= ids@.take(i as int));
            }
            if self.needs_capability(connection, ids[i], capability) {
                let mut more = self.destroy_object(connection, ids[i]);
                gone.append(&mut more);
            }
            i = i + 1;
        }
        proof {
            assert(ids@.take(ids@.len() as int) =~= ids@);
        }
        Ok(gone)
    }

    /// The kind of an object a connection holds; `None` when the connection or the object is
    /// not there. Identifiers are per connection, so no connection can name another's objects.
    pub fn object_kind(&self, connection: ConnectionId, id: ObjectId) -> (kind: Option<ObjectKind>)
        requires
            self.wf(),
        ensures
            kind == (if self@.connected(connection) {
                kind_in(self@.connection(connection).entries, id)
            } else {
                None
            }),
    {
        match self.find_connection(connection) {
            None => None,
            Some(k) => self.connections[k].1.registry.kind_of(id),
        }
    }

    /// The state of a buffer a connection holds.
    pub fn buffer_state(&self, connection: ConnectionId, buffer: ObjectId) -> (state: Option<BufferState>)
        requires
            self.wf(),
        ensures
            state == (if kind_error(self@, connection, buffer, ObjectKind::Buffer) is None && (self@.object(connection, buffer) is Buffer) {
                Some(self@.object(connection, buffer)->state)
            } else {
                None
            }),
    {
        if self.kind_check(connection, buffer, ObjectKind::Buffer).is_some() {
            return None;
        }
        match self.object_value(connection, buffer) {
            Object::Buffer { state, .. } => Some(state),
            _ => None,
        }
    }

    /// Where a buffer's pixels are, when it was carved from a pool.
    pub fn buffer_source(&self, connection: ConnectionId, buffer: ObjectId) -> (source: Option<BufferSource>)
        requires
            self.wf(),
        ensures
            source == (if self@.has_object(connection, buffer) && (self@.object(connection, buffer) is Buffer) {
                self@.object(connection, buffer)->source
            } else {
                None
            }),
    {
        if self.object_kind(connection, buffer).is_none() {
            return None;
        }
        match self.object_value(connection, buffer) {
            Object::Buffer { source, .. } => source,
            _ => None,
        }
    }

    /// The memory a pool covers.
    pub fn pool_memory(&self, connection: ConnectionId, pool: ObjectId) -> (memory: Option<SharedMemory>)
        requires
            self.wf(),
        ensures
            memory == (if self@.has_object(connection, pool) && (self@.object(connection, pool) is ShmPool) {
                Some(self@.object(connection, pool)->ShmPool_0)
            } else {
                None
            }),
    {
        if self.object_kind(connection, pool).is_none() {
            return None;
        }
        match self.object_value(connection, pool) {
            Object::ShmPool(memory) => Some(memory),
            _ => None,
        }
    }

    /// The state of a surface a connection holds: its session, role, what is pending, what it
    /// shows and where the scene places it.
    pub fn surface_state(&self, connection: ConnectionId, surface: ObjectId) -> (state: Option<SurfaceState>)
        requires
            self.wf(),
        ensures
            state == (if surface_error(self@, connection, surface) is None {
                Some(surface_of(self@, connection, surface))
            } else {
                None
            }),
    {
        if self.surface_check(connection, surface).is_some() {
            return None;
        }
        match self.object_value(connection, surface) {
            Object::Surface(state) => Some(state),
            _ => None,
        }
    }

    /// What a surface shows since its last commit with content, if anything.
    pub fn surface_snapshot(&self, connection: ConnectionId, surface: ObjectId) -> (content: Option<SurfaceContent>)
        requires
            self.wf(),
        ensures
            content == (if surface_error(self@, connection, surface) is None {
                surface_of(self@, connection, surface).current
            } else {
                None
            }),
    {
        match self.surface_state(connection, surface) {
            None => None,
            Some(state) => state.current,
        }
    }

    /// Whether a surface's current commit may be presented: it has content, and any fence the
    /// content waits on has been signalled.
    pub fn commit_ready(&self, surface: SurfaceKey) -> (ready: Result<bool, StateError>)
        requires
            self.wf(),
        ensures
            ready == commit_ready_of(self@, surface),
    {
        let connection = surface.connection;
        let id = surface.object_id;
        if let Some(error) = self.surface_check(connection, id) {
            return Err(error);
        }
        let state = match self.object_value(connection, id) {
            Object::Surface(state) => state,
            _ => return Err(StateError::InvalidState { object_id: id }),
        };
        let content = match state.current {
            None => return Err(StateError::InvalidState { object_id: id }),
            Some(content) => content,
        };
        match content.acquire_fence {
            None => Ok(true),
            Some(fence) => {
                if let Some(error) = self.kind_check(connection, fence, ObjectKind::Fence) {
                    return Err(error);
                }
                match self.object_value(connection, fence) {
                    Object::Fence { signaled } => Ok(signaled),
                    _ => Err(StateError::InvalidState { object_id: fence }),
                }
            },
        }
    }

    /// Hand back a buffer the compositor holds, once scanout or composition is done with it.
    pub fn release_buffer(&mut self, connection: ConnectionId, buffer: ObjectId) -> (result: Result<(), StateError>)
        requires
            old(self).wf(),
        ensures
            final(self).wf(),
            (final(self)@, result) == release_buffer_step(old(self)@, connection, buffer),
    {
        if let Some(error) = self.kind_check(connection, buffer, ObjectKind::Buffer) {
            return Err(error);
        }
        match self.object_value(connection, buffer) {
            Object::Buffer { descriptor, state, source } => {
                match state {
                    BufferState::CompositorHeld { .. } => {},
                    _ => return Err(StateError::InvalidState { object_id: buffer }),
                }
                self.set_object(
                    connection,
                    buffer,
                    Object::Buffer { descriptor, state: BufferState::Available, source },
                );
                self.push_event(connection, buffer, EventKind::BufferRelease);
                Ok(())
            },
            _ => Err(StateError::InvalidState { object_id: buffer }),
        }
    }

    /// Hand a buffer back once `fence` signals; see [`release_with_fence_step`].
    pub fn release_buffer_with_fence(&mut self, connection: ConnectionId, buffer: ObjectId, fence: ObjectId) -> (result:
        Result<(), StateError>)
        requires
            old(self).wf(),
        ensures
            final(self).wf(),
            (final(self)@, result) == release_with_fence_step(old(self)@, connection, buffer, fence),
    {
        if let Some(error) = self.capability_check(connection, buffer, Capability::ExplicitGpuFence) {
            return Err(error);
        }
        if let Some(error) = self.kind_check(connection, fence, ObjectKind::Fence) {
            return Err(error);
        }
        if let Some(error) = self.kind_check(connection, buffer, ObjectKind::Buffer) {
            return Err(error);
        }
        match self.object_value(connection, buffer) {
            Object::Buffer { descriptor, state, source } => {
                match state {
                    BufferState::CompositorHeld { .. } => {},
                    _ => return Err(StateError::InvalidState { object_id: buffer }),
                }
                self.set_object(
                    connection,
                    buffer,
                    Object::Buffer { descriptor, state: BufferState::Available, source },
                );
                self.push_event(connection, buffer, EventKind::BufferReleaseWithFence { fence });
                Ok(())
            },
            _ => Err(StateError::InvalidState { object_id: buffer }),
        }
    }

    /// Tell a surface when its next frame is due and how often frames come.
    pub fn set_frame_deadline(&mut self, surface: SurfaceKey, deadline_ns: u64, refresh_interval_ns: u64) -> (result:
        Result<(), StateError>)
        requires
            old(self).wf(),
        ensures
            final(self).wf(),
            (final(self)@, result) == frame_deadline_step(old(self)@, surface, deadline_ns, refresh_interval_ns),
    {
        if let Some(error) = self.surface_check(surface.connection, surface.object_id) {
            return Err(error);
        }
        if refresh_interval_ns == 0 {
            return Err(StateError::InvalidState { object_id: surface.object_id });
        }
        self.push_event(
            surface.connection,
            surface.object_id,
            EventKind::FrameDeadline { deadline_ns, refresh_interval_ns },
        );
        Ok(())
    }

    /// Create an input stream for a connection granted extended input.
    pub fn create_input_stream(&mut self, connection: ConnectionId, id: ObjectId) -> (result: Result<(), StateError>)
        requires
            old(self).wf(),
        ensures
            final(self).wf(),
            (final(self)@, result) == create_input_stream_step(old(self)@, connection, id),
    {
        if let Some(error) = self.capability_check(connection, id, Capability::ExtendedInput) {
            return Err(error);
        }
        self.allocate_client(connection, id, ObjectKind::InputStream, Object::InputStream)
    }

    /// The descriptor of a live buffer.
    pub fn buffer_descriptor(&self, connection: ConnectionId, buffer: ObjectId) -> (descriptor: Option<
        BufferDescriptor,
    >)
        requires
            self.wf(),
        ensures
            descriptor == (if kind_error(self@, connection, buffer, ObjectKind::Buffer) is None && (self@.object(
                connection,
                buffer,
            ) is Buffer) {
                Some(self@.object(connection, buffer)->descriptor)
            } else {
                None
            }),
    {
        if self.kind_check(connection, buffer, ObjectKind::Buffer).is_some() {
            return None;
        }
        match self.object_value(connection, buffer) {
            Object::Buffer { descriptor, .. } => Some(descriptor),
            _ => None,
        }
    }

    /// The role a surface took, if any.
    pub fn surface_role(&self, connection: ConnectionId, surface: ObjectId) -> (role: Option<SurfaceRole>)
        requires
            self.wf(),
        ensures
            role == (if surface_error(self@, connection, surface) is None {
                surface_of(self@, connection, surface).role
            } else {
                None
            }),
    {
        if self.surface_check(connection, surface).is_some() {
            return None;
        }
        match self.object_value(connection, surface) {
            Object::Surface(state) => state.role,
            _ => None,
        }
    }

    /// A seat's devices and whether it is active.
    pub fn seat_snapshot(&self, connection: ConnectionId, seat: ObjectId) -> (snapshot: Option<SeatSnapshot>)
        requires
            self.wf(),
        ensures
            snapshot == (if kind_error(self@, connection, seat, ObjectKind::Seat) is None {
                match self@.object(connection, seat) {
                    Object::Seat { capabilities, active } => Some(SeatSnapshot { capabilities, active }),
                    _ => None,
                }
            } else {
                None
            }),
    {
        if self.kind_check(connection, seat, ObjectKind::Seat).is_some() {
            return None;
        }
        match self.object_value(connection, seat) {
            Object::Seat { capabilities, active } => Some(SeatSnapshot { capabilities, active }),
            _ => None,
        }
    }

    /// A session's seat and whether it is active.
    pub fn session_snapshot(&self, connection: ConnectionId, session: ObjectId) -> (snapshot: Option<SessionSnapshot>)
        requires
            self.wf(),
        ensures
            snapshot == (if kind_error(self@, connection, session, ObjectKind::Session) is None {
                match self@.object(connection, session) {
                    Object::Session { seat, active } => Some(SessionSnapshot { seat, active }),
                    _ => None,
                }
            } else {
                None
            }),
    {
        if self.kind_check(connection, session, ObjectKind::Session).is_some() {
            return None;
        }
        match self.object_value(connection, session) {
            Object::Session { seat, active } => Some(SessionSnapshot { seat, active }),
            _ => None,
        }
    }

    /// Where the scene places a surface, if it has been given a place.
    pub fn surface_position(&self, surface: SurfaceKey) -> (position: Option<Point>)
        requires
            self.wf(),
        ensures
            position == (if surface_error(self@, surface.connection, surface.object_id) is None {
                surface_of(self@, surface.connection, surface.object_id).position
            } else {
                None
            }),
    {
        match self.surface_state(surface.connection, surface.object_id) {
            None => None,
            Some(state) => state.position,
        }
    }
}

} // verus!
