use atria::compositor::binding::Interface;
use atria::compositor::error::{Capability, CapabilitySet, ObjectId, Opcode, StateError};
use atria::compositor::state::{
    BufferState, ClientRequest, CompositorState, EventKind, FocusEvent, RefreshRange, SessionSnapshot,
    SurfaceKey,
};
use atria::model::{
    BufferDescriptor, BufferTransport, ConnectionId, ConnectionLimits, ErrorCategory, ObjectKind,
    BufferSource, Damage, Point, Rect, SeatCapabilities, SeatSnapshot, ServerLimits, SharedMemory,
    Size, SurfaceRole,
};

fn id(raw: u32) -> ObjectId {
    ObjectId(raw)
}

fn software_capabilities() -> CapabilitySet {
    CapabilitySet::default_grants().with(Capability::SoftwareShm)
}

fn descriptor(width: u32, height: u32) -> BufferDescriptor {
    BufferDescriptor {
        transport: BufferTransport::SoftwareShm,
        size: Size { width, height },
        stride: width.saturating_mul(4),
        byte_len: u64::from(width) * u64::from(height) * 4,
    }
}

fn state_with_limits(limits: ConnectionLimits) -> CompositorState {
    CompositorState::new(software_capabilities(), ServerLimits::default(), limits)
}

fn connect(state: &mut CompositorState) -> ConnectionId {
    state
        .connect(software_capabilities(), CapabilitySet::empty())
        .unwrap_or_else(|error| panic!("baseline capabilities overlap: {error:?}"))
}

fn create_session(state: &mut CompositorState, connection: ConnectionId, raw: u32) {
    state
        .create_session(connection, id(raw), None, true)
        .unwrap_or_else(|error| panic!("session creation must succeed: {error:?}"));
}

fn create_surface(state: &mut CompositorState, connection: ConnectionId, surface: u32) {
    state
        .dispatch(connection, ClientRequest::CreateSurface { new_id: id(surface) })
        .unwrap_or_else(|error| panic!("surface creation must succeed: {error:?}"));
}

fn import_buffer(state: &mut CompositorState, connection: ConnectionId, raw: u32) {
    state
        .dispatch(
            connection,
            ClientRequest::ImportBuffer { new_id: id(raw), descriptor: descriptor(100, 80) },
        )
        .unwrap_or_else(|error| panic!("buffer import must succeed: {error:?}"));
}

fn attach_and_commit(state: &mut CompositorState, connection: ConnectionId, surface: u32, buffer: u32) {
    state
        .dispatch(
            connection,
            ClientRequest::Attach {
                surface: id(surface),
                buffer: id(buffer),
                offset: Point::default(),
                acquire_fence: None,
            },
        )
        .unwrap_or_else(|error| panic!("attach must succeed: {error:?}"));
    state
        .dispatch(connection, ClientRequest::Commit { surface: id(surface) })
        .unwrap_or_else(|error| panic!("commit must succeed: {error:?}"));
}

#[test]
fn client_cannot_reference_or_affect_another_clients_object() {
    let mut state = state_with_limits(ConnectionLimits::default());
    let client_a = connect(&mut state);
    let client_b = connect(&mut state);
    create_session(&mut state, client_b, 256);
    create_surface(&mut state, client_b, 257);
    import_buffer(&mut state, client_b, 258);
    attach_and_commit(&mut state, client_b, 257, 258);

    let result = state.dispatch(client_a, ClientRequest::Destroy { object: id(257) });

    assert_eq!(result, Err(StateError::InvalidObject { object_id: id(257) }));
    assert!(!state.is_connected(client_a), "protocol errors terminate only the offender");
    assert!(state.is_connected(client_b));
    assert!(state.surface_snapshot(client_b, id(257)).is_some());
    assert!(matches!(
        state.buffer_state(client_b, id(258)),
        Some(BufferState::CompositorHeld { .. })
    ));
}

#[test]
fn destroying_same_numeric_id_on_one_connection_does_not_touch_another() {
    let mut state = state_with_limits(ConnectionLimits::default());
    let client_a = connect(&mut state);
    let client_b = connect(&mut state);
    for client in [client_a, client_b] {
        create_session(&mut state, client, 256);
        create_surface(&mut state, client, 257);
        import_buffer(&mut state, client, 258);
    }
    attach_and_commit(&mut state, client_b, 257, 258);

    state
        .dispatch(client_a, ClientRequest::Destroy { object: id(258) })
        .expect("client A owns its buffer");

    assert_eq!(state.surface_snapshot(client_b, id(257)).unwrap().buffer, id(258));
    assert!(matches!(
        state.buffer_state(client_b, id(258)),
        Some(BufferState::CompositorHeld { .. })
    ));
}

#[test]
fn a_destroyed_id_is_announced_as_retired_and_may_then_be_reused() {
    let mut state = state_with_limits(ConnectionLimits::default());
    let client = connect(&mut state);
    create_session(&mut state, client, 256);
    create_surface(&mut state, client, 257);
    let _ = state.take_events();

    state
        .dispatch(client, ClientRequest::Destroy { object: id(257) })
        .unwrap_or_else(|error| panic!("destruction succeeds: {error:?}"));

    let kinds: Vec<_> = state
        .take_events()
        .into_iter()
        .filter(|event| event.object_id == id(257))
        .map(|event| event.kind)
        .collect();
    assert_eq!(
        kinds,
        vec![EventKind::ObjectDestroyed(ObjectKind::Surface), EventKind::IdRetired],
        "the object is reported gone before the number is reported free"
    );

    state
        .dispatch(client, ClientRequest::CreateSurface { new_id: id(257) })
        .unwrap_or_else(|error| panic!("a retired identifier is allocatable again: {error:?}"));
    assert_eq!(state.object_kind(client, id(257)), Some(ObjectKind::Surface));
    assert!(state.is_connected(client));
}

#[test]
fn a_live_id_cannot_be_claimed_a_second_time() {
    let mut state = state_with_limits(ConnectionLimits::default());
    let client = connect(&mut state);
    create_session(&mut state, client, 256);
    create_surface(&mut state, client, 257);

    let error = state.dispatch(client, ClientRequest::CreateSurface { new_id: id(257) });
    assert_eq!(error, Err(StateError::ObjectIdAlreadyUsed { object_id: id(257) }));
    assert!(!state.is_connected(client));
}

#[test]
fn exceeding_per_connection_surface_quota_is_recoverable() {
    let mut state = state_with_limits(ConnectionLimits { max_surfaces: 1, ..ConnectionLimits::default() });
    let client = connect(&mut state);
    create_session(&mut state, client, 256);
    create_surface(&mut state, client, 257);

    let result = state.dispatch(client, ClientRequest::CreateSurface { new_id: id(258) });
    assert_eq!(result, Err(StateError::QuotaExceeded { object_id: ObjectId(1) }));
    assert!(state.is_connected(client));
}

#[test]
fn committing_a_surface_that_has_never_had_content_shows_nothing() {
    let mut state = state_with_limits(ConnectionLimits::default());
    let client = connect(&mut state);
    create_session(&mut state, client, 256);
    create_surface(&mut state, client, 257);

    state
        .dispatch(client, ClientRequest::Commit { surface: id(257) })
        .unwrap_or_else(|error| panic!("a commit need not attach: {error:?}"));

    assert!(state.surface_snapshot(client, id(257)).is_none());
    assert!(state.stacking_order().is_empty());
    assert!(state.is_connected(client));
}

#[test]
fn connection_teardown_destroys_everything_in_reverse_creation_order() {
    let mut state = state_with_limits(ConnectionLimits::default());
    let client = connect(&mut state);
    state
        .dispatch(client, ClientRequest::CreateRegistry { new_id: id(2) })
        .expect("reserved registry singleton");
    state.create_seat(client, id(256), SeatCapabilities::empty(), true).expect("seat creation");
    state.create_session(client, id(257), Some(id(256)), true).expect("session creation");
    create_surface(&mut state, client, 258);
    import_buffer(&mut state, client, 259);

    let teardown = state.close_connection(client);
    assert_eq!(
        teardown.destroyed,
        vec![
            (id(259), ObjectKind::Buffer),
            (id(258), ObjectKind::Surface),
            (id(257), ObjectKind::Session),
            (id(256), ObjectKind::Seat),
            (id(2), ObjectKind::Registry),
            (ObjectId(1), ObjectKind::Display),
        ]
    );
    assert!(!state.is_connected(client));
}

#[test]
fn keyboard_focus_change_orders_leave_before_enter_atomically() {
    let mut state = state_with_limits(ConnectionLimits::default());
    let client = connect(&mut state);
    create_session(&mut state, client, 256);
    for (surface, buffer, x) in [(257, 259, 0), (258, 260, 25)] {
        create_surface(&mut state, client, surface);
        import_buffer(&mut state, client, buffer);
        attach_and_commit(&mut state, client, surface, buffer);
        state
            .place_surface(SurfaceKey { connection: client, object_id: id(surface) }, Point { x, y: 0 })
            .expect("place surface");
    }
    let first = SurfaceKey { connection: client, object_id: id(257) };
    let second = SurfaceKey { connection: client, object_id: id(258) };
    state.set_keyboard_focus(Some(first)).expect("initial focus");
    state.take_events();

    assert_eq!(
        state.set_keyboard_focus(Some(second)).expect("focus transfer"),
        vec![FocusEvent::KeyboardLeave(first), FocusEvent::KeyboardEnter(second)]
    );
    assert_eq!(state.keyboard_target(), Some(second));
    let delivered = state.take_events();
    assert_eq!(delivered[0].kind, EventKind::KeyboardLeave);
    assert_eq!(delivered[0].object_id, first.object_id);
    assert_eq!(delivered[1].kind, EventKind::KeyboardEnter);
    assert_eq!(delivered[1].object_id, second.object_id);
}

#[test]
fn absent_fence_and_seat_capabilities_are_discoverable_and_not_emulated() {
    let mut state = CompositorState::new(
        software_capabilities(),
        ServerLimits::default(),
        ConnectionLimits::default(),
    );
    let client = connect(&mut state);
    let negotiated = state.capabilities(client).expect("live client");
    assert!(!negotiated.contains(Capability::ExplicitGpuFence));
    assert!(!negotiated.contains(Capability::RevocableSeat));
    assert_eq!(
        state.create_fence(client, id(256)),
        Err(StateError::UnsupportedCapability {
            object_id: id(256),
            capability: Capability::ExplicitGpuFence,
        })
    );
    let required = CapabilitySet::empty().with(Capability::RevocableSeat);
    assert!(state
        .connect(software_capabilities().with(Capability::RevocableSeat), required)
        .is_err());
}

#[test]
fn acquire_fence_blocks_presentation_until_signaled() {
    let capabilities = software_capabilities().with(Capability::ExplicitGpuFence);
    let mut state = CompositorState::new(capabilities, ServerLimits::default(), ConnectionLimits::default());
    let client = state.connect(capabilities, CapabilitySet::empty()).expect("capabilities overlap");
    create_session(&mut state, client, 256);
    create_surface(&mut state, client, 257);
    import_buffer(&mut state, client, 258);
    state.create_fence(client, id(259)).expect("fence object");
    state
        .dispatch(
            client,
            ClientRequest::Attach {
                surface: id(257),
                buffer: id(258),
                offset: Point::default(),
                acquire_fence: Some(id(259)),
            },
        )
        .expect("fenced attach");
    state.dispatch(client, ClientRequest::Commit { surface: id(257) }).expect("commit");
    let surface = SurfaceKey { connection: client, object_id: id(257) };

    assert_eq!(state.commit_ready(surface), Ok(false));
    assert_eq!(state.present(surface, 10), Err(StateError::InvalidState { object_id: id(257) }));
    state.signal_fence(client, id(259)).expect("signal fence");
    assert_eq!(state.commit_ready(surface), Ok(true));
    assert!(state.present(surface, 11).is_ok());
}

#[test]
fn capability_revocation_event_precedes_reverse_order_object_destruction() {
    let mut state = state_with_limits(ConnectionLimits::default());
    let client = connect(&mut state);
    create_session(&mut state, client, 256);
    create_surface(&mut state, client, 257);
    create_surface(&mut state, client, 258);
    state.take_events();

    let destroyed = state.revoke_capability(client, Capability::SurfaceCreate).expect("revocation");
    assert_eq!(destroyed, vec![(id(258), ObjectKind::Surface), (id(257), ObjectKind::Surface)]);
    let events = state.take_events();
    assert_eq!(events[0].kind, EventKind::CapabilityRevoked(Capability::SurfaceCreate));
    assert_eq!(events[1].kind, EventKind::ObjectDestroyed(ObjectKind::Surface));
}

#[test]
fn the_null_id_unknown_opcodes_and_wrong_types_are_typed_protocol_errors() {
    let mut state = state_with_limits(ConnectionLimits::default());
    let client = connect(&mut state);
    create_session(&mut state, client, 256);
    let null = state.dispatch(client, ClientRequest::CreateSurface { new_id: id(0) });
    assert_eq!(null, Err(StateError::InvalidObjectId { object_id: id(0) }));
    assert!(!state.is_connected(client));

    let client = connect(&mut state);
    create_session(&mut state, client, 256);
    let display = state.dispatch(client, ClientRequest::CreateSurface { new_id: ObjectId(1) });
    assert_eq!(display, Err(StateError::InvalidObjectId { object_id: ObjectId(1) }));
    assert!(!state.is_connected(client));

    let client = connect(&mut state);
    let unknown = state.dispatch(
        client,
        ClientRequest::Unknown { object: ObjectId(1), opcode: Opcode(0x55) },
    );
    assert!(matches!(unknown, Err(StateError::UnknownOpcode { .. })));
    assert!(!state.is_connected(client));

    let client = connect(&mut state);
    create_session(&mut state, client, 256);
    let wrong_type = state.dispatch(client, ClientRequest::Commit { surface: id(256) });
    assert!(matches!(wrong_type, Err(StateError::WrongObjectType { .. })));
    assert!(!state.is_connected(client));
}

#[test]
fn arbitrary_decoded_requests_return_errors_without_panicking() {
    for seed in 0_u32..512 {
        let mut state = state_with_limits(ConnectionLimits {
            max_objects: 8,
            max_surfaces: 2,
            max_buffers: 2,
            max_imported_handles: 2,
            max_damage_rects_per_commit: 2,
            max_pending_events: 8,
        });
        let client = connect(&mut state);
        let object = id(seed);
        let requests = [
            ClientRequest::Destroy { object },
            ClientRequest::Commit { surface: object },
            ClientRequest::Damage {
                surface: object,
                rect: Rect { x: seed as i32, y: -(seed as i32), width: seed, height: seed },
            },
            ClientRequest::SetRole { surface: object, role: SurfaceRole(seed) },
            ClientRequest::Unknown { object, opcode: Opcode(seed as u16) },
        ];
        for request in requests {
            let _ = state.dispatch(client, request);
        }
    }
}

#[test]
fn a_connection_that_stops_reading_events_is_disconnected_not_grown() {
    let limit = 4;
    let mut state = state_with_limits(ConnectionLimits {
        max_pending_events: limit,
        ..ConnectionLimits::default()
    });
    let client = connect(&mut state);
    create_session(&mut state, client, 256);

    for _ in 0..limit {
        let _ = state.revoke_capability(client, Capability::Screencopy);
    }
    assert!(state.is_connected(client), "the bound itself is not an error");

    let _ = state.revoke_capability(client, Capability::Screencopy);
    assert!(!state.is_connected(client), "a connection past its event bound is closed");

    let events = state.take_events();
    let overflow = events
        .iter()
        .rev()
        .find_map(|event| match event.kind {
            EventKind::Error(error) => Some(error),
            _ => None,
        })
        .unwrap_or_else(|| panic!("the client is told why it was disconnected"));
    assert_eq!(overflow, StateError::EventQueueOverflow { queued: limit });
    assert_eq!(overflow.category(), ErrorCategory::Resource);
}

#[test]
fn closing_a_connection_reports_its_objects_without_queuing_events_for_it() {
    let mut state = state_with_limits(ConnectionLimits::default());
    let client = connect(&mut state);
    create_session(&mut state, client, 256);
    state
        .dispatch(client, ClientRequest::CreateSurface { new_id: id(257) })
        .unwrap_or_else(|error| panic!("surface creation must succeed: {error:?}"));
    let _ = state.take_events();

    let teardown = state.close_connection(client);
    assert!(teardown.destroyed.iter().any(|(id, _)| id.0 == 257));
    assert!(state.take_events().is_empty());
}

#[test]
fn a_committed_surface_is_in_the_scene_with_no_shell_attached() {
    let mut state = state_with_limits(ConnectionLimits::default());
    let client = connect(&mut state);
    create_session(&mut state, client, 9);
    create_surface(&mut state, client, 257);
    import_buffer(&mut state, client, 300);

    assert!(state.stacking_order().is_empty());

    attach_and_commit(&mut state, client, 257, 300);

    let key = SurfaceKey { connection: client, object_id: id(257) };
    assert_eq!(state.stacking_order(), [key]);
    assert_eq!(state.surface_position(key), Some(Point::default()));
}

#[test]
fn placing_a_surface_survives_a_later_commit() {
    let mut state = state_with_limits(ConnectionLimits::default());
    let client = connect(&mut state);
    create_session(&mut state, client, 9);
    create_surface(&mut state, client, 257);
    import_buffer(&mut state, client, 300);
    attach_and_commit(&mut state, client, 257, 300);

    let key = SurfaceKey { connection: client, object_id: id(257) };
    state
        .place_surface(key, Point { x: 40, y: 25 })
        .unwrap_or_else(|error| panic!("a placement must succeed: {error:?}"));

    state
        .release_buffer(client, id(300))
        .unwrap_or_else(|error| panic!("a release must succeed: {error:?}"));
    attach_and_commit(&mut state, client, 257, 300);

    assert_eq!(state.surface_position(key), Some(Point { x: 40, y: 25 }));
}

#[test]
fn attaching_nothing_takes_the_surface_out_of_the_scene_and_returns_its_buffer() {
    let mut state = state_with_limits(ConnectionLimits::default());
    let client = connect(&mut state);
    create_session(&mut state, client, 9);
    create_surface(&mut state, client, 257);
    import_buffer(&mut state, client, 300);
    attach_and_commit(&mut state, client, 257, 300);
    assert_eq!(state.stacking_order().len(), 1);
    let _ = state.take_events();

    state
        .dispatch(
            client,
            ClientRequest::Attach {
                surface: id(257),
                buffer: ObjectId(0),
                offset: Point::default(),
                acquire_fence: None,
            },
        )
        .unwrap_or_else(|error| panic!("a null attach must be accepted: {error:?}"));
    state
        .dispatch(client, ClientRequest::Commit { surface: id(257) })
        .unwrap_or_else(|error| panic!("the detaching commit must succeed: {error:?}"));

    assert!(state.surface_snapshot(client, id(257)).is_none());
    assert!(state.stacking_order().is_empty());
    assert_eq!(state.buffer_state(client, id(300)), Some(BufferState::Available));
    let told: Vec<_> = state
        .take_events()
        .into_iter()
        .filter(|event| event.object_id == id(300))
        .map(|event| event.kind)
        .collect();
    assert_eq!(told, vec![EventKind::BufferRelease]);
}

#[test]
fn a_detached_surface_returns_to_the_place_it_was_given() {
    let mut state = state_with_limits(ConnectionLimits::default());
    let client = connect(&mut state);
    create_session(&mut state, client, 9);
    create_surface(&mut state, client, 257);
    import_buffer(&mut state, client, 300);
    attach_and_commit(&mut state, client, 257, 300);

    let key = SurfaceKey { connection: client, object_id: id(257) };
    state
        .place_surface(key, Point { x: 60, y: 12 })
        .unwrap_or_else(|error| panic!("a placement must succeed: {error:?}"));

    state
        .dispatch(
            client,
            ClientRequest::Attach {
                surface: id(257),
                buffer: ObjectId(0),
                offset: Point::default(),
                acquire_fence: None,
            },
        )
        .expect("null attach");
    state.dispatch(client, ClientRequest::Commit { surface: id(257) }).expect("detaching commit");
    attach_and_commit(&mut state, client, 257, 300);

    assert_eq!(state.surface_position(key), Some(Point { x: 60, y: 12 }));
}

#[test]
fn placing_a_window_before_it_draws_leaves_the_scene_consistent() {
    let mut state = state_with_limits(ConnectionLimits::default());
    let client = connect(&mut state);
    create_session(&mut state, client, 9);
    create_surface(&mut state, client, 257);

    let key = SurfaceKey { connection: client, object_id: id(257) };
    state
        .place_surface(key, Point { x: 40, y: 25 })
        .unwrap_or_else(|error| panic!("a placement is accepted: {error:?}"));
    assert!(state.stacking_order().is_empty());

    state.raise_surface(key).unwrap_or_else(|error| panic!("a raise is accepted too: {error:?}"));
    assert!(state.stacking_order().is_empty());

    import_buffer(&mut state, client, 300);
    attach_and_commit(&mut state, client, 257, 300);
    assert_eq!(state.stacking_order(), [key]);
    assert_eq!(state.surface_position(key), Some(Point { x: 40, y: 25 }));
}

#[test]
fn a_commit_without_an_attach_keeps_the_content_already_shown() {
    let mut state = state_with_limits(ConnectionLimits::default());
    let client = connect(&mut state);
    create_session(&mut state, client, 9);
    create_surface(&mut state, client, 257);
    import_buffer(&mut state, client, 300);
    attach_and_commit(&mut state, client, 257, 300);
    let first = state.surface_snapshot(client, id(257)).expect("content after the first commit").commit;

    state
        .dispatch(
            client,
            ClientRequest::Damage { surface: id(257), rect: Rect { x: 0, y: 0, width: 4, height: 4 } },
        )
        .unwrap_or_else(|error| panic!("damage must stage: {error:?}"));
    state
        .dispatch(client, ClientRequest::Commit { surface: id(257) })
        .unwrap_or_else(|error| panic!("a state-only commit must succeed: {error:?}"));

    let second = state
        .surface_snapshot(client, id(257))
        .expect("content survives a commit that attached nothing");
    assert_eq!(second.buffer, id(300), "the surface still shows the buffer it was given");
    assert!(second.commit > first, "and the commit that carried it forward is a new one");
}

#[test]
fn pending_surface_state_does_not_replace_current_until_commit() {
    let mut state = state_with_limits(ConnectionLimits::default());
    let client = connect(&mut state);
    create_session(&mut state, client, 256);
    create_surface(&mut state, client, 257);
    import_buffer(&mut state, client, 258);
    import_buffer(&mut state, client, 259);
    attach_and_commit(&mut state, client, 257, 258);
    let first_commit = state.surface_snapshot(client, id(257)).expect("current state").commit;
    state
        .dispatch(
            client,
            ClientRequest::Attach {
                surface: id(257),
                buffer: id(259),
                offset: Point { x: 4, y: -3 },
                acquire_fence: None,
            },
        )
        .expect("second attachment stages");
    state
        .dispatch(
            client,
            ClientRequest::Damage { surface: id(257), rect: Rect { x: 1, y: 2, width: 3, height: 4 } },
        )
        .expect("damage stages");
    assert_eq!(state.surface_snapshot(client, id(257)).unwrap().buffer, id(258));
    assert!(matches!(state.buffer_state(client, id(259)), Some(BufferState::Pending { .. })));

    state.dispatch(client, ClientRequest::Commit { surface: id(257) }).expect("second commit");
    let key = SurfaceKey { connection: client, object_id: id(257) };
    let current = state.surface_snapshot(client, id(257)).unwrap();
    assert_eq!(current.buffer, id(259));
    assert_eq!(current.offset, Point { x: 4, y: -3 });
    assert_eq!(state.surface_damage(key), vec![Damage::Rect(Rect { x: 1, y: 2, width: 3, height: 4 })]);
    assert!(current.commit > first_commit);
    state.present(key, 99).expect("presentation");
    assert_eq!(state.buffer_state(client, id(258)), Some(BufferState::Available));
}

#[test]
fn a_commit_with_no_damage_staged_damages_the_whole_buffer() {
    let mut state = state_with_limits(ConnectionLimits {
        max_damage_rects_per_commit: 2,
        ..ConnectionLimits::default()
    });
    let client = connect(&mut state);
    create_session(&mut state, client, 256);
    create_surface(&mut state, client, 257);
    import_buffer(&mut state, client, 258);
    let key = SurfaceKey { connection: client, object_id: id(257) };
    attach_and_commit(&mut state, client, 257, 258);
    assert_eq!(state.surface_damage(key), vec![Damage::Full]);
    let rect = Rect { x: 0, y: 0, width: 1, height: 1 };
    for _ in 0..2 {
        state.dispatch(client, ClientRequest::Damage { surface: id(257), rect }).expect("within the allowance");
    }
    assert_eq!(
        state.dispatch(client, ClientRequest::Damage { surface: id(257), rect }),
        Err(StateError::QuotaExceeded { object_id: id(257) })
    );
    assert!(state.is_connected(client), "a resource error keeps the connection");
    state.dispatch(client, ClientRequest::Commit { surface: id(257) }).expect("commit");
    assert_eq!(state.surface_damage(key), vec![Damage::Rect(rect), Damage::Rect(rect)]);
    assert_eq!(
        state.dispatch(client, ClientRequest::Damage { surface: id(257), rect: Rect { width: 0, ..rect } }),
        Err(StateError::InvalidState { object_id: id(257) })
    );
    assert_eq!(state.surface_damage(key), vec![], "the refused surface is gone, and its damage with it");
}

#[test]
fn destroying_a_seat_takes_its_session_and_surfaces_with_it() {
    let mut state = state_with_limits(ConnectionLimits::default());
    let client = connect(&mut state);
    state.create_seat(client, id(256), SeatCapabilities::empty(), true).expect("seat");
    state.create_session(client, id(257), Some(id(256)), true).expect("session");
    create_surface(&mut state, client, 258);
    import_buffer(&mut state, client, 259);
    attach_and_commit(&mut state, client, 258, 259);
    let _ = state.take_events();

    state.dispatch(client, ClientRequest::Destroy { object: id(256) }).expect("destroy seat");
    assert_eq!(state.object_kind(client, id(256)), None);
    assert_eq!(state.object_kind(client, id(257)), None);
    assert_eq!(state.object_kind(client, id(258)), None);
    assert_eq!(state.buffer_state(client, id(259)), Some(BufferState::Available));
    assert!(state.stacking_order().is_empty());
    let destroyed: Vec<_> = state
        .take_events()
        .into_iter()
        .filter_map(|event| match event.kind {
            EventKind::ObjectDestroyed(kind) => Some((event.object_id, kind)),
            _ => None,
        })
        .collect();
    assert_eq!(
        destroyed,
        vec![
            (id(258), ObjectKind::Surface),
            (id(257), ObjectKind::Session),
            (id(256), ObjectKind::Seat),
        ]
    );
}

#[test]
fn a_held_buffer_cannot_be_destroyed_and_an_inactive_seat_blocks_surfaces() {
    let mut state = state_with_limits(ConnectionLimits::default());
    let client = connect(&mut state);
    state.create_seat(client, id(256), SeatCapabilities::empty(), false).expect("seat");
    state.create_session(client, id(257), Some(id(256)), true).expect("session");
    assert_eq!(
        state.dispatch(client, ClientRequest::CreateSurface { new_id: id(258) }),
        Err(StateError::InvalidState { object_id: id(257) })
    );
    // An object error terminates the session it names.
    assert_eq!(state.object_kind(client, id(257)), None);

    let client = connect(&mut state);
    create_session(&mut state, client, 256);
    create_surface(&mut state, client, 257);
    import_buffer(&mut state, client, 258);
    attach_and_commit(&mut state, client, 257, 258);
    assert_eq!(
        state.dispatch(client, ClientRequest::Destroy { object: id(258) }),
        Err(StateError::InvalidState { object_id: id(258) })
    );
    assert_eq!(state.object_kind(client, id(258)), None);
    assert!(state.surface_snapshot(client, id(257)).is_none());
}

#[test]
fn a_surface_takes_one_role() {
    let mut state = state_with_limits(ConnectionLimits::default());
    let client = connect(&mut state);
    create_session(&mut state, client, 256);
    create_surface(&mut state, client, 257);
    state
        .dispatch(client, ClientRequest::SetRole { surface: id(257), role: SurfaceRole(3) })
        .expect("first role");
    state
        .dispatch(client, ClientRequest::SetRole { surface: id(257), role: SurfaceRole(3) })
        .expect("the same role again");
    assert_eq!(
        state.dispatch(client, ClientRequest::SetRole { surface: id(257), role: SurfaceRole(4) }),
        Err(StateError::InvalidState { object_id: id(257) })
    );
}

#[test]
fn pointer_target_uses_topmost_surface_under_pointer() {
    let mut state = state_with_limits(ConnectionLimits::default());
    let client = connect(&mut state);
    create_session(&mut state, client, 256);
    for (surface, buffer) in [(257, 259), (258, 260)] {
        create_surface(&mut state, client, surface);
        import_buffer(&mut state, client, buffer);
        attach_and_commit(&mut state, client, surface, buffer);
        state
            .place_surface(SurfaceKey { connection: client, object_id: id(surface) }, Point::default())
            .expect("place surface");
    }
    assert_eq!(
        state.update_pointer_target(Point { x: 10, y: 10 }),
        Some(SurfaceKey { connection: client, object_id: id(258) })
    );
    state
        .raise_surface(SurfaceKey { connection: client, object_id: id(257) })
        .expect("raise");
    assert_eq!(
        state.update_pointer_target(Point { x: 10, y: 10 }),
        Some(SurfaceKey { connection: client, object_id: id(257) })
    );
}

#[test]
fn second_consecutive_deadline_miss_emits_frame_late_once() {
    let mut state = state_with_limits(ConnectionLimits::default());
    let client = connect(&mut state);
    create_session(&mut state, client, 256);
    create_surface(&mut state, client, 257);
    let surface = SurfaceKey { connection: client, object_id: id(257) };
    state.take_events();
    state.record_deadline_miss(surface).expect("first miss");
    assert!(state.take_events().is_empty());
    state.record_deadline_miss(surface).expect("second miss");
    assert_eq!(state.take_events()[0].kind, EventKind::FrameLate);
    state.record_deadline_miss(surface).expect("third miss");
    assert!(state.take_events().is_empty());
}

#[test]
fn the_pointer_is_over_nothing_outside_every_surface_and_loses_a_destroyed_one() {
    let mut state = state_with_limits(ConnectionLimits::default());
    let client = connect(&mut state);
    create_session(&mut state, client, 256);
    create_surface(&mut state, client, 257);
    import_buffer(&mut state, client, 258);
    attach_and_commit(&mut state, client, 257, 258);
    let key = SurfaceKey { connection: client, object_id: id(257) };
    state.place_surface(key, Point { x: 50, y: 20 }).expect("place");
    // The buffer is 100 by 80: its right and bottom edges are outside.
    assert_eq!(state.update_pointer_target(Point { x: 150, y: 20 }), None);
    assert_eq!(state.update_pointer_target(Point { x: 149, y: 99 }), Some(key));
    assert_eq!(state.pointer_target(), Some(key));
    assert_eq!(state.update_pointer_target(Point { x: 49, y: 20 }), None);
    assert_eq!(state.update_pointer_target(Point { x: 50, y: 20 }), Some(key));
    state.dispatch(client, ClientRequest::Destroy { object: id(257) }).expect("destroy");
    assert_eq!(state.pointer_target(), None);
}

#[test]
fn a_requested_frame_is_answered_once_when_its_content_is_presented() {
    let mut state = state_with_limits(ConnectionLimits::default());
    let client = connect(&mut state);
    create_session(&mut state, client, 256);
    create_surface(&mut state, client, 257);
    import_buffer(&mut state, client, 258);
    state
        .dispatch(client, ClientRequest::RequestFrame { surface: id(257), serial: 7 })
        .expect("a frame may be asked for");
    assert_eq!(
        state.dispatch(client, ClientRequest::RequestFrame { surface: id(257), serial: 8 }),
        Err(StateError::InvalidState { object_id: id(257) })
    );
    // That refusal was an object error: the surface is gone. Start again with a fresh one.
    assert_eq!(state.object_kind(client, id(257)), None);
    create_surface(&mut state, client, 259);
    state
        .dispatch(client, ClientRequest::RequestFrame { surface: id(259), serial: 7 })
        .expect("a frame may be asked for");
    attach_and_commit(&mut state, client, 259, 258);
    let key = SurfaceKey { connection: client, object_id: id(259) };
    state.take_events();
    state.present(key, 1_234).expect("presentation");
    let events = state.take_events();
    assert_eq!(events.len(), 1);
    assert_eq!(events[0].object_id, id(259));
    assert_eq!(events[0].kind, EventKind::FrameDone { serial: 7, timestamp_ns: 1_234 });
    state.present(key, 5_678).expect("presenting again");
    assert!(state.take_events().is_empty(), "a frame event is sent once");
}

#[test]
fn a_refresh_range_takes_effect_at_commit_and_is_kept_by_later_commits() {
    let mut state = state_with_limits(ConnectionLimits::default());
    let client = connect(&mut state);
    create_session(&mut state, client, 256);
    create_surface(&mut state, client, 257);
    import_buffer(&mut state, client, 258);
    attach_and_commit(&mut state, client, 257, 258);
    assert_eq!(state.surface_snapshot(client, id(257)).unwrap().refresh_range, None);
    state
        .dispatch(client, ClientRequest::SetRefreshRange { surface: id(257), min_hz: 48, max_hz: 120 })
        .expect("a range stages");
    assert_eq!(state.surface_snapshot(client, id(257)).unwrap().refresh_range, None);
    state.dispatch(client, ClientRequest::Commit { surface: id(257) }).expect("commit");
    let range = Some(RefreshRange { min_hz: 48, max_hz: 120 });
    assert_eq!(state.surface_snapshot(client, id(257)).unwrap().refresh_range, range);
    state.dispatch(client, ClientRequest::Commit { surface: id(257) }).expect("commit again");
    assert_eq!(state.surface_snapshot(client, id(257)).unwrap().refresh_range, range);
    assert_eq!(
        state.dispatch(client, ClientRequest::SetRefreshRange { surface: id(257), min_hz: 0, max_hz: 60 }),
        Err(StateError::InvalidState { object_id: id(257) })
    );
    assert_eq!(
        state.dispatch(client, ClientRequest::SetRefreshRange { surface: id(300), min_hz: 90, max_hz: 60 }),
        Err(StateError::InvalidState { object_id: id(300) })
    );
    assert!(state.is_connected(client));
}

#[test]
fn deactivating_a_session_takes_focus_and_the_pointer_from_its_surfaces() {
    let mut state = state_with_limits(ConnectionLimits::default());
    let client = connect(&mut state);
    create_session(&mut state, client, 256);
    create_surface(&mut state, client, 257);
    import_buffer(&mut state, client, 258);
    attach_and_commit(&mut state, client, 257, 258);
    let key = SurfaceKey { connection: client, object_id: id(257) };
    state.set_keyboard_focus(Some(key)).expect("focus");
    assert_eq!(state.update_pointer_target(Point { x: 1, y: 1 }), Some(key));
    state.take_events();

    let told = state.set_session_active(client, id(256), false).expect("deactivate");
    assert_eq!(told, vec![FocusEvent::KeyboardLeave(key)]);
    assert_eq!(state.keyboard_target(), None);
    assert_eq!(state.pointer_target(), None);
    assert_eq!(state.take_events()[0].kind, EventKind::KeyboardLeave);
    assert_eq!(state.set_session_active(client, id(256), true).expect("reactivate"), vec![]);
    assert_eq!(
        state.set_session_active(client, id(257), true),
        Err(StateError::WrongObjectType {
            object_id: id(257),
            expected: ObjectKind::Session,
            actual: ObjectKind::Surface
        })
    );
}

#[test]
fn a_seat_can_change_what_it_offers() {
    let mut state = state_with_limits(ConnectionLimits::default());
    let client = connect(&mut state);
    state
        .create_seat(client, id(256), SeatCapabilities::empty(), true)
        .expect("seat creation");
    state
        .set_seat_capabilities(client, id(256), SeatCapabilities::empty().with_pointer())
        .expect("a seat's devices change");
    assert_eq!(state.set_seat_capabilities(client, id(300), SeatCapabilities::empty()), Err(StateError::InvalidObject { object_id: id(300) }));
}

#[test]
fn a_new_registry_is_told_every_global_in_the_order_offered() {
    let mut state = state_with_limits(ConnectionLimits::default());
    assert_eq!(state.advertise_global(ObjectKind::Compositor, 4), Some(1));
    assert_eq!(state.advertise_global(ObjectKind::Session, 1), None, "a session has no interface");
    assert_eq!(state.advertise_global(ObjectKind::Shm, 1), Some(2));
    let client = connect(&mut state);
    state.take_events();
    state
        .dispatch(client, ClientRequest::CreateRegistry { new_id: id(256) })
        .expect("registry");
    let events = state.take_events();
    assert_eq!(events.len(), 2);
    assert_eq!(events[0].object_id, id(1));
    assert_eq!(events[0].kind, EventKind::Global { name: 1, interface: Interface::Compositor, version: 4 });
    assert_eq!(events[1].kind, EventKind::Global { name: 2, interface: Interface::Shm, version: 1 });
}

#[test]
fn a_global_binds_only_at_a_version_it_offers() {
    let mut state = state_with_limits(ConnectionLimits::default());
    let name = state.advertise_global(ObjectKind::Compositor, 4).expect("offered");
    let client = connect(&mut state);
    for (version, raw) in [(0, 256), (5, 257)] {
        assert_eq!(
            state.dispatch(client, ClientRequest::Bind { name, version, new_id: id(raw) }),
            Err(StateError::InvalidState { object_id: id(raw) })
        );
    }
    assert_eq!(
        state.dispatch(client, ClientRequest::Bind { name: 99, version: 1, new_id: id(258) }),
        Err(StateError::InvalidState { object_id: id(258) })
    );
    assert!(state.is_connected(client), "an object error does not close the connection");
    state
        .dispatch(client, ClientRequest::Bind { name, version: 4, new_id: id(259) })
        .expect("bind");
    assert_eq!(state.object_kind(client, id(259)), Some(ObjectKind::Compositor));
}

#[test]
fn binding_shell_control_needs_the_grant() {
    let offered = software_capabilities().with(Capability::ShellControl);
    let mut state = CompositorState::new(offered, ServerLimits::default(), ConnectionLimits::default());
    let name = state.advertise_global(ObjectKind::ShellControl, 1).expect("offered");
    let client = state.connect(offered, CapabilitySet::empty()).expect("connect");
    assert_eq!(
        state.dispatch(client, ClientRequest::Bind { name, version: 1, new_id: id(256) }),
        Err(StateError::UnsupportedCapability { object_id: id(256), capability: Capability::ShellControl })
    );
    state.grant_capability(client, Capability::ShellControl).expect("grant");
    state.take_events();
    state
        .dispatch(client, ClientRequest::Bind { name, version: 1, new_id: id(257) })
        .expect("bind with the grant");
    let events = state.take_events();
    assert_eq!(events.len(), 1);
    assert_eq!(events[0].object_id, id(257));
    assert_eq!(events[0].kind, EventKind::ShellFocusChanged { handle: 0 });
}

#[test]
fn withdrawing_a_global_tells_every_connection_and_stops_binds() {
    let mut state = state_with_limits(ConnectionLimits::default());
    let name = state.advertise_global(ObjectKind::Compositor, 1).expect("offered");
    let first = connect(&mut state);
    let second = connect(&mut state);
    state.take_events();
    assert!(state.withdraw_global(name));
    let events = state.take_events();
    assert_eq!(events.len(), 2);
    assert_eq!(events[0].connection, first);
    assert_eq!(events[1].connection, second);
    assert!(events.iter().all(|event| event.kind == EventKind::GlobalRemove { name }));
    assert!(!state.withdraw_global(name), "a name is withdrawn once");
    assert_eq!(
        state.dispatch(first, ClientRequest::Bind { name, version: 1, new_id: id(256) }),
        Err(StateError::InvalidState { object_id: id(256) })
    );
    assert_eq!(state.advertise_global(ObjectKind::Compositor, 1), Some(name + 1), "names are not reused");
}

#[test]
fn a_buffer_carved_from_a_pool_lies_inside_it() {
    let mut state = state_with_limits(ConnectionLimits::default());
    let client = connect(&mut state);
    let memory = SharedMemory::new(7, 4096);
    state
        .dispatch(client, ClientRequest::CreatePool { new_id: id(256), memory })
        .expect("pool");
    assert_eq!(state.pool_memory(client, id(256)), Some(memory));
    // 16 rows of 64 bytes from offset 3072 end exactly at the pool's end.
    let size = Size { width: 16, height: 16 };
    state
        .dispatch(
            client,
            ClientRequest::CreateBuffer { new_id: id(257), pool: id(256), offset: 3072, size, stride: 64, format: 0 },
        )
        .expect("a buffer that fits");
    let descriptor = BufferDescriptor {
        transport: BufferTransport::SoftwareShm,
        size,
        stride: 64,
        byte_len: 1024,
    };
    assert_eq!(state.buffer_source(client, id(257)), Some(BufferSource { memory, offset: 3072, descriptor }));
    assert_eq!(state.buffer_state(client, id(257)), Some(BufferState::Available));
    assert_eq!(
        state.dispatch(
            client,
            ClientRequest::CreateBuffer { new_id: id(258), pool: id(256), offset: 3073, size, stride: 64, format: 0 },
        ),
        Err(StateError::InvalidState { object_id: id(258) }),
        "one byte past the end"
    );
    assert_eq!(
        state.dispatch(
            client,
            ClientRequest::CreateBuffer { new_id: id(259), pool: id(256), offset: 0, size, stride: 64, format: 9 },
        ),
        Err(StateError::InvalidState { object_id: id(259) }),
        "an unknown format"
    );
    assert_eq!(
        state.dispatch(
            client,
            ClientRequest::CreateBuffer { new_id: id(260), pool: id(257), offset: 0, size, stride: 64, format: 0 },
        ),
        Err(StateError::WrongObjectType { object_id: id(257), expected: ObjectKind::ShmPool, actual: ObjectKind::Buffer })
    );
    assert!(!state.is_connected(client), "naming a buffer as a pool is a protocol error");
}

#[test]
fn an_imported_buffer_has_no_pool_source() {
    let mut state = state_with_limits(ConnectionLimits::default());
    let client = connect(&mut state);
    import_buffer(&mut state, client, 256);
    assert_eq!(state.buffer_source(client, id(256)), None);
    assert_eq!(state.pool_memory(client, id(256)), None);
}

#[test]
fn a_fenced_release_needs_the_capability_and_a_held_buffer() {
    let offered = software_capabilities().with(Capability::ExplicitGpuFence);
    let mut state = CompositorState::new(offered, ServerLimits::default(), ConnectionLimits::default());
    let client = state.connect(offered, CapabilitySet::empty()).expect("connect");
    create_session(&mut state, client, 256);
    create_surface(&mut state, client, 257);
    import_buffer(&mut state, client, 258);
    state.create_fence(client, id(259)).expect("fence");
    assert_eq!(
        state.release_buffer_with_fence(client, id(258), id(259)),
        Err(StateError::InvalidState { object_id: id(258) }),
        "a buffer the client still holds is not the compositor's to release"
    );
    attach_and_commit(&mut state, client, 257, 258);
    state.take_events();
    state.release_buffer_with_fence(client, id(258), id(259)).expect("release");
    assert_eq!(state.buffer_state(client, id(258)), Some(BufferState::Available));
    let events = state.take_events();
    assert_eq!(events[0].object_id, id(258));
    assert_eq!(events[0].kind, EventKind::BufferReleaseWithFence { fence: id(259) });
}

#[test]
fn a_frame_deadline_is_told_to_the_surface() {
    let mut state = state_with_limits(ConnectionLimits::default());
    let client = connect(&mut state);
    create_session(&mut state, client, 256);
    create_surface(&mut state, client, 257);
    let key = SurfaceKey { connection: client, object_id: id(257) };
    assert_eq!(state.set_frame_deadline(key, 5_000, 0), Err(StateError::InvalidState { object_id: id(257) }));
    state.take_events();
    state.set_frame_deadline(key, 5_000, 16_666_667).expect("deadline");
    assert_eq!(
        state.take_events()[0].kind,
        EventKind::FrameDeadline { deadline_ns: 5_000, refresh_interval_ns: 16_666_667 }
    );
}

#[test]
fn snapshots_report_what_seats_sessions_surfaces_and_buffers_hold() {
    let mut state = state_with_limits(ConnectionLimits::default());
    let client = connect(&mut state);
    state
        .create_seat(client, id(256), SeatCapabilities::empty().with_keyboard(), false)
        .expect("seat");
    state.create_session(client, id(257), Some(id(256)), true).expect("session");
    assert_eq!(
        state.seat_snapshot(client, id(256)),
        Some(SeatSnapshot { capabilities: SeatCapabilities::empty().with_keyboard(), active: false })
    );
    assert_eq!(state.session_snapshot(client, id(257)), Some(SessionSnapshot { seat: Some(id(256)), active: true }));
    assert_eq!(state.seat_snapshot(client, id(257)), None);
    import_buffer(&mut state, client, 258);
    assert_eq!(state.buffer_descriptor(client, id(258)), Some(descriptor(100, 80)));
    assert_eq!(state.buffer_descriptor(client, id(256)), None);
    assert_eq!(state.surface_role(client, id(300)), None);
}

#[test]
fn an_input_stream_needs_extended_input_and_goes_when_it_is_revoked() {
    let offered = software_capabilities().with(Capability::ExtendedInput);
    let mut state = CompositorState::new(offered, ServerLimits::default(), ConnectionLimits::default());
    let client = state.connect(offered, CapabilitySet::empty()).expect("connect");
    assert_eq!(
        state.create_input_stream(client, id(256)),
        Err(StateError::UnsupportedCapability { object_id: id(256), capability: Capability::ExtendedInput })
    );
    state.grant_capability(client, Capability::ExtendedInput).expect("grant");
    state.create_input_stream(client, id(256)).expect("stream");
    assert_eq!(state.object_kind(client, id(256)), Some(ObjectKind::InputStream));
    state.revoke_capability(client, Capability::ExtendedInput).expect("revoke");
    assert_eq!(state.object_kind(client, id(256)), None);
}
