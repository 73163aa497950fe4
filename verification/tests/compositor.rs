use atria::compositor::binding::{interface_of, Interface};
use atria::compositor::error::{Capability, CapabilitySet, Consequence, ObjectId, Opcode, StateError};
use atria::compositor::registry::ObjectRegistry;
use atria::compositor::state::{
    ClientRequest, CompositorState, EventKind, NegotiationError,
};
use atria::model::{ConnectionLimits, ErrorCategory, ObjectKind, ServerLimits};

fn software() -> CapabilitySet {
    CapabilitySet::default_grants().with(Capability::SoftwareShm)
}

fn state() -> CompositorState {
    CompositorState::new(software(), ServerLimits::default(), ConnectionLimits::default())
}

#[test]
fn closing_tears_down_newest_first() {
    let mut compositor = state();
    let connection = compositor.connect(software(), CapabilitySet::empty()).unwrap();
    for id in [5, 3, 9] {
        compositor
            .dispatch(connection, ClientRequest::CreateRegistry { new_id: ObjectId(id) })
            .unwrap();
    }
    let teardown = compositor.close_connection(connection);
    assert_eq!(
        teardown.destroyed,
        vec![
            (ObjectId(9), ObjectKind::Registry),
            (ObjectId(3), ObjectKind::Registry),
            (ObjectId(5), ObjectKind::Registry),
            (ObjectId(1), ObjectKind::Display),
        ]
    );
    assert!(!compositor.is_connected(connection));
    assert!(compositor.close_connection(connection).destroyed.is_empty());
}

#[test]
fn connections_cannot_reach_each_others_objects() {
    let mut compositor = state();
    let first = compositor.connect(software(), CapabilitySet::empty()).unwrap();
    let second = compositor.connect(software(), CapabilitySet::empty()).unwrap();
    assert_ne!(first, second);
    compositor
        .dispatch(first, ClientRequest::CreateRegistry { new_id: ObjectId(2) })
        .unwrap();
    assert_eq!(compositor.object_kind(first, ObjectId(2)), Some(ObjectKind::Registry));
    assert_eq!(compositor.object_kind(second, ObjectId(2)), None);
    let refused = compositor.dispatch(second, ClientRequest::Destroy { object: ObjectId(2) });
    assert_eq!(refused, Err(StateError::InvalidObject { object_id: ObjectId(2) }));
    // A protocol error closes the offender and leaves the owner's object alone.
    assert!(!compositor.is_connected(second));
    assert_eq!(compositor.object_kind(first, ObjectId(2)), Some(ObjectKind::Registry));
}

#[test]
fn destroying_tells_the_client_then_retires_the_identifier() {
    let mut compositor = state();
    let connection = compositor.connect(software(), CapabilitySet::empty()).unwrap();
    compositor
        .dispatch(connection, ClientRequest::CreateRegistry { new_id: ObjectId(4) })
        .unwrap();
    compositor
        .dispatch(connection, ClientRequest::Destroy { object: ObjectId(4) })
        .unwrap();
    let events = compositor.take_events();
    assert_eq!(events.len(), 2);
    assert_eq!(events[0].kind, EventKind::ObjectDestroyed(ObjectKind::Registry));
    assert_eq!(events[1].kind, EventKind::IdRetired);
    assert_eq!(events[1].object_id, ObjectId(4));
    // Retired, so it may be taken again.
    compositor
        .dispatch(connection, ClientRequest::CreateRegistry { new_id: ObjectId(4) })
        .unwrap();
}

#[test]
fn identifiers_are_checked_before_use() {
    let mut compositor = state();
    let connection = compositor.connect(software(), CapabilitySet::empty()).unwrap();
    assert_eq!(
        compositor.dispatch(connection, ClientRequest::CreateRegistry { new_id: ObjectId(0) }),
        Err(StateError::InvalidObjectId { object_id: ObjectId(0) })
    );
    assert!(!compositor.is_connected(connection));

    let connection = compositor.connect(software(), CapabilitySet::empty()).unwrap();
    compositor
        .dispatch(connection, ClientRequest::CreateRegistry { new_id: ObjectId(7) })
        .unwrap();
    assert_eq!(
        compositor.dispatch(connection, ClientRequest::CreateRegistry { new_id: ObjectId(7) }),
        Err(StateError::ObjectIdAlreadyUsed { object_id: ObjectId(7) })
    );
    assert!(!compositor.is_connected(connection));
}

#[test]
fn destroying_the_display_is_refused_and_terminates_it() {
    let mut compositor = state();
    let connection = compositor.connect(software(), CapabilitySet::empty()).unwrap();
    let result = compositor.dispatch(connection, ClientRequest::Destroy { object: ObjectId(1) });
    assert_eq!(result, Err(StateError::InvalidState { object_id: ObjectId(1) }));
    // An object error terminates the object it names; the display goes, the connection stays.
    assert!(compositor.is_connected(connection));
    assert_eq!(compositor.object_kind(connection, ObjectId(1)), None);
    let events = compositor.take_events();
    assert_eq!(events[0].kind, EventKind::Error(StateError::InvalidState { object_id: ObjectId(1) }));
    assert_eq!(events[1].kind, EventKind::ObjectDestroyed(ObjectKind::Display));
}

#[test]
fn unknown_requests_on_live_objects_are_protocol_errors() {
    let mut compositor = state();
    let connection = compositor.connect(software(), CapabilitySet::empty()).unwrap();
    let result = compositor.dispatch(
        connection,
        ClientRequest::Unknown { object: ObjectId(1), opcode: Opcode(42) },
    );
    assert_eq!(
        result,
        Err(StateError::UnknownOpcode { object_id: ObjectId(1), opcode: Opcode(42) })
    );
    assert!(!compositor.is_connected(connection));
    assert_eq!(
        compositor.dispatch(connection, ClientRequest::Destroy { object: ObjectId(1) }),
        Err(StateError::ConnectionClosed)
    );
}

#[test]
fn a_client_that_stops_reading_is_disconnected() {
    let limits = ConnectionLimits {
        max_pending_events: 2,
        ..ConnectionLimits::default()
    };
    let mut compositor = CompositorState::new(software(), ServerLimits::default(), limits);
    let connection = compositor.connect(software(), CapabilitySet::empty()).unwrap();
    compositor
        .dispatch(connection, ClientRequest::CreateRegistry { new_id: ObjectId(2) })
        .unwrap();
    compositor
        .dispatch(connection, ClientRequest::Destroy { object: ObjectId(2) })
        .unwrap();
    assert!(compositor.is_connected(connection));
    compositor
        .dispatch(connection, ClientRequest::CreateRegistry { new_id: ObjectId(3) })
        .unwrap();
    compositor
        .dispatch(connection, ClientRequest::Destroy { object: ObjectId(3) })
        .unwrap();
    assert!(!compositor.is_connected(connection));
    let events = compositor.take_events();
    assert_eq!(
        events.last().unwrap().kind,
        EventKind::Error(StateError::EventQueueOverflow { queued: 2 })
    );
}

#[test]
fn the_object_quota_is_a_resource_error() {
    let limits = ConnectionLimits {
        max_objects: 2,
        ..ConnectionLimits::default()
    };
    let mut compositor = CompositorState::new(software(), ServerLimits::default(), limits);
    let connection = compositor.connect(software(), CapabilitySet::empty()).unwrap();
    compositor
        .dispatch(connection, ClientRequest::CreateRegistry { new_id: ObjectId(2) })
        .unwrap();
    assert_eq!(
        compositor.dispatch(connection, ClientRequest::CreateRegistry { new_id: ObjectId(3) }),
        Err(StateError::QuotaExceeded { object_id: ObjectId(3) })
    );
    assert!(compositor.is_connected(connection));
    assert_eq!(compositor.object_kind(connection, ObjectId(3)), None);
}

#[test]
fn the_connection_limit_is_held() {
    let mut compositor = CompositorState::new(
        software(),
        ServerLimits { max_connections: 1 },
        ConnectionLimits::default(),
    );
    let first = compositor.connect(software(), CapabilitySet::empty()).unwrap();
    assert_eq!(
        compositor.connect(software(), CapabilitySet::empty()),
        Err(NegotiationError::ConnectionLimitReached { limit: 1 })
    );
    compositor.close_connection(first);
    assert!(compositor.connect(software(), CapabilitySet::empty()).is_ok());
}

#[test]
fn errors_carry_codes_categories_and_consequences() {
    let object_error = StateError::InvalidState { object_id: ObjectId(8) };
    assert_eq!(object_error.category(), ErrorCategory::Object);
    assert_eq!(object_error.consequence(), Consequence::DestroyObject(ObjectId(8)));
    assert_eq!(StateError::ConnectionClosed.object_id(), ObjectId(1));
    assert_eq!(StateError::ConnectionClosed.consequence(), Consequence::CloseConnection);
    assert_eq!(
        StateError::EventQueueOverflow { queued: 3 }.consequence(),
        Consequence::ReportOnly
    );
    assert_eq!(StateError::QuotaExceeded { object_id: ObjectId(2) }.code().value(), 0x0200);
}

#[test]
fn a_registry_keeps_identifiers_until_retired() {
    let mut registry = ObjectRegistry::new(());
    assert_eq!(registry.len(), 1);
    assert_eq!(registry.kind_of(ObjectId(1)), Some(ObjectKind::Display));
    registry.allocate_client(ObjectId(2), ObjectKind::Surface, ()).unwrap();
    assert_eq!(registry.remove(ObjectId(2)).map(|entry| entry.0), Some(ObjectKind::Surface));
    assert_eq!(
        registry.allocate_client(ObjectId(2), ObjectKind::Buffer, ()),
        Err(StateError::ObjectIdAlreadyUsed { object_id: ObjectId(2) })
    );
    registry.retire(ObjectId(2));
    registry.allocate_client(ObjectId(2), ObjectKind::Buffer, ()).unwrap();
    assert_eq!(registry.ids_reverse_creation(), vec![ObjectId(2), ObjectId(1)]);
    assert_eq!(
        registry.kind(ObjectId(9)),
        Err(StateError::InvalidObject { object_id: ObjectId(9) })
    );
}

#[test]
fn an_object_kind_answers_at_most_one_interface() {
    assert_eq!(interface_of(ObjectKind::Display), Some(Interface::Display));
    assert_eq!(
        interface_of(ObjectKind::Registry),
        Some(Interface::Registry)
    );
    assert_eq!(interface_of(ObjectKind::Surface), Some(Interface::Surface));
    assert_eq!(interface_of(ObjectKind::Buffer), Some(Interface::Buffer));

    assert_eq!(interface_of(ObjectKind::Seat), Some(Interface::Seat));
    for kind in [
        ObjectKind::Session,
        ObjectKind::Fence,
        ObjectKind::InputStream,
    ] {
        assert_eq!(
            interface_of(kind),
            None,
            "{kind:?} has no assigned interface"
        );
    }
}


#[test]
fn connections_past_the_server_limit_are_refused_rather_than_accepted() {
    let mut compositor = CompositorState::new(
        software(),
        ServerLimits { max_connections: 3 },
        ConnectionLimits::default(),
    );
    let first = compositor.connect(software(), CapabilitySet::empty()).unwrap();
    compositor.connect(software(), CapabilitySet::empty()).unwrap();
    compositor.connect(software(), CapabilitySet::empty()).unwrap();
    assert_eq!(
        compositor.connect(software(), CapabilitySet::empty()),
        Err(NegotiationError::ConnectionLimitReached { limit: 3 })
    );
    compositor.close_connection(first);
    let replacement = compositor.connect(software(), CapabilitySet::empty()).unwrap();
    assert!(compositor.is_connected(replacement));
    assert_eq!(
        compositor.connect(software(), CapabilitySet::empty()),
        Err(NegotiationError::ConnectionLimitReached { limit: 3 })
    );
}

#[test]
fn a_connection_gets_what_both_ends_offer_and_no_more() {
    let mut compositor = state();
    let required = CapabilitySet::empty().with(Capability::GpuPrime);
    match compositor.connect(software().with(Capability::GpuPrime), required) {
        Err(NegotiationError::UnsupportedCapabilities { required: r, available }) => {
            assert_eq!(r, required);
            assert!(available.contains(Capability::SoftwareShm));
            assert!(available.contains(Capability::SurfaceCreate));
            assert!(!available.contains(Capability::GpuPrime));
        }
        other => panic!("expected a refusal, got {other:?}"),
    }
    let client = software().with(Capability::ShellControl);
    let connection = compositor.connect(client, CapabilitySet::empty()).unwrap();
    let held = compositor.capabilities(connection).unwrap();
    assert!(held.contains(Capability::SurfaceCreate));
    assert!(held.contains(Capability::BufferImport));
    assert!(held.contains(Capability::SoftwareShm));
    assert!(!held.contains(Capability::ShellControl));
}

#[test]
fn grants_are_bounded_by_what_was_offered_and_revocation_is_announced() {
    let mut compositor = CompositorState::new(
        software().with(Capability::ShellControl),
        ServerLimits::default(),
        ConnectionLimits::default(),
    );
    let shell = compositor
        .connect(software().with(Capability::ShellControl), CapabilitySet::empty())
        .unwrap();
    assert_eq!(
        compositor.grant_capability(shell, Capability::InputMethod),
        Err(StateError::UnsupportedCapability {
            object_id: ObjectId(1),
            capability: Capability::InputMethod,
        })
    );
    compositor.grant_capability(shell, Capability::ShellControl).unwrap();
    assert!(compositor.capabilities(shell).unwrap().contains(Capability::ShellControl));
    assert_eq!(compositor.revoke_capability(shell, Capability::ShellControl), Ok(vec![]));
    assert!(!compositor.capabilities(shell).unwrap().contains(Capability::ShellControl));
    let events = compositor.take_events();
    assert_eq!(events.len(), 1);
    assert_eq!(events[0].kind, EventKind::CapabilityRevoked(Capability::ShellControl));
    compositor.close_connection(shell);
    assert_eq!(
        compositor.revoke_capability(shell, Capability::ShellControl),
        Err(StateError::ConnectionClosed)
    );
}

#[test]
fn a_registry_hands_back_the_value_stored_under_an_identifier() {
    let mut registry = ObjectRegistry::new("display");
    registry.allocate_client(ObjectId(2), ObjectKind::Surface, "first").unwrap();
    registry.allocate_client(ObjectId(3), ObjectKind::Buffer, "second").unwrap();
    assert_eq!(registry.get(ObjectId(3)), Some(&"second"));
    assert_eq!(registry.get(ObjectId(1)), Some(&"display"));
    assert_eq!(registry.get(ObjectId(4)), None);
    assert_eq!(registry.remove(ObjectId(2)), Some((ObjectKind::Surface, "first")));
    assert_eq!(registry.get(ObjectId(3)), Some(&"second"));
}
