use atria::compositor::error::{CapabilitySet, ObjectId, StateError};
use atria::compositor::state::{ClientRequest, CompositorState, EventKind};
use atria::model::{ConnectionId, ConnectionLimits, ObjectKind, ServerLimits, Size, TitleText};

fn id(raw: u32) -> ObjectId {
    ObjectId(raw)
}

fn connected() -> (CompositorState, ConnectionId) {
    let mut state = CompositorState::new(
        CapabilitySet::default_grants(),
        ServerLimits::default(),
        ConnectionLimits::default(),
    );
    let connection = state
        .connect(CapabilitySet::default_grants(), CapabilitySet::empty())
        .unwrap_or_else(|error| panic!("baseline capabilities overlap: {error:?}"));
    state
        .create_session(connection, id(9), None, true)
        .unwrap_or_else(|error| panic!("the session is established: {error:?}"));
    state
        .dispatch(connection, ClientRequest::CreateSurface { new_id: id(256) })
        .unwrap_or_else(|error| panic!("the surface is created: {error:?}"));
    (state, connection)
}

#[test]
fn a_surface_takes_one_role_and_a_second_is_refused() {
    let (mut state, connection) = connected();
    state
        .dispatch(connection, ClientRequest::GetToplevel { surface: id(256), new_id: id(257) })
        .unwrap_or_else(|error| panic!("the first role applies: {error:?}"));
    assert_eq!(state.object_kind(connection, id(257)), Some(ObjectKind::Toplevel));
    assert_eq!(
        state.dispatch(connection, ClientRequest::GetToplevel { surface: id(256), new_id: id(258) }),
        Err(StateError::InvalidState { object_id: id(256) }),
        "the surface already has a role"
    );
}

#[test]
fn a_role_cannot_be_given_to_something_that_is_not_a_surface() {
    let (mut state, connection) = connected();
    assert!(matches!(
        state.dispatch(connection, ClientRequest::GetToplevel { surface: id(9), new_id: id(257) }),
        Err(StateError::WrongObjectType { .. })
    ));
}

#[test]
fn a_title_a_client_sets_is_the_title_a_shell_reads() {
    let (mut state, connection) = connected();
    state
        .dispatch(connection, ClientRequest::GetToplevel { surface: id(256), new_id: id(257) })
        .unwrap_or_else(|error| panic!("the role applies: {error:?}"));
    assert_eq!(
        state.toplevel_title(connection, id(257)),
        Some(""),
        "a window starts with no title rather than a placeholder"
    );
    let title = TitleText::new("Notes — draft").expect("a short title is allowed");
    state
        .dispatch(connection, ClientRequest::SetTitle { toplevel: id(257), title })
        .unwrap_or_else(|error| panic!("the title is set: {error:?}"));
    assert_eq!(state.toplevel_title(connection, id(257)), Some("Notes — draft"));
}

#[test]
fn closing_a_toplevel_asks_rather_than_destroys() {
    let (mut state, connection) = connected();
    state
        .dispatch(connection, ClientRequest::GetToplevel { surface: id(256), new_id: id(257) })
        .unwrap_or_else(|error| panic!("the role applies: {error:?}"));
    state.take_events();
    state
        .close_toplevel(connection, id(257))
        .unwrap_or_else(|error| panic!("the request is delivered: {error:?}"));
    assert_eq!(
        state.object_kind(connection, id(257)),
        Some(ObjectKind::Toplevel),
        "the window is still there until its client destroys it"
    );
    assert_eq!(state.take_events()[0].kind, EventKind::Close);
}

#[test]
fn a_destroyed_window_takes_its_title_and_handle_and_a_new_one_gets_a_fresh_handle() {
    let (mut state, connection) = connected();
    state
        .dispatch(connection, ClientRequest::GetToplevel { surface: id(256), new_id: id(257) })
        .expect("window");
    let first = state.toplevel_handle(connection, id(257)).expect("a handle");
    let title = TitleText::new("Old").expect("title");
    state.dispatch(connection, ClientRequest::SetTitle { toplevel: id(257), title }).expect("title");
    state.dispatch(connection, ClientRequest::Destroy { object: id(257) }).expect("destroy");
    assert_eq!(state.toplevel_title(connection, id(257)), None);
    assert_eq!(state.toplevel_handle(connection, id(257)), None);
    state
        .dispatch(connection, ClientRequest::GetToplevel { surface: id(256), new_id: id(257) })
        .expect("the same number, a new window");
    assert_eq!(state.toplevel_title(connection, id(257)), Some(""), "the old title did not survive");
    let second = state.toplevel_handle(connection, id(257)).expect("a handle");
    assert_ne!(first, second, "a retired handle is never handed out again");
}

#[test]
fn size_bounds_and_titles_need_a_window() {
    let (mut state, connection) = connected();
    assert_eq!(
        state.dispatch(connection, ClientRequest::SetMinSize { toplevel: id(256), size: Size { width: 10, height: 10 } }),
        Err(StateError::WrongObjectType {
            object_id: id(256),
            expected: ObjectKind::Toplevel,
            actual: ObjectKind::Surface
        })
    );
    assert!(!state.is_connected(connection), "naming a surface as a window is a protocol error");
    let (mut state, connection) = connected();
    state
        .dispatch(connection, ClientRequest::GetToplevel { surface: id(256), new_id: id(257) })
        .expect("window");
    state
        .dispatch(connection, ClientRequest::SetMinSize { toplevel: id(257), size: Size { width: 10, height: 10 } })
        .expect("minimum");
    state
        .dispatch(connection, ClientRequest::SetMaxSize { toplevel: id(257), size: Size { width: 90, height: 90 } })
        .expect("maximum");
    assert_eq!(
        state.dispatch(connection, ClientRequest::SetTitle { toplevel: id(300), title: TitleText::default() }),
        Err(StateError::InvalidObject { object_id: id(300) })
    );
}

#[test]
fn a_shell_is_handed_every_live_window_in_handle_order() {
    let (mut state, connection) = connected();
    state
        .dispatch(connection, ClientRequest::CreateSurface { new_id: id(300) })
        .expect("second surface");
    state
        .dispatch(connection, ClientRequest::GetToplevel { surface: id(256), new_id: id(257) })
        .expect("first window");
    state
        .dispatch(connection, ClientRequest::GetToplevel { surface: id(300), new_id: id(301) })
        .expect("second window");
    let title = TitleText::new("Mail").expect("title");
    state.dispatch(connection, ClientRequest::SetTitle { toplevel: id(301), title }).expect("title");
    let records = state.shell_toplevels();
    assert_eq!(records.len(), 2);
    assert_eq!(records[0].object_id, id(257));
    assert_eq!(records[0].title, "");
    assert_eq!(records[1].object_id, id(301));
    assert_eq!(records[1].title, "Mail");
    assert!(records[0].handle < records[1].handle);
    state.dispatch(connection, ClientRequest::Destroy { object: id(257) }).expect("destroy");
    let records = state.shell_toplevels();
    assert_eq!(records.len(), 1);
    assert_eq!(records[0].object_id, id(301));
    state.close_connection(connection);
    assert!(state.shell_toplevels().is_empty(), "a connection going takes its windows");
}
