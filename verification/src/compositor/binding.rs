//! Which wire interface an object answers.

use vstd::prelude::*;

use crate::model::ObjectKind;

verus! {

/// A wire interface: the set of requests and events an object speaks.
#[derive(Clone, Copy, Debug, PartialEq, Eq, Structural)]
pub enum Interface {
    Display,
    Registry,
    Compositor,
    Shm,
    ShmPool,
    Buffer,
    Surface,
    Shell,
    Toplevel,
    Output,
    ShellControl,
    Seat,
    Pointer,
    Keyboard,
}

/// The interface each kind answers. A seat answers its own, so a client can ask it for a
/// pointer or a keyboard. Sessions, fences and input streams exist in the compositor
/// and have none: a kind with no interface cannot be addressed from the wire at all.
pub open spec fn interface_for(kind: ObjectKind) -> Option<Interface> {
    match kind {
        ObjectKind::Display => Some(Interface::Display),
        ObjectKind::Registry => Some(Interface::Registry),
        ObjectKind::Surface => Some(Interface::Surface),
        ObjectKind::Buffer => Some(Interface::Buffer),
        ObjectKind::Compositor => Some(Interface::Compositor),
        ObjectKind::Shm => Some(Interface::Shm),
        ObjectKind::Shell => Some(Interface::Shell),
        ObjectKind::Toplevel => Some(Interface::Toplevel),
        ObjectKind::ShmPool => Some(Interface::ShmPool),
        ObjectKind::Output => Some(Interface::Output),
        ObjectKind::ShellControl => Some(Interface::ShellControl),
        ObjectKind::Pointer => Some(Interface::Pointer),
        ObjectKind::Keyboard => Some(Interface::Keyboard),
        ObjectKind::Seat => Some(Interface::Seat),
        ObjectKind::Session | ObjectKind::Fence | ObjectKind::InputStream => None,
    }
}

/// Which interface an object of this kind answers, when the draw path defines one.
pub fn interface_of(kind: ObjectKind) -> (interface: Option<Interface>)
    ensures
        interface == interface_for(kind),
{
    match kind {
        ObjectKind::Display => Some(Interface::Display),
        ObjectKind::Registry => Some(Interface::Registry),
        ObjectKind::Surface => Some(Interface::Surface),
        ObjectKind::Buffer => Some(Interface::Buffer),
        ObjectKind::Compositor => Some(Interface::Compositor),
        ObjectKind::Shm => Some(Interface::Shm),
        ObjectKind::Shell => Some(Interface::Shell),
        ObjectKind::Toplevel => Some(Interface::Toplevel),
        ObjectKind::ShmPool => Some(Interface::ShmPool),
        ObjectKind::Output => Some(Interface::Output),
        ObjectKind::ShellControl => Some(Interface::ShellControl),
        ObjectKind::Pointer => Some(Interface::Pointer),
        ObjectKind::Keyboard => Some(Interface::Keyboard),
        ObjectKind::Seat => Some(Interface::Seat),
        ObjectKind::Session | ObjectKind::Fence | ObjectKind::InputStream => None,
    }
}

/// No interface is answered by two kinds, so an interface names the kind behind it.
pub proof fn kinds_answer_distinct_interfaces(a: ObjectKind, b: ObjectKind)
    requires
        interface_for(a) is Some,
        interface_for(a) == interface_for(b),
    ensures
        a == b,
{
}

} // verus!
