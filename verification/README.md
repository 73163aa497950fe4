# atria

Verified decision logic for the Atria display server: the display topology a compositor keeps,
evdev report assembly and key normalization, and DRM/KMS mode, connector, CRTC and flip
handling. Every function in `src/` carries a contract that Verus proves.

- `src/model.rs`, `src/output.rs`: compositor vocabulary and the set of displays, which keeps
  an unplugged display's identity and placement and reports each topology change as one delta.
- `src/compositor/`: the protocol state machine — object identifiers, the per-connection object
  registry, capability sets, connection admission with capability negotiation, grants and
  revocation (which destroys what needed the revoked capability), and teardown (newest object
  first). Globals are offered under names that are never reused, announced to each new
  registry, bound at a version they offer and withdrawn with notice to every connection.
  Seats, sessions, surfaces, shared-memory pools, buffers (imported, or carved from a pool
  within its bounds) and fences are objects of the registry: surfaces
  are created in their connection's session, buffers are attached, committed (each commit is
  numbered, and carries its fence, damage, refresh range and frame request), held by the
  compositor and handed back when a newer commit is presented, released with or without a fence,
  or when the surface lets go; a present sends the frame event the content owes, and frame
  deadlines are told and misses counted. A surface may be given a toplevel window, which has a
  title, size bounds and a handle never reused, and can be asked to close. Input streams need
  the extended-input capability. The scene stacks the surfaces that
  show content, with their places; keyboard focus and the pointer's target follow it, and a
  session that goes inactive loses both. Destroying a seat takes its sessions and their
  surfaces with it. Every failed request costs what its category says (a protocol error closes
  the connection, an object error terminates the object, a resource error is reported), and a
  client that stops reading its events is disconnected. Every operation is stated against an
  abstract `CompositorModel`. The shell's requests and configures, output globals and input
  routing to pointer and keyboard objects are not part of it.
- `src/input/`: report assembly, key normalization under epochs, device classification and
  readiness, and fault isolation across a set of devices.
- `src/drm/`: mode and output selection, buffer geometry, flip-event parsing, atomic commit
  contents and flip bookkeeping.
- `src/ioctl.rs`, `src/path.rs`, `src/errno.rs`: request-number encoding for Linux and FreeBSD
  (`app/` picks the target's), device node paths,
  and the C library's error numbers.
- `app/`: the system side — opening nodes, ioctls, `poll(2)`, `mmap(2)` — which calls into the
  library for every decision.

The library targets Linux (with Android) and FreeBSD: the C library's error numbers and poll
flags it relies on, and the ioctl packings it offers, are those of these kernels.
