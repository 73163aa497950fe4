//! What a descriptor's `poll(2)` result asks of its owner.

use vstd::prelude::*;

verus! {

/// `libc::POLLIN`: the bit of a poll result saying data can be read. It is `0x1` on the Linux
/// and FreeBSD targets this library is built for.
#[verifier::external_body]
fn poll_readable() -> (flag: i16)
    ensures
        flag == 0x1,
{
    libc::POLLIN
}

/// `libc::POLLERR`: the bit of a poll result reporting an error condition, `0x8` on Linux and
/// FreeBSD.
#[verifier::external_body]
fn poll_error() -> (flag: i16)
    ensures
        flag == 0x8,
{
    libc::POLLERR
}

/// `libc::POLLHUP`: the bit of a poll result reporting a hangup, `0x10` on Linux and FreeBSD.
#[verifier::external_body]
fn poll_hangup() -> (flag: i16)
    ensures
        flag == 0x10,
{
    libc::POLLHUP
}

/// `libc::POLLNVAL`: the bit of a poll result reporting a descriptor that is not open, `0x20`
/// on Linux and FreeBSD.
#[verifier::external_body]
fn poll_invalid() -> (flag: i16)
    ensures
        flag == 0x20,
{
    libc::POLLNVAL
}

/// A poll result says data can be read.
pub open spec fn revents_readable(revents: i16) -> bool {
    revents & 0x1i16 != 0i16
}

/// A poll result reports an error, a hangup or a descriptor that is not open.
pub open spec fn revents_failed(revents: i16) -> bool {
    revents & (0x8i16 | 0x10i16 | 0x20i16) != 0i16
}

/// The actions implied by one descriptor's `poll(2)` result.
#[derive(Clone, Copy, Debug, Default, PartialEq, Eq, Structural)]
pub struct DescriptorReadiness {
    readable: bool,
    failed: bool,
}

impl DescriptorReadiness {
    /// Queued records can be read.
    pub closed spec fn readable(self) -> bool {
        self.readable
    }

    /// The descriptor must be retired once drained.
    pub closed spec fn failed(self) -> bool {
        self.failed
    }

    pub fn is_readable(self) -> (readable: bool)
        ensures
            readable == self.readable(),
    {
        self.readable
    }

    pub fn has_failed(self) -> (failed: bool)
        ensures
            failed == self.failed(),
    {
        self.failed
    }
}

/// Classifies kernel readiness flags without performing I/O.
///
/// Readability and failure are independent because a hung-up descriptor can still have queued
/// records; its owner may drain them before retiring the descriptor.
pub fn classify_descriptor(revents: i16) -> (readiness: DescriptorReadiness)
    ensures
        readiness.readable() == revents_readable(revents),
        readiness.failed() == revents_failed(revents),
{
    let readable_flag = poll_readable();
    let failure_flags = poll_error() | poll_hangup() | poll_invalid();
    DescriptorReadiness { readable: revents & readable_flag != 0, failed: revents & failure_flags != 0 }
}

/// The positions of the descriptors whose poll results say they can be read, in increasing
/// order.
pub fn readable_indices(revents: &[i16]) -> (indices: Vec<usize>)
    ensures
        forall|a: int, b: int| 0 <= a < b < indices@.len() ==> indices@[a] < indices@[b],
        forall|i: usize|
            indices@.contains(i) <==> (i < revents@.len() && revents_readable(revents@[i as int])),
{
    let mut indices: Vec<usize> = Vec::new();
    let mut i: usize = 0;
    while i < revents.len()
        invariant
            i <= revents@.len(),
            forall|a: int, b: int| 0 <= a < b < indices@.len() ==> indices@[a] < indices@[b],
            forall|a: int| 0 <= a < indices@.len() ==> indices@[a] < i,
            forall|j: usize|
                indices@.contains(j) <==> (j < i && revents_readable(revents@[j as int])),
        decreases revents@.len() - i,
    {
        if classify_descriptor(revents[i]).is_readable() {
            let ghost before = indices@;
            indices.push(i);
            proof {
                assert forall|j: usize|
                    indices@.contains(j) <==> (j < i + 1 && revents_readable(
                        revents@[j as int],
                    )) by {
                    if before.contains(j) {
                        let a = choose|a: int| 0 <= a < before.len() && before[a] == j;
                        assert(indices@[a] == j);
                    }
                    if indices@.contains(j) {
                        let a = choose|a: int| 0 <= a < indices@.len() && indices@[a] == j;
                        if a < before.len() {
                            assert(before[a] == j);
                        }
                    }
                    if j == i {
                        assert(indices@[indices@.len() - 1] == j);
                    }
                }
            }
        }
        i = i + 1;
    }
    indices
}

} // verus!
