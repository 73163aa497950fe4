//! The system error numbers the device logic tells apart, as the platform's C library defines
//! them.

use vstd::prelude::*;

verus! {

/// `libc::ENOENT`, no such file: 2 on the Linux and FreeBSD targets this library is built for.
#[verifier::external_body]
pub(crate) fn no_such_file() -> (errno: i32)
    ensures
        errno == 2,
{
    libc::ENOENT
}

/// `libc::EIO`, an input/output error: 5 on Linux and FreeBSD.
#[verifier::external_body]
pub(crate) fn input_output_error() -> (errno: i32)
    ensures
        errno == 5,
{
    libc::EIO
}

/// `libc::EACCES`, permission denied: 13 on Linux and FreeBSD.
#[verifier::external_body]
pub(crate) fn permission_denied() -> (errno: i32)
    ensures
        errno == 13,
{
    libc::EACCES
}

/// `libc::EBUSY`, device or resource busy: 16 on Linux and FreeBSD.
#[verifier::external_body]
pub(crate) fn resource_busy() -> (errno: i32)
    ensures
        errno == 16,
{
    libc::EBUSY
}

/// `libc::EINVAL`, invalid argument: 22 on Linux and FreeBSD.
#[verifier::external_body]
pub(crate) fn invalid_argument() -> (errno: i32)
    ensures
        errno == 22,
{
    libc::EINVAL
}

/// `libc::EOPNOTSUPP`, operation not supported. Its value differs by target: 95 on most Linux
/// architectures, 122 on MIPS, 45 on SPARC and on FreeBSD. Which one this build has is left
/// unsaid.
#[verifier::external_body]
pub(crate) fn not_supported() -> (errno: i32)
    ensures
        errno == 45 || errno == 95 || errno == 122,
{
    libc::EOPNOTSUPP
}

} // verus!
