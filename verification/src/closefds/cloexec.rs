//! Marking descriptors close-on-exec in bulk.

use crate::closefds::close::{succeeded, Mode, Sweep, SweepView};
use crate::closefds::KeepFds;
use crate::iterfds::FdIterBuilder;
use crate::sys::{Capability, RangeSupport, Reply, Request, Sys};
use vstd::prelude::*;

verus! {

/// Starts a sweep that marks close-on-exec every descriptor at or above
/// `minfd` that is not in `keep_fds`. The enumeration it may fall back on
/// takes its options from `itbuilder`.
pub fn set_fds_cloexec<'a>(
    minfd: i32,
    keep_fds: KeepFds<'a>,
    itbuilder: FdIterBuilder,
    sys: Sys,
) -> (r: Sweep<'a>)
    ensures
        r@ == SweepView::fresh(Mode::Cloexec, minfd, keep_fds@, itbuilder@, sys),
{
    Sweep::new(Mode::Cloexec, minfd, keep_fds, itbuilder, sys)
}

/// The call that shows, without touching a descriptor in use, whether the
/// kernel marks ranges: it marks the one number that no descriptor can have.
/// Nothing is to be asked where the kernel never marks ranges or is known not
/// to.
pub open spec fn probe_spec(sys: Sys) -> Option<Request> {
    if sys.os.spec_cloexec_range() is Optimistic && !(sys.cloexec_range is Unavailable) {
        Some(Request::CloexecRange { low: u32::MAX, high: u32::MAX })
    } else {
        None
    }
}

/// See [`probe_spec`].
#[verifier::when_used_as_spec(probe_spec)]
pub fn probe(sys: Sys) -> (r: Option<Request>)
    ensures
        r == probe_spec(sys),
{
    if matches!(sys.os.cloexec_range(), RangeSupport::Optimistic) && !matches!(
        sys.cloexec_range,
        Capability::Unavailable
    ) {
        Some(Request::CloexecRange { low: u32::MAX, high: u32::MAX })
    } else {
        None
    }
}

/// What is known once the call of [`probe`] has been answered: a failure
/// gives marking ranges up for good, and a success changes nothing.
pub open spec fn probed_spec(sys: Sys, reply: Reply) -> Sys {
    if probe_spec(sys) is Some && !succeeded(reply) {
        Sys { cloexec_range: Capability::Unavailable, ..sys }
    } else {
        sys
    }
}

/// See [`probed_spec`].
#[verifier::when_used_as_spec(probed_spec)]
pub fn probed(sys: Sys, reply: Reply) -> (r: Sys)
    ensures
        r == probed_spec(sys, reply),
        sys.may_follow(r),
{
    let ok: bool = match reply {
        Reply::Value(v) => v == 0,
        _ => false,
    };
    if probe(sys).is_some() && !ok {
        Sys { cloexec_range: Capability::Unavailable, ..sys }
    } else {
        sys
    }
}

} // verus!
