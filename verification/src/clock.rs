//! The wall clock.

use std::time::SystemTime;

use vstd::prelude::*;

use crate::model::retry::{Delay, NANOS};

verus! {

/// `std::time::SystemTime`.
#[verifier::external_type_specification]
#[verifier::external_body]
pub struct ExSystemTime(SystemTime);

/// `SystemTime::now`. Nothing is said of the result: it depends on the moment
/// of the call.
#[verifier::external_body]
pub(crate) fn system_now() -> (r: SystemTime) {
    SystemTime::now()
}

/// The moment that a time stands for, in nanoseconds from the Unix epoch on.
pub uninterp spec fn moment(t: SystemTime) -> int;

/// The nanoseconds of a moment past its last whole second, and zero before the
/// Unix epoch.
pub open spec fn nanos_at(t: SystemTime) -> nat {
    if moment(t) < 0 {
        0
    } else {
        (moment(t) % NANOS as int) as nat
    }
}

/// `SystemTime::duration_since`, from the Unix epoch on: how much time lies
/// between the two, as seconds and as nanoseconds that make less than one second,
/// or `None` for a time before the epoch.
#[verifier::external_body]
pub(crate) fn since_epoch(t: &SystemTime) -> (r: Option<Delay>)
    ensures
        r is Some <==> moment(*t) >= 0,
        r matches Some(d) ==> d.wf() && d.total() == moment(*t),
{
    let d = t.duration_since(SystemTime::UNIX_EPOCH).ok()?;
    Some(Delay { secs: d.as_secs(), nanos: d.subsec_nanos() })
}

/// The nanoseconds of a span past its last whole second, and zero where there is
/// no span.
pub fn nanos_of(since: Option<Delay>) -> (r: u32)
    requires
        since matches Some(d) ==> d.wf(),
    ensures
        r < NANOS,
        r == match since {
            Some(d) => d.nanos,
            None => 0,
        },
{
    match since {
        Some(d) => d.nanos,
        None => 0,
    }
}

/// The nanoseconds past the last whole second on the wall clock, and zero on a
/// clock that is set to a moment before the Unix epoch: those of the moment that
/// the clock shows, whichever it is.
pub fn wall_nanos() -> (r: u32)
    ensures
        r < NANOS,
        exists|t: SystemTime| r == #[trigger] nanos_at(t),
{
    let t = system_now();
    let r: u32 = nanos_of(since_epoch(&t));
    assert(r == nanos_at(t));
    r
}

}
