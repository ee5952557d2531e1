//! How long ago something was.

use vstd::prelude::*;

verus! {

/// A moment: seconds since the start of 1970 (UTC), and nanoseconds into the second.
#[derive(Debug, Clone, Copy, PartialEq, Eq, Structural)]
pub struct Moment {
    pub seconds: i64,
    pub nanos: u32,
}

/// The name of what chrono counts between an RFC 3339 stamp and a moment: whole seconds, and
/// the nanoseconds beyond them with the same sign. None where the stamp cannot be read.
pub uninterp spec fn elapsed(stamp: Seq<char>, seconds: i64, nanos: u32) -> Option<(i64, i32)>;

/// `DateTime::parse_from_rfc3339` and `signed_duration_since`; nothing where the stamp does not
/// parse, or the moment is outside what chrono can name.
#[verifier::external_body]
pub(crate) fn elapsed_since(stamp: &str, now: Moment) -> (r: Option<(i64, i32)>)
    ensures
        r == elapsed(stamp@, now.seconds, now.nanos),
{
    let then = chrono::DateTime::parse_from_rfc3339(stamp).ok()?;
    let now = chrono::DateTime::from_timestamp(now.seconds, now.nanos)?;
    let gap = now.signed_duration_since(then);
    Some((gap.num_seconds(), gap.subsec_nanos()))
}

/// Whether a span of seconds and nanoseconds is at least `limit` seconds long.
pub open spec fn at_least(span: (i64, i32), limit: i64) -> bool {
    span.0 > limit || (span.0 == limit && span.1 >= 0)
}

/// Whether something stamped is `limit` seconds old or older; what cannot be read counts as
/// old.
pub open spec fn is_old(stamp: Seq<char>, now: Moment, limit: i64) -> bool {
    match elapsed(stamp, now.seconds, now.nanos) {
        Some(span) => at_least(span, limit),
        None => true,
    }
}

/// Whether a span is at least `limit` seconds long.
pub fn span_at_least(span: (i64, i32), limit: i64) -> (r: bool)
    ensures
        r == at_least(span, limit),
{
    span.0 > limit || (span.0 == limit && span.1 >= 0)
}

pub fn stamp_is_old(stamp: &str, now: Moment, limit: i64) -> (r: bool)
    ensures
        r == is_old(stamp@, now, limit),
{
    match elapsed_since(stamp, now) {
        Some(span) => span_at_least(span, limit),
        None => true,
    }
}

// ---------------------------------------------------------------------------
// Laws
// ---------------------------------------------------------------------------

/// Something is old from the nanosecond on at which `limit` seconds have gone by since its
/// stamp, and not before; what cannot be read is old at any time.
pub proof fn old_is_as_long_ago_as_the_limit(stamp: Seq<char>, now: Moment, limit: i64)
    requires
        match elapsed(stamp, now.seconds, now.nanos) {
            Some((_, nanos)) => -1_000_000_000 < nanos < 1_000_000_000,
            None => true,
        },
    ensures
        match elapsed(stamp, now.seconds, now.nanos) {
            Some((seconds, nanos)) => is_old(stamp, now, limit) <==> seconds * 1_000_000_000 + nanos
                >= limit * 1_000_000_000,
            None => is_old(stamp, now, limit),
        },
{
}

} // verus!
