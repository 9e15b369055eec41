//! Optional deadlines on a nanosecond clock.

use vstd::prelude::*;
use crate::text::{char_matches_lower, keyword_is, matches_keyword};

verus! {

/// Nanoseconds in one millisecond.
pub const NANOS_PER_MILLI: u64 = 1_000_000;

/// Nanoseconds in one second.
pub const NANOS_PER_SEC: u64 = 1_000_000_000;

/// Relies on std's `SystemTime::elapsed`, taken from the Unix epoch, for the
/// current time; nothing is promised of its value.
#[verifier::external_body]
fn clock_nanos() -> (r: u128) {
    match std::time::UNIX_EPOCH.elapsed() {
        Ok(d) => d.as_nanos(),
        Err(_) => 0,
    }
}

/// The current time, in nanoseconds since the Unix epoch (saturating at `u64::MAX`).
pub fn now() -> (r: u64) {
    let t = clock_nanos();
    if t > u64::MAX as u128 {
        u64::MAX
    } else {
        t as u64
    }
}

/// `a + b`, capped at `u64::MAX`.
pub open spec fn sat_add(a: u64, b: u64) -> u64 {
    if a + b > u64::MAX { u64::MAX } else { (a + b) as u64 }
}

/// `a * b`, capped at `u64::MAX`.
pub open spec fn sat_mul(a: u64, b: u64) -> u64 {
    if a * b > u64::MAX { u64::MAX } else { (a * b) as u64 }
}

fn saturating_add(a: u64, b: u64) -> (r: u64)
    ensures
        r == sat_add(a, b),
{
    if a > u64::MAX - b { u64::MAX } else { a + b }
}

fn saturating_mul(a: u64, b: u64) -> (r: u64)
    ensures
        r == sat_mul(a, b),
{
    if b == 0 {
        0
    } else if a > u64::MAX / b {
        proof {
            assert(a * b > u64::MAX) by (nonlinear_arith)
                requires a > u64::MAX / b, b > 0;
        }
        u64::MAX
    } else {
        proof {
            assert(a * b <= u64::MAX) by (nonlinear_arith)
                requires a <= u64::MAX / b, b > 0;
        }
        a * b
    }
}

/// An optional deadline: `None` never expires, `Some(t)` expires once the
/// clock has passed `t` (nanoseconds since the Unix epoch).
#[derive(Clone, Copy, Debug, PartialEq, Eq, Structural)]
pub struct Expiry {
    pub instant: Option<u64>,
}

/// The unit of an expiry amount.
#[derive(Clone, Copy, Debug, PartialEq, Eq, Structural)]
pub enum ExpiryFormat {
    /// Seconds.
    EX,
    /// Milliseconds.
    PX,
    /// Anything else.
    Uninitialized,
}

/// The format that a tag names, ignoring ASCII case.
pub open spec fn format_of(tag: Seq<char>) -> ExpiryFormat {
    if matches_keyword(tag, seq!['e', 'x']) {
        ExpiryFormat::EX
    } else if matches_keyword(tag, seq!['p', 'x']) {
        ExpiryFormat::PX
    } else {
        ExpiryFormat::Uninitialized
    }
}

impl ExpiryFormat {
    /// Reads an expiry tag: `EX` or `PX`, in any ASCII case.
    pub fn parse(tag: &str) -> (r: ExpiryFormat)
        ensures
            r == format_of(tag@),
    {
        proof {
            reveal_strlit("ex");
            reveal_strlit("px");
            assert("ex"@ == seq!['e', 'x']);
            assert("px"@ == seq!['p', 'x']);
        }
        if keyword_is(tag, "ex") {
            ExpiryFormat::EX
        } else if keyword_is(tag, "px") {
            ExpiryFormat::PX
        } else {
            ExpiryFormat::Uninitialized
        }
    }
}

impl<'a> From<&'a str> for ExpiryFormat {
    fn from(tag: &'a str) -> ExpiryFormat {
        ExpiryFormat::parse(tag)
    }
}

impl<'a> vstd::std_specs::convert::FromSpecImpl<&'a str> for ExpiryFormat {
    open spec fn obeys_from_spec() -> bool {
        true
    }

    open spec fn from_spec(tag: &'a str) -> ExpiryFormat {
        format_of(tag@)
    }
}

impl Expiry {
    /// Whether the deadline lies before `now`.
    pub open spec fn expired_at(self, now: u64) -> bool {
        match self.instant {
            None => false,
            Some(t) => t < now,
        }
    }

    /// What is left of the deadline at `now`, none for a never-expiring value.
    pub open spec fn remaining_spec(self, now: u64) -> Option<u64> {
        match self.instant {
            None => None,
            Some(t) => Some(if t > now { (t - now) as u64 } else { 0 }),
        }
    }

    /// The deadline `nanos` after `now`, capped at the clock's end.
    pub open spec fn after_spec(now: u64, nanos: u64) -> Expiry {
        Expiry { instant: Some(sat_add(now, nanos)) }
    }

    /// The expiry that an amount in a unit gives at `now`: seconds for `EX`,
    /// milliseconds for `PX`, never for any other tag.
    pub open spec fn with_format_spec(now: u64, amount: u64, format: ExpiryFormat) -> Expiry {
        match format {
            ExpiryFormat::EX => Expiry::after_spec(now, sat_mul(amount, NANOS_PER_SEC)),
            ExpiryFormat::PX => Expiry::after_spec(now, sat_mul(amount, NANOS_PER_MILLI)),
            ExpiryFormat::Uninitialized => Expiry { instant: None },
        }
    }

    /// An expiry at the given deadline.
    pub fn new(instant: u64) -> (r: Expiry)
        ensures
            r.instant == Some(instant),
    {
        Expiry { instant: Some(instant) }
    }

    /// An expiry that never comes.
    pub fn none() -> (r: Expiry)
        ensures
            r.instant is None,
    {
        Expiry { instant: None }
    }

    /// The deadline, if any.
    pub fn instant(&self) -> (r: &Option<u64>)
        ensures
            *r == self.instant,
    {
        &self.instant
    }

    /// Whether the deadline lies before `now`.
    pub fn is_expired_at(&self, now: u64) -> (r: bool)
        ensures
            r == self.expired_at(now),
    {
        match self.instant {
            None => false,
            Some(t) => t < now,
        }
    }

    /// Whether the deadline has passed on the clock.
    pub fn is_expired(&self) -> (r: bool)
        ensures
            exists|t: u64| r == self.expired_at(t),
            self.instant is None ==> !r,
    {
        let t = now();
        self.is_expired_at(t)
    }

    /// What is left of the deadline at `now`: zero once passed, none for a
    /// never-expiring value.
    pub fn remaining_at(&self, now: u64) -> (r: Option<u64>)
        ensures
            r == self.remaining_spec(now),
    {
        match self.instant {
            None => None,
            Some(t) => Some(if t > now { t - now } else { 0 }),
        }
    }

    /// What is left of the deadline on the clock.
    pub fn remaining(&self) -> (r: Option<u64>)
        ensures
            exists|t: u64| r == self.remaining_spec(t),
            r is None <==> self.instant is None,
    {
        let t = now();
        self.remaining_at(t)
    }

    /// The deadline `nanos` after `now`.
    pub fn after_at(now: u64, nanos: u64) -> (r: Expiry)
        ensures
            r == Expiry::after_spec(now, nanos),
    {
        Expiry { instant: Some(saturating_add(now, nanos)) }
    }

    /// The deadline `millis` milliseconds after `now`.
    pub fn from_millis_at(now: u64, millis: u64) -> (r: Expiry)
        ensures
            r == Expiry::after_spec(now, sat_mul(millis, NANOS_PER_MILLI)),
    {
        Expiry::after_at(now, saturating_mul(millis, NANOS_PER_MILLI))
    }

    /// The deadline `secs` seconds after `now`.
    pub fn from_secs_at(now: u64, secs: u64) -> (r: Expiry)
        ensures
            r == Expiry::after_spec(now, sat_mul(secs, NANOS_PER_SEC)),
    {
        Expiry::after_at(now, saturating_mul(secs, NANOS_PER_SEC))
    }

    /// The deadline that `amount` in the unit `tag` gives at `now`.
    pub fn from_format_at(now: u64, amount: u64, tag: &str) -> (r: Expiry)
        ensures
            r == Expiry::with_format_spec(now, amount, format_of(tag@)),
    {
        match ExpiryFormat::parse(tag) {
            ExpiryFormat::EX => Expiry::from_secs_at(now, amount),
            ExpiryFormat::PX => Expiry::from_millis_at(now, amount),
            ExpiryFormat::Uninitialized => Expiry::none(),
        }
    }

    /// The deadline `nanos` from the clock's present reading.
    pub fn in_nanos(nanos: u64) -> (r: Expiry)
        ensures
            exists|t: u64| r == Expiry::after_spec(t, nanos),
    {
        Expiry::after_at(now(), nanos)
    }

    /// The deadline `millis` milliseconds from the clock's present reading.
    pub fn in_millis(millis: u64) -> (r: Expiry)
        ensures
            exists|t: u64| r == Expiry::after_spec(t, sat_mul(millis, NANOS_PER_MILLI)),
    {
        Expiry::from_millis_at(now(), millis)
    }

    /// The deadline that `amount` in the unit `tag` gives from the clock's
    /// present reading.
    pub fn in_format(amount: u64, tag: &str) -> (r: Expiry)
        ensures
            exists|t: u64| r == Expiry::with_format_spec(t, amount, format_of(tag@)),
    {
        Expiry::from_format_at(now(), amount, tag)
    }
}

/// A deadline that has passed reports expired, with nothing remaining.
pub proof fn lemma_past_deadline(deadline: u64, now: u64)
    requires
        deadline < now,
    ensures
        (Expiry { instant: Some(deadline) }).expired_at(now),
        (Expiry { instant: Some(deadline) }).remaining_spec(now) == Some(0u64),
{
}

/// A deadline still ahead reports not expired, with time remaining.
pub proof fn lemma_future_deadline(deadline: u64, now: u64)
    requires
        now < deadline,
    ensures
        !(Expiry { instant: Some(deadline) }).expired_at(now),
        (Expiry { instant: Some(deadline) }).remaining_spec(now) matches Some(left) && left > 0,
{
}

/// The never-expiring value reports not expired, with no remaining time.
pub proof fn lemma_never_expires(now: u64)
    ensures
        !(Expiry { instant: None }).expired_at(now),
        (Expiry { instant: None }).remaining_spec(now) is None,
{
}

/// An amount tagged `PX` (in any ASCII case) gives the same expiry as that
/// many milliseconds from now (`from_format_at` against `from_millis_at`),
/// one tagged `EX` the same as that many seconds (against `from_secs_at`),
/// and any other tag never expires.
pub proof fn lemma_format_units(now: u64, amount: u64, tag: Seq<char>)
    ensures
        matches_keyword(tag, seq!['p', 'x']) ==> Expiry::with_format_spec(now, amount, format_of(tag))
            == Expiry::after_spec(now, sat_mul(amount, NANOS_PER_MILLI)),
        matches_keyword(tag, seq!['e', 'x']) ==> Expiry::with_format_spec(now, amount, format_of(tag))
            == Expiry::after_spec(now, sat_mul(amount, NANOS_PER_SEC)),
        !matches_keyword(tag, seq!['p', 'x']) && !matches_keyword(tag, seq!['e', 'x'])
            ==> Expiry::with_format_spec(now, amount, format_of(tag)).instant is None,
{
    if matches_keyword(tag, seq!['p', 'x']) && matches_keyword(tag, seq!['e', 'x']) {
        assert(char_matches_lower(tag[0], 'p') && char_matches_lower(tag[0], 'e'));
    }
}

/// `PX` and `EX` name their units in every ASCII case; `XX` names none.
pub proof fn lemma_format_tags()
    ensures
        format_of(seq!['P', 'X']) == ExpiryFormat::PX,
        format_of(seq!['p', 'x']) == ExpiryFormat::PX,
        format_of(seq!['P', 'x']) == ExpiryFormat::PX,
        format_of(seq!['p', 'X']) == ExpiryFormat::PX,
        format_of(seq!['E', 'X']) == ExpiryFormat::EX,
        format_of(seq!['e', 'x']) == ExpiryFormat::EX,
        format_of(seq!['E', 'x']) == ExpiryFormat::EX,
        format_of(seq!['e', 'X']) == ExpiryFormat::EX,
        format_of(seq!['X', 'X']) == ExpiryFormat::Uninitialized,
{
    let px = seq!['p', 'x'];
    let ex = seq!['e', 'x'];
    assert(char_matches_lower('P', 'p') && char_matches_lower('p', 'p'));
    assert(char_matches_lower('X', 'x') && char_matches_lower('x', 'x'));
    assert(char_matches_lower('E', 'e') && char_matches_lower('e', 'e'));
    assert(matches_keyword(seq!['P', 'X'], px));
    assert(matches_keyword(seq!['p', 'x'], px));
    assert(matches_keyword(seq!['P', 'x'], px));
    assert(matches_keyword(seq!['p', 'X'], px));
    assert(!matches_keyword(seq!['P', 'X'], ex) && !char_matches_lower('P', 'e') && !char_matches_lower('p', 'e'));
    assert(!matches_keyword(seq!['p', 'x'], ex));
    assert(!matches_keyword(seq!['P', 'x'], ex));
    assert(!matches_keyword(seq!['p', 'X'], ex));
    assert(matches_keyword(seq!['E', 'X'], ex));
    assert(matches_keyword(seq!['e', 'x'], ex));
    assert(matches_keyword(seq!['E', 'x'], ex));
    assert(matches_keyword(seq!['e', 'X'], ex));
    assert(!char_matches_lower('X', 'e') && !char_matches_lower('X', 'p'));
    assert(!matches_keyword(seq!['X', 'X'], ex));
    assert(!matches_keyword(seq!['X', 'X'], px));
}

} // verus!
