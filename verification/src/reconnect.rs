//! Back-off while the daemon connection is down: the first probe 250 ms
//! after the disconnect, the second 750 ms after the first failure, then one
//! every 3 s; one attempt to start the daemon after the second probe fails.

use vstd::prelude::*;

use std::time::Instant;

use crate::text::{dec_chars, push_chars, push_dec_chars, string_from_chars};

verus! {

#[verifier::external_type_specification]
#[verifier::external_body]
pub struct ExInstant(Instant);

/// `Instant::now`: the current reading of the monotonic clock.
#[verifier::external_body]
fn instant_now() -> (r: Instant) {
    Instant::now()
}

/// `Instant::elapsed`, in whole milliseconds (`u64::MAX` past that). The
/// value read depends on the clock, so nothing is stated of it.
#[verifier::external_body]
fn millis_since(t: &Instant) -> (r: u64) {
    u64::try_from(t.elapsed().as_millis()).unwrap_or(u64::MAX)
}

/// Delay before the first probe after a disconnect, in milliseconds.
pub const FIRST_PROBE_MS: u64 = 250;
/// Delay after the first failed attempt, in milliseconds.
pub const SECOND_PROBE_MS: u64 = 750;
/// Delay after every later failed attempt, in milliseconds.
pub const RETRY_MS: u64 = 3000;

/// The wait after failed attempt number `attempt` (counted from 0).
pub open spec fn retry_delay(attempt: u32) -> u64 {
    if attempt == 0 { SECOND_PROBE_MS } else { RETRY_MS }
}

/// The whole seconds in `ms` milliseconds.
pub open spec fn whole_secs(ms: u64) -> int {
    ms as int / 1000
}

/// Back-off state while the daemon connection is down. Times are kept in
/// milliseconds after `since`.
#[derive(Debug)]
pub struct ReconnectState {
    /// Failed attempts so far.
    pub attempt: u32,
    /// When the back-off started.
    pub since: Instant,
    /// When the next attempt is due.
    pub next_try_ms: u64,
    /// Whether starting the daemon was tried.
    pub fork_attempted: bool,
}

impl ReconnectState {
    /// After a disconnect: the first probe is due after 250 ms.
    pub fn new() -> (r: Self)
        ensures
            r.attempt == 0,
            r.next_try_ms == FIRST_PROBE_MS,
            !r.fork_attempted,
    {
        ReconnectState {
            attempt: 0,
            since: instant_now(),
            next_try_ms: FIRST_PROBE_MS,
            fork_attempted: false,
        }
    }

    /// At start-up: the first probe is due at once.
    pub fn new_immediate() -> (r: Self)
        ensures
            r.attempt == 0,
            r.next_try_ms == 0,
            !r.fork_attempted,
    {
        ReconnectState { attempt: 0, since: instant_now(), next_try_ms: 0, fork_attempted: false }
    }

    /// Record a failed attempt made `now_ms` after the start: the next one
    /// is due 750 ms later after the first failure, 3 s later after any
    /// other.
    pub fn on_failure_at(&mut self, now_ms: u64)
        requires
            old(self).attempt < u32::MAX,
        ensures
            final(self).attempt == old(self).attempt + 1,
            final(self).next_try_ms == (if now_ms + retry_delay(old(self).attempt) > u64::MAX {
                u64::MAX as int
            } else {
                now_ms + retry_delay(old(self).attempt)
            }),
            final(self).fork_attempted == old(self).fork_attempted,
            final(self).since == old(self).since,
    {
        let delay: u64 = if self.attempt == 0 { SECOND_PROBE_MS } else { RETRY_MS };
        self.attempt = self.attempt + 1;
        self.next_try_ms = now_ms.saturating_add(delay);
    }

    /// Record a failed attempt made now.
    pub fn on_failure(&mut self)
        requires
            old(self).attempt < u32::MAX,
        ensures
            final(self).attempt == old(self).attempt + 1,
            final(self).fork_attempted == old(self).fork_attempted,
            final(self).since == old(self).since,
            final(self).next_try_ms >= retry_delay(old(self).attempt),
    {
        let now = millis_since(&self.since);
        self.on_failure_at(now);
    }

    /// Whether the next attempt is due `now_ms` after the start.
    pub fn is_due_at(&self, now_ms: u64) -> (r: bool)
        ensures
            r == (now_ms >= self.next_try_ms),
    {
        now_ms >= self.next_try_ms
    }

    /// Whether the next attempt is due now.
    pub fn is_due(&self) -> (r: bool)
        ensures
            self.next_try_ms == 0 ==> r,
    {
        self.is_due_at(millis_since(&self.since))
    }

    /// Start the daemon once, after the second probe fails.
    pub fn should_fork(&self) -> (r: bool)
        ensures
            r == (self.attempt == 1 && !self.fork_attempted),
    {
        self.attempt == 1 && !self.fork_attempted
    }

    /// A connection attempt failed: whether to start the daemon now (once,
    /// after the second probe fails), then back off.
    pub fn on_attempt_failed(&mut self) -> (fork: bool)
        requires
            old(self).attempt < u32::MAX,
        ensures
            fork == (old(self).attempt == 1 && !old(self).fork_attempted),
            final(self).fork_attempted == (old(self).fork_attempted || fork),
            final(self).attempt == old(self).attempt + 1,
            final(self).next_try_ms >= retry_delay(old(self).attempt),
            final(self).since == old(self).since,
    {
        let fork = self.should_fork();
        if fork {
            self.fork_attempted = true;
        }
        self.on_failure();
        fork
    }

    /// Whole seconds since the back-off started, from `now_ms`.
    pub fn elapsed_secs_at(&self, now_ms: u64) -> (r: u64)
        ensures
            r == now_ms / 1000,
    {
        now_ms / 1000
    }

    /// Whole seconds since the back-off started: the whole seconds of the
    /// clock's millisecond reading, whatever it is.
    pub fn elapsed_secs(&self) -> (r: u64)
        ensures
            exists|now_ms: u64| r == #[trigger] whole_secs(now_ms),
    {
        let now_ms = millis_since(&self.since);
        let r = self.elapsed_secs_at(now_ms);
        assert(r == whole_secs(now_ms));
        r
    }
}

/// The back-off waits 750 ms after the first failed attempt and 3 s after
/// every later one (the first probe itself comes 250 ms after the
/// disconnect).
pub proof fn lemma_backoff_delays(attempt: u32)
    ensures
        FIRST_PROBE_MS == 250,
        attempt == 0 ==> retry_delay(attempt) == 750,
        attempt > 0 ==> retry_delay(attempt) == 3000,
{
}

/// The text shown while connecting: `Connecting…` before any attempt has
/// failed, then `Reconnecting… (attempt N, Ms elapsed)`.
pub open spec fn connect_banner_text(attempt: u32, elapsed_secs: u64) -> Seq<char> {
    if attempt == 0 {
        "Connecting…"@
    } else {
        "Reconnecting… (attempt "@ + dec_chars(attempt as nat) + ", "@ + dec_chars(elapsed_secs as nat) + "s elapsed)"@
    }
}

/// The text shown while connecting after `attempt` failed attempts, with the
/// whole seconds since the back-off started.
pub fn connect_banner(attempt: u32, elapsed_secs: u64) -> (s: String)
    ensures
        s@ == connect_banner_text(attempt, elapsed_secs),
{
    let mut cs: Vec<char> = Vec::new();
    if attempt == 0 {
        push_chars(&mut cs, "Connecting…");
    } else {
        push_chars(&mut cs, "Reconnecting… (attempt ");
        push_dec_chars(&mut cs, attempt as u64);
        push_chars(&mut cs, ", ");
        push_dec_chars(&mut cs, elapsed_secs);
        push_chars(&mut cs, "s elapsed)");
    }
    string_from_chars(&cs)
}

} // verus!
