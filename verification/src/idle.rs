//! The idle tracker: whether a connection is processing a request
//! (active) or waiting for the next one (idle), and for how long. Time is
//! a monotone millisecond counter supplied by the caller at each step.

use vstd::prelude::*;

verus! {

/// One connection's idle state. `idle_since: None` means a request is
/// being processed; `Some(t)` means the connection has been idle since
/// `t`. A connection starts idle, at its creation instant.
pub struct IdleHandler {
    pub idle_since: Option<u64>,
}

/// Whether the tracker reports the connection expired at `now`: it is
/// idle, and has been so for strictly longer than `max_idle`.
pub open spec fn spec_expired(h: IdleHandler, now: u64, max_idle: u64) -> bool {
    match h.idle_since {
        Some(t) => t <= now && now - t > max_idle,
        None => false,
    }
}

impl IdleHandler {
    /// The clock never reads earlier than the stored instant.
    pub open spec fn wf(&self, now: u64) -> bool {
        match self.idle_since {
            Some(t) => t <= now,
            None => true,
        }
    }

    /// A fresh tracker: idle since now.
    pub fn new(now: u64) -> (r: IdleHandler)
        ensures
            r.idle_since == Some(now),
            r.wf(now),
    {
        IdleHandler { idle_since: Some(now) }
    }

    /// Acquires the not-idle guard: request processing begins, idle
    /// accounting is suspended.
    pub fn idle_guard(&mut self)
        ensures
            final(self).idle_since is None,
    {
        self.idle_since = None;
    }

    /// Releases the guard: request processing is over, the connection is
    /// idle again from this instant. This runs on every exit path of
    /// request processing.
    pub fn release_guard(&mut self, now: u64)
        ensures
            final(self).idle_since == Some(now),
            final(self).wf(now),
    {
        self.idle_since = Some(now);
    }

    /// Reports whether the idle timeout has run out: the watchdog polls
    /// this and, once it answers true, orders the connection shut down.
    pub fn is_expired(&self, now: u64, max_idle: u64) -> (r: bool)
        requires
            self.wf(now),
        ensures
            r == spec_expired(*self, now, max_idle),
    {
        match self.idle_since {
            Some(t) => now - t > max_idle,
            None => false,
        }
    }
}

/// After the guard is released, the tracker is idle since the release
/// instant, which a monotone clock never puts before any instant already
/// passed: the stored instant is at least `now`.
pub proof fn lemma_release_resets(h: IdleHandler, now: u64, release_at: u64)
    requires
        h.idle_since == Some(release_at),
        now <= release_at,
    ensures
        h.idle_since matches Some(t) && t >= now,
{
}

/// Before `max_idle` has elapsed since the tracker went idle, it does not
/// report expiry.
pub proof fn lemma_not_expired_early(h: IdleHandler, t: u64, now: u64, max_idle: u64)
    requires
        h.idle_since == Some(t),
        t <= now,
        now - t <= max_idle,
    ensures
        !spec_expired(h, now, max_idle),
{
}

/// Once expired, the tracker stays expired at every later instant, as
/// long as the guard is not acquired again.
pub proof fn lemma_expired_stays(h: IdleHandler, now1: u64, now2: u64, max_idle: u64)
    requires
        spec_expired(h, now1, max_idle),
        now1 <= now2,
    ensures
        spec_expired(h, now2, max_idle),
{
}

/// While a request is being processed, the tracker never reports expiry:
/// an in-flight request cannot be cut off by the watchdog.
pub proof fn lemma_active_never_expires(h: IdleHandler, now: u64, max_idle: u64)
    requires
        h.idle_since is None,
    ensures
        !spec_expired(h, now, max_idle),
{
}

} // verus!
