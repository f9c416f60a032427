//! The heartbeat scheduler: a negative-edge idle timer, not a fixed-period
//! one. Any successful frame write postpones it, and it only acts after a
//! quiet period of the negotiated length.
//!
//! The scheduler owns no clock and no transport: the caller passes the
//! current time in, and performs the frame send when a poll decides one is
//! due. The idle clock is reset *before* the send decision is handed back,
//! so a slow, queued or failing send cannot retrigger an immediate resend
//! storm: the next poll already sees a fresh quiet period.
//!
//! Time is in milliseconds from an origin the embedding program chooses;
//! any unit works as long as every call uses the same one and the clock
//! never runs backwards.

use vstd::prelude::*;

verus! {

/// What one poll decided.
#[derive(Clone, Copy, Debug, PartialEq, Eq, Structural)]
pub enum PollOutcome {
    /// No heartbeat is due: the quiet period ends this many time units
    /// from now, so check again then. Nothing was changed.
    Wait(u64),
    /// The connection has been idle for a full timeout: the idle clock was
    /// reset and a heartbeat frame must be sent now. Poll again after the
    /// full timeout.
    SendHeartbeat(u64),
}

/// The scheduler state: *disabled* while no timeout is configured, *armed*
/// otherwise. The embedding program serializes all access through a single
/// lock.
#[derive(Debug)]
pub struct Inner {
    /// When the last successful frame write happened.
    pub last_write: u64,
    /// The negotiated heartbeat interval; absent means heartbeats are
    /// disabled.
    pub timeout: Option<u64>,
}

/// What `set_timeout` does: only the interval changes; the idle clock is
/// deliberately not reset.
pub open spec fn set_timeout_effect(pre: Inner, post: Inner, timeout: Option<u64>) -> bool {
    post.timeout == timeout && post.last_write == pre.last_write
}

/// What `update_last_write` does: only the idle clock moves, to the time
/// of the write that just succeeded.
pub open spec fn update_effect(pre: Inner, post: Inner, now: u64) -> bool {
    post.last_write == now && post.timeout == pre.timeout
}

/// What `poll_timeout` does. Disabled: nothing, regardless of elapsed
/// time. Armed with interval `t`: if the connection was quiet for less
/// than `t`, report the remaining time and change nothing; otherwise reset
/// the idle clock to now and ask for a heartbeat to be sent, with the full
/// interval as the next poll delay.
pub open spec fn poll_effect(pre: Inner, post: Inner, now: u64, r: Option<PollOutcome>) -> bool {
    match pre.timeout {
        None => r is None && post == pre,
        Some(t) => {
            let elapsed = now - pre.last_write;
            if elapsed < t {
                r == Some(PollOutcome::Wait((t - elapsed) as u64)) && post == pre
            } else {
                r == Some(PollOutcome::SendHeartbeat(t)) && post.last_write == now
                    && post.timeout == pre.timeout
            }
        },
    }
}

impl Default for Inner {
    /// Disabled, with the idle clock at the time origin.
    fn default() -> (r: Self)
        ensures
            r.last_write == 0,
            r.timeout is None,
    {
        Inner { last_write: 0, timeout: None }
    }
}

impl Inner {
    /// A disabled scheduler whose idle clock starts at `now`.
    pub fn new(now: u64) -> (r: Self)
        ensures
            r.last_write == now,
            r.timeout is None,
    {
        Inner { last_write: now, timeout: None }
    }

    /// (Re)configure the heartbeat interval, or disable heartbeats with
    /// `None`. Does not reset the idle clock.
    pub fn set_timeout(&mut self, timeout: Option<u64>)
        ensures
            set_timeout_effect(*old(self), *final(self), timeout),
    {
        self.timeout = timeout;
    }

    /// Note a successful frame write at time `now`. Every outbound frame
    /// counts, not only heartbeats: any traffic proves liveness and resets
    /// the idle clock.
    pub fn update_last_write(&mut self, now: u64)
        ensures
            update_effect(*old(self), *final(self), now),
    {
        self.last_write = now;
    }

    /// Decide whether a heartbeat is due at time `now`. When one is, the
    /// idle clock is reset before the decision is returned, so the caller's
    /// send — however slow it turns out to be, and whether or not it
    /// succeeds — cannot cause an immediate re-trigger on the next poll.
    pub fn poll_timeout(&mut self, now: u64) -> (r: Option<PollOutcome>)
        requires
            old(self).last_write <= now,
        ensures
            poll_effect(*old(self), *final(self), now, r),
    {
        match self.timeout {
            None => None,
            Some(t) => {
                let elapsed = now - self.last_write;
                if elapsed < t {
                    Some(PollOutcome::Wait(t - elapsed))
                } else {
                    self.update_last_write(now);
                    Some(PollOutcome::SendHeartbeat(t))
                }
            },
        }
    }
}

/// Law: while heartbeats are disabled, a poll returns nothing and changes
/// nothing, regardless of elapsed time.
pub proof fn lemma_disabled_poll_is_inert(
    pre: Inner,
    mid: Inner,
    post: Inner,
    now: u64,
    r: Option<PollOutcome>,
)
    requires
        set_timeout_effect(pre, mid, None),
        poll_effect(mid, post, now, r),
    ensures
        r is None,
        post == mid,
{
}

/// Law: any successful write postpones the heartbeat. After the idle clock
/// was reset at time `w`, a poll strictly inside the quiet period reports
/// exactly the time left and changes nothing; a poll at or past its end
/// resets the idle clock to the poll time and schedules one send, with the
/// full interval as the next delay.
pub proof fn lemma_write_postpones_heartbeat(
    pre: Inner,
    mid: Inner,
    post: Inner,
    t: u64,
    w: u64,
    now: u64,
    r: Option<PollOutcome>,
)
    requires
        pre.timeout == Some(t),
        update_effect(pre, mid, w),
        w <= now,
        poll_effect(mid, post, now, r),
    ensures
        now - w < t ==> r == Some(PollOutcome::Wait((t - (now - w)) as u64)) && post == mid,
        now - w >= t ==> r == Some(PollOutcome::SendHeartbeat(t)) && post.last_write == now
            && post.timeout == Some(t),
{
}

} // verus!
