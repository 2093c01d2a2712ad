use vstd::prelude::*;

verus! {

/// Time between two connection attempts while disconnected, in nanoseconds.
pub const WIFI_CONNECT_TIMEOUT_NS: u64 = 30_000_000_000;

/// Nanoseconds from `last` to `now`; zero when the clock reads earlier than `last`.
pub open spec fn elapsed_ns(last: u64, now: u64) -> nat {
    if now >= last {
        (now - last) as nat
    } else {
        0
    }
}

/// A connection attempt is due at `now`: the link is down, and no attempt was
/// made yet or the last one is older than the timeout.
pub open spec fn retry_due(t: ReconnectTimer, connected: bool, now: u64) -> bool {
    !connected && match t.last_try_ns {
        None => true,
        Some(last) => elapsed_ns(last, now) > t.timeout_ns,
    }
}

/// Paces the connection attempts of a link that keeps dropping: while it is
/// down, a new attempt is due when none was made yet or the last one is
/// older than the timeout.
pub struct ReconnectTimer {
    /// How long to wait between attempts, in nanoseconds.
    pub timeout_ns: u64,
    /// When the last attempt was made, in nanoseconds of a monotonic clock.
    pub last_try_ns: Option<u64>,
}

impl ReconnectTimer {
    /// A timer with no attempt made yet.
    pub fn new(timeout_ns: u64) -> (t: Self)
        ensures
            t.timeout_ns == timeout_ns,
            t.last_try_ns is None,
    {
        ReconnectTimer { timeout_ns, last_try_ns: None }
    }

    /// Whether to try to connect now, at `now_ns`, given whether the link is up.
    pub fn connect_due(&self, connected: bool, now_ns: u64) -> (due: bool)
        ensures
            due == retry_due(*self, connected, now_ns),
    {
        if connected {
            return false;
        }
        match self.last_try_ns {
            None => true,
            Some(last) => {
                let elapsed = if now_ns >= last {
                    now_ns - last
                } else {
                    0
                };
                elapsed > self.timeout_ns
            },
        }
    }

    /// Records an attempt made at `now_ns`.
    pub fn record_try(&mut self, now_ns: u64)
        ensures
            final(self).last_try_ns == Some(now_ns),
            final(self).timeout_ns == old(self).timeout_ns,
    {
        self.last_try_ns = Some(now_ns);
    }
}

/// While the link stays down, the attempt after one made at `now` is due
/// exactly once more than the timeout has passed.
pub proof fn lemma_retry_after_timeout(t: ReconnectTimer, now: u64, later: u64)
    requires
        t.last_try_ns == Some(now),
        later >= now,
    ensures
        retry_due(t, false, later) <==> later - now > t.timeout_ns,
{
}

} // verus!
