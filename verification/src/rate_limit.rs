//! Limits on how many requests a client may make in a span of time.

use std::collections::HashMap;
use vstd::prelude::*;

verus! {

broadcast use vstd::std_specs::hash::group_hash_axioms;

/// The requests of one client in its current window.
#[derive(Debug, Clone, Copy, PartialEq, Eq, Structural)]
pub struct Window {
    /// When the window began, in milliseconds.
    pub start: u64,
    /// How many requests were let through in it.
    pub count: usize,
}

/// Lets through at most `limit` requests of each address in a window. A
/// window begins with the first request after the last window has ended.
pub struct RateLimiter {
    limit: usize,
    window: u64,
    seen: HashMap<u128, Window>,
}

/// Whether a window of length `window` is still running at time `now`.
pub open spec fn running(w: Window, window: u64, now: u64) -> bool {
    now - w.start < window
}

/// The window that a request at time `now` falls into, before it is counted.
pub open spec fn current(seen: Map<u128, Window>, window: u64, ip: u128, now: u64) -> Window {
    if seen.dom().contains(ip) && running(seen[ip], window, now) {
        seen[ip]
    } else {
        Window { start: now, count: 0 }
    }
}

/// Whether a request at time `now` is let through.
pub open spec fn admits(
    seen: Map<u128, Window>,
    limit: usize,
    window: u64,
    ip: u128,
    now: u64,
) -> bool {
    current(seen, window, ip, now).count < limit
}

/// The windows after a request at time `now`.
pub open spec fn after_request(
    seen: Map<u128, Window>,
    limit: usize,
    window: u64,
    ip: u128,
    now: u64,
) -> Map<u128, Window> {
    let w = current(seen, window, ip, now);
    if w.count < limit {
        seen.insert(ip, Window { start: w.start, count: (w.count + 1) as usize })
    } else {
        seen
    }
}

impl RateLimiter {
    /// The number of requests let through in a window.
    pub closed spec fn limit(&self) -> usize {
        self.limit
    }

    /// The length of a window in milliseconds.
    pub closed spec fn window(&self) -> u64 {
        self.window
    }

    /// The windows of the addresses seen so far.
    pub closed spec fn seen(&self) -> Map<u128, Window> {
        self.seen@
    }

    /// A limiter for `limit` requests in `window` milliseconds.
    pub fn new(limit: usize, window: u64) -> (r: Self)
        ensures
            r.limit() == limit,
            r.window() == window,
            r.seen() == Map::<u128, Window>::empty(),
    {
        RateLimiter { limit, window, seen: HashMap::new() }
    }

    /// Counts a request of `ip` at time `now` and decides whether it is let
    /// through.
    pub fn check(&mut self, ip: u128, now: u64) -> (r: bool)
        ensures
            final(self).limit() == old(self).limit(),
            final(self).window() == old(self).window(),
            r == admits(old(self).seen(), old(self).limit(), old(self).window(), ip, now),
            final(self).seen() == after_request(
                old(self).seen(),
                old(self).limit(),
                old(self).window(),
                ip,
                now,
            ),
    {
        let w = match self.seen.get(&ip) {
            Some(w) => if now < w.start || now - w.start < self.window {
                *w
            } else {
                Window { start: now, count: 0 }
            },
            None => Window { start: now, count: 0 },
        };
        if w.count < self.limit {
            self.seen.insert(ip, Window { start: w.start, count: w.count + 1 });
            true
        } else {
            false
        }
    }

    /// Forgets the windows that have ended at time `now`.
    pub fn cleanup(&mut self, now: u64)
        ensures
            final(self).limit() == old(self).limit(),
            final(self).window() == old(self).window(),
            final(self).seen() == without_ended(old(self).seen(), old(self).window(), now),
    {
        let mut kept: HashMap<u128, Window> = HashMap::new();
        let ghost all = self.seen@;
        let mut ips: Vec<u128> = Vec::new();
        for ip in it: self.seen.keys()
            invariant
                it.seq().unref().to_set() == self.seen@.dom(),
                ips@ == it.seq().unref().take(it.index() as int),
                it.index() == it.seq().len() ==> ips@.to_set() == self.seen@.dom(),
        {
            ips.push(*ip);
            proof {
                assert(ips@ =~= it.seq().unref().take(it.index() + 1));
                assert(it.index() + 1 == it.seq().len() ==> ips@ =~= it.seq().unref());
            }
        }
        let mut i: usize = 0;
        while i < ips.len()
            invariant
                i <= ips@.len(),
                all == self.seen@,
                ips@.to_set() == all.dom(),
                self.limit == old(self).limit,
                self.window == old(self).window,
                all == old(self).seen@,
                forall|ip: u128| #[trigger]
                    kept@.dom().contains(ip) <==> ips@.take(i as int).contains(ip) && running(
                        all[ip],
                        self.window,
                        now,
                    ),
                forall|ip: u128| #[trigger] kept@.dom().contains(ip) ==> kept@[ip] == all[ip],
            decreases ips@.len() - i,
        {
            let ip: u128 = ips[i];
            let ghost before = ips@.take(i as int);
            let ghost next = ips@.take(i + 1);
            proof {
                assert(ips@.to_set().contains(ip)) by {
                    assert(ips@.contains(ip));
                }
                assert(next =~= before.push(ip));
                assert forall|x: u128| next.contains(x) <==> before.contains(x) || x == ip by {
                    if before.contains(x) {
                        let j = choose|j: int| 0 <= j < before.len() && before[j] == x;
                        assert(next[j] == x);
                    }
                    assert(next[i as int] == ip);
                    if next.contains(x) && x != ip {
                        let j = choose|j: int| 0 <= j < next.len() && next[j] == x;
                        assert(before[j] == x);
                    }
                }
            }
            if let Some(w) = self.seen.get(&ip) {
                if now < w.start || now - w.start < self.window {
                    kept.insert(ip, *w);
                }
            }
            i = i + 1;
        }
        proof {
            assert(ips@.take(i as int) =~= ips@);
            assert forall|ip: u128| kept@.dom().contains(ip) <==> all.dom().contains(ip) && running(
                all[ip],
                self.window,
                now,
            ) by {
                assert(ips@.contains(ip) <==> ips@.to_set().contains(ip));
            }
            assert(kept@ =~= without_ended(all, self.window, now));
        }
        self.seen = kept;
    }
}

/// `seen` without the windows that have ended at time `now`.
pub open spec fn without_ended(seen: Map<u128, Window>, window: u64, now: u64) -> Map<u128, Window> {
    seen.restrict(
        Set::new(|ip: u128| seen.dom().contains(ip) && running(seen[ip], window, now)),
    )
}

/// Forgetting ended windows changes no decision from that time on.
pub proof fn law_cleanup_changes_no_decision(
    seen: Map<u128, Window>,
    limit: usize,
    window: u64,
    cleaned_at: u64,
    ip: u128,
    now: u64,
)
    requires
        cleaned_at <= now,
    ensures
        admits(without_ended(seen, window, cleaned_at), limit, window, ip, now) == admits(
            seen,
            limit,
            window,
            ip,
            now,
        ),
{
}

/// How many of the requests that `ip` makes at these times are let through.
pub open spec fn let_through(
    seen: Map<u128, Window>,
    limit: usize,
    window: u64,
    ip: u128,
    times: Seq<u64>,
) -> nat
    decreases times.len(),
{
    if times.len() == 0 {
        0
    } else {
        let rest = let_through(
            after_request(seen, limit, window, ip, times[0]),
            limit,
            window,
            ip,
            times.skip(1),
        );
        if admits(seen, limit, window, ip, times[0]) {
            1 + rest
        } else {
            rest
        }
    }
}

proof fn lemma_window_fills(
    seen: Map<u128, Window>,
    limit: usize,
    window: u64,
    ip: u128,
    times: Seq<u64>,
)
    requires
        seen.dom().contains(ip),
        seen[ip].count <= limit,
        forall|i: int| 0 <= i < times.len() ==> running(seen[ip], window, #[trigger] times[i]),
    ensures
        let_through(seen, limit, window, ip, times) == if times.len() <= limit - seen[ip].count {
            times.len() as int
        } else {
            limit - seen[ip].count
        },
    decreases times.len(),
{
    if times.len() > 0 {
        let next = after_request(seen, limit, window, ip, times[0]);
        assert(running(seen[ip], window, times[0]));
        assert(next[ip].start == seen[ip].start);
        let rest = times.skip(1);
        assert forall|i: int| 0 <= i < rest.len() implies running(
            next[ip],
            window,
            #[trigger] rest[i],
        ) by {
            assert(rest[i] == times[i + 1]);
        }
        lemma_window_fills(next, limit, window, ip, rest);
    }
}

/// Of the requests that an address makes within one window, the first `limit`
/// are let through and no more.
pub proof fn law_limit_holds_in_a_window(
    seen: Map<u128, Window>,
    limit: usize,
    window: u64,
    ip: u128,
    times: Seq<u64>,
)
    requires
        times.len() > 0,
        !seen.dom().contains(ip) || !running(seen[ip], window, times[0]),
        forall|i: int| 0 <= i < times.len() ==> #[trigger] times[i] - times[0] < window,
    ensures
        let_through(seen, limit, window, ip, times) == if times.len() <= limit {
            times.len()
        } else {
            limit as nat
        },
{
    if limit > 0 {
        let next = after_request(seen, limit, window, ip, times[0]);
        let rest = times.skip(1);
        assert forall|i: int| 0 <= i < rest.len() implies running(
            next[ip],
            window,
            #[trigger] rest[i],
        ) by {
            assert(rest[i] == times[i + 1]);
        }
        lemma_window_fills(next, limit, window, ip, rest);
    } else {
        lemma_nothing_let_through(seen, window, ip, times);
    }
}

proof fn lemma_nothing_let_through(seen: Map<u128, Window>, window: u64, ip: u128, times: Seq<u64>)
    ensures
        let_through(seen, 0, window, ip, times) == 0,
    decreases times.len(),
{
    if times.len() > 0 {
        lemma_nothing_let_through(
            after_request(seen, 0, window, ip, times[0]),
            window,
            ip,
            times.skip(1),
        );
    }
}

/// The requests of one address do not count for another.
pub proof fn law_addresses_are_independent(
    seen: Map<u128, Window>,
    limit: usize,
    window: u64,
    ip: u128,
    other: u128,
    then: u64,
    now: u64,
)
    requires
        ip != other,
    ensures
        admits(after_request(seen, limit, window, other, then), limit, window, ip, now) == admits(
            seen,
            limit,
            window,
            ip,
            now,
        ),
{
}

/// An address that was not seen, or whose window has ended, is let through, if
/// anything is; a request that is not let through changes nothing.
pub proof fn law_new_window(
    seen: Map<u128, Window>,
    limit: usize,
    window: u64,
    ip: u128,
    now: u64,
)
    ensures
        !seen.dom().contains(ip) || now - seen[ip].start >= window ==> (admits(
            seen,
            limit,
            window,
            ip,
            now,
        ) <==> limit > 0),
        seen.dom().contains(ip) && now - seen[ip].start < window ==> (admits(
            seen,
            limit,
            window,
            ip,
            now,
        ) <==> seen[ip].count < limit),
        !admits(seen, limit, window, ip, now) ==> after_request(seen, limit, window, ip, now) == seen,
        without_ended(seen, window, now).dom().contains(ip) <==> seen.dom().contains(ip) && now
            - seen[ip].start < window,
{
}

/// A request that is let through is counted in the window of its address,
/// which goes on from where it began, or begins with this request if none was
/// running. So a window ends a fixed time after its first request, whatever
/// requests come in between. The windows of other addresses stay as they are,
/// and forgetting ended windows leaves the running ones as they are.
pub proof fn law_request_is_counted(
    seen: Map<u128, Window>,
    limit: usize,
    window: u64,
    ip: u128,
    other: u128,
    now: u64,
)
    ensures
        ({
            let after = after_request(seen, limit, window, ip, now);
            let was_running = seen.dom().contains(ip) && now - seen[ip].start < window;
            &&& admits(seen, limit, window, ip, now) ==> after.dom().contains(ip)
            &&& admits(seen, limit, window, ip, now) && was_running ==> after[ip].start
                == seen[ip].start && after[ip].count == seen[ip].count + 1
            &&& admits(seen, limit, window, ip, now) && !was_running ==> after[ip].start == now
                && after[ip].count == 1
            &&& other != ip ==> (after.dom().contains(other) <==> seen.dom().contains(other))
            &&& other != ip && seen.dom().contains(other) ==> after[other] == seen[other]
        }),
        without_ended(seen, window, now).dom().contains(ip) ==> without_ended(seen, window, now)[ip]
            == seen[ip],
{
}

} // verus!
