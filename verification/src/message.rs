//! The sliding-window rate limiter.
//!
//! Instants are ticks of a monotonic clock, in an arbitrary fixed unit
//! (for example nanoseconds since some epoch); the window duration is a span
//! of the same unit. The limiter owns an ordered log of the instants of
//! admitted events; on every check it prunes the entries that have aged out
//! of the trailing window `[now - count_duration, now]` and then admits the
//! event exactly when the log still has room.

use std::collections::VecDeque;
use vstd::prelude::*;

verus! {

/// Configuration of a limiter: at most `max_messages` admitted events per
/// trailing window of `count_duration` ticks.
#[derive(Clone, Copy)]
pub struct MsgConfig {
    pub max_messages: usize,
    pub count_duration: u64,
}

/// The instant strictly below which log entries have aged out of the window
/// ending at `now`. An entry exactly at the cutoff is still inside the
/// window.
pub open spec fn cutoff(now: u64, count_duration: u64) -> int {
    now - count_duration
}

/// The log is ordered oldest-first.
pub open spec fn sorted(s: Seq<u64>) -> bool {
    forall|i: int, j: int| 0 <= i <= j < s.len() ==> s[i] <= s[j]
}

/// Drops the leading entries strictly older than `limit`; on a sorted log
/// this is exactly the pruning a check performs.
pub open spec fn prune(s: Seq<u64>, limit: int) -> Seq<u64>
    decreases s.len(),
{
    if s.len() > 0 && s[0] < limit {
        prune(s.drop_first(), limit)
    } else {
        s
    }
}

/// Whether a check at `now` on a limiter whose log is `log` admits the event:
/// after pruning, the log must still be below the configured maximum.
pub open spec fn accepts(log: Seq<u64>, cfg: MsgConfig, now: u64) -> bool {
    prune(log, cutoff(now, cfg.count_duration)).len() < cfg.max_messages
}

/// The log after a check at `now`: the pruned log, extended by `now` exactly
/// when the event was admitted.
pub open spec fn step_log(log: Seq<u64>, cfg: MsgConfig, now: u64) -> Seq<u64> {
    let pruned = prune(log, cutoff(now, cfg.count_duration));
    if accepts(log, cfg, now) {
        pruned.push(now)
    } else {
        pruned
    }
}

/// A sliding-window rate limiter: the instants of the admitted events that
/// may still count against the limit, oldest first, plus the configuration.
pub struct RateLimiter {
    buf: VecDeque<u64>,
    cfg: MsgConfig,
}

impl View for RateLimiter {
    type V = Seq<u64>;

    closed spec fn view(&self) -> Seq<u64> {
        self.buf@
    }
}

impl RateLimiter {
    pub closed spec fn config(&self) -> MsgConfig {
        self.cfg
    }

    /// The log is sorted and never longer than the configured maximum.
    pub open spec fn wf(&self) -> bool {
        &&& sorted(self@)
        &&& self@.len() <= self.config().max_messages
    }

    /// Creates a limiter with an empty log.
    pub fn new(cfg: MsgConfig) -> (r: RateLimiter)
        ensures
            r.wf(),
            r@ == Seq::<u64>::empty(),
            r.config() == cfg,
    {
        RateLimiter { buf: VecDeque::with_capacity(cfg.max_messages), cfg }
    }

    /// Returns whether a new message at the instant `now` would be rate
    /// limited. If not, the message is admitted and `now` is recorded.
    ///
    /// Entries strictly older than `now - count_duration` are pruned first;
    /// the caller is assumed to observe a monotonic clock, so `now` is no
    /// earlier than any recorded instant.
    pub fn check_new_message(&mut self, now: u64) -> (limited: bool)
        requires
            old(self).wf(),
            forall|i: int| 0 <= i < old(self)@.len() ==> old(self)@[i] <= now,
        ensures
            final(self).wf(),
            final(self).config() == old(self).config(),
            limited == !accepts(old(self)@, old(self).config(), now),
            final(self)@ == step_log(old(self)@, old(self).config(), now),
    {
        let ghost c = cutoff(now, self.cfg.count_duration);
        let d = self.cfg.count_duration;
        let limit: u64 = if now >= d {
            now - d
        } else {
            0
        };
        while self.buf.len() > 0 && self.buf[0] < limit
            invariant
                self.cfg == old(self).cfg,
                c == cutoff(now, self.cfg.count_duration),
                limit == if now >= self.cfg.count_duration {
                    c
                } else {
                    0
                },
                sorted(self.buf@),
                self.buf@.len() <= old(self)@.len(),
                old(self)@.len() <= self.cfg.max_messages,
                forall|i: int| 0 <= i < self.buf@.len() ==> self.buf@[i] <= now,
                prune(self.buf@, c) == prune(old(self)@, c),
            decreases self.buf@.len(),
        {
            proof {
                assert(self.buf@[0] < c);
                assert(prune(self.buf@, c) == prune(self.buf@.drop_first(), c));
            }
            let ghost pre = self.buf@;
            self.buf.pop_front();
            proof {
                assert(self.buf@ =~= pre.drop_first());
            }
        }
        proof {
            if self.buf@.len() > 0 {
                assert(!(self.buf@[0] < c));
            }
            assert(prune(self.buf@, c) == self.buf@);
            assert(self.buf@ == prune(old(self)@, c));
        }
        if self.buf.len() < self.cfg.max_messages {
            let ghost pre = self.buf@;
            self.buf.push_back(now);
            proof {
                assert forall|i: int, j: int| 0 <= i <= j < self.buf@.len() implies self.buf@[i]
                    <= self.buf@[j] by {
                    if j < pre.len() {
                        assert(pre[i] <= pre[j]);
                    }
                }
            }
            false
        } else {
            true
        }
    }
}

/// The log of a fresh limiter after a sequence of checks, one per entry of
/// `instants`, in order.
pub open spec fn run_log(cfg: MsgConfig, instants: Seq<u64>) -> Seq<u64>
    decreases instants.len(),
{
    if instants.len() == 0 {
        Seq::<u64>::empty()
    } else {
        step_log(run_log(cfg, instants.drop_last()), cfg, instants.last())
    }
}

/// A check at an instant strictly after every recorded one by more than the
/// window prunes the whole log and decides as if the log were empty.
pub proof fn lemma_stale_log_like_empty(log: Seq<u64>, cfg: MsgConfig, now: u64)
    requires
        forall|i: int| 0 <= i < log.len() ==> log[i] < cutoff(now, cfg.count_duration),
    ensures
        prune(log, cutoff(now, cfg.count_duration)) == Seq::<u64>::empty(),
        accepts(log, cfg, now) == accepts(Seq::<u64>::empty(), cfg, now),
        step_log(log, cfg, now) == step_log(Seq::<u64>::empty(), cfg, now),
    decreases log.len(),
{
    if log.len() == 0 {
        assert(log =~= Seq::<u64>::empty());
    } else {
        assert(log[0] < cutoff(now, cfg.count_duration));
        lemma_stale_log_like_empty(log.drop_first(), cfg, now);
    }
}

/// Checks spaced more than the window apart are never rate limited: with any
/// maximum of at least one, every such check is admitted, and at most the
/// latest instant stays recorded.
pub proof fn lemma_spaced_calls_never_limited(cfg: MsgConfig, instants: Seq<u64>)
    requires
        cfg.max_messages >= 1,
        forall|i: int, j: int|
            0 <= i < j < instants.len() ==> (#[trigger] instants[i]) + cfg.count_duration < (
            #[trigger] instants[j]),
    ensures
        instants.len() == 0 ==> run_log(cfg, instants) == Seq::<u64>::empty(),
        instants.len() > 0 ==> run_log(cfg, instants) == seq![instants.last()],
        forall|i: int|
            0 <= i < instants.len() ==> accepts(run_log(cfg, instants.take(i)), cfg, instants[i]),
    decreases instants.len(),
{
    if instants.len() == 0 {
        assert(run_log(cfg, instants) =~= Seq::<u64>::empty());
    } else {
        let prefix = instants.drop_last();
        let now = instants.last();
        let c = cutoff(now, cfg.count_duration);
        assert forall|i: int, j: int| 0 <= i < j < prefix.len() implies (#[trigger] prefix[i])
            + cfg.count_duration < (#[trigger] prefix[j]) by {
            assert(instants[i] + cfg.count_duration < instants[j]);
        }
        lemma_spaced_calls_never_limited(cfg, prefix);
        if prefix.len() > 0 {
            assert(prefix.last() == instants[instants.len() - 2]);
            assert(instants[instants.len() - 2] + cfg.count_duration < now);
            assert(seq![prefix.last()].drop_first() =~= Seq::<u64>::empty());
            reveal_with_fuel(prune, 3);
            assert(prune(run_log(cfg, prefix), c) =~= Seq::<u64>::empty());
        } else {
            assert(prune(run_log(cfg, prefix), c) =~= Seq::<u64>::empty());
        }
        assert(accepts(run_log(cfg, prefix), cfg, now));
        assert(run_log(cfg, instants) =~= seq![now]);
        assert forall|i: int| 0 <= i < instants.len() implies accepts(
            run_log(cfg, instants.take(i)),
            cfg,
            instants[i],
        ) by {
            if i < instants.len() - 1 {
                assert(accepts(run_log(cfg, prefix.take(i)), cfg, prefix[i]));
                assert(prefix.take(i) =~= instants.take(i));
            } else {
                assert(instants.take(i) =~= prefix);
            }
        }
    }
}

/// While every recorded instant is still within the window ending at the
/// next check, nothing is pruned: a fresh limiter simply accumulates the
/// first `k` instants of such a burst, admitting each, as long as `k` does
/// not exceed the maximum.
proof fn lemma_burst_prefix(cfg: MsgConfig, instants: Seq<u64>, k: int)
    requires
        0 < instants.len(),
        0 <= k <= instants.len(),
        k <= cfg.max_messages,
        sorted(instants),
        instants.last() - instants.first() <= cfg.count_duration,
    ensures
        run_log(cfg, instants.take(k)) == instants.take(k),
        forall|i: int| 0 <= i < k ==> accepts(run_log(cfg, instants.take(i)), cfg, instants[i]),
    decreases k,
{
    if k == 0 {
        assert(instants.take(0) =~= Seq::<u64>::empty());
    } else {
        lemma_burst_prefix(cfg, instants, k - 1);
        let now = instants[k - 1];
        let c = cutoff(now, cfg.count_duration);
        let log = instants.take(k - 1);
        assert(instants.take(k).drop_last() =~= log);
        assert(instants.take(k).last() == now);
        if log.len() > 0 {
            assert(log[0] == instants.first());
            assert(now <= instants.last());
            assert(!(log[0] < c));
        }
        assert(prune(log, c) == log);
        assert(accepts(log, cfg, now));
        assert(step_log(log, cfg, now) =~= instants.take(k));
    }
}

/// With a maximum of `N >= 1` admitted events per positive window, a burst
/// of `N + 1` checks all falling within one window of each other has its
/// first `N` admitted and its last rejected.
pub proof fn lemma_burst_is_limited(cfg: MsgConfig, instants: Seq<u64>)
    requires
        cfg.max_messages >= 1,
        cfg.count_duration > 0,
        instants.len() == cfg.max_messages + 1,
        sorted(instants),
        instants.last() - instants.first() <= cfg.count_duration,
    ensures
        forall|i: int|
            0 <= i < instants.len() - 1 ==> accepts(
                run_log(cfg, instants.take(i)),
                cfg,
                instants[i],
            ),
        !accepts(run_log(cfg, instants.take(instants.len() - 1)), cfg, instants.last()),
{
    let n = instants.len() - 1;
    lemma_burst_prefix(cfg, instants, n);
    let now = instants.last();
    let c = cutoff(now, cfg.count_duration);
    let log = instants.take(n);
    assert(log[0] == instants.first());
    assert(!(log[0] < c));
    assert(prune(log, c) == log);
    assert(log.len() == cfg.max_messages);
}

} // verus!
