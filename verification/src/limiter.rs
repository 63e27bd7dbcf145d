//! Token-bucket admission control. One `RateLimiter` enforces one bucket
//! policy; its state is keyed by a scope key (global, channel, user or
//! guild), created lazily on first use.
//!
//! Each window starts full. An admission first rolls the window over if
//! it has elapsed, releasing queued waiters in FIFO order as tokens
//! become available; then the caller proceeds (one token), is queued
//! (bounded by `queue_depth`), or is rejected with a retry hint. A
//! rejection is flagged for notice only the first time since the bucket
//! last had tokens to give.

use vstd::prelude::*;
use crate::kv::{map_of, unique_keys, lemma_map_at, lemma_map_contains, lemma_map_remove};

verus! {

/// What identity a bucket's state is keyed by.
#[derive(Clone, Copy, Debug, PartialEq, Eq, Structural)]
pub enum Scope {
    Global,
    PerChannel,
    PerUser,
    PerGuild,
}

/// A bucket policy: `capacity` admissions per `window`, at most
/// `queue_depth` callers waiting, an optional fixed delay after a
/// command, keyed by `scope`.
#[derive(Clone, Copy, Debug, PartialEq, Eq, Structural)]
pub struct BucketConfig {
    pub capacity: u32,
    pub window: u64,
    pub queue_depth: u32,
    pub post_delay: u64,
    pub scope: Scope,
}

/// A usable bucket policy: it lets someone through each window.
pub open spec fn config_wf(cfg: BucketConfig) -> bool {
    cfg.capacity >= 1
}

/// The verdict on one admission attempt.
#[derive(Clone, Copy, Debug, PartialEq, Eq, Structural)]
pub enum Decision {
    /// Go now; a token was consumed.
    Proceed,
    /// Queued; run when released, at the latest after `retry_after`.
    Delay { retry_after: u64 },
    /// Dropped. `notify` asks the caller to tell the user, and is set
    /// only on the first rejection since the bucket last had tokens.
    Reject { retry_after: u64, notify: bool },
}

/// One scope key's bucket, as the contracts see it.
pub ghost struct BucketView {
    pub tokens: u32,
    pub window_start: u64,
    pub waiting: Seq<u64>,
    pub rejected_since_tokens: bool,
}

/// One scope key's bucket: remaining tokens, when the window began, the
/// FIFO queue of waiting invocation ids, and the notice flag.
pub struct BucketState {
    pub tokens: u32,
    pub window_start: u64,
    pub waiting: Vec<u64>,
    pub rejected_since_tokens: bool,
}

impl View for BucketState {
    type V = BucketView;

    open spec fn view(&self) -> BucketView {
        BucketView {
            tokens: self.tokens,
            window_start: self.window_start,
            waiting: self.waiting@,
            rejected_since_tokens: self.rejected_since_tokens,
        }
    }
}

/// A bucket that the policy could have produced: never over capacity,
/// never over queue depth, waiters only while no token is left, and a
/// window end that fits the clock.
pub open spec fn bucket_wf(cfg: BucketConfig, b: BucketView) -> bool {
    &&& b.tokens <= cfg.capacity
    &&& b.waiting.len() <= cfg.queue_depth
    &&& b.waiting.len() > 0 ==> b.tokens == 0
    &&& b.window_start + cfg.window <= u64::MAX
}

/// The bucket a scope key starts with: a full window beginning now.
pub open spec fn fresh_bucket(cfg: BucketConfig, now: u64) -> BucketView {
    BucketView { tokens: cfg.capacity, window_start: now, waiting: seq![], rejected_since_tokens: false }
}

/// Roll the window over if it has elapsed: refill to capacity, then
/// release queued waiters in FIFO order, one token each. Returns the
/// bucket afterwards and the released invocation ids.
pub open spec fn refill(cfg: BucketConfig, b: BucketView, now: u64) -> (BucketView, Seq<u64>) {
    if now >= b.window_start + cfg.window {
        let k = if b.waiting.len() <= cfg.capacity { b.waiting.len() as int } else { cfg.capacity as int };
        (
            BucketView {
                tokens: (cfg.capacity - k) as u32,
                window_start: now,
                waiting: b.waiting.skip(k),
                rejected_since_tokens: false,
            },
            b.waiting.take(k),
        )
    } else {
        (b, seq![])
    }
}

/// Decide for one caller against a bucket whose window is current:
/// proceed on a token when nobody is ahead, else wait if the queue has
/// room, else reject, noticing only the first rejection of the episode.
pub open spec fn decide(cfg: BucketConfig, b: BucketView, now: u64, id: u64) -> (BucketView, Decision) {
    let retry = (b.window_start + cfg.window - now) as u64;
    if b.waiting.len() == 0 && b.tokens > 0 {
        (
            BucketView { tokens: (b.tokens - 1) as u32, rejected_since_tokens: false, ..b },
            Decision::Proceed,
        )
    } else if b.waiting.len() < cfg.queue_depth {
        (BucketView { waiting: b.waiting.push(id), ..b }, Decision::Delay { retry_after: retry })
    } else {
        (
            BucketView { rejected_since_tokens: true, ..b },
            Decision::Reject { retry_after: retry, notify: !b.rejected_since_tokens },
        )
    }
}

/// Everything one admission attempt does to one bucket.
pub ghost struct AttemptStep {
    pub bucket: BucketView,
    pub decision: Decision,
    pub released: Seq<u64>,
}

/// The meaning of `attempt`: take the key's bucket (or a fresh one), roll
/// the window over, then decide for the caller.
pub open spec fn attempt_spec(cfg: BucketConfig, prior: Option<BucketView>, now: u64, id: u64) -> AttemptStep {
    let before = match prior {
        Some(b) => b,
        None => fresh_bucket(cfg, now),
    };
    let (refilled, released) = refill(cfg, before, now);
    let (after, decision) = decide(cfg, refilled, now, id);
    AttemptStep { bucket: after, decision, released }
}

/// Admission control for one bucket policy over all its scope keys.
pub struct RateLimiter {
    pub config: BucketConfig,
    states: Vec<(u64, BucketState)>,
}

impl RateLimiter {
    /// The buckets by scope key.
    pub closed spec fn view(&self) -> Map<u64, BucketView> {
        map_of(self.states@)
    }

    /// The policy this limiter enforces.
    pub closed spec fn cfg(&self) -> BucketConfig {
        self.config
    }

    pub fn bucket_config(&self) -> (c: BucketConfig)
        ensures
            c == self.cfg(),
    {
        self.config
    }

    pub closed spec fn wf(&self) -> bool {
        &&& config_wf(self.config)
        &&& unique_keys(self.states@)
        &&& forall|i: int| 0 <= i < self.states@.len()
            ==> bucket_wf(self.config, (#[trigger] self.states@[i]).1@)
    }

    pub fn new(config: BucketConfig) -> (r: RateLimiter)
        requires
            config.capacity >= 1,
        ensures
            r.wf(),
            r.cfg() == config,
            r@ == Map::<u64, BucketView>::empty(),
    {
        RateLimiter { config, states: Vec::new() }
    }

    /// Index of the entry for `key`, if one exists.
    fn find(&self, key: u64) -> (r: Option<usize>)
        ensures
            r is Some ==> r->0 < self.states@.len() && self.states@[r->0 as int].0 == key,
            r is None ==> forall|i: int| 0 <= i < self.states@.len()
                ==> (#[trigger] self.states@[i]).0 != key,
    {
        let mut i: usize = 0;
        while i < self.states.len()
            invariant
                0 <= i <= self.states@.len(),
                forall|j: int| 0 <= j < i ==> (#[trigger] self.states@[j]).0 != key,
            decreases self.states@.len() - i,
        {
            if self.states[i].0 == key {
                return Some(i);
            }
            i = i + 1;
        }
        None
    }

    /// One admission attempt by invocation `id` under scope `key` at
    /// time `now`. Decides per `attempt_spec` over the key's own bucket;
    /// every other key's bucket is untouched, so admission under one
    /// scope key never affects another.
    pub fn attempt(&mut self, key: u64, now: u64, id: u64) -> (r: (Decision, Vec<u64>))
        requires
            old(self).wf(),
            now <= u64::MAX - old(self).cfg().window,
        ensures
            final(self).wf(),
            final(self).cfg() == old(self).cfg(),
            ({
                let prior = if old(self)@.contains_key(key) {
                    Some(old(self)@[key])
                } else {
                    None
                };
                let step = attempt_spec(old(self).cfg(), prior, now, id);
                &&& final(self)@ == old(self)@.insert(key, step.bucket)
                &&& r.0 == step.decision
                &&& r.1@ == step.released
            }),
    {
        let ghost prior_map = self@;
        let cfg = self.config;
        let (k0, mut st) = match self.find(key) {
            Some(i) => {
                proof {
                    lemma_map_at(self.states@, i as int);
                    lemma_map_remove(self.states@, i as int);
                }
                self.states.remove(i)
            },
            None => {
                proof {
                    lemma_map_contains(self.states@, key);
                }
                (
                    key,
                    BucketState {
                        tokens: cfg.capacity,
                        window_start: now,
                        waiting: Vec::new(),
                        rejected_since_tokens: false,
                    },
                )
            },
        };
        let ghost prior = if prior_map.contains_key(key) { Some(prior_map[key]) } else { None };
        let ghost before = match prior { Some(b) => b, None => fresh_bucket(cfg, now) };
        assert(st@ == before);
        assert(bucket_wf(cfg, before));

        // Roll the window over, releasing waiters front-first.
        let mut released: Vec<u64> = Vec::new();
        let ghost spec_refill = refill(cfg, before, now);
        if now >= st.window_start + cfg.window {
            let ghost w0 = st.waiting@;
            st.window_start = now;
            st.tokens = cfg.capacity;
            st.rejected_since_tokens = false;
            let mut j: usize = 0;
            while j < st.waiting.len() && j < cfg.capacity as usize
                invariant
                    j <= st.waiting@.len(),
                    j <= cfg.capacity,
                    st.waiting@ == w0,
                    released@ == w0.take(j as int),
                decreases st.waiting@.len() - j,
            {
                released.push(st.waiting[j]);
                assert(released@ =~= w0.take(j + 1));
                j = j + 1;
            }
            let rest = st.waiting.split_off(j);
            st.waiting = rest;
            st.tokens = cfg.capacity - (j as u32);
            proof {
                assert(st.waiting@ =~= w0.skip(j as int));
                assert(st@ == spec_refill.0);
                assert(released@ == spec_refill.1);
            }
        } else {
            proof {
                assert(st@ == spec_refill.0);
                assert(released@ =~= spec_refill.1);
            }
        }

        // Decide for this caller.
        let ghost spec_decide = decide(cfg, spec_refill.0, now, id);
        let retry = st.window_start + cfg.window - now;
        let decision: Decision;
        if st.waiting.len() == 0 && st.tokens > 0 {
            st.tokens = st.tokens - 1;
            st.rejected_since_tokens = false;
            decision = Decision::Proceed;
        } else if (st.waiting.len() as u64) < (cfg.queue_depth as u64) {
            st.waiting.push(id);
            decision = Decision::Delay { retry_after: retry };
        } else {
            decision = Decision::Reject { retry_after: retry, notify: !st.rejected_since_tokens };
            st.rejected_since_tokens = true;
        }
        proof {
            assert(st@ == spec_decide.0);
            assert(decision == spec_decide.1);
        }

        let ghost pre_push = self.states@;
        self.states.push((key, st));
        proof {
            assert(self.states@.drop_last() =~= pre_push);
            assert forall|i: int| 0 <= i < pre_push.len()
                implies (#[trigger] pre_push[i]).0 != key by {
                if prior_map.contains_key(key) {
                } else {
                    lemma_map_contains(pre_push, key);
                }
            }
            assert(unique_keys(self.states@)) by {
                assert forall|a: int, b: int| 0 <= a < b < self.states@.len()
                    implies (#[trigger] self.states@[a]).0@ != (#[trigger] self.states@[b]).0@ by {
                    if b == self.states@.len() - 1 {
                        assert(self.states@[a] == pre_push[a]);
                    } else {
                        assert(self.states@[a] == pre_push[a]);
                        assert(self.states@[b] == pre_push[b]);
                    }
                }
            }
            if prior_map.contains_key(key) {
                assert(map_of(pre_push) == prior_map.remove(key));
                assert(self@ =~= prior_map.insert(key, st@));
            } else {
                assert(self@ =~= prior_map.insert(key, st@));
            }
        }
        (decision, released)
    }
}

/// Index of the first occurrence of `id` in a waiting queue, or -1.
pub open spec fn find_waiting(s: Seq<u64>, id: u64) -> int
    decreases s.len(),
{
    if s.len() == 0 {
        -1
    } else if s[0] == id {
        0
    } else if find_waiting(s.drop_first(), id) < 0 {
        -1
    } else {
        find_waiting(s.drop_first(), id) + 1
    }
}

proof fn lemma_find_waiting_skip(s: Seq<u64>, id: u64, i: int)
    requires
        0 <= i <= s.len(),
        forall|j: int| 0 <= j < i ==> s[j] != id,
    ensures
        find_waiting(s, id) == if find_waiting(s.skip(i), id) >= 0 {
            find_waiting(s.skip(i), id) + i
        } else {
            -1
        },
    decreases i,
{
    if i == 0 {
        assert(s.skip(0) =~= s);
    } else {
        lemma_find_waiting_skip(s, id, i - 1);
        assert(s.skip(i - 1).drop_first() =~= s.skip(i));
        assert(s.skip(i - 1)[0] == s[i - 1]);
    }
}

/// First position of `id` in a waiting queue, if it is queued.
fn find_id(v: &Vec<u64>, id: u64) -> (r: Option<usize>)
    ensures
        r is Some ==> r->0 < v@.len() && find_waiting(v@, id) == r->0,
        r is None ==> find_waiting(v@, id) == -1,
{
    let mut j: usize = 0;
    while j < v.len()
        invariant
            0 <= j <= v@.len(),
            forall|m: int| 0 <= m < j ==> v@[m] != id,
        decreases v@.len() - j,
    {
        if v[j] == id {
            proof {
                lemma_find_waiting_skip(v@, id, j as int);
                assert(v@.skip(j as int)[0] == id);
            }
            return Some(j);
        }
        j = j + 1;
    }
    proof {
        lemma_find_waiting_skip(v@, id, j as int);
        assert(v@.skip(j as int).len() == 0);
    }
    None
}

/// The meaning of `cancel`: the first queued occurrence of `id` leaves
/// the waiting list; nothing else moves.
pub open spec fn cancel_spec(b: BucketView, id: u64) -> BucketView {
    let i = find_waiting(b.waiting, id);
    if i >= 0 {
        BucketView { waiting: b.waiting.remove(i), ..b }
    } else {
        b
    }
}

impl RateLimiter {
    /// A queued invocation whose task was cancelled gives its slot up at
    /// once, so it never blocks the waiters behind it; tokens, the
    /// window, and every other scope key are untouched.
    pub fn cancel(&mut self, key: u64, id: u64)
        requires
            old(self).wf(),
        ensures
            final(self).wf(),
            final(self).cfg() == old(self).cfg(),
            old(self)@.contains_key(key) ==> final(self)@ == old(self)@.insert(
                key,
                cancel_spec(old(self)@[key], id),
            ),
            !old(self)@.contains_key(key) ==> final(self)@ == old(self)@,
    {
        let ghost prior_map = self@;
        let i = match self.find(key) {
            Some(i) => i,
            None => {
                proof {
                    lemma_map_contains(self.states@, key);
                }
                return;
            },
        };
        proof {
            lemma_map_at(self.states@, i as int);
            lemma_map_remove(self.states@, i as int);
        }
        let (k0, mut st) = self.states.remove(i);
        let ghost before = st@;

        match find_id(&st.waiting, id) {
            Some(j) => {
                let _ = st.waiting.remove(j);
                proof {
                    assert(st@ == cancel_spec(before, id));
                }
            },
            None => {
                proof {
                    assert(st@ == cancel_spec(before, id));
                }
            },
        }

        let ghost pre_push = self.states@;
        self.states.push((key, st));
        proof {
            assert(self.states@.drop_last() =~= pre_push);
            lemma_map_contains(pre_push, key);
            assert(!map_of(pre_push).contains_key(key));
            assert forall|a: int, b: int| 0 <= a < b < self.states@.len()
                implies (#[trigger] self.states@[a]).0@ != (#[trigger] self.states@[b]).0@ by {
                if b < self.states@.len() - 1 {
                    assert(self.states@[a] == pre_push[a]);
                    assert(self.states@[b] == pre_push[b]);
                } else {
                    assert(self.states@[a] == pre_push[a]);
                }
            }
            assert(self@ =~= prior_map.insert(key, st@));
        }
    }
}

/// A run of admission attempts against one bucket, at the given times.
pub ghost struct RunResult {
    pub bucket: BucketView,
    pub decisions: Seq<Decision>,
}

pub open spec fn run_attempts(cfg: BucketConfig, b: BucketView, ts: Seq<u64>) -> RunResult
    decreases ts.len(),
{
    if ts.len() == 0 {
        RunResult { bucket: b, decisions: seq![] }
    } else {
        let step = attempt_spec(cfg, Some(b), ts[0], 0);
        let rest = run_attempts(cfg, step.bucket, ts.drop_first());
        RunResult { bucket: rest.bucket, decisions: seq![step.decision] + rest.decisions }
    }
}

/// A bucket with `n` tokens, nobody waiting, lets the next `n` callers
/// of its window through: every attempt inside the window proceeds, and
/// each consumes exactly one token. Started fresh with capacity `C`,
/// this is `C` consecutive admissions within one window.
pub proof fn lemma_window_capacity(cfg: BucketConfig, b: BucketView, ts: Seq<u64>)
    requires
        config_wf(cfg),
        bucket_wf(cfg, b),
        b.waiting.len() == 0,
        ts.len() <= b.tokens,
        forall|i: int| 0 <= i < ts.len()
            ==> b.window_start <= #[trigger] ts[i] < b.window_start + cfg.window,
    ensures
        run_attempts(cfg, b, ts).decisions.len() == ts.len(),
        forall|i: int| 0 <= i < ts.len()
            ==> #[trigger] run_attempts(cfg, b, ts).decisions[i] == Decision::Proceed,
        run_attempts(cfg, b, ts).bucket.tokens == b.tokens - ts.len(),
        run_attempts(cfg, b, ts).bucket.window_start == b.window_start,
        run_attempts(cfg, b, ts).bucket.waiting.len() == 0,
    decreases ts.len(),
{
    if ts.len() > 0 {
        let step = attempt_spec(cfg, Some(b), ts[0], 0);
        assert(step.decision == Decision::Proceed);
        lemma_window_capacity(cfg, step.bucket, ts.drop_first());
    }
}

/// Once the window's tokens are gone, the next caller inside the window
/// is delayed while the queue has room and rejected otherwise, both with
/// the time left until the window refills; the rejection asks for notice
/// exactly when it is the first since the bucket last had tokens.
pub proof fn lemma_exhausted(cfg: BucketConfig, b: BucketView, t: u64, id: u64)
    requires
        config_wf(cfg),
        bucket_wf(cfg, b),
        b.tokens == 0,
        b.window_start <= t < b.window_start + cfg.window,
    ensures
        b.waiting.len() < cfg.queue_depth ==> attempt_spec(cfg, Some(b), t, id).decision
            == (Decision::Delay { retry_after: (b.window_start + cfg.window - t) as u64 }),
        b.waiting.len() >= cfg.queue_depth ==> attempt_spec(cfg, Some(b), t, id).decision
            == (Decision::Reject {
            retry_after: (b.window_start + cfg.window - t) as u64,
            notify: !b.rejected_since_tokens,
        }),
{
}

/// Once the window has elapsed, the bucket refills to capacity: with
/// nobody queued, the next caller proceeds on a fresh window's token.
/// (With waiters queued the refill serves them first, in FIFO order —
/// see `refill` — so the newcomer only gets what they leave over; hence
/// the empty-queue premise here.)
pub proof fn lemma_window_refills(cfg: BucketConfig, b: BucketView, t: u64, id: u64)
    requires
        config_wf(cfg),
        bucket_wf(cfg, b),
        b.waiting.len() == 0,
        b.window_start + cfg.window <= t,
        t + cfg.window <= u64::MAX,
    ensures
        attempt_spec(cfg, Some(b), t, id).decision == Decision::Proceed,
        attempt_spec(cfg, Some(b), t, id).bucket.tokens == cfg.capacity - 1,
        attempt_spec(cfg, Some(b), t, id).bucket.window_start == t,
{
}

/// Scope isolation: an admission attempt rewrites only its own scope
/// key's bucket (per `attempt`, the map gains `key` and nothing else),
/// so any other key's bucket — and hence any later decision for it — is
/// exactly what it was.
pub proof fn lemma_scope_isolation(m: Map<u64, BucketView>, key: u64, b: BucketView, other: u64)
    requires
        other != key,
    ensures
        m.insert(key, b).contains_key(other) == m.contains_key(other),
        m.contains_key(other) ==> m.insert(key, b)[other] == m[other],
{
}

/// The bucket a map holds for scope key `a`, if one was ever made.
pub open spec fn prior_of(m: Map<u64, BucketView>, a: u64) -> Option<BucketView> {
    if m.contains_key(a) {
        Some(m[a])
    } else {
        None
    }
}

/// One admission attempt `(key, now, id)` applied to a whole bucket map.
pub open spec fn map_attempt(
    cfg: BucketConfig,
    m: Map<u64, BucketView>,
    s: (u64, u64, u64),
) -> Map<u64, BucketView> {
    m.insert(s.0, attempt_spec(cfg, prior_of(m, s.0), s.1, s.2).bucket)
}

/// A whole history of admission attempts applied to a bucket map.
pub open spec fn run_map(
    cfg: BucketConfig,
    m: Map<u64, BucketView>,
    h: Seq<(u64, u64, u64)>,
) -> Map<u64, BucketView>
    decreases h.len(),
{
    if h.len() == 0 {
        m
    } else {
        run_map(cfg, map_attempt(cfg, m, h[0]), h.drop_first())
    }
}

/// The decisions a history hands the attempts that carry scope key `a`,
/// in order.
pub open spec fn decisions_at(
    cfg: BucketConfig,
    m: Map<u64, BucketView>,
    h: Seq<(u64, u64, u64)>,
    a: u64,
) -> Seq<Decision>
    decreases h.len(),
{
    if h.len() == 0 {
        seq![]
    } else {
        let rest = decisions_at(cfg, map_attempt(cfg, m, h[0]), h.drop_first(), a);
        if h[0].0 == a {
            seq![attempt_spec(cfg, prior_of(m, a), h[0].1, h[0].2).decision] + rest
        } else {
            rest
        }
    }
}

/// The attempts of a history that carry scope key `a`: their times and
/// invocation ids, in order.
pub open spec fn project(h: Seq<(u64, u64, u64)>, a: u64) -> Seq<(u64, u64)>
    decreases h.len(),
{
    if h.len() == 0 {
        seq![]
    } else if h[0].0 == a {
        seq![(h[0].1, h[0].2)] + project(h.drop_first(), a)
    } else {
        project(h.drop_first(), a)
    }
}

/// The same attempts run against one bucket alone: the decisions...
pub open spec fn bucket_decisions(
    cfg: BucketConfig,
    prior: Option<BucketView>,
    steps: Seq<(u64, u64)>,
) -> Seq<Decision>
    decreases steps.len(),
{
    if steps.len() == 0 {
        seq![]
    } else {
        let step = attempt_spec(cfg, prior, steps[0].0, steps[0].1);
        seq![step.decision] + bucket_decisions(cfg, Some(step.bucket), steps.drop_first())
    }
}

/// ...and the bucket left behind.
pub open spec fn bucket_final(
    cfg: BucketConfig,
    prior: Option<BucketView>,
    steps: Seq<(u64, u64)>,
) -> Option<BucketView>
    decreases steps.len(),
{
    if steps.len() == 0 {
        prior
    } else {
        let step = attempt_spec(cfg, prior, steps[0].0, steps[0].1);
        bucket_final(cfg, Some(step.bucket), steps.drop_first())
    }
}

/// Scope isolation over whole histories: what a history does at scope
/// key `a` — every decision and the bucket left behind — is a function
/// of `a`'s own starting bucket and `a`'s own attempts alone. Attempts
/// under every other key may come and go without any effect at `a`.
pub proof fn lemma_history_isolation(
    cfg: BucketConfig,
    m: Map<u64, BucketView>,
    h: Seq<(u64, u64, u64)>,
    a: u64,
)
    ensures
        decisions_at(cfg, m, h, a) == bucket_decisions(cfg, prior_of(m, a), project(h, a)),
        prior_of(run_map(cfg, m, h), a) == bucket_final(cfg, prior_of(m, a), project(h, a)),
    decreases h.len(),
{
    if h.len() > 0 {
        let m2 = map_attempt(cfg, m, h[0]);
        lemma_history_isolation(cfg, m2, h.drop_first(), a);
        if h[0].0 == a {
            let step = attempt_spec(cfg, prior_of(m, a), h[0].1, h[0].2);
            assert(prior_of(m2, a) == Some(step.bucket));
            assert(project(h, a).drop_first() =~= project(h.drop_first(), a));
            assert(project(h, a)[0] == (h[0].1, h[0].2));
        } else {
            assert(prior_of(m2, a) == prior_of(m, a));
        }
    }
}

/// Two histories that agree in the attempts carrying scope key `a` —
/// and start from buckets agreeing at `a` — give those attempts the very
/// same decisions, whatever either history does under other keys.
pub proof fn lemma_two_histories(
    cfg: BucketConfig,
    m1: Map<u64, BucketView>,
    m2: Map<u64, BucketView>,
    h1: Seq<(u64, u64, u64)>,
    h2: Seq<(u64, u64, u64)>,
    a: u64,
)
    requires
        prior_of(m1, a) == prior_of(m2, a),
        project(h1, a) == project(h2, a),
    ensures
        decisions_at(cfg, m1, h1, a) == decisions_at(cfg, m2, h2, a),
        prior_of(run_map(cfg, m1, h1), a) == prior_of(run_map(cfg, m2, h2), a),
{
    lemma_history_isolation(cfg, m1, h1, a);
    lemma_history_isolation(cfg, m2, h2, a);
}

/// Derive the scope key a bucket reads from an event: a shared constant
/// for `Global`, the channel, the author, or the guild — a missing guild
/// falls back to the channel.
pub open spec fn spec_scope_key(scope: Scope, author: u64, channel: u64, guild: Option<u64>) -> u64 {
    match scope {
        Scope::Global => 0,
        Scope::PerChannel => channel,
        Scope::PerUser => author,
        Scope::PerGuild => match guild {
            Some(g) => g,
            None => channel,
        },
    }
}

pub fn scope_key(scope: Scope, author: u64, channel: u64, guild: Option<u64>) -> (k: u64)
    ensures
        k == spec_scope_key(scope, author, channel, guild),
{
    match scope {
        Scope::Global => 0,
        Scope::PerChannel => channel,
        Scope::PerUser => author,
        Scope::PerGuild => match guild {
            Some(g) => g,
            None => channel,
        },
    }
}

} // verus!
