//! The circuit breaker that gates every store call.
//!
//! A finite state machine over Closed, Open and Half-Open.  Closed records
//! every guarded outcome and trips to Open when either a run of consecutive
//! failures reaches its threshold or the success rate over a trailing time
//! window falls below its threshold; Open rejects every call until a
//! jitter-randomized cool-down elapses; the first call after that is a
//! trial, whose success closes the breaker and whose failure reopens it
//! with a doubled (capped) cool-down.
//!
//! Time and jitter enter as plain arguments, so every transition is a pure,
//! verified function of the breaker's state and the call outcomes it is
//! told about; the caller reads the clock and draws the jitter.

use vstd::prelude::*;

verus! {

/// One recorded outcome of a guarded store call.
#[derive(Debug, Clone, Copy, PartialEq, Eq, Structural)]
pub struct Outcome {
    /// When the outcome was recorded, in milliseconds.
    pub at: u64,
    /// Whether the guarded call succeeded.
    pub ok: bool,
}

/// The two trip policies (combined with or-semantics) and the backoff bounds.
#[derive(Debug, Clone, Copy, PartialEq, Eq, Structural)]
pub struct BreakerConfig {
    /// Trip after this many consecutive failures while Closed.
    pub max_consecutive_failures: u64,
    /// Length of the trailing outcome window, in milliseconds.
    pub window_millis: u64,
    /// Least number of outcomes in the window before the rate is judged.
    pub min_window_calls: u64,
    /// Trip when the window's success percentage falls below this.
    pub required_success_percent: u64,
    /// Cool-down before the first retrial, in milliseconds.
    pub base_cooldown_millis: u64,
    /// Greatest cool-down that backoff may reach, in milliseconds.
    pub max_cooldown_millis: u64,
}

impl BreakerConfig {
    /// A usable configuration: thresholds at least one, a percentage, and
    /// ordered cool-down bounds.
    pub open spec fn wf(self) -> bool {
        &&& self.max_consecutive_failures >= 1
        &&& self.min_window_calls >= 1
        &&& self.required_success_percent <= 100
        &&& 1 <= self.base_cooldown_millis <= self.max_cooldown_millis
    }
}

/// The breaker's state.
#[derive(Debug, Clone, Copy, PartialEq, Eq, Structural)]
pub enum BreakerState {
    /// All calls permitted; outcomes are recorded.
    Closed,
    /// All calls rejected until `until`; `trips` counts the consecutive
    /// openings that drive the backoff.
    Open { until: u64, trips: u64 },
    /// A trial call is permitted through.
    HalfOpen { trips: u64 },
}

/// Mathematical view of a [`CircuitBreaker`].
#[verifier::ext_equal]
pub ghost struct BreakerModel {
    pub config: BreakerConfig,
    pub state: BreakerState,
    pub consecutive_failures: u64,
    pub window: Seq<Outcome>,
}

/// Whether an outcome recorded at `o.at` still lies in the trailing window.
pub open spec fn in_window(o: Outcome, now: u64, window_millis: u64) -> bool {
    o.at <= now && now - o.at < window_millis
}

/// The window with everything outside the trailing time span dropped.
pub open spec fn pruned(w: Seq<Outcome>, now: u64, window_millis: u64) -> Seq<Outcome>
    decreases w.len(),
{
    if w.len() == 0 {
        Seq::empty()
    } else {
        (if in_window(w[0], now, window_millis) {
            seq![w[0]]
        } else {
            Seq::empty()
        }) + pruned(w.skip(1), now, window_millis)
    }
}

/// How many recorded outcomes in `w` were successes.
pub open spec fn successes(w: Seq<Outcome>) -> nat
    decreases w.len(),
{
    if w.len() == 0 {
        0nat
    } else {
        (if w[0].ok {
            1nat
        } else {
            0nat
        }) + successes(w.skip(1))
    }
}

/// The success-rate policy alone: enough samples, and a rate below threshold.
pub open spec fn rate_trips(config: BreakerConfig, w: Seq<Outcome>) -> bool {
    &&& w.len() >= config.min_window_calls
    &&& successes(w) * 100 < config.required_success_percent * w.len()
}

/// Either trip policy: a run of failures, or a bad windowed rate.
pub open spec fn should_trip(config: BreakerConfig, consecutive: u64, w: Seq<Outcome>) -> bool {
    consecutive >= config.max_consecutive_failures || rate_trips(config, w)
}

/// A counter increment that stops at its type's ceiling instead of wrapping.
pub open spec fn sat_inc(c: u64) -> u64 {
    if c == u64::MAX {
        c
    } else {
        (c + 1) as u64
    }
}

/// The backoff base for the given number of consecutive openings: the
/// configured base, doubled each time, capped at the configured maximum.
pub open spec fn cooldown_base(config: BreakerConfig, trips: nat) -> nat
    decreases trips,
{
    if trips == 0 {
        config.base_cooldown_millis as nat
    } else {
        let d = cooldown_base(config, (trips - 1) as nat);
        if 2 * d >= config.max_cooldown_millis {
            config.max_cooldown_millis as nat
        } else {
            2 * d
        }
    }
}

/// Equal-jitter backoff: half the delay held, half randomized, so the
/// cool-down always lies between half the base delay and the whole of it.
pub open spec fn jittered(d: nat, jitter: u64) -> nat {
    d / 2 + (jitter as nat) % (d / 2 + 1)
}

/// Millisecond addition that stops at the clock type's ceiling.
pub open spec fn sat_add(now: u64, d: nat) -> u64 {
    if now + d > u64::MAX {
        u64::MAX
    } else {
        (now + d) as u64
    }
}

/// The deadline an opening recorded at `now` sets, after `trips` openings.
pub open spec fn open_until(config: BreakerConfig, trips: u64, now: u64, jitter: u64) -> u64 {
    sat_add(now, jittered(cooldown_base(config, trips as nat), jitter))
}

impl BreakerModel {
    pub open spec fn wf(self) -> bool {
        self.config.wf()
    }

    /// Whether a call is permitted: always while Closed or Half-Open, and
    /// once the cool-down has elapsed while Open.
    pub open spec fn permitted(self, now: u64) -> bool {
        match self.state {
            BreakerState::Closed => true,
            BreakerState::Open { until, trips } => now >= until,
            BreakerState::HalfOpen { trips } => true,
        }
    }

    /// Acquiring a permitted call: an Open breaker whose cool-down has
    /// elapsed moves to Half-Open, so the call runs as a trial; nothing
    /// else changes.
    pub open spec fn begin_step(self, now: u64) -> BreakerModel {
        match self.state {
            BreakerState::Open { until, trips } => if now >= until {
                BreakerModel { state: BreakerState::HalfOpen { trips }, ..self }
            } else {
                self
            },
            _ => self,
        }
    }

    /// Recording a guarded call's success.
    pub open spec fn success_step(self, now: u64) -> BreakerModel {
        match self.state {
            BreakerState::Closed => BreakerModel {
                consecutive_failures: 0,
                window: pruned(self.window, now, self.config.window_millis).push(
                    Outcome { at: now, ok: true },
                ),
                ..self
            },
            BreakerState::HalfOpen { trips } => BreakerModel {
                state: BreakerState::Closed,
                consecutive_failures: 0,
                window: Seq::empty(),
                ..self
            },
            BreakerState::Open { until, trips } => self,
        }
    }

    /// Recording a guarded call's failure.
    pub open spec fn failure_step(self, now: u64, jitter: u64) -> BreakerModel {
        match self.state {
            BreakerState::Closed => {
                let w = pruned(self.window, now, self.config.window_millis).push(
                    Outcome { at: now, ok: false },
                );
                let c = sat_inc(self.consecutive_failures);
                if should_trip(self.config, c, w) {
                    BreakerModel {
                        state: BreakerState::Open {
                            until: open_until(self.config, 0, now, jitter),
                            trips: 0,
                        },
                        consecutive_failures: 0,
                        window: Seq::empty(),
                        ..self
                    }
                } else {
                    BreakerModel { consecutive_failures: c, window: w, ..self }
                }
            },
            BreakerState::HalfOpen { trips } => {
                let t = sat_inc(trips);
                BreakerModel {
                    state: BreakerState::Open {
                        until: open_until(self.config, t, now, jitter),
                        trips: t,
                    },
                    consecutive_failures: 0,
                    window: Seq::empty(),
                    ..self
                }
            },
            BreakerState::Open { until, trips } => self,
        }
    }
}

/// The process-wide guard on store calls.  One instance serves every
/// request; the embedding synchronizes access to it.
pub struct CircuitBreaker {
    pub config: BreakerConfig,
    pub state: BreakerState,
    pub consecutive_failures: u64,
    pub window: Vec<Outcome>,
}

impl View for CircuitBreaker {
    type V = BreakerModel;

    open spec fn view(&self) -> BreakerModel {
        BreakerModel {
            config: self.config,
            state: self.state,
            consecutive_failures: self.consecutive_failures,
            window: self.window@,
        }
    }
}

impl CircuitBreaker {
    pub open spec fn wf(self) -> bool {
        self@.wf()
    }

    /// A fresh breaker: Closed, with empty counters.
    pub fn new(config: BreakerConfig) -> (b: CircuitBreaker)
        requires
            config.wf(),
        ensures
            b.wf(),
            b@.config == config,
            b@.state == BreakerState::Closed,
            b@.consecutive_failures == 0,
            b@.window == Seq::<Outcome>::empty(),
    {
        let b = CircuitBreaker {
            config,
            state: BreakerState::Closed,
            consecutive_failures: 0,
            window: Vec::new(),
        };
        proof {
            assert(b@.window =~= Seq::<Outcome>::empty());
        }
        b
    }

    /// Side-effect-free permission check.
    pub fn is_call_permitted(&self, now: u64) -> (r: bool)
        ensures
            r == self@.permitted(now),
    {
        match self.state {
            BreakerState::Closed => true,
            BreakerState::Open { until, trips: _ } => now >= until,
            BreakerState::HalfOpen { trips: _ } => true,
        }
    }

    /// Checks permission and, when an elapsed Open breaker grants it, takes
    /// the transition to Half-Open so the permitted call runs as a trial.
    pub fn begin_call(&mut self, now: u64) -> (permitted: bool)
        requires
            old(self).wf(),
        ensures
            permitted == old(self)@.permitted(now),
            final(self)@ == old(self)@.begin_step(now),
            final(self).wf(),
    {
        let r = match self.state {
            BreakerState::Closed => true,
            BreakerState::Open { until, trips } => {
                if now >= until {
                    self.state = BreakerState::HalfOpen { trips };
                    true
                } else {
                    false
                }
            },
            BreakerState::HalfOpen { trips: _ } => true,
        };
        proof {
            assert(self@ =~= old(self)@.begin_step(now));
        }
        r
    }

    /// Records a success of the guarded call.
    pub fn record_success(&mut self, now: u64)
        requires
            old(self).wf(),
        ensures
            final(self)@ == old(self)@.success_step(now),
            final(self).wf(),
    {
        match self.state {
            BreakerState::Closed => {
                let mut w = prune_window(&self.window, now, self.config.window_millis);
                w.push(Outcome { at: now, ok: true });
                self.window = w;
                self.consecutive_failures = 0;
            },
            BreakerState::HalfOpen { trips: _ } => {
                self.state = BreakerState::Closed;
                self.consecutive_failures = 0;
                self.window = Vec::new();
            },
            BreakerState::Open { until: _, trips: _ } => {},
        }
        proof {
            assert(self@ =~= old(self)@.success_step(now));
        }
    }

    /// Records a failure of the guarded call.  `jitter` is the caller's
    /// random draw; whatever its value, the cool-down stays between half
    /// the backoff base and the whole of it.
    pub fn record_failure(&mut self, now: u64, jitter: u64)
        requires
            old(self).wf(),
        ensures
            final(self)@ == old(self)@.failure_step(now, jitter),
            final(self).wf(),
    {
        match self.state {
            BreakerState::Closed => {
                let mut w = prune_window(&self.window, now, self.config.window_millis);
                w.push(Outcome { at: now, ok: false });
                let c = if self.consecutive_failures == u64::MAX {
                    u64::MAX
                } else {
                    self.consecutive_failures + 1
                };
                if c >= self.config.max_consecutive_failures || rate_trips_now(&self.config, &w) {
                    self.state = BreakerState::Open {
                        until: deadline(&self.config, 0, now, jitter),
                        trips: 0,
                    };
                    self.consecutive_failures = 0;
                    self.window = Vec::new();
                } else {
                    self.consecutive_failures = c;
                    self.window = w;
                }
            },
            BreakerState::HalfOpen { trips } => {
                let t = if trips == u64::MAX {
                    u64::MAX
                } else {
                    trips + 1
                };
                self.state = BreakerState::Open {
                    until: deadline(&self.config, t, now, jitter),
                    trips: t,
                };
                self.consecutive_failures = 0;
                self.window = Vec::new();
            },
            BreakerState::Open { until: _, trips: _ } => {},
        }
        proof {
            assert(self@ =~= old(self)@.failure_step(now, jitter));
        }
    }
}

/// Drops every recorded outcome that has left the trailing window.
fn prune_window(w: &Vec<Outcome>, now: u64, window_millis: u64) -> (out: Vec<Outcome>)
    ensures
        out@ == pruned(w@, now, window_millis),
{
    let mut out: Vec<Outcome> = Vec::new();
    let mut i: usize = 0;
    proof {
        assert(w@.skip(0) =~= w@);
        assert(out@ =~= Seq::<Outcome>::empty());
        assert(out@ + pruned(w@.skip(0), now, window_millis) =~= pruned(w@, now, window_millis));
    }
    while i < w.len()
        invariant
            i <= w@.len(),
            pruned(w@, now, window_millis) == out@ + pruned(w@.skip(i as int), now, window_millis),
        decreases w@.len() - i,
    {
        let ghost rest = w@.skip(i as int);
        proof {
            assert(rest[0] == w@[i as int]);
            assert(rest.skip(1) =~= w@.skip(i as int + 1));
        }
        let o = w[i];
        if o.at <= now && now - o.at < window_millis {
            out.push(o);
            proof {
                assert(out@ + pruned(w@.skip(i as int + 1), now, window_millis) =~= pruned(
                    w@,
                    now,
                    window_millis,
                ));
            }
        } else {
            proof {
                assert(out@ + pruned(w@.skip(i as int + 1), now, window_millis) =~= pruned(
                    w@,
                    now,
                    window_millis,
                ));
            }
        }
        i = i + 1;
    }
    proof {
        assert(w@.skip(w@.len() as int) =~= Seq::<Outcome>::empty());
        assert(out@ + Seq::<Outcome>::empty() =~= out@);
    }
    out
}

/// Whether the windowed success-rate policy trips on this window.
fn rate_trips_now(config: &BreakerConfig, w: &Vec<Outcome>) -> (r: bool)
    requires
        config.wf(),
    ensures
        r == rate_trips(*config, w@),
{
    let len = w.len();
    let mut succ: usize = 0;
    let mut i: usize = 0;
    proof {
        assert(w@.skip(0) =~= w@);
    }
    while i < len
        invariant
            i <= w@.len(),
            w@.len() == len,
            succ as nat == successes(w@) - successes(w@.skip(i as int)),
            succ <= i,
        decreases w@.len() - i,
    {
        let ghost rest = w@.skip(i as int);
        proof {
            assert(rest[0] == w@[i as int]);
            assert(rest.skip(1) =~= w@.skip(i as int + 1));
            lemma_successes_le_len(rest.skip(1));
        }
        if w[i].ok {
            succ = succ + 1;
        }
        i = i + 1;
    }
    let pct: u128 = config.required_success_percent as u128;
    proof {
        assert(w@.skip(len as int) =~= Seq::<Outcome>::empty());
        assert(successes(Seq::<Outcome>::empty()) == 0);
        assert(pct * (len as u128) <= 100 * (len as u128)) by (nonlinear_arith)
            requires
                pct <= 100,
                len as u128 >= 0,
        ;
    }
    (len as u64) >= config.min_window_calls && (succ as u128) * 100 < pct * (len as u128)
}

proof fn lemma_successes_le_len(w: Seq<Outcome>)
    ensures
        successes(w) <= w.len(),
    decreases w.len(),
{
    if w.len() > 0 {
        lemma_successes_le_len(w.skip(1));
    }
}

/// The backoff base delay after `trips` consecutive openings.
fn cooldown_for(config: &BreakerConfig, trips: u64) -> (d: u64)
    requires
        config.wf(),
    ensures
        d as nat == cooldown_base(*config, trips as nat),
{
    proof {
        lemma_cooldown_bounds(*config, trips as nat);
    }
    let mut d: u64 = config.base_cooldown_millis;
    let mut k: u64 = 0;
    while k < trips && d < config.max_cooldown_millis
        invariant
            k <= trips,
            config.wf(),
            d as nat == cooldown_base(*config, k as nat),
            1 <= d <= config.max_cooldown_millis,
        decreases trips - k,
    {
        proof {
            lemma_cooldown_bounds(*config, k as nat);
        }
        if d >= config.max_cooldown_millis - d {
            d = config.max_cooldown_millis;
        } else {
            d = d + d;
        }
        k = k + 1;
    }
    proof {
        if k < trips {
            lemma_cooldown_stays_max(*config, k as nat, trips as nat);
        }
    }
    d
}

/// The cool-down deadline an opening recorded at `now` sets.
fn deadline(config: &BreakerConfig, trips: u64, now: u64, jitter: u64) -> (until: u64)
    requires
        config.wf(),
    ensures
        until == open_until(*config, trips, now, jitter),
{
    let d = cooldown_for(config, trips);
    let half = d / 2;
    let j = half + jitter % (half + 1);
    if j > u64::MAX - now {
        u64::MAX
    } else {
        now + j
    }
}

/// The backoff base never leaves `[base, max]`.
pub proof fn lemma_cooldown_bounds(config: BreakerConfig, trips: nat)
    requires
        config.wf(),
    ensures
        1 <= cooldown_base(config, trips) <= config.max_cooldown_millis,
    decreases trips,
{
    if trips > 0 {
        lemma_cooldown_bounds(config, (trips - 1) as nat);
    }
}

proof fn lemma_cooldown_stays_max(config: BreakerConfig, a: nat, b: nat)
    requires
        config.wf(),
        a <= b,
        cooldown_base(config, a) == config.max_cooldown_millis,
    ensures
        cooldown_base(config, b) == config.max_cooldown_millis,
    decreases b - a,
{
    if a < b {
        lemma_cooldown_bounds(config, a);
        assert(cooldown_base(config, a + 1) == config.max_cooldown_millis);
        lemma_cooldown_stays_max(config, a + 1, b);
    }
}

/// Each reopening backs off at least as far as the one before.
pub proof fn lemma_cooldown_monotone(config: BreakerConfig, trips: nat)
    requires
        config.wf(),
    ensures
        cooldown_base(config, trips) <= cooldown_base(config, trips + 1),
{
    lemma_cooldown_bounds(config, trips);
}

/// Whatever the jitter draw, the cool-down lies between half the backoff
/// base and the whole of it.
pub proof fn lemma_jittered_bounds(d: nat, jitter: u64)
    ensures
        d / 2 <= jittered(d, jitter) <= d,
{
    assert((jitter as nat) % (d / 2 + 1) < d / 2 + 1);
}

/// Trip threshold, both policies: a failure recorded while Closed opens the
/// breaker exactly when it completes the configured run of consecutive
/// failures, or drops the windowed success rate below its threshold.
pub proof fn lemma_trip_threshold(m: BreakerModel, now: u64, jitter: u64)
    requires
        m.wf(),
        m.state is Closed,
    ensures
        ({
            let w = pruned(m.window, now, m.config.window_millis).push(
                Outcome { at: now, ok: false },
            );
            (m.failure_step(now, jitter).state is Open) == should_trip(
                m.config,
                sat_inc(m.consecutive_failures),
                w,
            )
        }),
{
}

/// A single success while Closed resets the consecutive-failure counter.
pub proof fn lemma_success_resets_counter(m: BreakerModel, now: u64)
    requires
        m.wf(),
        m.state is Closed,
    ensures
        m.success_step(now).state is Closed,
        m.success_step(now).consecutive_failures == 0,
{
}

/// Fail-fast: an Open breaker whose cool-down has not elapsed permits no
/// call, and recording nothing changes nothing about it.
pub proof fn lemma_open_rejects(m: BreakerModel, now: u64)
    requires
        m.state matches BreakerState::Open { until, trips } && now < until,
    ensures
        !m.permitted(now),
        m.begin_step(now) == m,
{
}

/// Half-open recovery: once the cool-down elapses the next permitted call
/// is a trial; a trial success closes the breaker with its counters reset,
/// and a trial failure reopens it with a backoff base at least as long.
pub proof fn lemma_half_open_recovery(m: BreakerModel, now: u64, later: u64, jitter: u64)
    requires
        m.wf(),
        m.state matches BreakerState::Open { until, trips } && now >= until,
    ensures
        m.permitted(now),
        m.begin_step(now).state matches BreakerState::HalfOpen { trips } && m.state == (
        BreakerState::Open { until: m.state->Open_until, trips }),
        m.begin_step(now).success_step(later).state is Closed,
        m.begin_step(now).success_step(later).consecutive_failures == 0,
        m.begin_step(now).failure_step(later, jitter).state matches BreakerState::Open {
            until,
            trips,
        } && cooldown_base(m.config, trips as nat) >= cooldown_base(
            m.config,
            m.state->Open_trips as nat,
        ),
{
    let t0 = m.state->Open_trips;
    let t1 = sat_inc(t0);
    if t0 == u64::MAX {
    } else {
        lemma_cooldown_monotone(m.config, t0 as nat);
    }
}

} // verus!
