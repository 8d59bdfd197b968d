//! The aggregator: sole owner of the session state, consuming match and
//! throughput events from all workers.
//!
//! A match event is always appended to the match log.  In once-mode it is
//! accepted — counted, forwarded for persistence, and its target retired —
//! only while its target is still active, and retiring the last target stops
//! the run; a race's duplicate is dropped with no double count and no
//! duplicate persistence.  Outside once-mode every match event is accepted.
//! A throughput event updates that worker's last-known instantaneous rate
//! and the exponentially smoothed total rate.

use vstd::prelude::*;
use crate::MAX_THREADS;
use crate::config::{SearchPlacement, distinct_seqs, byte_views};
use crate::lifecycle::LifecycleFlag;
use crate::matcher::{AddressMatch, MatchRec};

verus! {

/// Candidates checked per reseed cycle (the square of the per-counter loop
/// length).
pub const CYCLE_CANDIDATES: u64 = 10_000;

/// Rates are held in millionths of a candidate per second.
pub const RATE_SCALE: u64 = 1_000_000;

/// Microseconds per second; cycle durations arrive in microseconds.
pub const MICROS_PER_SEC: u64 = 1_000_000;

/// Numerator of every instantaneous-rate computation:
/// `CYCLE_CANDIDATES * RATE_SCALE` candidates-per-second units, scaled from
/// microseconds.  Also the largest representable instantaneous rate, reached
/// when a whole cycle takes one microsecond.
pub const RATE_NUMER: u64 = CYCLE_CANDIDATES * RATE_SCALE * MICROS_PER_SEC;

/// Messages worker threads send to the aggregator.
pub enum WorkerMsg {
    /// A candidate matched a target.
    AddressMatch(AddressMatch),
    /// One reseed cycle finished: worker id and the cycle's wall time in
    /// microseconds.
    Count(usize, u64),
}

/// Session state: owned and mutated by the aggregator alone for the whole
/// run, read by others only through snapshot copies.
pub struct SessionState {
    /// The active targets.  In once-mode an accepted target is removed and
    /// the set only ever shrinks; otherwise it is the configured list.
    pub vanities: Vec<Vec<u8>>,
    /// Append-only log of every match event received.
    pub matches: Vec<AddressMatch>,
    /// Per-worker last-known instantaneous rates, in `RATE_SCALE` units.
    pub rates: Vec<u64>,
    /// Exponentially smoothed total rate, in `RATE_SCALE` units.
    pub search_rate: u64,
    /// Candidates generated so far (saturating).
    pub total_count: u64,
    /// Matches accepted so far (saturating).
    pub match_count: u64,
    /// Whether each target is to be found only once.
    pub once: bool,
    /// The placement policy of this run.
    pub placement: SearchPlacement,
}

/// The mathematical value of a `SessionState`.
#[verifier::ext_equal]
pub ghost struct SessionModel {
    pub active: Seq<Seq<u8>>,
    pub matches: Seq<MatchRec>,
    pub rates: Seq<u64>,
    pub smoothed: u64,
    pub total: u64,
    pub match_count: u64,
    pub once: bool,
    pub placement: SearchPlacement,
}

impl View for SessionState {
    type V = SessionModel;

    open spec fn view(&self) -> SessionModel {
        SessionModel {
            active: byte_views(self.vanities@),
            matches: crate::matcher::rec_views(self.matches@),
            rates: self.rates@,
            smoothed: self.search_rate,
            total: self.total_count,
            match_count: self.match_count,
            once: self.once,
            placement: self.placement,
        }
    }
}

impl SessionModel {
    /// Well-formedness: a bounded worker set with bounded rates, and
    /// duplicate-free active targets.
    pub open spec fn wf(self) -> bool {
        &&& 1 <= self.rates.len() <= MAX_THREADS
        &&& forall|i: int| 0 <= i < self.rates.len() ==> #[trigger] self.rates[i] <= RATE_NUMER
        &&& self.smoothed <= (MAX_THREADS as int) * (RATE_NUMER as int)
        &&& distinct_seqs(self.active)
    }
}

/// Saturating 64-bit addition.
pub open spec fn sat_add64(a: u64, b: u64) -> u64 {
    if a + b <= u64::MAX {
        (a + b) as u64
    } else {
        u64::MAX
    }
}

/// Whether `target` is still in the active set of `s`.
pub open spec fn target_active(s: SessionModel, target: Seq<u8>) -> bool {
    exists|j: int| 0 <= j < s.active.len() && s.active[j] == target
}

/// The index of `target` in the active set; meaningful only when
/// `target_active` holds and the set is duplicate-free.
pub open spec fn active_index(s: SessionModel, target: Seq<u8>) -> int {
    choose|j: int| 0 <= j < s.active.len() && s.active[j] == target
}

/// Whether a match event for `m` is accepted (counted and persisted) in
/// state `s`: always outside once-mode, and exactly while its target is
/// still active in once-mode.
pub open spec fn match_accepted(s: SessionModel, m: MatchRec) -> bool {
    !s.once || target_active(s, m.target)
}

/// The session state after one match event.  The event is always logged;
/// when accepted the match count grows and, in once-mode, its target is
/// retired from the active set.
pub open spec fn after_match(s: SessionModel, m: MatchRec) -> SessionModel {
    let logged = SessionModel { matches: s.matches.push(m), ..s };
    if !s.once {
        SessionModel { match_count: sat_add64(s.match_count, 1), ..logged }
    } else if target_active(s, m.target) {
        SessionModel {
            active: s.active.remove(active_index(s, m.target)),
            match_count: sat_add64(s.match_count, 1),
            ..logged
        }
    } else {
        logged
    }
}

/// The instantaneous rate of one cycle that took `elapsed_micros` (clamped
/// below at one microsecond), in `RATE_SCALE` units.
pub open spec fn inst_rate(elapsed_micros: u64) -> u64 {
    (RATE_NUMER as int / (if elapsed_micros == 0 {
        1
    } else {
        elapsed_micros as int
    })) as u64
}

/// One step of the low-pass rate filter, in `RATE_SCALE` units:
/// `19/20` of the old value plus `1/20` of the new, rounded down.
pub open spec fn smooth(s: int, r: int) -> int {
    (s * 95 + r * 5) / 100
}

/// The sum of all workers' last-known rates.
pub open spec fn sum_rates(rs: Seq<u64>) -> int
    decreases rs.len(),
{
    if rs.len() == 0 {
        0
    } else {
        rs[0] + sum_rates(rs.drop_first())
    }
}

/// The session state after one throughput event from worker `id`.
pub open spec fn after_count(s: SessionModel, id: int, elapsed_micros: u64) -> SessionModel {
    let rates2 = s.rates.update(id, inst_rate(elapsed_micros));
    SessionModel {
        rates: rates2,
        total: sat_add64(s.total, CYCLE_CANDIDATES),
        smoothed: smooth(s.smoothed as int, sum_rates(rates2)) as u64,
        ..s
    }
}

/// Saturating 64-bit addition.
pub fn sat_add_u64(a: u64, b: u64) -> (r: u64)
    ensures
        r == sat_add64(a, b),
{
    if a <= u64::MAX - b {
        a + b
    } else {
        u64::MAX
    }
}

/// The first index of `needle` among the views of `hay`, if any.
fn position_of(hay: &Vec<Vec<u8>>, needle: &Vec<u8>) -> (r: Option<usize>)
    ensures
        match r {
            Some(j) => j < hay@.len() && byte_views(hay@)[j as int] == needle@ && forall|k: int|
                0 <= k < j ==> byte_views(hay@)[k] != needle@,
            None => forall|k: int| 0 <= k < hay@.len() ==> byte_views(hay@)[k] != needle@,
        },
{
    let mut j: usize = 0;
    while j < hay.len()
        invariant
            j <= hay@.len(),
            forall|k: int| 0 <= k < j ==> byte_views(hay@)[k] != needle@,
        decreases hay.len() - j,
    {
        if crate::config::bytes_eq(&hay[j], needle) {
            proof {
                assert(byte_views(hay@)[j as int] == needle@);
            }
            return Some(j);
        }
        j = j + 1;
    }
    None
}

/// The sum of the workers' rates; never overflows under the session's
/// bounds.
fn sum_rates_exec(rs: &Vec<u64>) -> (r: u64)
    requires
        rs@.len() <= MAX_THREADS,
        forall|i: int| 0 <= i < rs@.len() ==> #[trigger] rs@[i] <= RATE_NUMER,
    ensures
        r == sum_rates(rs@),
        r <= (MAX_THREADS as int) * (RATE_NUMER as int),
{
    let mut acc: u64 = 0;
    let mut i: usize = 0;
    proof {
        assert(rs@.skip(0) =~= rs@);
    }
    while i < rs.len()
        invariant
            i <= rs@.len(),
            rs@.len() <= MAX_THREADS,
            forall|k: int| 0 <= k < rs@.len() ==> #[trigger] rs@[k] <= RATE_NUMER,
            acc + sum_rates(rs@.skip(i as int)) == sum_rates(rs@),
            acc <= (i as int) * (RATE_NUMER as int),
        decreases rs.len() - i,
    {
        proof {
            assert(rs@.skip(i as int)[0] == rs@[i as int]);
            assert(rs@.skip(i as int).drop_first() =~= rs@.skip(i + 1));
            assert((i as int) * (RATE_NUMER as int) + (RATE_NUMER as int) == (i + 1) * (
            RATE_NUMER as int)) by (nonlinear_arith);
            assert((i + 1) * (RATE_NUMER as int) <= (MAX_THREADS as int) * (RATE_NUMER as int))
                by (nonlinear_arith)
                requires
                    i + 1 <= MAX_THREADS,
            ;
        }
        acc = acc + rs[i];
        i = i + 1;
    }
    proof {
        assert(rs@.skip(i as int) =~= Seq::<u64>::empty());
        assert((i as int) * (RATE_NUMER as int) <= (MAX_THREADS as int) * (RATE_NUMER as int))
            by (nonlinear_arith)
            requires
                i <= MAX_THREADS,
        ;
    }
    acc
}

/// Sums of bounded rate sequences are bounded.
proof fn lemma_sum_rates_nonneg(rs: Seq<u64>)
    ensures
        0 <= sum_rates(rs),
    decreases rs.len(),
{
    if rs.len() > 0 {
        lemma_sum_rates_nonneg(rs.drop_first());
    }
}

/// The filter's output lies between its two inputs, moving from the old
/// value toward the new by exactly one twentieth of the gap (rounded toward
/// the old value).
pub proof fn lemma_smooth_step(s: int, r: int)
    requires
        0 <= s,
        0 <= r,
    ensures
        smooth(s, r) == s + (r - s) * 5 / 100,
        s <= r ==> s <= smooth(s, r) <= r,
        r <= s ==> r <= smooth(s, r) <= s,
{
    let d5 = (r - s) * 5;
    assert(s * 95 + r * 5 == d5 + s * 100);
    assert(d5 / 100 + s == (d5 + s * 100) / 100) by {
        vstd::arithmetic::div_mod::lemma_hoist_over_denominator(d5, s, 100nat);
    }
    assert(d5 == 100 * (d5 / 100) + (d5 % 100) && 0 <= d5 % 100 < 100) by {
        vstd::arithmetic::div_mod::lemma_fundamental_div_mod(d5, 100);
        vstd::arithmetic::div_mod::lemma_mod_bound(d5, 100);
    }
    if s <= r {
        assert(0 <= d5 && d5 <= (r - s) * 100);
        assert(0 <= d5 / 100 && d5 / 100 <= r - s);
    } else {
        assert((r - s) * 100 <= d5 && d5 < 0);
        assert(r - s <= d5 / 100 && d5 / 100 <= 0);
    }
}

impl SessionState {
    /// A fresh session for a validated configuration: the given targets
    /// active, empty log, all counters and rates at zero.
    pub fn new(vanities: Vec<Vec<u8>>, threads: usize, placement: SearchPlacement, once: bool) -> (r:
        SessionState)
        requires
            1 <= threads <= MAX_THREADS,
            distinct_seqs(byte_views(vanities@)),
        ensures
            r@.wf(),
            r@.active == byte_views(vanities@),
            r@.matches == Seq::<MatchRec>::empty(),
            r@.rates == Seq::new(threads as nat, |i: int| 0u64),
            r@.smoothed == 0,
            r@.total == 0,
            r@.match_count == 0,
            r@.once == once,
            r@.placement == placement,
    {
        let mut rates: Vec<u64> = Vec::new();
        let mut i: usize = 0;
        while i < threads
            invariant
                i <= threads,
                rates@.len() == i,
                forall|k: int| 0 <= k < i ==> rates@[k] == 0u64,
            decreases threads - i,
        {
            rates.push(0);
            i = i + 1;
        }
        proof {
            assert(rates@ =~= Seq::new(threads as nat, |i: int| 0u64));
        }
        let r = SessionState {
            vanities,
            matches: Vec::new(),
            rates,
            search_rate: 0,
            total_count: 0,
            match_count: 0,
            once,
            placement,
        };
        proof {
            assert(r@.matches =~= Seq::<MatchRec>::empty());
        }
        r
    }
}

/// Consume one worker message, updating the session state and, when
/// once-mode retires the last active target, stopping the run.  Returns the
/// accepted match to forward for persistence, if any.
pub fn handle_msg(state: &mut SessionState, flag: &mut LifecycleFlag, msg: WorkerMsg) -> (out:
    Option<AddressMatch>)
    requires
        old(state)@.wf(),
        match msg {
            WorkerMsg::Count(id, _) => id < old(state)@.rates.len(),
            _ => true,
        },
    ensures
        final(state)@.wf(),
        match msg {
            WorkerMsg::AddressMatch(m) => {
                &&& final(state)@ == after_match(old(state)@, m@)
                &&& (out is Some <==> match_accepted(old(state)@, m@))
                &&& (out is Some ==> out.unwrap()@ == m@)
                &&& (if old(state)@.once && match_accepted(old(state)@, m@) && after_match(
                    old(state)@,
                    m@,
                ).active.len() == 0 {
                    !final(flag).running()
                } else {
                    final(flag).running() == old(flag).running()
                })
            },
            WorkerMsg::Count(id, elapsed_micros) => {
                &&& final(state)@ == after_count(old(state)@, id as int, elapsed_micros)
                &&& out is None
                &&& final(flag).running() == old(flag).running()
            },
        },
{
    match msg {
        WorkerMsg::AddressMatch(m) => {
            state.matches.push(m.duplicate());
            proof {
                assert(state@.matches =~= old(state)@.matches.push(m@));
            }
            if state.once {
                match position_of(&state.vanities, &m.target) {
                    Some(j) => {
                        proof {
                            assert(target_active(old(state)@, m@.target));
                            let c = active_index(old(state)@, m@.target);
                            assert(old(state)@.active[c] == m@.target);
                            assert(c == j) by {
                                if c != j {
                                    assert(old(state)@.active[c] == old(state)@.active[j as int]);
                                }
                            }
                        }
                        state.match_count = sat_add_u64(state.match_count, 1);
                        state.vanities.remove(j);
                        proof {
                            assert(state@.active =~= old(state)@.active.remove(j as int));
                            assert(state@ =~= after_match(old(state)@, m@));
                            lemma_remove_keeps_distinct(old(state)@.active, j as int);
                        }
                        if state.vanities.len() == 0 {
                            flag.request_stop();
                        }
                        Some(m)
                    },
                    None => {
                        proof {
                            assert(!target_active(old(state)@, m@.target));
                            assert(state@ =~= after_match(old(state)@, m@));
                        }
                        None
                    },
                }
            } else {
                state.match_count = sat_add_u64(state.match_count, 1);
                proof {
                    assert(state@ =~= after_match(old(state)@, m@));
                }
                Some(m)
            }
        },
        WorkerMsg::Count(id, elapsed_micros) => {
            let e = if elapsed_micros == 0 {
                1
            } else {
                elapsed_micros
            };
            let inst = RATE_NUMER / e;
            proof {
                assert(inst == inst_rate(elapsed_micros));
                assert(inst <= RATE_NUMER) by {
                    vstd::arithmetic::div_mod::lemma_div_nonincreasing(RATE_NUMER as int, e as int);
                    vstd::arithmetic::div_mod::lemma_div_pos_is_pos(RATE_NUMER as int, e as int);
                }
            }
            state.rates[id] = inst;
            state.total_count = sat_add_u64(state.total_count, CYCLE_CANDIDATES);
            let sum = sum_rates_exec(&state.rates);
            proof {
                lemma_sum_rates_nonneg(state@.rates);
                lemma_smooth_step(state@.smoothed as int, sum as int);
            }
            let sm128: u128 = ((state.search_rate as u128) * 95 + (sum as u128) * 5) / 100;
            proof {
                assert(sm128 == smooth(state@.smoothed as int, sum_rates(state@.rates)));
                assert(sm128 <= (MAX_THREADS as int) * (RATE_NUMER as int));
            }
            state.search_rate = sm128 as u64;
            proof {
                assert(state@ =~= after_count(old(state)@, id as int, elapsed_micros));
            }
            None
        },
    }
}

/// Removing an element of a duplicate-free sequence keeps it
/// duplicate-free.
pub proof fn lemma_remove_keeps_distinct(s: Seq<Seq<u8>>, j: int)
    requires
        0 <= j < s.len(),
        distinct_seqs(s),
    ensures
        distinct_seqs(s.remove(j)),
{
    let t = s.remove(j);
    assert forall|a: int, b: int| 0 <= a < b < t.len() implies t[a] != t[b] by {
        let a0 = if a < j {
            a
        } else {
            a + 1
        };
        let b0 = if b < j {
            b
        } else {
            b + 1
        };
        assert(t[a] == s[a0]);
        assert(t[b] == s[b0]);
    }
}

/// LAW (once-mode, exactly once): once a match for a target has been
/// accepted, a later match event for the same target is not accepted: the
/// match count does not change and nothing is forwarded for persistence.
pub proof fn lemma_once_mode_exactly_once(s: SessionModel, m1: MatchRec, m2: MatchRec)
    requires
        s.wf(),
        s.once,
        match_accepted(s, m1),
        m2.target == m1.target,
    ensures
        !match_accepted(after_match(s, m1), m2),
        after_match(after_match(s, m1), m2).match_count == after_match(s, m1).match_count,
{
    let j = active_index(s, m1.target);
    assert(0 <= j < s.active.len() && s.active[j] == m1.target);
    let t = after_match(s, m1).active;
    assert(t == s.active.remove(j));
    assert forall|k: int| 0 <= k < t.len() implies t[k] != m2.target by {
        let k0 = if k < j {
            k
        } else {
            k + 1
        };
        assert(t[k] == s.active[k0]);
        if k0 != j && s.active[k0] == s.active[j] {
            assert(false);
        }
    }
}


/// Split a run time in whole seconds into hours, minutes and seconds, as
/// shown on a status display.
pub fn clock_parts(total_secs: u64) -> (r: (u64, u64, u64))
    ensures
        r.0 == total_secs / 3600,
        r.1 == (total_secs / 60) % 60,
        r.2 == total_secs % 60,
{
    let sec = total_secs % 60;
    let min = (total_secs / 60) % 60;
    let hrs = (total_secs / 60) / 60;
    proof {
        vstd::arithmetic::div_mod::lemma_div_denominator(total_secs as int, 60, 60);
    }
    (hrs, min, sec)
}


/// Repeated smoothing steps against a fixed instantaneous rate.
pub open spec fn smooth_iter(s: int, r: int, n: nat) -> int
    decreases n,
{
    if n == 0 {
        s
    } else {
        smooth(smooth_iter(s, r, (n - 1) as nat), r)
    }
}

/// LAW (rate smoothing converges): fed a constant instantaneous rate from
/// below, the smoothed rate climbs monotonically and never overshoots it.
pub proof fn lemma_smoothing_monotone(s: int, r: int, n: nat)
    requires
        0 <= s <= r,
    ensures
        s <= smooth_iter(s, r, n) <= r,
        smooth_iter(s, r, n) <= smooth_iter(s, r, n + 1),
    decreases n,
{
    if n == 0 {
        lemma_smooth_step(s, r);
    } else {
        lemma_smoothing_monotone(s, r, (n - 1) as nat);
        lemma_smooth_step(smooth_iter(s, r, (n - 1) as nat), r);
        lemma_smooth_step(smooth_iter(s, r, n), r);
    }
}

/// LAW (once-mode, retirement is permanent): a target no longer in the
/// active set never reappears, whatever events the aggregator consumes
/// later; so after a once-mode target was accepted no later match for it is
/// ever counted or persisted.
pub proof fn lemma_retired_target_stays_retired(s: SessionModel, m: MatchRec, t: Seq<u8>)
    requires
        !target_active(s, t),
    ensures
        !target_active(after_match(s, m), t),
        forall|id: int, e: u64| !target_active(#[trigger] after_count(s, id, e), t),
{
    let a2 = after_match(s, m).active;
    if s.once && target_active(s, m.target) {
        let j = active_index(s, m.target);
        assert forall|k: int| 0 <= k < a2.len() implies a2[k] != t by {
            let k0 = if k < j {
                k
            } else {
                k + 1
            };
            assert(a2[k] == s.active[k0]);
        }
    }
}

} // verus!
