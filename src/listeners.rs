use vstd::prelude::*;
use crate::average::{Average, window_after, mean_of, SCALE};
use crate::config::{Config, PPM, MIN_THRESHOLD, LOW_LISTENER_LIMIT};

verus! {

/// The product of two bounded factors is bounded by the product of the bounds.
proof fn lemma_mul_bound(a: int, b: int, x: nat, y: nat)
    requires
        -x <= a <= x,
        -y <= b <= y,
    ensures
        -(x * y) <= a * b <= x * y,
{
    assert(-(x * y) <= a * b <= x * y) by (nonlinear_arith)
        requires
            -x <= a <= x,
            -y <= b <= y,
    ;
}

/// Largest level that a window of raw counts can average to.
pub open spec fn max_level() -> int {
    u32::MAX as int * SCALE
}

/// Denominator of the scaled threshold: the decay period as a level.
pub open spec fn threshold_den(cfg: Config) -> int {
    cfg.high_listener_dec_every as int * SCALE
}

/// Spike threshold for a raw value `v` whose rise over the baseline is the level
/// `delta`, as a fraction in parts per million multiplied by `threshold_den(cfg)`.
/// Small feeds get a higher bar; large ones a lower bar the faster they rise,
/// but never below `MIN_THRESHOLD`.
pub open spec fn threshold(cfg: Config, v: u32, delta: int) -> int {
    if v < LOW_LISTENER_LIMIT {
        (cfg.spike + (LOW_LISTENER_LIMIT - v) * cfg.low_listener_increase) * threshold_den(cfg)
    } else {
        let cap = (cfg.spike - MIN_THRESHOLD) * threshold_den(cfg);
        let dec = delta * cfg.high_listener_dec;
        cfg.spike * threshold_den(cfg) - if dec < cap {
            dec
        } else {
            cap
        }
    }
}

/// Rise of the raw value `v` over the corrective baseline if there is one,
/// else over the moving average, as a level.
pub open spec fn delta_of(d: ListenerData, v: u32) -> int {
    match d.unskewed_avg {
        Some(u) => v * SCALE - u,
        None => v * SCALE - d.average.current,
    }
}

/// Whether the raw value `v` is a spike over the state `d`: the rise over the
/// average reaches `v` times the threshold. An average of zero never spikes.
pub open spec fn spiked(cfg: Config, d: ListenerData, v: u32) -> bool {
    d.average.current != 0 && (v * SCALE - d.average.current) * PPM * threshold_den(cfg) >= v
        * SCALE * threshold(cfg, v, delta_of(d, v))
}

/// Linear interpolation from `a` toward `b` by the fraction `t` (parts per
/// million), with the step rounded up so that any positive step moves.
pub open spec fn lerp(a: int, b: int, t: int) -> int {
    a + ((b - a) * t + (PPM - 1)) / (PPM as int)
}

/// Interpolating toward a larger level by a fraction of at most one stays
/// between the two, and moves whenever the gap and the fraction are positive.
pub proof fn lemma_lerp_bounds(a: int, b: int, t: int)
    requires
        0 <= a <= b,
        0 <= t <= PPM,
    ensures
        a <= lerp(a, b, t) <= b,
        a < b && t > 0 ==> a < lerp(a, b, t),
{
    let d = b - a;
    assert(0 <= d * t <= d * PPM) by (nonlinear_arith)
        requires
            0 <= d,
            0 <= t <= PPM,
    ;
    assert((d * t + (PPM - 1)) / (PPM as int) <= d) by (nonlinear_arith)
        requires
            0 <= d * t <= d * PPM,
    ;
    assert(0 <= (d * t + (PPM - 1)) / (PPM as int)) by (nonlinear_arith)
        requires
            0 <= d * t,
    ;
    if d > 0 && t > 0 {
        assert(d * t >= 1) by (nonlinear_arith)
            requires
                d > 0,
                t > 0,
        ;
        assert((d * t + (PPM - 1)) / (PPM as int) >= 1) by (nonlinear_arith)
            requires
                d * t >= 1,
        ;
    }
}

/// The spike streak after a cycle; it stops at its largest value.
pub open spec fn streak_after(count: u8, has_spiked: bool) -> u8 {
    if !has_spiked {
        0
    } else if count == u8::MAX {
        u8::MAX
    } else {
        (count + 1) as u8
    }
}

/// Whether the average has come back to within the reset fraction of the
/// corrective baseline `u`.
pub open spec fn recovered(cfg: Config, current: int, u: int) -> bool {
    (current - u) * PPM < u * cfg.reset_pcnt
}

/// The corrective baseline after a cycle, given the one before, the updated
/// average, the cycle's spike and the new streak.
pub open spec fn corrected_after(
    cfg: Config,
    unskewed: Option<u64>,
    avg: Average,
    has_spiked: bool,
    streak: u8,
) -> Option<u64> {
    match unskewed {
        Some(u) => if recovered(cfg, avg.current as int, u as int) {
            None
        } else {
            Some(lerp(u as int, avg.current as int, cfg.adjust_pcnt as int) as u64)
        },
        None => if has_spiked && streak > cfg.spikes_required && avg.last > 0 {
            Some(avg.current)
        } else {
            None
        },
    }
}

/// The hourly baseline committed in a cycle: the corrective baseline while one
/// is being adjusted, else the updated average.
pub open spec fn baseline_after(cfg: Config, unskewed: Option<u64>, avg: Average) -> int {
    match unskewed {
        Some(u) => if recovered(cfg, avg.current as int, u as int) {
            avg.current as int
        } else {
            lerp(u as int, avg.current as int, cfg.adjust_pcnt as int)
        },
        None => avg.current as int,
    }
}

/// `d2` is the state after one cycle from `d` at hour `hour` with the raw
/// value `v`, and `r` is whether the cycle reported a spike: the spike is
/// judged against the average before the update, the hour's baseline and the
/// corrective baseline against the average after it.
pub open spec fn stepped(cfg: Config, d: ListenerData, d2: ListenerData, hour: int, v: u32, r: bool) -> bool {
    &&& r == spiked(cfg, d, v)
    &&& d2.average.moving@ == window_after(d.average.moving@, v)
    &&& d2.average.last == d.average.current
    &&& d2.average.current == mean_of(d2.average.moving@)
    &&& d2.spike_count == streak_after(d.spike_count, r)
    &&& d2.unskewed_avg == corrected_after(cfg, d.unskewed_avg, d2.average, r, d2.spike_count)
    &&& d2.hourly@ == d.hourly@.update(hour, baseline_after(cfg, d.unskewed_avg, d2.average) as u64)
}

/// The anomaly state of one feed.
pub struct ListenerData {
    /// Moving average of the raw listener counts.
    pub average: Average,
    /// Corrective baseline, present while recovering from a spike.
    pub unskewed_avg: Option<u64>,
    /// Last committed baseline level for each hour of the day.
    pub hourly: [u64; 24],
    /// Consecutive spikes seen.
    pub spike_count: u8,
}

impl ListenerData {
    /// Well-formedness: the average is well formed and the corrective baseline
    /// is a level that a window can reach.
    pub open spec fn wf(&self) -> bool {
        &&& self.average.wf()
        &&& match self.unskewed_avg {
            Some(u) => u <= max_level(),
            None => true,
        }
        &&& forall|i: int| 0 <= i < 24 ==> #[trigger] self.hourly[i] <= max_level()
    }

    /// A fresh state seeded at `listeners`, with the given hourly baselines.
    pub fn new(listeners: u32, hourly: [u64; 24]) -> (r: ListenerData)
        requires
            forall|i: int| 0 <= i < 24 ==> #[trigger] hourly[i] <= max_level(),
        ensures
            r.wf(),
            r.average.moving@ == crate::average::seed_window(listeners),
            r.average.current == listeners as int * SCALE,
            r.average.last == listeners as int * SCALE,
            r.unskewed_avg.is_none(),
            r.hourly == hourly,
            r.spike_count == 0,
    {
        ListenerData { average: Average::new(listeners), unskewed_avg: None, hourly, spike_count: 0 }
    }

    /// Runs one cycle for the raw value `listeners` at hour `hour`: detects a
    /// spike against the average as it stood, updates the average, then the
    /// hourly baseline and the corrective baseline. Returns whether it spiked.
    pub fn step(&mut self, config: &Config, hour: usize, listeners: u32) -> (r: bool)
        requires
            old(self).wf(),
            config.wf(),
            hour < 24,
        ensures
            final(self).wf(),
            stepped(*config, *old(self), *final(self), hour as int, listeners, r),
    {
        let has_spiked = self.has_spiked(config, listeners);
        self.average.update(listeners);
        self.update_hourly(config, hour, has_spiked);
        has_spiked
    }

    /// Advances the spike streak and the corrective baseline after the average
    /// has been updated, and commits the hour's baseline.
    pub fn update_hourly(&mut self, config: &Config, hour: usize, has_spiked: bool)
        requires
            old(self).wf(),
            config.wf(),
            hour < 24,
        ensures
            final(self).wf(),
            final(self).average == old(self).average,
            final(self).spike_count == streak_after(old(self).spike_count, has_spiked),
            final(self).unskewed_avg == corrected_after(
                *config,
                old(self).unskewed_avg,
                old(self).average,
                has_spiked,
                final(self).spike_count,
            ),
            final(self).hourly@ == old(self).hourly@.update(
                hour as int,
                baseline_after(*config, old(self).unskewed_avg, old(self).average) as u64,
            ),
            baseline_after(*config, old(self).unskewed_avg, old(self).average) <= max_level(),
    {
        self.spike_count = if has_spiked {
            self.spike_count.saturating_add(1)
        } else {
            0
        };
        let current: u64 = self.average.current;
        match self.unskewed_avg {
            Some(unskewed) => {
                proof {
                    lemma_mul_bound(unskewed as int, config.reset_pcnt as int, 0x100000000 * 1024, 0x100000000);
                    lemma_mul_bound(current - unskewed, PPM as int, 0x100000000 * 1024, 0x100000);
                }
                let gap: i128 = (current as i128 - unskewed as i128) * (PPM as i128);
                if gap < unskewed as i128 * config.reset_pcnt as i128 {
                    self.unskewed_avg = None;
                    self.hourly[hour] = current;
                } else {
                    proof {
                        assert(current >= unskewed) by (nonlinear_arith)
                            requires
                                (current - unskewed) * PPM >= unskewed * config.reset_pcnt,
                                unskewed * config.reset_pcnt >= 0,
                        ;
                    }
                    let new_val = lerp_levels(unskewed, current, config.adjust_pcnt);
                    self.unskewed_avg = Some(new_val);
                    self.hourly[hour] = new_val;
                }
            },
            None => {
                if has_spiked && self.spike_count > config.spikes_required && self.average.last
                    > 0 {
                    self.unskewed_avg = Some(current);
                }
                self.hourly[hour] = current;
            },
        }
    }

    /// The spike threshold for `listeners` in this state (see `threshold`).
    pub fn spike_threshold(&self, config: &Config, listeners: u32) -> (r: i128)
        requires
            self.wf(),
            config.wf(),
        ensures
            r == threshold(*config, listeners, delta_of(*self, listeners)),
            -0x200000000000000000000 <= r <= 0x200000000000000000000,
    {
        let den: i128 = config.high_listener_dec_every as i128 * SCALE as i128;
        let spike: i128 = config.spike as i128;
        proof {
            lemma_mul_bound(config.high_listener_dec_every as int, SCALE as int, 0x100000000, 1024);
        }
        if listeners < LOW_LISTENER_LIMIT {
            proof {
                lemma_mul_bound((LOW_LISTENER_LIMIT - listeners) as int, config.low_listener_increase as int, 64, 0x100000000);
            }
            let low: i128 = (LOW_LISTENER_LIMIT - listeners) as i128
                * config.low_listener_increase as i128;
            proof {
                lemma_mul_bound(spike + low, den as int, 0x8000000000, 0x100000000 * 1024);
            }
            (spike + low) * den
        } else {
            proof {
                lemma_mul_bound(spike - MIN_THRESHOLD, den as int, 0x100000000, 0x100000000 * 1024);
                lemma_mul_bound(spike as int, den as int, 0x100000000, 0x100000000 * 1024);
            }
            let cap: i128 = (spike - MIN_THRESHOLD as i128) * den;
            let delta: i128 = self.get_average_delta(listeners) as i128;
            proof {
                lemma_mul_bound(delta as int, config.high_listener_dec as int, 0x100000000 * 1024 * 2, 0x100000000);
            }
            let dec: i128 = delta * config.high_listener_dec as i128;
            spike * den - if dec < cap {
                dec
            } else {
                cap
            }
        }
    }

    /// Whether `listeners` is a spike over the current average.
    pub fn has_spiked(&self, config: &Config, listeners: u32) -> (r: bool)
        requires
            self.wf(),
            config.wf(),
        ensures
            r == spiked(*config, *self, listeners),
    {
        if self.average.current == 0 {
            return false;
        }
        let threshold: i128 = self.spike_threshold(config, listeners);
        let den: i128 = config.high_listener_dec_every as i128 * SCALE as i128;
        let value: i128 = listeners as i128 * SCALE as i128;
        let rise: i128 = value - self.average.current as i128;
        proof {
            lemma_mul_bound(config.high_listener_dec_every as int, SCALE as int, 0x100000000, 1024);
            lemma_mul_bound(rise as int, PPM as int, 0x100000000 * 1024, 0x100000);
            lemma_mul_bound(rise * PPM, den as int, 0x4000000000000000, 0x100000000 * 1024);
            assert(0 <= value <= 0x40000000000);
            lemma_mul_bound(value as int, threshold as int, 0x40000000000, 0x200000000000000000000);
        }
        rise * (PPM as i128) * den >= value * threshold
    }

    /// Rise of `listeners` over the corrective baseline if there is one, else
    /// over the moving average, as a level.
    pub fn get_average_delta(&self, listeners: u32) -> (r: i64)
        requires
            self.wf(),
        ensures
            r == delta_of(*self, listeners),
            -0x100000000 * 1024 <= r <= 0x100000000 * 1024,
    {
        let sub: u64 = match self.unskewed_avg {
            Some(unskewed) => unskewed,
            None => self.average.current,
        };
        listeners as i64 * SCALE as i64 - sub as i64
    }
}

/// Moves the level `from` toward the level `to` by the fraction `t` (parts per
/// million).
fn lerp_levels(from: u64, to: u64, t: u32) -> (r: u64)
    requires
        from <= to <= max_level(),
        t <= PPM,
    ensures
        r == lerp(from as int, to as int, t as int),
        from <= r <= to,
        from < to && t > 0 ==> from < r,
{
    proof {
        lemma_mul_bound((to - from) as int, t as int, 0x100000000 * 1024, 0x100000);
        lemma_lerp_bounds(from as int, to as int, t as int);
    }
    let step: u64 = ((to - from) * (t as u64) + (PPM - 1)) / PPM;
    from + step
}

/// An average of zero never reports a spike, whatever the raw value.
pub proof fn lemma_no_spike_without_history(cfg: Config, d: ListenerData, v: u32)
    requires
        d.average.current == 0,
    ensures
        !spiked(cfg, d, v),
{
}

/// Below the small-feed limit the threshold does not grow as the raw value
/// grows toward the limit.
pub proof fn lemma_small_feed_threshold_relaxes(
    cfg: Config,
    v1: u32,
    v2: u32,
    delta1: int,
    delta2: int,
)
    requires
        cfg.wf(),
        v1 <= v2 < LOW_LISTENER_LIMIT,
    ensures
        threshold(cfg, v2, delta2) <= threshold(cfg, v1, delta1),
{
    let den = threshold_den(cfg);
    let a = cfg.spike + (LOW_LISTENER_LIMIT - v1) * cfg.low_listener_increase;
    let b = cfg.spike + (LOW_LISTENER_LIMIT - v2) * cfg.low_listener_increase;
    assert(b <= a) by (nonlinear_arith)
        requires
            a == cfg.spike + (LOW_LISTENER_LIMIT - v1) * cfg.low_listener_increase,
            b == cfg.spike + (LOW_LISTENER_LIMIT - v2) * cfg.low_listener_increase,
            v1 <= v2,
            cfg.low_listener_increase >= 0,
    ;
    assert(b * den <= a * den) by (nonlinear_arith)
        requires
            b <= a,
            den > 0,
    ;
}

/// At or above the small-feed limit the threshold does not grow as the rise
/// over the baseline grows, and it never drops below `MIN_THRESHOLD`.
pub proof fn lemma_large_feed_threshold_decays(
    cfg: Config,
    v1: u32,
    v2: u32,
    delta1: int,
    delta2: int,
)
    requires
        cfg.wf(),
        LOW_LISTENER_LIMIT <= v1,
        LOW_LISTENER_LIMIT <= v2,
        delta1 <= delta2,
    ensures
        threshold(cfg, v2, delta2) <= threshold(cfg, v1, delta1),
        threshold(cfg, v1, delta1) >= MIN_THRESHOLD * threshold_den(cfg),
        threshold(cfg, v2, delta2) >= MIN_THRESHOLD * threshold_den(cfg),
{
    assert(delta1 * cfg.high_listener_dec <= delta2 * cfg.high_listener_dec) by (nonlinear_arith)
        requires
            delta1 <= delta2,
            cfg.high_listener_dec >= 0,
    ;
    assert((cfg.spike - MIN_THRESHOLD) * threshold_den(cfg) == cfg.spike * threshold_den(cfg)
        - MIN_THRESHOLD * threshold_den(cfg)) by (nonlinear_arith);
}

/// A window whose values all equal `v` sums to its length times `v`.
proof fn lemma_sum_constant(s: Seq<u32>, v: u32)
    requires
        forall|i: int| 0 <= i < s.len() ==> s[i] == v,
    ensures
        crate::average::sum_of(s) == s.len() * v,
    decreases s.len(),
{
    if s.len() > 0 {
        lemma_sum_constant(s.drop_last(), v);
        assert(crate::average::sum_of(s) == (s.len() - 1) * v + v);
        assert((s.len() - 1) * v + v == s.len() * v) by (nonlinear_arith);
    }
}

/// A feed whose average has settled at `v` and that is not recovering from a
/// spike does not spike on `v` again, keeps its average at `v`, stays out of
/// recovery, and commits that average as the hour's baseline. (A zero
/// threshold, on a small feed with a zero base and a zero increase, would
/// count no change as a spike, and is left out.)
pub proof fn lemma_settled_value_is_steady(cfg: Config, d: ListenerData, v: u32)
    requires
        cfg.wf(),
        d.wf(),
        d.unskewed_avg.is_none(),
        d.average.moving@.len() > 0,
        forall|i: int| 0 <= i < d.average.moving@.len() ==> d.average.moving@[i] == v,
        cfg.spike > 0 || cfg.low_listener_increase > 0 || v >= LOW_LISTENER_LIMIT,
    ensures
        d.average.current == v * SCALE,
        !spiked(cfg, d, v),
        mean_of(window_after(d.average.moving@, v)) == v * SCALE,
        forall|a: Average, streak: u8|
            a.current == v * SCALE ==> {
                &&& #[trigger] corrected_after(cfg, d.unskewed_avg, a, false, streak).is_none()
                &&& baseline_after(cfg, d.unskewed_avg, a) == v * SCALE
            },
{
    let w = d.average.moving@;
    let w2 = window_after(w, v);
    lemma_sum_constant(w, v);
    lemma_sum_constant(w2, v);
    let n = w.len() as int;
    let n2 = w2.len() as int;
    assert(n * v * SCALE / n == v * SCALE) by (nonlinear_arith)
        requires
            n > 0,
    ;
    assert(n2 * v * SCALE / n2 == v * SCALE) by (nonlinear_arith)
        requires
            n2 > 0,
    ;
    assert(crate::average::sum_of(w) * SCALE == n * v * SCALE) by (nonlinear_arith)
        requires
            crate::average::sum_of(w) == n * v,
    ;
    assert(crate::average::sum_of(w2) * SCALE == n2 * v * SCALE) by (nonlinear_arith)
        requires
            crate::average::sum_of(w2) == n2 * v,
    ;
    if v > 0 {
        let den = threshold_den(cfg);
        let t = threshold(cfg, v, delta_of(d, v));
        if v >= LOW_LISTENER_LIMIT {
            lemma_large_feed_threshold_decays(cfg, v, v, delta_of(d, v), delta_of(d, v));
        } else {
            let a = cfg.spike + (LOW_LISTENER_LIMIT - v) * cfg.low_listener_increase;
            assert(a > 0) by (nonlinear_arith)
                requires
                    a == cfg.spike + (LOW_LISTENER_LIMIT - v) * cfg.low_listener_increase,
                    cfg.spike > 0 || cfg.low_listener_increase > 0,
                    v < LOW_LISTENER_LIMIT,
            ;
        }
        assert(t > 0) by (nonlinear_arith)
            requires
                t >= MIN_THRESHOLD * den || t == (cfg.spike + (LOW_LISTENER_LIMIT - v) * cfg.low_listener_increase) * den,
                cfg.spike + (LOW_LISTENER_LIMIT - v) * cfg.low_listener_increase > 0 || v >= LOW_LISTENER_LIMIT,
                v >= LOW_LISTENER_LIMIT ==> t >= MIN_THRESHOLD * den,
                den > 0,
        ;
        assert(v * SCALE * t > 0) by (nonlinear_arith)
            requires
                v > 0,
                t > 0,
        ;
        assert(d.average.current == v * SCALE);
        let rise = v * SCALE - d.average.current;
        assert(rise == 0);
        assert(rise * PPM * den == 0) by (nonlinear_arith)
            requires
                rise == 0,
        ;
    }
}

/// While recovering, a cycle that does not reset the corrective baseline moves
/// it toward the updated average by the adjustment fraction, never past it,
/// and strictly closer whenever it is below the average and the fraction is
/// positive.
pub proof fn lemma_correction_moves_toward_average(cfg: Config, u: u64, avg: Average, has_spiked: bool, streak: u8)
    requires
        cfg.wf(),
        u <= avg.current <= max_level(),
        !recovered(cfg, avg.current as int, u as int),
    ensures
        corrected_after(cfg, Some(u), avg, has_spiked, streak) == Some(
            lerp(u as int, avg.current as int, cfg.adjust_pcnt as int) as u64,
        ),
        u <= lerp(u as int, avg.current as int, cfg.adjust_pcnt as int) <= avg.current,
        u < avg.current && cfg.adjust_pcnt > 0 ==> u < lerp(
            u as int,
            avg.current as int,
            cfg.adjust_pcnt as int,
        ),
        baseline_after(cfg, Some(u), avg) == lerp(u as int, avg.current as int, cfg.adjust_pcnt as int),
{
    lemma_lerp_bounds(u as int, avg.current as int, cfg.adjust_pcnt as int);
}

/// A feed that starts from an empty average and then sees the same positive
/// count `c` at hour `hour` cycle after cycle never spikes, and after each
/// cycle its average and the hour's baseline stand at `c` and it is not
/// recovering. `ds` are the states before and after each cycle, `rs` what each
/// cycle reported. (As for a settled feed, a zero threshold is left out.)
pub proof fn lemma_constant_from_zero_never_spikes(
    cfg: Config,
    ds: Seq<ListenerData>,
    rs: Seq<bool>,
    hour: int,
    c: u32,
)
    requires
        cfg.wf(),
        0 <= hour < 24,
        c > 0,
        cfg.spike > 0 || cfg.low_listener_increase > 0 || c >= LOW_LISTENER_LIMIT,
        ds.len() == rs.len() + 1,
        forall|i: int| 0 <= i < ds.len() ==> (#[trigger] ds[i]).wf(),
        ds[0].average.moving@.len() == 0,
        ds[0].unskewed_avg.is_none(),
        forall|i: int| 0 <= i < rs.len() ==> #[trigger] stepped(cfg, ds[i], ds[i + 1], hour, c, rs[i]),
    ensures
        forall|i: int| 0 <= i < rs.len() ==> !(#[trigger] rs[i]),
        forall|i: int|
            1 <= i < ds.len() ==> (#[trigger] ds[i]).average.current == c * SCALE
                && ds[i].unskewed_avg.is_none() && ds[i].hourly[hour] == c * SCALE,
    decreases rs.len(),
{
    if rs.len() > 0 {
        let n = rs.len() - 1;
        lemma_constant_from_zero_never_spikes(cfg, ds.drop_last(), rs.drop_last(), hour, c);
        assert forall|i: int| 0 <= i < n implies #[trigger] stepped(cfg, ds[i], ds[i + 1], hour, c, rs[i]) by {
            assert(stepped(cfg, ds[i], ds[i + 1], hour, c, rs[i]));
        }
        lemma_constant_window(cfg, ds, rs, hour, c, n);
        assert(stepped(cfg, ds[n], ds[n + 1], hour, c, rs[n]));
        let d = ds[n];
        if n == 0 {
            assert(d.average.current == mean_of(d.average.moving@));
            assert(!rs[n]);
            let w = window_after(d.average.moving@, c);
            assert(w =~= seq![c]);
            assert(w.drop_last() =~= Seq::<u32>::empty());
            assert(crate::average::sum_of(Seq::<u32>::empty()) == 0);
            assert(crate::average::sum_of(w) == c);
        } else {
            assert(ds.drop_last()[n] == ds[n]);
            assert(ds.drop_last()[n].unskewed_avg.is_none());
            lemma_settled_value_is_steady(cfg, d, c);
        }
        assert(!rs[n]);
        assert forall|i: int| 0 <= i < rs.len() implies !(#[trigger] rs[i]) by {
            if i < n {
                assert(rs.drop_last()[i] == rs[i]);
            }
        }
        assert forall|i: int|
            1 <= i < ds.len() implies (#[trigger] ds[i]).average.current == c * SCALE
                && ds[i].unskewed_avg.is_none() && ds[i].hourly[hour] == c * SCALE by {
            if i <= n {
                assert(ds.drop_last()[i] == ds[i]);
            }
        }
    }
}

/// The window of every state after the first of such a run holds `c` only,
/// and at least once.
proof fn lemma_constant_window(
    cfg: Config,
    ds: Seq<ListenerData>,
    rs: Seq<bool>,
    hour: int,
    c: u32,
    n: int,
)
    requires
        0 <= n < ds.len(),
        ds.len() == rs.len() + 1,
        forall|i: int| 0 <= i < rs.len() ==> #[trigger] stepped(cfg, ds[i], ds[i + 1], hour, c, rs[i]),
        ds[0].average.moving@.len() == 0,
    ensures
        n == 0 || ds[n].average.moving@.len() > 0,
        forall|k: int| 0 <= k < ds[n].average.moving@.len() ==> #[trigger] ds[n].average.moving@[k] == c,
    decreases n,
{
    if n > 0 {
        lemma_constant_window(cfg, ds, rs, hour, c, n - 1);
        let j = n - 1;
        assert(stepped(cfg, ds[j], ds[j + 1], hour, c, rs[j]));
        let w = ds[n - 1].average.moving@;
        let p = w.push(c);
        assert forall|k: int| 0 <= k < p.len() implies #[trigger] p[k] == c by {
            if k < w.len() {
                assert(p[k] == w[k]);
            }
        }
    }
}

} // verus!
