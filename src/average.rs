use std::collections::VecDeque;
use vstd::prelude::*;

verus! {

/// Number of raw values that the moving average spans.
pub const MOVING_AVG_SIZE: usize = 5;

/// Fixed-point scale of listener levels: `SCALE` stands for one listener.
pub const SCALE: u64 = 1000;

/// Sum of a sequence of raw listener counts.
pub open spec fn sum_of(s: Seq<u32>) -> int
    decreases s.len(),
{
    if s.len() == 0 {
        0
    } else {
        sum_of(s.drop_last()) + s.last()
    }
}

/// Mean of a non-empty window, as a fixed-point level (rounded down).
pub open spec fn mean_of(s: Seq<u32>) -> int {
    if s.len() == 0 {
        0
    } else {
        sum_of(s) * SCALE / (s.len() as int)
    }
}

/// The window that a fresh average starts with: the seed if it is positive.
pub open spec fn seed_window(seed: u32) -> Seq<u32> {
    if seed > 0 {
        seq![seed]
    } else {
        Seq::empty()
    }
}

/// The window after one more value: appended, the oldest evicted past capacity.
pub open spec fn window_after(w: Seq<u32>, v: u32) -> Seq<u32> {
    let p = w.push(v);
    if p.len() > MOVING_AVG_SIZE {
        p.drop_first()
    } else {
        p
    }
}

/// The window after a sequence of values, one after the other.
pub open spec fn window_after_all(w: Seq<u32>, values: Seq<u32>) -> Seq<u32>
    decreases values.len(),
{
    if values.len() == 0 {
        w
    } else {
        window_after(window_after_all(w, values.drop_last()), values.last())
    }
}

/// The last `MOVING_AVG_SIZE` elements of `s` (all of them if there are fewer).
pub open spec fn most_recent(s: Seq<u32>) -> Seq<u32> {
    if s.len() > MOVING_AVG_SIZE {
        s.subrange(s.len() - MOVING_AVG_SIZE, s.len() as int)
    } else {
        s
    }
}

/// A bounded moving average over the most recent raw listener counts.
pub struct Average {
    /// Mean of `moving`, as a fixed-point level.
    pub current: u64,
    /// Value of `current` before the most recent update.
    pub last: u64,
    /// The most recent raw values, oldest first.
    pub moving: VecDeque<u32>,
}

impl Average {
    /// Well-formedness: the window stays within capacity and `current` is its mean.
    pub open spec fn wf(&self) -> bool {
        &&& self.moving@.len() <= MOVING_AVG_SIZE
        &&& self.current == mean_of(self.moving@)
        &&& self.current <= u32::MAX as int * SCALE
        &&& self.last <= u32::MAX as int * SCALE
    }

    /// Starts an average at `average` listeners; a positive seed enters the window.
    pub fn new(average: u32) -> (r: Average)
        ensures
            r.wf(),
            r.moving@ == seed_window(average),
            r.current == average as int * SCALE,
            r.last == average as int * SCALE,
    {
        let mut moving: VecDeque<u32> = VecDeque::with_capacity(MOVING_AVG_SIZE + 1);
        if average > 0 {
            moving.push_back(average);
        }
        proof {
            if average > 0 {
                assert(moving@ =~= seq![average]);
                assert(moving@.drop_last() =~= Seq::<u32>::empty());
                assert(sum_of(moving@.drop_last()) == 0);
                assert(sum_of(moving@) == average as int);
                assert(mean_of(moving@) == average as int * SCALE);
            }
        }
        let current: u64 = average as u64 * SCALE;
        Average { current, last: current, moving }
    }

    /// Adds a raw value to the window and recomputes the mean.
    pub fn update(&mut self, value: u32)
        requires
            old(self).wf(),
        ensures
            final(self).wf(),
            final(self).moving@ == window_after(old(self).moving@, value),
            final(self).last == old(self).current,
            final(self).current == mean_of(final(self).moving@),
    {
        self.moving.push_back(value);
        if self.moving.len() > MOVING_AVG_SIZE {
            self.moving.pop_front();
        }
        assert(self.moving@ == window_after(old(self).moving@, value));
        self.last = self.current;
        let n: usize = self.moving.len();
        let mut total: u64 = 0;
        let mut i: usize = 0;
        while i < n
            invariant
                n == self.moving@.len(),
                1 <= n <= MOVING_AVG_SIZE,
                i <= n,
                total == sum_of(self.moving@.subrange(0, i as int)),
                total <= i * (u32::MAX as int),
            decreases n - i,
        {
            proof {
                let s = self.moving@.subrange(0, i as int + 1);
                assert(s.drop_last() =~= self.moving@.subrange(0, i as int));
            }
            total = total + self.moving[i] as u64;
            i = i + 1;
        }
        assert(self.moving@.subrange(0, n as int) =~= self.moving@);
        proof {
            lemma_mean_bound(self.moving@);
        }
        self.current = total * SCALE / (n as u64);
    }
}

/// The sum of a window is at most its length times the largest count.
proof fn lemma_sum_bound(s: Seq<u32>)
    ensures
        0 <= sum_of(s) <= s.len() * (u32::MAX as int),
    decreases s.len(),
{
    if s.len() > 0 {
        lemma_sum_bound(s.drop_last());
    }
}

/// The mean of a window is at most the largest possible level.
proof fn lemma_mean_bound(s: Seq<u32>)
    ensures
        0 <= mean_of(s) <= u32::MAX as int * SCALE,
{
    lemma_sum_bound(s);
    if s.len() > 0 {
        let n = s.len() as int;
        let t = sum_of(s) * SCALE;
        assert(t <= n * (u32::MAX as int * SCALE)) by (nonlinear_arith)
            requires
                0 <= sum_of(s) <= n * (u32::MAX as int),
                t == sum_of(s) * SCALE,
        ;
        assert(t / n <= u32::MAX as int * SCALE) by (nonlinear_arith)
            requires
                0 <= t <= n * (u32::MAX as int * SCALE),
                n > 0,
        ;
        assert(t / n >= 0) by (nonlinear_arith)
            requires
                t >= 0,
                n > 0,
        ;
    }
}

/// After any run of updates, the window holds the most recent values: the
/// last `MOVING_AVG_SIZE` of the starting window followed by the values passed
/// to `update`; `current` is then its mean (see `Average::wf`).
pub proof fn lemma_window_is_most_recent(start: Seq<u32>, values: Seq<u32>)
    requires
        start.len() <= MOVING_AVG_SIZE,
    ensures
        window_after_all(start, values) == most_recent(start + values),
    decreases values.len(),
{
    if values.len() == 0 {
        assert(start + values =~= start);
    } else {
        let prev = values.drop_last();
        lemma_window_is_most_recent(start, prev);
        let w = most_recent(start + prev);
        let all = start + values;
        assert(all =~= (start + prev).push(values.last()));
        if (start + prev).len() >= MOVING_AVG_SIZE {
            assert(window_after(w, values.last()) =~= most_recent(all));
        } else {
            assert(window_after(w, values.last()) =~= most_recent(all));
        }
    }
}

/// An average started from `seed` and then given `values` in order holds the
/// mean of the last `MOVING_AVG_SIZE` of: the seed, if it is positive, and the
/// values.
pub proof fn lemma_average_of_recent(seed: u32, values: Seq<u32>)
    ensures
        window_after_all(seed_window(seed), values) == most_recent(seed_window(seed) + values),
        mean_of(window_after_all(seed_window(seed), values)) == mean_of(
            most_recent(seed_window(seed) + values),
        ),
{
    lemma_window_is_most_recent(seed_window(seed), values);
}

/// Once `MOVING_AVG_SIZE` or more values have been passed to `update`, the
/// seed no longer counts: the window holds the last `MOVING_AVG_SIZE` values.
pub proof fn lemma_seed_forgotten(seed: u32, values: Seq<u32>)
    requires
        values.len() >= MOVING_AVG_SIZE,
    ensures
        window_after_all(seed_window(seed), values) == values.subrange(
            values.len() - MOVING_AVG_SIZE,
            values.len() as int,
        ),
{
    lemma_window_is_most_recent(seed_window(seed), values);
    let all = seed_window(seed) + values;
    assert(all.subrange(all.len() - MOVING_AVG_SIZE, all.len() as int) =~= values.subrange(
        values.len() - MOVING_AVG_SIZE,
        values.len() as int,
    ));
}

} // verus!
