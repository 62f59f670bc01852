use std::collections::HashMap;
use vstd::prelude::*;
use vstd::std_specs::hash::{group_hash_axioms, spec_hash_map_iter};
use vstd::std_specs::iter::IteratorSpec;
use chrono::Timelike;
use crate::average::{seed_window, SCALE};
use crate::config::Config;
use crate::listeners::{ListenerData, max_level, stepped};

verus! {

broadcast use group_hash_axioms;

/// The anomaly state of every known feed, by feed id.
pub type AverageMap = HashMap<i32, ListenerData>;

/// A persisted row: a feed id and its baseline for each hour, in whole listeners.
pub type AverageRow = (i32, [u32; 24]);

/// Every state in the registry is well formed.
pub open spec fn registry_wf(m: Map<i32, ListenerData>) -> bool {
    forall|k: i32| #[trigger] m.contains_key(k) ==> m[k].wf()
}

/// A level as persisted: truncated to whole listeners.
pub open spec fn truncate_level(level: int) -> int {
    level / (SCALE as int)
}

/// A persisted whole-listener count as a level again.
pub open spec fn restore_level(count: int) -> int {
    count * SCALE
}

/// `d` is the state restored from the persisted baselines `row` at hour `hour`:
/// seeded at that hour's baseline, with all baselines copied, not recovering
/// and with no spike streak.
pub open spec fn restored_from(d: ListenerData, row: [u32; 24], hour: int) -> bool {
    &&& d.wf()
    &&& d.average.moving@ == seed_window(row[hour])
    &&& d.average.current == restore_level(row[hour] as int)
    &&& d.average.last == restore_level(row[hour] as int)
    &&& d.unskewed_avg.is_none()
    &&& forall|i: int| 0 <= i < 24 ==> #[trigger] d.hourly[i] == restore_level(row[i] as int)
    &&& d.spike_count == 0
}

/// `d` is the state of a feed with no prior state: seeded at zero, with an
/// empty window and zero baselines.
pub open spec fn fresh(d: ListenerData) -> bool {
    &&& d.wf()
    &&& d.average.moving@ == Seq::<u32>::empty()
    &&& d.average.current == 0
    &&& d.average.last == 0
    &&& d.unskewed_avg.is_none()
    &&& forall|i: int| 0 <= i < 24 ==> #[trigger] d.hourly[i] == 0
    &&& d.spike_count == 0
}

/// `m` holds a feed for each id of `rows`, and only those; each is restored
/// from the last row with its id, at hour `hour`.
pub open spec fn loaded_from(m: Map<i32, ListenerData>, rows: Seq<AverageRow>, hour: int) -> bool {
    &&& forall|i: int| 0 <= i < rows.len() ==> #[trigger] m.contains_key(rows[i].0)
    &&& forall|k: i32|
        #[trigger] m.contains_key(k) ==> exists|i: int|
            0 <= i < rows.len() && rows[i].0 == k && (forall|j: int|
                i < j < rows.len() ==> rows[j].0 != k) && restored_from(m[k], rows[i].1, hour)
}

/// `row` holds the baselines of `d`, each truncated to whole listeners.
pub open spec fn persisted_from(row: [u32; 24], d: ListenerData) -> bool {
    forall|i: int| 0 <= i < 24 ==> #[trigger] row[i] == truncate_level(d.hourly[i] as int)
}

/// The baselines of a feed as they are persisted: each truncated to whole
/// listeners.
pub fn persisted_hourly(data: &ListenerData) -> (r: [u32; 24])
    requires
        data.wf(),
    ensures
        persisted_from(r, *data),
{
    let mut r: [u32; 24] = [0u32; 24];
    let mut i: usize = 0;
    while i < 24
        invariant
            i <= 24,
            data.wf(),
            forall|j: int| 0 <= j < i ==> #[trigger] r[j] == truncate_level(data.hourly[j] as int),
        decreases 24 - i,
    {
        let level: u64 = data.hourly[i];
        assert(level <= max_level());
        r[i] = (level / SCALE) as u32;
        i = i + 1;
    }
    r
}

/// Restores a feed from its persisted baselines, seeding its average with
/// the baseline of hour `hour`.
pub fn restore_feed(row: &[u32; 24], hour: usize) -> (r: ListenerData)
    requires
        hour < 24,
    ensures
        restored_from(r, *row, hour as int),
{
    let mut hourly: [u64; 24] = [0u64; 24];
    let mut i: usize = 0;
    while i < 24
        invariant
            i <= 24,
            forall|j: int| 0 <= j < i ==> #[trigger] hourly[j] == restore_level(row[j] as int),
            forall|j: int| 0 <= j < 24 ==> #[trigger] hourly[j] <= max_level(),
        decreases 24 - i,
    {
        hourly[i] = row[i] as u64 * SCALE;
        i = i + 1;
    }
    ListenerData::new(row[hour], hourly)
}

/// Persisting a level and restoring it loses less than one listener and
/// never raises it; restoring a persisted count and persisting it again gives
/// the same count.
pub proof fn lemma_persist_round_trip(level: u64, count: u32)
    ensures
        restore_level(truncate_level(level as int)) <= level,
        level < restore_level(truncate_level(level as int)) + SCALE,
        truncate_level(restore_level(count as int)) == count,
{
    assert(restore_level(count as int) / (SCALE as int) == count) by (nonlinear_arith);
}

/// Builds the registry from persisted rows at hour `hour`. Where an id comes
/// twice, its last row wins.
pub fn load_averages(rows: &Vec<AverageRow>, hour: usize) -> (r: AverageMap)
    requires
        hour < 24,
    ensures
        registry_wf(r@),
        loaded_from(r@, rows@, hour as int),
{
    let mut avgs: AverageMap = HashMap::new();
    let mut n: usize = 0;
    while n < rows.len()
        invariant
            n <= rows@.len(),
            hour < 24,
            registry_wf(avgs@),
            forall|i: int| 0 <= i < n ==> #[trigger] avgs@.contains_key(rows@[i].0),
            forall|k: i32|
                #[trigger] avgs@.contains_key(k) ==> exists|i: int|
                    0 <= i < n && rows@[i].0 == k && (forall|j: int|
                        i < j < n ==> rows@[j].0 != k) && restored_from(
                        avgs@[k],
                        rows@[i].1,
                        hour as int,
                    ),
        decreases rows@.len() - n,
    {
        let row: &AverageRow = &rows[n];
        let data = restore_feed(&row.1, hour);
        avgs.insert(row.0, data);
        proof {
            assert forall|k: i32| #[trigger] avgs@.contains_key(k) implies exists|i: int|
                0 <= i < n + 1 && rows@[i].0 == k && (forall|j: int|
                    i < j < n + 1 ==> rows@[j].0 != k) && restored_from(
                    avgs@[k],
                    rows@[i].1,
                    hour as int,
                ) by {
                if k == row.0 {
                    assert(rows@[n as int].0 == k);
                } else {
                    let i = choose|i: int|
                        0 <= i < n && rows@[i].0 == k && (forall|j: int|
                            i < j < n ==> rows@[j].0 != k) && restored_from(
                            avgs@[k],
                            rows@[i].1,
                            hour as int,
                        );
                    assert(0 <= i < n + 1 && rows@[i].0 == k);
                }
            }
        }
        n = n + 1;
    }
    assert(rows@.len() == n);
    avgs
}

/// Relies on chrono's `Utc::now` and `Timelike::hour`: the hour of the day
/// now, in UTC, from 0 to 23.
#[verifier::external_body]
fn current_hour() -> (r: usize)
    ensures
        r < 24,
{
    chrono::Utc::now().hour() as usize
}

/// Builds the registry from persisted rows, seeding each feed with its
/// baseline for the hour of the day now (UTC).
pub fn load_averages_now(rows: &Vec<AverageRow>) -> (r: AverageMap)
    ensures
        registry_wf(r@),
        exists|hour: int| 0 <= hour < 24 && #[trigger] loaded_from(r@, rows@, hour),
{
    let hour = current_hour();
    let r = load_averages(rows, hour);
    assert(loaded_from(r@, rows@, hour as int));
    r
}

/// `m2` is the registry `m` after one cycle of feed `id` with `v` listeners
/// at hour `hour`, which reported `r`: the feed is created first if it is new,
/// and no other feed changes.
pub open spec fn feed_stepped(
    cfg: Config,
    m: Map<i32, ListenerData>,
    m2: Map<i32, ListenerData>,
    hour: int,
    id: i32,
    v: u32,
    r: bool,
) -> bool {
    &&& m2.dom() == m.dom().insert(id)
    &&& forall|k: i32| k != id && #[trigger] m.contains_key(k) ==> m2[k] == m[k]
    &&& m.contains_key(id) ==> stepped(cfg, m[id], m2[id], hour, v, r)
    &&& !m.contains_key(id) ==> exists|d: ListenerData|
        fresh(d) && #[trigger] stepped(cfg, d, m2[id], hour, v, r)
}

/// Runs one cycle for feed `id` with `listeners` listeners at hour `hour`,
/// creating its state first, seeded at zero, if the feed is new. Returns whether it spiked.
pub fn step_feed(config: &Config, averages: &mut AverageMap, hour: usize, id: i32, listeners: u32) -> (r: bool)
    requires
        registry_wf(old(averages)@),
        config.wf(),
        hour < 24,
    ensures
        registry_wf(final(averages)@),
        feed_stepped(*config, old(averages)@, final(averages)@, hour as int, id, listeners, r),
{
    let mut data = match averages.remove(&id) {
        Some(d) => d,
        None => ListenerData::new(0, [0u64; 24]),
    };
    let ghost start = data;
    let spiked = data.step(config, hour, listeners);
    averages.insert(id, data);
    proof {
        assert(final(averages)@.dom() =~= old(averages)@.dom().insert(id));
        if !old(averages)@.contains_key(id) {
            assert(fresh(start));
            assert(stepped(*config, start, final(averages)@[id], hour as int, listeners, spiked));
        }
    }
    spiked
}

/// The rows to persist: one per feed of the registry, in no set order.
pub fn save_averages(averages: &AverageMap) -> (r: Vec<AverageRow>)
    requires
        registry_wf(averages@),
    ensures
        r@.len() == averages@.len(),
        forall|i: int|
            0 <= i < r@.len() ==> #[trigger] averages@.contains_key(r@[i].0) && persisted_from(
                r@[i].1,
                averages@[r@[i].0],
            ),
        forall|k: i32| #[trigger] averages@.contains_key(k) ==> exists|i: int| 0 <= i < r@.len() && r@[i].0 == k,
{
    let mut rows: Vec<AverageRow> = Vec::new();
    for entry in it: averages.iter()
        invariant
            registry_wf(averages@),
            it.seq() == spec_hash_map_iter(averages).remaining(),
            rows@.len() == it.index(),
            forall|j: int|
                0 <= j < it.index() ==> (#[trigger] rows@[j]).0 == *it.seq()[j].0 && persisted_from(
                    rows@[j].1,
                    *it.seq()[j].1,
                ),
    {
        let (id, data) = entry;
        proof {
            assert(entry == it.seq()[rows@.len() as int]);
            assert(averages@.contains_key(*id) && averages@[*id] == *data);
        }
        rows.push((*id, persisted_hourly(data)));
    }
    proof {
        let v = spec_hash_map_iter(averages).remaining();
        assert forall|k: i32| #[trigger] averages@.contains_key(k) implies exists|i: int|
            0 <= i < rows@.len() && rows@[i].0 == k by {
            assert(v.contains((&k, &averages@[k])));
            let i = choose|i: int| 0 <= i < v.len() && v[i] == (&k, &averages@[k]);
            assert(rows@[i].0 == k);
        }
    }
    rows
}

} // verus!
