use vstd::prelude::*;
use crate::config::Config;
use crate::feeds::{Feed, sort_feeds, sorted_by_listeners};
use crate::listeners::ListenerData;
use crate::registry::{AverageMap, registry_wf, feed_stepped, step_feed};

verus! {

/// `m2` is the registry `m` after the cycle of feed `f` at hour `hour`, and
/// `shown` is whether the feed is to be shown: a feed below the minimum is
/// skipped and not shown; any other is stepped and shown if it spiked or
/// carries an alert.
pub open spec fn cycle_applied(
    cfg: Config,
    m: Map<i32, ListenerData>,
    m2: Map<i32, ListenerData>,
    hour: int,
    f: Feed,
    shown: bool,
) -> bool {
    if f.listeners < cfg.minimum_listeners {
        m2 == m && !shown
    } else {
        exists|r: bool|
            #[trigger] feed_stepped(cfg, m, m2, hour, f.id, f.listeners, r) && shown == (r
                || f.alert.is_some())
    }
}

/// The feeds whose flag in `shown` is set, in their order.
pub open spec fn shown_feeds(feeds: Seq<Feed>, shown: Seq<bool>) -> Seq<Feed>
    decreases feeds.len(),
{
    if feeds.len() == 0 {
        seq![]
    } else {
        let prev = shown_feeds(feeds.drop_last(), shown.drop_last());
        if shown.last() {
            prev.push(feeds.last())
        } else {
            prev
        }
    }
}

/// The registry went from `m` to `m2` through the cycles of `feeds` in turn,
/// `maps` being the registry before each and `shown` their flags.
pub open spec fn cycles_applied(
    cfg: Config,
    m: Map<i32, ListenerData>,
    m2: Map<i32, ListenerData>,
    hour: int,
    feeds: Seq<Feed>,
    maps: Seq<Map<i32, ListenerData>>,
    shown: Seq<bool>,
) -> bool {
    &&& maps.len() == feeds.len() + 1
    &&& shown.len() == feeds.len()
    &&& maps[0] == m
    &&& maps.last() == m2
    &&& forall|i: int|
        0 <= i < feeds.len() ==> #[trigger] cycle_applied(cfg, maps[i], maps[i + 1], hour, feeds[i], shown[i])
}

/// Runs a polling cycle: steps each feed that has at least the minimum number
/// of listeners, in turn, and returns the feeds to show (those that spiked or
/// carry an alert), sorted by listener count.
pub fn update_feeds(config: &Config, averages: &mut AverageMap, hour: usize, feeds: Vec<Feed>) -> (r: Vec<Feed>)
    requires
        registry_wf(old(averages)@),
        config.wf(),
        hour < 24,
    ensures
        registry_wf(final(averages)@),
        exists|maps: Seq<Map<i32, ListenerData>>, shown: Seq<bool>|
            #[trigger] cycles_applied(*config, old(averages)@, final(averages)@, hour as int, feeds@, maps, shown)
                && r@.to_multiset() == shown_feeds(feeds@, shown).to_multiset(),
        sorted_by_listeners(config.sort_order, r@),
{
    let ghost all = feeds@;
    let mut rest = feeds;
    let mut out: Vec<Feed> = Vec::new();
    let ghost mut maps: Seq<Map<i32, ListenerData>> = seq![averages@];
    let ghost mut shown: Seq<bool> = seq![];
    let mut i: usize = 0;
    let n: usize = rest.len();
    while rest.len() > 0
        invariant
            all.len() == n,
            i + rest@.len() == all.len(),
            rest@ == all.subrange(i as int, all.len() as int),
            registry_wf(averages@),
            config.wf(),
            hour < 24,
            maps.len() == i + 1,
            shown.len() == i,
            maps[0] == old(averages)@,
            maps[i as int] == averages@,
            forall|j: int|
                0 <= j < i ==> #[trigger] cycle_applied(*config, maps[j], maps[j + 1], hour as int, all[j], shown[j]),
            out@ == shown_feeds(all.subrange(0, i as int), shown),
        decreases rest@.len(),
    {
        let feed = rest.remove(0);
        assert(feed == all[i as int]);
        let ghost before = averages@;
        let ghost shown_before = shown;
        let ghost out_before = out@;
        let mut show = false;
        if feed.listeners >= config.minimum_listeners {
            let spiked = step_feed(config, averages, hour, feed.id, feed.listeners);
            show = spiked || feed.alert.is_some();
            assert(feed_stepped(*config, before, averages@, hour as int, feed.id, feed.listeners, spiked));
        }
        proof {
            maps = maps.push(averages@);
            shown = shown.push(show);
            assert(cycle_applied(*config, maps[i as int], maps[i + 1], hour as int, all[i as int], shown[i as int]));
        }
        if show {
            out.push(feed);
        }
        proof {
            let sub = all.subrange(0, i + 1);
            assert(sub.drop_last() =~= all.subrange(0, i as int));
            assert(shown.drop_last() =~= shown_before);
            assert(sub.last() == feed);
            assert(shown.last() == show);
            assert(shown_feeds(sub.drop_last(), shown.drop_last()) == out_before);
            assert(shown_feeds(sub, shown) == out@);
        }
        i = i + 1;
    }
    proof {
        assert(all.subrange(0, i as int) =~= all);
    }
    sort_feeds(config, &mut out);
    assert(cycles_applied(*config, old(averages)@, averages@, hour as int, all, maps, shown));
    out
}

} // verus!
