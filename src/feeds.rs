use vstd::prelude::*;
use vstd::multiset::Multiset;
use crate::config::{Config, SortOrder};

verus! {

broadcast use vstd::seq_lib::group_to_multiset_ensures;

/// One feed's reading for a polling cycle.
#[derive(Debug)]
pub struct Feed {
    pub id: i32,
    pub listeners: u32,
    pub alert: Option<String>,
}

/// Whether a feed with `a` listeners may stand before one with `b` listeners.
pub open spec fn in_order(order: SortOrder, a: u32, b: u32) -> bool {
    match order {
        SortOrder::Ascending => a <= b,
        SortOrder::Descending => a >= b,
    }
}

/// The feeds are in `order` by their listener counts.
pub open spec fn sorted_by_listeners(order: SortOrder, s: Seq<Feed>) -> bool {
    forall|i: int, j: int|
        0 <= i < j < s.len() ==> in_order(order, #[trigger] s[i].listeners, #[trigger] s[j].listeners)
}

/// `s` takes its feeds from `orig` at the distinct positions `perm`, and
/// feeds with equal counts keep the order they had in `orig`.
pub open spec fn stable_arrangement(orig: Seq<Feed>, s: Seq<Feed>, perm: Seq<int>) -> bool {
    &&& perm.len() == s.len()
    &&& forall|k: int| 0 <= k < s.len() ==> 0 <= #[trigger] perm[k] < orig.len() && s[k] == orig[perm[k]]
    &&& forall|k1: int, k2: int| 0 <= k1 < s.len() && 0 <= k2 < s.len() && k1 != k2 ==> #[trigger] perm[k1] != #[trigger] perm[k2]
    &&& forall|k1: int, k2: int|
        0 <= k1 < k2 < s.len() && (#[trigger] s[k1]).listeners == (#[trigger] s[k2]).listeners ==> perm[k1] < perm[k2]
}

/// Sorts the feeds by listener count in the configured order; feeds with
/// equal counts keep their relative order.
pub fn sort_feeds(config: &Config, feeds: &mut Vec<Feed>)
    ensures
        final(feeds)@.to_multiset() == old(feeds)@.to_multiset(),
        sorted_by_listeners(config.sort_order, final(feeds)@),
        final(feeds)@.len() == old(feeds)@.len(),
        exists|perm: Seq<int>| #[trigger] stable_arrangement(old(feeds)@, final(feeds)@, perm),
{
    let order = config.sort_order;
    let mut out: Vec<Feed> = Vec::new();
    let ghost orig = feeds@;
    let ghost mut perm: Seq<int> = seq![];
    while feeds.len() > 0
        invariant
            out@.to_multiset().add(feeds@.to_multiset()) == old(feeds)@.to_multiset(),
            sorted_by_listeners(order, out@),
            orig == old(feeds)@,
            out@.len() + feeds@.len() == orig.len(),
            feeds@ == orig.subrange(out@.len() as int, orig.len() as int),
            stable_arrangement(orig, out@, perm),
            forall|k: int| 0 <= k < out@.len() ==> #[trigger] perm[k] < out@.len(),
        decreases feeds@.len(),
    {
        let ghost before_rest = feeds@;
        let ghost taken = out@.len() as int;
        let x = feeds.remove(0);
        assert(x == orig[taken]);
        proof {
            vstd::seq_lib::to_multiset_remove(before_rest, 0);
        }
        let mut p: usize = 0;
        while p < out.len() && in_order_exec(order, out[p].listeners, x.listeners)
            invariant
                p <= out@.len(),
                forall|i: int| 0 <= i < p ==> in_order(order, #[trigger] out@[i].listeners, x.listeners),
            decreases out@.len() - p,
        {
            p = p + 1;
        }
        let ghost before_out = out@;
        out.insert(p, x);
        proof {
            vstd::seq_lib::to_multiset_insert(before_out, p as int, x);
            assert forall|i: int, j: int|
                0 <= i < j < out@.len() implies in_order(order, #[trigger] out@[i].listeners, #[trigger] out@[j].listeners) by {
                if j == p {
                } else if i == p {
                    if j > p {
                        assert(out@[j] == before_out[j - 1]);
                        if p < before_out.len() {
                            assert(!in_order(order, before_out[p as int].listeners, x.listeners));
                            assert(in_order(order, before_out[p as int].listeners, before_out[j - 1].listeners) || p == j - 1);
                        }
                    }
                } else {
                }
            }
            assert(out@.to_multiset().add(feeds@.to_multiset()) =~= old(feeds)@.to_multiset());
            let before_perm = perm;
            perm = perm.insert(p as int, taken);
            assert(feeds@ =~= orig.subrange(out@.len() as int, orig.len() as int));
            assert forall|k: int| 0 <= k < out@.len() implies 0 <= #[trigger] perm[k] < orig.len() && out@[k] == orig[perm[k]] && perm[k] < out@.len() by {
                if k > p {
                    assert(perm[k] == before_perm[k - 1]);
                    assert(out@[k] == before_out[k - 1]);
                }
            }
            assert forall|k1: int, k2: int| 0 <= k1 < out@.len() && 0 <= k2 < out@.len() && k1 != k2 implies #[trigger] perm[k1] != #[trigger] perm[k2] by {
                if k1 < p && k2 > p {
                    assert(perm[k2] == before_perm[k2 - 1]);
                } else if k1 > p && k2 < p {
                    assert(perm[k1] == before_perm[k1 - 1]);
                } else if k1 > p && k2 > p {
                    assert(perm[k1] == before_perm[k1 - 1]);
                    assert(perm[k2] == before_perm[k2 - 1]);
                } else if k1 == p && k2 > p {
                    assert(perm[k2] == before_perm[k2 - 1]);
                } else if k2 == p && k1 > p {
                    assert(perm[k1] == before_perm[k1 - 1]);
                }
            }
            assert forall|k1: int, k2: int|
                0 <= k1 < k2 < out@.len() && (#[trigger] out@[k1]).listeners == (#[trigger] out@[k2]).listeners implies perm[k1] < perm[k2] by {
                if k2 == p {
                } else if k1 == p {
                    assert(out@[k2] == before_out[k2 - 1]);
                    assert(!in_order(order, before_out[p as int].listeners, x.listeners));
                    assert(in_order(order, before_out[p as int].listeners, before_out[k2 - 1].listeners) || p == k2 - 1);
                } else if k1 > p {
                    assert(perm[k1] == before_perm[k1 - 1]);
                    assert(perm[k2] == before_perm[k2 - 1]);
                    assert(out@[k1] == before_out[k1 - 1]);
                    assert(out@[k2] == before_out[k2 - 1]);
                } else if k2 > p {
                    assert(perm[k2] == before_perm[k2 - 1]);
                    assert(out@[k2] == before_out[k2 - 1]);
                }
            }
        }
    }
    proof {
        assert(feeds@.to_multiset() =~= Multiset::empty());
        assert(out@.to_multiset().add(Multiset::empty()) =~= out@.to_multiset());
    }
    assert(stable_arrangement(orig, out@, perm));
    *feeds = out;
}

/// Whether a feed with `a` listeners may stand before one with `b` listeners.
fn in_order_exec(order: SortOrder, a: u32, b: u32) -> (r: bool)
    ensures
        r == in_order(order, a, b),
{
    match order {
        SortOrder::Ascending => a <= b,
        SortOrder::Descending => a >= b,
    }
}

} // verus!
