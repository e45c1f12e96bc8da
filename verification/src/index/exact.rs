//! The `k` nearest of a list, by comparing all of them.
use vstd::prelude::*;

use crate::distance::{is_nan32, less32};
use crate::index::beam::{candidate, holds_nodes, insert_holds_nodes, inserted_lists, lists_node,
    no_node_twice};
use crate::index::ranking::{closest, closest_are_first, closest_in_order, first, is_ranked, offered,
    place, place_bounds, ranked, ranked_insert, Candidate};

verus! {

/// Every slot with its distance, in order of the slots.
pub open spec fn all_candidates(ds: Seq<u32>) -> Seq<Candidate> {
    Seq::new(ds.len(), |i: int| candidate(ds, i))
}

/// The `k` nearest slots, or all where there are fewer: the nearest first, those
/// that are equally near in order of the slots. A slot is left out where `k` are
/// kept and its distance is not less than that of the last of them.
pub open spec fn nearest(ds: Seq<u32>, k: nat) -> Seq<Candidate> {
    closest(all_candidates(ds), k)
}

/// Whether every distance is a number.
pub open spec fn all_numbers(ds: Seq<u32>) -> bool {
    forall|i: int| 0 <= i < ds.len() ==> !is_nan32(#[trigger] ds[i])
}

/// Whether a slot is listed, or `k` slots are and it is not nearer than the last.
pub open spec fn listed_or_not_nearer(
    ds: Seq<u32>,
    found: Seq<Candidate>,
    k: nat,
    slot: int,
) -> bool {
    lists_node(found, slot) || (found.len() == k && (k > 0 ==> !less32(
        ds[slot],
        found.last().distance,
    )))
}

/// What holds of the `k` nearest of the first `n` slots.
spec fn sound_so_far(ds: Seq<u32>, found: Seq<Candidate>, k: nat, n: int) -> bool {
    &&& is_ranked(found)
    &&& holds_nodes(found, ds)
    &&& no_node_twice(found)
    &&& forall|i: int| 0 <= i < found.len() ==> (#[trigger] found[i]).node_idx < n
    &&& forall|slot: int| 0 <= slot < n ==> #[trigger] listed_or_not_nearer(ds, found, k, slot)
}

proof fn taken_is_sound(ds: Seq<u32>, base: Seq<Candidate>, n: int)
    requires
        0 <= n < ds.len() <= usize::MAX,
        is_ranked(base),
        holds_nodes(base, ds),
        no_node_twice(base),
        forall|i: int| 0 <= i < base.len() ==> (#[trigger] base[i]).node_idx < n,
    ensures
        ({
            let t = ranked_insert(base, candidate(ds, n));
            &&& is_ranked(t)
            &&& holds_nodes(t, ds)
            &&& no_node_twice(t)
            &&& t.len() == base.len() + 1
            &&& forall|i: int| 0 <= i < t.len() ==> (#[trigger] t[i]).node_idx < n + 1
        }),
{
    let c = candidate(ds, n);
    let t = ranked_insert(base, c);
    assert(!lists_node(base, n)) by {
        if lists_node(base, n) {
            let i = choose|i: int| 0 <= i < base.len() && (#[trigger] base[i]).node_idx == n;
            assert(base[i].node_idx < n);
        }
    }
    inserted_lists(base, c);
    insert_holds_nodes(base, ds, n);
    place_bounds(base, c.rank());
    let p = place(base, c.rank());
    assert forall|i: int| 0 <= i < t.len() implies (#[trigger] t[i]).node_idx < n + 1 by {
        if i < p {
            assert(t[i] == base[i]);
        } else if i > p {
            assert(t[i] == base[i - 1]);
        }
    }
}

proof fn offered_is_sound(ds: Seq<u32>, found: Seq<Candidate>, k: nat, n: int)
    requires
        0 <= n < ds.len() <= usize::MAX,
        sound_so_far(ds, found, k, n),
        found.len() <= k,
    ensures
        sound_so_far(ds, offered(found, candidate(ds, n), k), k, n + 1),
{
    let c = candidate(ds, n);
    let t = offered(found, c, k);
    if found.len() < k {
        taken_is_sound(ds, found, n);
        inserted_lists(found, c);
        assert forall|slot: int| 0 <= slot < n + 1 implies #[trigger] listed_or_not_nearer(
            ds,
            t,
            k,
            slot,
        ) by {
            if slot < n {
                assert(listed_or_not_nearer(ds, found, k, slot));
            }
        }
    } else if k > 0 && less32(c.distance, found.last().distance) {
        let base = found.drop_last();
        let last = found.last();
        assert forall|i: int| 0 <= i < base.len() implies #[trigger] base[i] == found[i] by {}
        assert(is_ranked(base)) by {
            assert forall|i: int, j: int| 0 <= i < j < base.len() implies (
            #[trigger] base[i]).rank() <= (#[trigger] base[j]).rank() by {
                assert(found[i].rank() <= found[j].rank());
            }
        }
        assert(no_node_twice(base)) by {
            assert forall|i: int, j: int| 0 <= i < j < base.len() implies (
            #[trigger] base[i]).node_idx != (#[trigger] base[j]).node_idx by {
                assert(found[i].node_idx != found[j].node_idx);
            }
        }
        taken_is_sound(ds, base, n);
        inserted_lists(base, c);
        place_bounds(base, c.rank());
        assert(t.last().rank() <= last.rank()) by {
            let p = place(base, c.rank());
            if p < base.len() {
                assert(t.last() == base.last());
                assert(found[found.len() - 2].rank() <= found[found.len() - 1].rank());
            } else {
                assert(t.last() == c);
            }
        }
        assert forall|slot: int| 0 <= slot < n + 1 implies #[trigger] listed_or_not_nearer(
            ds,
            t,
            k,
            slot,
        ) by {
            if slot < n {
                assert(listed_or_not_nearer(ds, found, k, slot));
                if lists_node(found, slot) {
                    let i = choose|i: int|
                        0 <= i < found.len() && (#[trigger] found[i]).node_idx == slot;
                    if i < base.len() {
                        assert(base[i].node_idx == slot);
                        assert(lists_node(base, slot));
                    } else {
                        assert(found[i].distance == ds[slot]);
                    }
                }
            }
        }
    } else {
        assert forall|slot: int| 0 <= slot < n + 1 implies #[trigger] listed_or_not_nearer(
            ds,
            t,
            k,
            slot,
        ) by {
            if slot < n {
                assert(listed_or_not_nearer(ds, found, k, slot));
            }
        }
    }
}

proof fn nearest_is_sound(ds: Seq<u32>, k: nat, n: int)
    requires
        0 <= n <= ds.len() <= usize::MAX,
    ensures
        sound_so_far(ds, closest(all_candidates(ds).take(n), k), k, n),
    decreases n,
{
    let all = all_candidates(ds);
    if n > 0 {
        nearest_is_sound(ds, k, n - 1);
        assert(all.take(n).drop_last() =~= all.take(n - 1));
        assert(all.take(n).last() == candidate(ds, n - 1));
        closest_in_order(all.take(n - 1), k);
        offered_is_sound(ds, closest(all.take(n - 1), k), k, n - 1);
    }
}

/// The `k` nearest are what they claim to be: they are in order, distinct, with
/// their own distances, as many as there can be, and no slot that is left out is
/// nearer than the last of them. Where every distance is a number, they are the
/// first `k` of all slots in order, so no slot that is left out is nearer than
/// any of them.
pub proof fn nearest_is_exact(ds: Seq<u32>, k: nat)
    requires
        ds.len() <= usize::MAX,
    ensures
        nearest(ds, k).len() == (if ds.len() <= k { ds.len() } else { k }),
        is_ranked(nearest(ds, k)),
        forall|i: int|
            0 <= i < nearest(ds, k).len() ==> (#[trigger] nearest(ds, k)[i]).node_idx < ds.len()
                && nearest(ds, k)[i].distance == ds[nearest(ds, k)[i].node_idx as int],
        forall|i: int, j: int|
            0 <= i < j < nearest(ds, k).len() ==> (#[trigger] nearest(ds, k)[i]).node_idx != (
            #[trigger] nearest(ds, k)[j]).node_idx,
        forall|slot: int|
            0 <= slot < ds.len() ==> #[trigger] listed_or_not_nearer(ds, nearest(ds, k), k, slot),
        all_numbers(ds) ==> nearest(ds, k) == first(ranked(all_candidates(ds)), k),
        all_numbers(ds) ==> forall|slot: int, i: int|
            0 <= slot < ds.len() && 0 <= i < nearest(ds, k).len() ==> lists_node(
                nearest(ds, k),
                slot,
            ) || (#[trigger] nearest(ds, k)[i]).rank() <= (#[trigger] candidate(ds, slot)).rank(),
{
    let all = all_candidates(ds);
    let found = nearest(ds, k);
    assert(all.take(ds.len() as int) =~= all);
    closest_in_order(all, k);
    nearest_is_sound(ds, k, ds.len() as int);
    assert(no_node_twice(found));
    if all_numbers(ds) {
        assert forall|i: int| 0 <= i < all.len() implies !is_nan32(
            (#[trigger] all[i]).distance,
        ) by {
            assert(all[i].distance == ds[i]);
        }
        closest_are_first(all, k);
        assert forall|slot: int, i: int|
            0 <= slot < ds.len() && 0 <= i < found.len() implies lists_node(found, slot) || (
        #[trigger] found[i]).rank() <= (#[trigger] candidate(ds, slot)).rank() by {
            assert(listed_or_not_nearer(ds, found, k, slot));
            let last = found.len() - 1;
            assert(found[last].distance == ds[found[last].node_idx as int]);
            assert(!is_nan32(ds[slot]));
            if i < last {
                assert(found[i].rank() <= found[last].rank());
            }
        }
    }
}

} // verus!
