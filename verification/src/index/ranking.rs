//! Lists of candidates in the order of their distances.
use vstd::prelude::*;

use crate::distance::{is_nan32, less, less32, rank, rank32};

verus! {

/// A node (or slot) and its distance from what is searched for.
#[derive(Debug, Clone, Copy, PartialEq, Eq, Structural)]
pub struct Candidate {
    pub node_idx: usize,
    pub distance: u32,
}

impl Candidate {
    /// The place of the candidate's distance in the order of distances.
    pub open spec fn rank(self) -> int {
        rank32(self.distance)
    }
}

/// Whether the closest come first.
pub open spec fn is_ranked(s: Seq<Candidate>) -> bool {
    forall|i: int, j: int| 0 <= i < j < s.len() ==> (#[trigger] s[i]).rank() <= (#[trigger] s[j]).rank()
}

/// Where a candidate of this rank goes: behind the last that is not farther.
pub open spec fn place(s: Seq<Candidate>, rank: int) -> int
    decreases s.len(),
{
    if s.len() == 0 {
        0
    } else if s.last().rank() <= rank {
        s.len() as int
    } else {
        place(s.drop_last(), rank)
    }
}

/// The list with one more candidate, behind those that are as close.
pub open spec fn ranked_insert(s: Seq<Candidate>, c: Candidate) -> Seq<Candidate> {
    s.insert(place(s, c.rank()), c)
}

/// Some candidates in the order of their distances; those that are equally close
/// stay in the order in which they stand in `s`.
pub open spec fn ranked(s: Seq<Candidate>) -> Seq<Candidate>
    decreases s.len(),
{
    if s.len() == 0 {
        Seq::empty()
    } else {
        ranked_insert(ranked(s.drop_last()), s.last())
    }
}

/// The first `k` of a list, or all where it has fewer.
pub open spec fn first(s: Seq<Candidate>, k: nat) -> Seq<Candidate> {
    if s.len() <= k { s } else { s.take(k as int) }
}

/// The `k` closest so far once a candidate is offered: it is taken where they are
/// fewer, or where its distance is less than that of the last, which then goes.
/// No number is less than "not a number", so where that is the last it stays.
pub open spec fn offered(list: Seq<Candidate>, c: Candidate, k: nat) -> Seq<Candidate> {
    if list.len() < k {
        ranked_insert(list, c)
    } else if k > 0 && less32(c.distance, list.last().distance) {
        ranked_insert(list.drop_last(), c)
    } else {
        list
    }
}

/// The `k` closest of some candidates, offered one after the other.
pub open spec fn closest(s: Seq<Candidate>, k: nat) -> Seq<Candidate>
    decreases s.len(),
{
    if s.len() == 0 {
        Seq::empty()
    } else {
        offered(closest(s.drop_last(), k), s.last(), k)
    }
}

/// What stands on either side of the place of a rank.
pub proof fn place_bounds(s: Seq<Candidate>, rank: int)
    ensures
        0 <= place(s, rank) <= s.len(),
        forall|i: int| place(s, rank) <= i < s.len() ==> (#[trigger] s[i]).rank() > rank,
        place(s, rank) > 0 ==> s[place(s, rank) - 1].rank() <= rank,
        is_ranked(s) ==> forall|i: int| 0 <= i < place(s, rank) ==> (#[trigger] s[i]).rank() <= rank,
    decreases s.len(),
{
    if s.len() > 0 && s.last().rank() > rank {
        let t = s.drop_last();
        place_bounds(t, rank);
        assert forall|i: int| place(s, rank) <= i < s.len() implies (#[trigger] s[i]).rank() > rank by {
            if i < t.len() {
                assert(t[i] == s[i]);
            }
        }
        if is_ranked(s) {
            assert(is_ranked(t)) by {
                assert forall|i: int, j: int| 0 <= i < j < t.len() implies (#[trigger] t[i]).rank()
                    <= (#[trigger] t[j]).rank() by {
                    assert(t[i] == s[i] && t[j] == s[j]);
                }
            }
            assert forall|i: int| 0 <= i < place(s, rank) implies (#[trigger] s[i]).rank() <= rank by {
                assert(t[i] == s[i]);
            }
        }
    }
}

/// A list with one more candidate is still in order.
pub proof fn ranked_insert_keeps_order(s: Seq<Candidate>, c: Candidate)
    requires
        is_ranked(s),
    ensures
        is_ranked(ranked_insert(s, c)),
        ranked_insert(s, c).len() == s.len() + 1,
{
    let p = place(s, c.rank());
    place_bounds(s, c.rank());
    let t = ranked_insert(s, c);
    assert forall|i: int, j: int| 0 <= i < j < t.len() implies (#[trigger] t[i]).rank() <= (
    #[trigger] t[j]).rank() by {
        let si = if i < p { i } else { i - 1 };
        let sj = if j < p { j } else { j - 1 };
        if i != p {
            assert(t[i] == s[si]);
        }
        if j != p {
            assert(t[j] == s[sj]);
        }
    }
}

/// Ranking puts the closest first and keeps every candidate, once for each time
/// it was there.
pub proof fn ranked_is_a_sort(s: Seq<Candidate>)
    ensures
        is_ranked(ranked(s)),
        ranked(s).len() == s.len(),
        ranked(s).to_multiset() == s.to_multiset(),
    decreases s.len(),
{
    broadcast use vstd::seq_lib::group_to_multiset_ensures;

    if s.len() > 0 {
        let t = s.drop_last();
        ranked_is_a_sort(t);
        ranked_insert_keeps_order(ranked(t), s.last());
        place_bounds(ranked(t), s.last().rank());
        vstd::seq_lib::to_multiset_insert(ranked(t), place(ranked(t), s.last().rank()), s.last());
        assert(s =~= t.push(s.last()));
        assert(s.to_multiset() =~= t.to_multiset().insert(s.last()));
    } else {
        assert(ranked(s) =~= s);
    }
}

/// A candidate that goes behind the first `k` does not change them.
pub proof fn first_of_insert(s: Seq<Candidate>, c: Candidate, k: nat)
    requires
        is_ranked(s),
    ensures
        first(ranked_insert(s, c), k) == (if s.len() < k {
            ranked_insert(s, c)
        } else if k > 0 && c.rank() < first(s, k).last().rank() {
            ranked_insert(first(s, k).drop_last(), c)
        } else {
            first(s, k)
        }),
{
    let p = place(s, c.rank());
    let all = ranked_insert(s, c);
    place_bounds(s, c.rank());
    if s.len() < k {
    } else if k > 0 && c.rank() < first(s, k).last().rank() {
        let short = first(s, k).drop_last();
        let q = place(short, c.rank());
        assert(first(s, k) =~= s.take(k as int));
        assert(short =~= s.take(k - 1));
        assert(is_ranked(short)) by {
            assert forall|i: int, j: int| 0 <= i < j < short.len() implies (
            #[trigger] short[i]).rank() <= (#[trigger] short[j]).rank() by {
                assert(short[i] == s[i] && short[j] == s[j]);
            }
        }
        place_bounds(short, c.rank());
        assert(p <= k - 1) by {
            if p > k - 1 {
                assert(s[k - 1].rank() <= c.rank());
            }
        }
        assert(q == p) by {
            if q < p {
                assert(short[q].rank() > c.rank());
                assert(s[q].rank() <= c.rank());
            }
            if p < q {
                assert(short[q - 1].rank() <= c.rank());
                assert(s[q - 1].rank() > c.rank());
            }
        }
        assert(all.take(k as int) =~= ranked_insert(short, c));
    } else {
        assert(first(s, k) =~= s.take(k as int));
        if k > 0 {
            assert(s[k - 1].rank() <= c.rank());
            assert(p >= k) by {
                if p < k {
                    assert(s[k - 1].rank() > c.rank());
                }
            }
        }
        assert(all.take(k as int) =~= s.take(k as int));
    }
}

/// Adds a candidate in its place.
pub fn insert_ranked(list: &mut Vec<Candidate>, c: Candidate)
    requires
        is_ranked(old(list)@),
    ensures
        final(list)@ == ranked_insert(old(list)@, c),
        is_ranked(final(list)@),
        final(list)@.len() == old(list)@.len() + 1,
{
    let ghost s = list@;
    let r: i64 = rank(c.distance);
    let mut low: usize = 0;
    let mut high: usize = list.len();
    while low < high
        invariant
            low <= high <= list@.len(),
            list@ == s,
            is_ranked(s),
            r == c.rank(),
            forall|i: int| 0 <= i < low ==> (#[trigger] s[i]).rank() <= r,
            forall|i: int| high <= i < s.len() ==> (#[trigger] s[i]).rank() > r,
        decreases high - low,
    {
        let mid: usize = low + (high - low) / 2;
        if rank(list[mid].distance) <= r {
            assert forall|i: int| 0 <= i < mid + 1 implies (#[trigger] s[i]).rank() <= r by {
                assert(s[i].rank() <= s[mid as int].rank());
            }
            low = mid + 1;
        } else {
            assert forall|i: int| mid <= i < s.len() implies (#[trigger] s[i]).rank() > r by {
                assert(s[mid as int].rank() <= s[i].rank());
            }
            high = mid;
        }
    }
    proof {
        let p = place(s, c.rank());
        place_bounds(s, c.rank());
        ranked_insert_keeps_order(s, c);
        if p < low {
            assert(s[p].rank() > r);
        }
        if low < p {
            assert(s[low as int].rank() > r);
            assert(s[low as int].rank() <= r);
        }
    }
    list.insert(low, c);
}

/// A list without its last candidate is still in order.
proof fn drop_last_keeps_order(s: Seq<Candidate>)
    requires
        is_ranked(s),
        s.len() > 0,
    ensures
        is_ranked(s.drop_last()),
{
    let t = s.drop_last();
    assert forall|i: int, j: int| 0 <= i < j < t.len() implies (#[trigger] t[i]).rank() <= (
    #[trigger] t[j]).rank() by {
        assert(t[i] == s[i] && t[j] == s[j]);
    }
}

/// The `k` closest are in order, and as many as there can be.
pub proof fn closest_in_order(s: Seq<Candidate>, k: nat)
    ensures
        is_ranked(closest(s, k)),
        closest(s, k).len() == (if s.len() <= k { s.len() } else { k }),
    decreases s.len(),
{
    if s.len() > 0 {
        let t = s.drop_last();
        closest_in_order(t, k);
        let list = closest(t, k);
        if list.len() < k {
            ranked_insert_keeps_order(list, s.last());
        } else if k > 0 {
            drop_last_keeps_order(list);
            ranked_insert_keeps_order(list.drop_last(), s.last());
        }
    }
}

/// Where every distance is a number, the `k` closest are the first `k` of all in
/// order.
pub proof fn closest_are_first(s: Seq<Candidate>, k: nat)
    requires
        forall|i: int| 0 <= i < s.len() ==> !is_nan32((#[trigger] s[i]).distance),
    ensures
        closest(s, k) == first(ranked(s), k),
    decreases s.len(),
{
    if s.len() > 0 {
        let t = s.drop_last();
        assert forall|i: int| 0 <= i < t.len() implies !is_nan32((#[trigger] t[i]).distance) by {
            assert(t[i] == s[i]);
        }
        closest_are_first(t, k);
        ranked_is_a_sort(t);
        first_of_insert(ranked(t), s.last(), k);
        assert(!is_nan32(s[s.len() - 1].distance));
        if ranked(t).len() >= k && k > 0 {
            let last = first(ranked(t), k).last();
            assert(last == ranked(t)[k - 1]);
            ranked_from(t, k - 1);
        }
    } else {
        assert(closest(s, k) =~= first(ranked(s), k));
    }
}

/// Ranking adds no candidate.
proof fn ranked_from(s: Seq<Candidate>, i: int)
    requires
        0 <= i < ranked(s).len(),
    ensures
        exists|j: int| 0 <= j < s.len() && #[trigger] s[j] == ranked(s)[i],
{
    broadcast use vstd::seq_lib::group_to_multiset_ensures;

    ranked_is_a_sort(s);
    let c = ranked(s)[i];
    assert(ranked(s).contains(c));
    assert(s.to_multiset().count(c) > 0);
    assert(s.contains(c));
}

/// Offers a candidate to the `k` closest so far.
pub(crate) fn offer_closest(list: &mut Vec<Candidate>, c: Candidate, k: usize)
    requires
        is_ranked(old(list)@),
    ensures
        final(list)@ == offered(old(list)@, c, k as nat),
        is_ranked(final(list)@),
{
    if list.len() < k {
        insert_ranked(list, c);
    } else if k > 0 && less(c.distance, list[list.len() - 1].distance) {
        let ghost s = list@;
        list.pop();
        proof {
            assert(list@ =~= s.drop_last());
            drop_last_keeps_order(s);
        }
        insert_ranked(list, c);
    }
}

/// Offers a candidate to the first `k` of a list in order.
pub(crate) fn keep_closest(
    list: &mut Vec<Candidate>,
    c: Candidate,
    k: usize,
    Ghost(all): Ghost<Seq<Candidate>>,
)
    requires
        is_ranked(all),
        old(list)@ == first(all, k as nat),
    ensures
        final(list)@ == first(ranked_insert(all, c), k as nat),
        is_ranked(ranked_insert(all, c)),
{
    proof {
        first_of_insert(all, c, k as nat);
        ranked_insert_keeps_order(all, c);
        let s = list@;
        assert forall|i: int, j: int| 0 <= i < j < s.len() implies (#[trigger] s[i]).rank() <= (
        #[trigger] s[j]).rank() by {
            assert(s[i] == all[i] && s[j] == all[j]);
        }
    }
    if list.len() < k {
        insert_ranked(list, c);
    } else if k > 0 && rank(c.distance) < rank(list[list.len() - 1].distance) {
        let ghost s = list@;
        list.pop();
        assert(list@ =~= s.drop_last());
        insert_ranked(list, c);
    }
}

/// The `k` closest of some candidates are what they claim to be: in order, as many as
/// there can be, each one of the candidates and no more often than it is there; and
/// a candidate that is left out is not closer than the last of them.
pub proof fn closest_are_the_closest(s: Seq<Candidate>, k: nat)
    ensures
        is_ranked(closest(s, k)),
        closest(s, k).len() == (if s.len() <= k { s.len() } else { k }),
        closest(s, k).to_multiset().subset_of(s.to_multiset()),
        forall|i: int|
            0 <= i < s.len() ==> closest(s, k).contains(#[trigger] s[i]) || (closest(s, k).len()
                == k && (k > 0 ==> !less32(s[i].distance, closest(s, k).last().distance))),
    decreases s.len(),
{
    broadcast use vstd::seq_lib::group_to_multiset_ensures;

    closest_in_order(s, k);
    let found = closest(s, k);
    if s.len() > 0 {
        let t = s.drop_last();
        let c = s.last();
        let last = s.len() - 1;
        closest_are_the_closest(t, k);
        let list = closest(t, k);
        assert(s =~= t.push(c));
        assert(s.to_multiset() =~= t.to_multiset().insert(c));
        if list.len() < k {
            place_bounds(list, c.rank());
            let p = place(list, c.rank());
            vstd::seq_lib::to_multiset_insert(list, p, c);
            assert forall|i: int| 0 <= i < s.len() implies found.contains(#[trigger] s[i]) || (
            found.len() == k && (k > 0 ==> !less32(s[i].distance, found.last().distance))) by {
                if i < last {
                    assert(s[i] == t[i]);
                    assert(list.contains(t[i]));
                    let j = choose|j: int| 0 <= j < list.len() && list[j] == t[i];
                    let q = if j < p { j } else { j + 1 };
                    assert(found[q] == t[i]);
                } else {
                    assert(found[p] == c);
                }
            }
        } else if k > 0 && less32(c.distance, list.last().distance) {
            let base = list.drop_last();
            let gone = list.last();
            drop_last_keeps_order(list);
            place_bounds(base, c.rank());
            let p = place(base, c.rank());
            vstd::seq_lib::to_multiset_insert(base, p, c);
            assert(list =~= base.push(gone));
            assert(list.to_multiset() =~= base.to_multiset().insert(gone));
            assert(found.to_multiset() =~= base.to_multiset().insert(c));
            assert(found.to_multiset().subset_of(s.to_multiset()));
            assert(found.last().rank() <= gone.rank()) by {
                if p < base.len() {
                    assert(found.last() == base.last());
                    assert(list[list.len() - 2].rank() <= list[list.len() - 1].rank());
                } else {
                    assert(found.last() == c);
                }
            }
            assert forall|i: int| 0 <= i < s.len() implies found.contains(#[trigger] s[i]) || (
            found.len() == k && (k > 0 ==> !less32(s[i].distance, found.last().distance))) by {
                if i < last {
                    assert(s[i] == t[i]);
                    if list.contains(t[i]) {
                        let j = choose|j: int| 0 <= j < list.len() && list[j] == t[i];
                        if j < base.len() {
                            let q = if j < p { j } else { j + 1 };
                            assert(base[j] == t[i]);
                            assert(found[q] == t[i]);
                        }
                    }
                } else {
                    assert(found[p] == c);
                }
            }
        } else {
            assert(found == list);
            assert forall|i: int| 0 <= i < s.len() implies found.contains(#[trigger] s[i]) || (
            found.len() == k && (k > 0 ==> !less32(s[i].distance, found.last().distance))) by {
                if i < last {
                    assert(s[i] == t[i]);
                }
            }
        }
    }
}

} // verus!
