//! Beam search that keeps only the nodes that pass a filter, and uses the others
//! as waypoints.
use vstd::prelude::*;

use crate::distance::{rank, rank32};
use crate::index::beam::{beam_in_range, candidate, distances, holds_nodes, insert_holds_nodes,
    inserted_lists, is_path, links_in_range, links_of, links_of_range, lists_node, no_node_twice,
    node_distance, searchable, visited_bound, Beam};
use crate::index::graph::{Graph, NodeView};
use crate::index::ranking::{first, insert_ranked, is_ranked, keep_closest, place, place_bounds,
    ranked_insert, ranked_insert_keeps_order, Candidate};
use crate::index::visited::VisitedPool;
use crate::metadata::{pairs_map, Filter, Pairs};
use crate::storage::vecstore::VectorStore;

verus! {

/// Which nodes pass a filter: those that are not deleted and whose metadata it
/// holds of. A vector without metadata never passes.
pub open spec fn passing(
    g: Seq<NodeView>,
    metadata: Seq<Option<Pairs>>,
    filter: Filter,
) -> Seq<bool> {
    Seq::new(
        g.len(),
        |i: int|
            !g[i].deleted && (match metadata[g[i].slot] {
                Some(pairs) => filter.holds(pairs_map(pairs)),
                None => false,
            }),
    )
}

/// The state of a filtered search.
pub struct Sieve {
    /// The nodes to go on from, the closest first.
    pub frontier: Seq<Candidate>,
    /// The closest nodes found that pass, the closest first.
    pub kept: Seq<Candidate>,
    /// The nodes seen.
    pub visited: Set<int>,
    /// How many nodes were gone on from.
    pub expanded: nat,
}

/// Whether nothing of this rank can matter any more: `ef` nodes were gone on
/// from, and `k` nodes are kept that are all closer.
pub open spec fn hopeless(s: Sieve, k: nat, ef: nat, rank: int) -> bool {
    s.expanded >= ef && s.kept.len() >= k && rank > s.kept.last().rank()
}

/// The search once it has come across a node. A node that was not seen before
/// and can matter joins the frontier; if it passes it is kept, should it be one
/// of the `k` closest.
pub open spec fn sift(
    s: Sieve,
    ds: Seq<u32>,
    keep: Seq<bool>,
    k: nat,
    ef: nat,
    node: int,
) -> Sieve {
    let c = candidate(ds, node);
    if s.visited.contains(node) {
        s
    } else if hopeless(s, k, ef, c.rank()) {
        Sieve { visited: s.visited.insert(node), ..s }
    } else {
        Sieve {
            frontier: ranked_insert(s.frontier, c),
            kept: if keep[node] { first(ranked_insert(s.kept, c), k) } else { s.kept },
            visited: s.visited.insert(node),
            ..s
        }
    }
}

/// The search once it has come across the nodes of a list.
pub open spec fn sift_all(
    s: Sieve,
    ds: Seq<u32>,
    keep: Seq<bool>,
    k: nat,
    ef: nat,
    list: Seq<int>,
) -> Sieve
    decreases list.len(),
{
    if list.len() == 0 {
        s
    } else {
        sift(sift_all(s, ds, keep, k, ef, list.drop_last()), ds, keep, k, ef, list.last())
    }
}

/// The search as it goes on from the closest node of its frontier.
pub open spec fn advanced(s: Sieve) -> Sieve {
    Sieve { frontier: s.frontier.drop_first(), expanded: s.expanded + 1, ..s }
}

/// What the search has seen, as a beam.
pub open spec fn seen_by(s: Sieve) -> Beam {
    Beam { frontier: s.frontier, results: s.kept, visited: s.visited }
}

/// What a filtered search finds from here on, in the lowest layer. It goes on
/// from the closest node of the frontier, until none is left or that node cannot
/// matter any more.
pub open spec fn run_sieve(
    g: Seq<NodeView>,
    ds: Seq<u32>,
    keep: Seq<bool>,
    k: nat,
    ef: nat,
    s: Sieve,
) -> Seq<Candidate>
    decreases g.len() - s.visited.len() + s.frontier.len(),
        when links_in_range(g) && g.len() <= usize::MAX && beam_in_range(g, seen_by(s))
        via run_sieve_ends
{
    if s.frontier.len() == 0 || hopeless(s, k, ef, s.frontier[0].rank()) {
        s.kept
    } else {
        run_sieve(
            g,
            ds,
            keep,
            k,
            ef,
            sift_all(
                advanced(s),
                ds,
                keep,
                k,
                ef,
                links_of(g, s.frontier[0].node_idx as int, 0),
            ),
        )
    }
}

#[via_fn]
proof fn run_sieve_ends(
    g: Seq<NodeView>,
    ds: Seq<u32>,
    keep: Seq<bool>,
    k: nat,
    ef: nat,
    s: Sieve,
) {
    if s.frontier.len() > 0 {
        let c = s.frontier[0];
        let list = links_of(g, c.node_idx as int, 0);
        assert(seen_by(s).visited.contains(seen_by(s).frontier[0].node_idx as int));
        advanced_in_range(g, s);
        links_of_range(g, c.node_idx as int, 0);
        sifted_in_range(g, advanced(s), ds, keep, k, ef, list);
        visited_bound(g, seen_by(sift_all(advanced(s), ds, keep, k, ef, list)));
    }
}

proof fn advanced_in_range(g: Seq<NodeView>, s: Sieve)
    requires
        beam_in_range(g, seen_by(s)),
        s.frontier.len() > 0,
    ensures
        beam_in_range(g, seen_by(advanced(s))),
{
    let p = seen_by(advanced(s));
    assert forall|i: int| 0 <= i < p.frontier.len() implies p.visited.contains(
        (#[trigger] p.frontier[i]).node_idx as int,
    ) by {
        assert(p.frontier[i] == seen_by(s).frontier[i + 1]);
    }
}

proof fn sift_in_range(
    g: Seq<NodeView>,
    s: Sieve,
    ds: Seq<u32>,
    keep: Seq<bool>,
    k: nat,
    ef: nat,
    node: int,
)
    requires
        beam_in_range(g, seen_by(s)),
        0 <= node < g.len() <= usize::MAX,
    ensures
        beam_in_range(g, seen_by(sift(s, ds, keep, k, ef, node))),
        sift(s, ds, keep, k, ef, node).frontier.len() + s.visited.len() <= s.frontier.len() + sift(
            s,
            ds,
            keep,
            k,
            ef,
            node,
        ).visited.len(),
        sift(s, ds, keep, k, ef, node).visited == s.visited.insert(node),
{
    let c = candidate(ds, node);
    let t = sift(s, ds, keep, k, ef, node);
    place_bounds(s.frontier, c.rank());
    assert(t.visited =~= s.visited.insert(node));
    assert forall|i: int| 0 <= i < seen_by(t).frontier.len() implies seen_by(t).visited.contains(
        (#[trigger] seen_by(t).frontier[i]).node_idx as int,
    ) by {
        let old_frontier = seen_by(s).frontier;
        if t.frontier != s.frontier {
            let p = place(s.frontier, c.rank());
            if i < p {
                assert(t.frontier[i] == old_frontier[i]);
            } else if i > p {
                assert(t.frontier[i] == old_frontier[i - 1]);
            }
        } else {
            assert(t.frontier[i] == old_frontier[i]);
        }
    }
}

proof fn sifted_in_range(
    g: Seq<NodeView>,
    s: Sieve,
    ds: Seq<u32>,
    keep: Seq<bool>,
    k: nat,
    ef: nat,
    list: Seq<int>,
)
    requires
        beam_in_range(g, seen_by(s)),
        g.len() <= usize::MAX,
        forall|i: int| 0 <= i < list.len() ==> 0 <= #[trigger] list[i] < g.len(),
    ensures
        beam_in_range(g, seen_by(sift_all(s, ds, keep, k, ef, list))),
        sift_all(s, ds, keep, k, ef, list).frontier.len() + s.visited.len() <= s.frontier.len()
            + sift_all(s, ds, keep, k, ef, list).visited.len(),
    decreases list.len(),
{
    if list.len() > 0 {
        let fewer = list.drop_last();
        assert forall|i: int| 0 <= i < fewer.len() implies 0 <= #[trigger] fewer[i] < g.len() by {
            assert(fewer[i] == list[i]);
        }
        sifted_in_range(g, s, ds, keep, k, ef, fewer);
        assert(0 <= list[list.len() - 1] < g.len());
        sift_in_range(g, sift_all(s, ds, keep, k, ef, fewer), ds, keep, k, ef, list.last());
    }
}

/// The search at its entry point.
pub open spec fn sieve_at(ds: Seq<u32>, keep: Seq<bool>, entry: int) -> Sieve {
    Sieve {
        frontier: seq![candidate(ds, entry)],
        kept: if keep[entry] { seq![candidate(ds, entry)] } else { Seq::empty() },
        visited: Set::empty().insert(entry),
        expanded: 0,
    }
}

/// What a filtered search for `k` nodes finds from an entry point, the closest
/// first.
pub open spec fn filtered_search(
    g: Seq<NodeView>,
    ds: Seq<u32>,
    keep: Seq<bool>,
    k: nat,
    ef: nat,
    entry: int,
) -> Seq<Candidate> {
    run_sieve(g, ds, keep, k, ef, sieve_at(ds, keep, entry))
}

/// Whether a node passes the filter.
fn passes(graph: &Graph, store: &VectorStore, filter: &Filter, node: usize) -> (r: bool)
    requires
        store.wf(),
        node < graph@.len(),
        0 <= graph@[node as int].slot < store@.ids.len(),
    ensures
        r == passing(graph@, store@.metadata, *filter)[node as int],
{
    if graph.deleted(node) {
        return false;
    }
    match store.metadata(graph.slot(node)) {
        Some(md) => filter.matches(md),
        None => false,
    }
}

/// Searches the lowest layer for the `k` closest nodes that pass a filter. The
/// closest come first.
pub fn search_layer_filtered<K: Fn(&[u32], &[u32]) -> u32>(
    graph: &Graph,
    store: &VectorStore,
    kernel: &K,
    query: &[u32],
    entry_point: usize,
    k: usize,
    ef: usize,
    filter: &Filter,
    pool: &mut VisitedPool,
) -> (found: Vec<Candidate>)
    requires
        searchable(graph, store, *kernel, query@),
        entry_point < graph@.len(),
        k > 0,
        old(pool).wf(),
    ensures
        final(pool).wf(),
        found@ == filtered_search(
            graph@,
            distances(*kernel, query@, graph@, store@.vectors),
            passing(graph@, store@.metadata, *filter),
            k as nat,
            ef as nat,
            entry_point as int,
        ),
        is_ranked(found@),
        found@.len() <= k,
        holds_nodes(found@, distances(*kernel, query@, graph@, store@.vectors)),
{
    pool.begin(graph.len());
    let ghost g = graph@;
    let ghost ds = distances(*kernel, query@, g, store@.vectors);
    let ghost keep = passing(g, store@.metadata, *filter);
    let ghost goal = filtered_search(g, ds, keep, k as nat, ef as nat, entry_point as int);
    proof {
        graph.wf_facts();
        assert(0 <= g[entry_point as int].slot < store@.ids.len());
    }
    let entry = Candidate {
        node_idx: entry_point,
        distance: node_distance(graph, store, kernel, query, entry_point),
    };
    pool.visit(entry_point);
    let mut frontier: Vec<Candidate> = Vec::new();
    frontier.push(entry);
    let mut kept: Vec<Candidate> = Vec::new();
    if passes(graph, store, filter, entry_point) {
        kept.push(entry);
    }
    let mut expanded: usize = 0;
    proof {
        let at = sieve_at(ds, keep, entry_point as int);
        assert(frontier@ =~= at.frontier);
        assert(kept@ =~= at.kept);
        assert(at.expanded == expanded);
    }
    while frontier.len() > 0
        invariant
            searchable(graph, store, *kernel, query@),
            g == graph@,
            links_in_range(g),
            g.len() <= usize::MAX,
            ds == distances(*kernel, query@, g, store@.vectors),
            keep == passing(g, store@.metadata, *filter),
            k > 0,
            pool.wf(),
            pool.size() >= g.len(),
            is_ranked(frontier@),
            is_ranked(kept@),
            kept@.len() <= k,
            holds_nodes(frontier@, ds),
            holds_nodes(kept@, ds),
            expanded + frontier@.len() <= pool.visited().len(),
            beam_in_range(
                g,
                (Beam { frontier: frontier@, results: kept@, visited: pool.visited() }),
            ),
            run_sieve(
                g,
                ds,
                keep,
                k as nat,
                ef as nat,
                (Sieve {
                    frontier: frontier@,
                    kept: kept@,
                    visited: pool.visited(),
                    expanded: expanded as nat,
                }),
            ) == goal,
            goal == filtered_search(g, ds, keep, k as nat, ef as nat, entry_point as int),
        decreases g.len() - pool.visited().len() + frontier@.len(),
    {
        let ghost s = Sieve {
            frontier: frontier@,
            kept: kept@,
            visited: pool.visited(),
            expanded: expanded as nat,
        };
        proof {
            assert(seen_by(s) == (Beam { frontier: frontier@, results: kept@, visited: pool.visited() }));
            visited_bound(g, seen_by(s));
            advanced_in_range(g, s);
        }
        if expanded >= ef && kept.len() >= k && rank(frontier[0].distance) > rank(
            kept[kept.len() - 1].distance,
        ) {
            return kept;
        }
        let current = frontier.remove(0);
        proof {
            assert(current == s.frontier[0]);
            assert(frontier@ =~= s.frontier.drop_first());
            assert(is_ranked(frontier@)) by {
                assert forall|i: int, j: int| 0 <= i < j < frontier@.len() implies (
                #[trigger] frontier@[i]).rank() <= (#[trigger] frontier@[j]).rank() by {
                    assert(frontier@[i] == s.frontier[i + 1] && frontier@[j] == s.frontier[j + 1]);
                }
            }
            assert forall|i: int| 0 <= i < frontier@.len() implies (
            #[trigger] frontier@[i]).node_idx < ds.len() && frontier@[i].distance
                == ds[frontier@[i].node_idx as int] by {
                assert(frontier@[i] == s.frontier[i + 1]);
            }
        }
        expanded = expanded + 1;
        let node: usize = current.node_idx;
        let ghost list = links_of(g, node as int, 0);
        let ghost start = advanced(s);
        proof {
            links_of_range(g, node as int, 0);
            sifted_in_range(g, start, ds, keep, k as nat, ef as nat, list);
            visited_bound(g, seen_by(sift_all(start, ds, keep, k as nat, ef as nat, list)));
        }
        assert(g[node as int].layers.len() >= 1) by {
            graph.wf_facts();
        }
        let neighbors = graph.neighbors(node, 0);
        assert(list.take(0) =~= Seq::empty());
        for i in 0..neighbors.len()
            invariant
                searchable(graph, store, *kernel, query@),
                g == graph@,
                g.len() <= usize::MAX,
                ds == distances(*kernel, query@, g, store@.vectors),
                keep == passing(g, store@.metadata, *filter),
                k > 0,
                pool.wf(),
                pool.size() >= g.len(),
                is_ranked(frontier@),
                is_ranked(kept@),
                kept@.len() <= k,
                holds_nodes(frontier@, ds),
                holds_nodes(kept@, ds),
                pool.visited().finite(),
                expanded + frontier@.len() <= pool.visited().len(),
                neighbors@.len() == list.len(),
                forall|j: int| 0 <= j < list.len() ==> #[trigger] neighbors@[j] == list[j],
                forall|j: int| 0 <= j < neighbors@.len() ==> #[trigger] neighbors@[j] < g.len(),
                (Sieve {
                    frontier: frontier@,
                    kept: kept@,
                    visited: pool.visited(),
                    expanded: expanded as nat,
                }) == sift_all(start, ds, keep, k as nat, ef as nat, list.take(i as int)),
        {
            let neighbor: usize = neighbors[i] as usize;
            let ghost now = pool.visited();
            proof {
                assert(list.take(i + 1).drop_last() =~= list.take(i as int));
                assert(list.take(i + 1).last() == neighbor);
                assert(0 <= g[neighbor as int].slot < store@.ids.len());
            }
            if pool.visit(neighbor) {
                let dist: u32 = node_distance(graph, store, kernel, query, neighbor);
                let worthless: bool = expanded >= ef && kept.len() >= k && rank(dist) > rank(
                    kept[kept.len() - 1].distance,
                );
                if !worthless {
                    let c = Candidate { node_idx: neighbor, distance: dist };
                    assert(c == candidate(ds, neighbor as int));
                    proof {
                        insert_holds_nodes(frontier@, ds, neighbor as int);
                        insert_holds_nodes(kept@, ds, neighbor as int);
                    }
                    insert_ranked(&mut frontier, c);
                    if passes(graph, store, filter, neighbor) {
                        let ghost before = kept@;
                        keep_closest(&mut kept, c, k, Ghost(before));
                        proof {
                            let all = ranked_insert(before, c);
                            assert forall|x: int, y: int| 0 <= x < y < kept@.len() implies (
                            #[trigger] kept@[x]).rank() <= (#[trigger] kept@[y]).rank() by {
                                assert(kept@[x] == all[x] && kept@[y] == all[y]);
                            }
                            assert forall|x: int| 0 <= x < kept@.len() implies (
                            #[trigger] kept@[x]).node_idx < ds.len() && kept@[x].distance
                                == ds[kept@[x].node_idx as int] by {
                                assert(kept@[x] == all[x]);
                            }
                        }
                    }
                }
            } else {
                assert(pool.visited() =~= now);
            }
        }
        assert(list.take(list.len() as int) =~= list);
    }
    kept
}

/// What holds of a filtered search throughout.
pub open spec fn sieve_invariant(
    g: Seq<NodeView>,
    ds: Seq<u32>,
    keep: Seq<bool>,
    k: nat,
    s: Sieve,
) -> bool {
    &&& beam_in_range(g, seen_by(s))
    &&& is_ranked(s.frontier)
    &&& is_ranked(s.kept)
    &&& holds_nodes(s.frontier, ds)
    &&& holds_nodes(s.kept, ds)
    &&& no_node_twice(s.kept)
    &&& s.kept.len() <= k
    &&& forall|i: int|
        0 <= i < s.kept.len() ==> s.visited.contains((#[trigger] s.kept[i]).node_idx as int)
            && keep[s.kept[i].node_idx as int]
    &&& forall|v: int| #[trigger]
        s.visited.contains(v) && keep[v] ==> lists_node(s.kept, v) || surpassed(s, ds, k, v)
}

/// Whether `k` nodes are kept of which none is farther than this one.
pub open spec fn surpassed(s: Sieve, ds: Seq<u32>, k: nat, node: int) -> bool {
    s.kept.len() >= k && s.kept.len() > 0 && rank32(ds[node]) >= s.kept.last().rank()
}

/// Whether the neighbors of a node have all been seen.
pub open spec fn followed(g: Seq<NodeView>, s: Sieve, node: int) -> bool {
    forall|i: int|
        0 <= i < links_of(g, node, 0).len() ==> s.visited.contains(#[trigger] links_of(g, node, 0)[i])
}

/// Whether every node seen still waits to be gone on from, has been, or could no
/// longer matter.
pub open spec fn all_followed(g: Seq<NodeView>, ds: Seq<u32>, k: nat, ef: nat, s: Sieve) -> bool {
    forall|v: int| #[trigger]
        s.visited.contains(v) ==> lists_node(s.frontier, v) || followed(g, s, v) || hopeless(
            s,
            k,
            ef,
            rank32(ds[v]),
        )
}

proof fn sift_keeps_invariant(
    g: Seq<NodeView>,
    ds: Seq<u32>,
    keep: Seq<bool>,
    k: nat,
    ef: nat,
    s: Sieve,
    node: int,
)
    requires
        sieve_invariant(g, ds, keep, k, s),
        k > 0,
        ds.len() == g.len(),
        keep.len() == g.len(),
        0 <= node < g.len() <= usize::MAX,
    ensures
        sieve_invariant(g, ds, keep, k, sift(s, ds, keep, k, ef, node)),
        sift(s, ds, keep, k, ef, node).visited == s.visited.insert(node),
        sift(s, ds, keep, k, ef, node).expanded == s.expanded,
        sift(s, ds, keep, k, ef, node).kept.len() >= s.kept.len(),
        s.kept.len() >= k ==> sift(s, ds, keep, k, ef, node).kept.last().rank()
            <= s.kept.last().rank(),
        forall|n: int| #[trigger]
            lists_node(s.frontier, n) ==> lists_node(sift(s, ds, keep, k, ef, node).frontier, n),
        s.visited.contains(node) || lists_node(sift(s, ds, keep, k, ef, node).frontier, node)
            || hopeless(s, k, ef, rank32(ds[node])),
{
    let t = sift(s, ds, keep, k, ef, node);
    let c = candidate(ds, node);
    sift_in_range(g, s, ds, keep, k, ef, node);
    if s.visited.contains(node) {
        assert(t == s);
    } else if hopeless(s, k, ef, c.rank()) {
        assert forall|v: int| #[trigger] t.visited.contains(v) && keep[v] implies lists_node(
            t.kept,
            v,
        ) || surpassed(t, ds, k, v) by {
            if v != node {
                assert(s.visited.contains(v));
                assert(surpassed(s, ds, k, v) ==> surpassed(t, ds, k, v));
            }
        }
        assert forall|i: int| 0 <= i < t.kept.len() implies t.visited.contains(
            (#[trigger] t.kept[i]).node_idx as int,
        ) && keep[t.kept[i].node_idx as int] by {
            assert(s.visited.contains(s.kept[i].node_idx as int));
        }
    } else {
        inserted_lists(s.frontier, c);
        insert_holds_nodes(s.frontier, ds, node);
        if keep[node] {
            let all = ranked_insert(s.kept, c);
            inserted_lists(s.kept, c);
            insert_holds_nodes(s.kept, ds, node);
            ranked_insert_keeps_order(s.kept, c);
            place_bounds(s.kept, c.rank());
            assert(!lists_node(s.kept, node)) by {
                if lists_node(s.kept, node) {
                    let i = choose|i: int|
                        0 <= i < s.kept.len() && (#[trigger] s.kept[i]).node_idx == node;
                    assert(s.visited.contains(s.kept[i].node_idx as int));
                }
            }
            assert(all.len() == s.kept.len() + 1);
            assert forall|i: int| 0 <= i < t.kept.len() implies #[trigger] t.kept[i] == all[i] by {}
            assert(is_ranked(t.kept)) by {
                assert forall|i: int, j: int| 0 <= i < j < t.kept.len() implies (
                #[trigger] t.kept[i]).rank() <= (#[trigger] t.kept[j]).rank() by {
                    assert(all[i].rank() <= all[j].rank());
                }
            }
            assert(no_node_twice(t.kept)) by {
                assert forall|i: int, j: int| 0 <= i < j < t.kept.len() implies (
                #[trigger] t.kept[i]).node_idx != (#[trigger] t.kept[j]).node_idx by {
                    assert(all[i].node_idx != all[j].node_idx);
                }
            }
            assert(holds_nodes(t.kept, ds)) by {
                assert forall|i: int| 0 <= i < t.kept.len() implies (
                #[trigger] t.kept[i]).node_idx < ds.len() && t.kept[i].distance
                    == ds[t.kept[i].node_idx as int] by {
                    assert(t.kept[i] == all[i]);
                }
            }
            assert forall|i: int| 0 <= i < t.kept.len() implies t.visited.contains(
                (#[trigger] t.kept[i]).node_idx as int,
            ) && keep[t.kept[i].node_idx as int] by {
                let n = t.kept[i].node_idx as int;
                assert(all[i].node_idx == n);
                assert(lists_node(all, n));
                if n != node {
                    assert(lists_node(s.kept, n));
                    let j = choose|j: int|
                        0 <= j < s.kept.len() && (#[trigger] s.kept[j]).node_idx == n;
                    assert(s.visited.contains(s.kept[j].node_idx as int));
                }
            }
            if s.kept.len() >= k {
                assert(t.kept =~= all.take(k as int));
                assert(t.kept.last() == all[k - 1]);
                let p = place(s.kept, c.rank());
                if p <= k - 1 {
                    if p == k - 1 {
                        assert(all[k - 1] == c);
                        assert(s.kept[p].rank() > c.rank());
                    } else {
                        assert(all[k - 1] == s.kept[k - 2]);
                        assert(s.kept[k - 2].rank() <= s.kept[k - 1].rank());
                    }
                } else {
                    assert(all[k - 1] == s.kept[k - 1]);
                }
            } else {
                assert(t.kept == all);
            }
            assert forall|v: int| #[trigger] t.visited.contains(v) && keep[v] implies lists_node(
                t.kept,
                v,
            ) || surpassed(t, ds, k, v) by {
                if v == node || lists_node(s.kept, v) {
                    assert(lists_node(all, v));
                    let i = choose|i: int| 0 <= i < all.len() && (#[trigger] all[i]).node_idx == v;
                    if i < t.kept.len() {
                        assert(t.kept[i].node_idx == v);
                    } else {
                        assert(i == k);
                        assert(t.kept.last() == all[k - 1]);
                        assert(all[k - 1].rank() <= all[i].rank());
                        assert(all[i].distance == ds[v]);
                    }
                } else {
                    assert(s.visited.contains(v));
                    assert(surpassed(s, ds, k, v));
                }
            }
        } else {
            assert forall|v: int| #[trigger] t.visited.contains(v) && keep[v] implies lists_node(
                t.kept,
                v,
            ) || surpassed(t, ds, k, v) by {
                assert(v != node);
                assert(s.visited.contains(v));
                assert(surpassed(s, ds, k, v) ==> surpassed(t, ds, k, v));
            }
            assert forall|i: int| 0 <= i < t.kept.len() implies t.visited.contains(
                (#[trigger] t.kept[i]).node_idx as int,
            ) && keep[t.kept[i].node_idx as int] by {
                assert(s.visited.contains(s.kept[i].node_idx as int));
            }
        }
    }
}

proof fn sifted_keeps_invariant(
    g: Seq<NodeView>,
    ds: Seq<u32>,
    keep: Seq<bool>,
    k: nat,
    ef: nat,
    s: Sieve,
    list: Seq<int>,
)
    requires
        sieve_invariant(g, ds, keep, k, s),
        k > 0,
        ds.len() == g.len(),
        keep.len() == g.len(),
        g.len() <= usize::MAX,
        forall|i: int| 0 <= i < list.len() ==> 0 <= #[trigger] list[i] < g.len(),
    ensures
        sieve_invariant(g, ds, keep, k, sift_all(s, ds, keep, k, ef, list)),
        sift_all(s, ds, keep, k, ef, list).expanded == s.expanded,
        sift_all(s, ds, keep, k, ef, list).kept.len() >= s.kept.len(),
        s.kept.len() >= k ==> sift_all(s, ds, keep, k, ef, list).kept.last().rank()
            <= s.kept.last().rank(),
        forall|v: int| #[trigger]
            s.visited.contains(v) ==> sift_all(s, ds, keep, k, ef, list).visited.contains(v),
        forall|i: int|
            0 <= i < list.len() ==> sift_all(s, ds, keep, k, ef, list).visited.contains(
                #[trigger] list[i],
            ),
        forall|n: int| #[trigger]
            lists_node(s.frontier, n) ==> lists_node(
                sift_all(s, ds, keep, k, ef, list).frontier,
                n,
            ),
        forall|v: int| #[trigger]
            sift_all(s, ds, keep, k, ef, list).visited.contains(v) ==> s.visited.contains(v)
                || lists_node(sift_all(s, ds, keep, k, ef, list).frontier, v) || hopeless(
                sift_all(s, ds, keep, k, ef, list),
                k,
                ef,
                rank32(ds[v]),
            ),
    decreases list.len(),
{
    if list.len() > 0 {
        let fewer = list.drop_last();
        let mid = sift_all(s, ds, keep, k, ef, fewer);
        let end = sift_all(s, ds, keep, k, ef, list);
        assert forall|i: int| 0 <= i < fewer.len() implies 0 <= #[trigger] fewer[i] < g.len() by {
            assert(fewer[i] == list[i]);
        }
        sifted_keeps_invariant(g, ds, keep, k, ef, s, fewer);
        assert(0 <= list[list.len() - 1] < g.len());
        sift_keeps_invariant(g, ds, keep, k, ef, mid, list.last());
        assert forall|i: int| 0 <= i < list.len() implies end.visited.contains(
            #[trigger] list[i],
        ) by {
            if i < fewer.len() {
                assert(fewer[i] == list[i]);
            }
        }
        assert forall|v: int| #[trigger] end.visited.contains(v) implies s.visited.contains(v)
            || lists_node(end.frontier, v) || hopeless(end, k, ef, rank32(ds[v])) by {
            if mid.visited.contains(v) {
                assert(lists_node(mid.frontier, v) ==> lists_node(end.frontier, v));
            }
        }
    }
}

proof fn kept_only_grows(
    g: Seq<NodeView>,
    ds: Seq<u32>,
    keep: Seq<bool>,
    k: nat,
    ef: nat,
    s: Sieve,
)
    requires
        links_in_range(g),
        sieve_invariant(g, ds, keep, k, s),
        k > 0,
        ds.len() == g.len(),
        keep.len() == g.len(),
        g.len() <= usize::MAX,
    ensures
        run_sieve(g, ds, keep, k, ef, s).len() >= s.kept.len(),
    decreases g.len() - s.visited.len() + s.frontier.len(),
{
    if s.frontier.len() > 0 && !hopeless(s, k, ef, s.frontier[0].rank()) {
        let list = links_of(g, s.frontier[0].node_idx as int, 0);
        let t = sift_all(advanced(s), ds, keep, k, ef, list);
        next_round(g, ds, keep, k, ef, s);
        kept_only_grows(g, ds, keep, k, ef, t);
    }
}

/// What one round of the search leaves as it was, and what it adds.
pub proof fn next_round(g: Seq<NodeView>, ds: Seq<u32>, keep: Seq<bool>, k: nat, ef: nat, s: Sieve)
    requires
        links_in_range(g),
        sieve_invariant(g, ds, keep, k, s),
        k > 0,
        ds.len() == g.len(),
        keep.len() == g.len(),
        g.len() <= usize::MAX,
        s.frontier.len() > 0,
        !hopeless(s, k, ef, s.frontier[0].rank()),
    ensures
        ({
            let node = s.frontier[0].node_idx as int;
            let t = sift_all(advanced(s), ds, keep, k, ef, links_of(g, node, 0));
            &&& run_sieve(g, ds, keep, k, ef, s) == run_sieve(g, ds, keep, k, ef, t)
            &&& sieve_invariant(g, ds, keep, k, t)
            &&& t.kept.len() >= s.kept.len()
            &&& t.visited.len() <= g.len()
            &&& t.frontier.len() + s.visited.len() < s.frontier.len() + t.visited.len()
            &&& t.expanded == s.expanded + 1
            &&& forall|v: int| #[trigger] s.visited.contains(v) ==> t.visited.contains(v)
            &&& forall|v: int| #[trigger]
                t.visited.contains(v) ==> s.visited.contains(v) || lists_node(t.frontier, v)
                    || hopeless(t, k, ef, rank32(ds[v]))
            &&& forall|v: int| #[trigger]
                lists_node(s.frontier, v) && v != node ==> lists_node(t.frontier, v)
            &&& followed(g, t, node)
            &&& all_followed(g, ds, k, ef, s) ==> all_followed(g, ds, k, ef, t)
        }),
{
    let node = s.frontier[0].node_idx as int;
    let list = links_of(g, node, 0);
    let a = advanced(s);
    let t = sift_all(a, ds, keep, k, ef, list);
    assert(seen_by(s).visited.contains(seen_by(s).frontier[0].node_idx as int));
    links_of_range(g, node, 0);
    advanced_in_range(g, s);
    assert(sieve_invariant(g, ds, keep, k, a)) by {
        assert forall|i: int, j: int| 0 <= i < j < a.frontier.len() implies (
        #[trigger] a.frontier[i]).rank() <= (#[trigger] a.frontier[j]).rank() by {
            assert(a.frontier[i] == s.frontier[i + 1] && a.frontier[j] == s.frontier[j + 1]);
        }
        assert forall|i: int| 0 <= i < a.frontier.len() implies (
        #[trigger] a.frontier[i]).node_idx < ds.len() && a.frontier[i].distance
            == ds[a.frontier[i].node_idx as int] by {
            assert(a.frontier[i] == s.frontier[i + 1]);
        }
        assert forall|v: int| #[trigger] a.visited.contains(v) && keep[v] implies lists_node(
            a.kept,
            v,
        ) || surpassed(a, ds, k, v) by {
            assert(s.visited.contains(v));
            assert(surpassed(s, ds, k, v) ==> surpassed(a, ds, k, v));
        }
        assert forall|i: int| 0 <= i < a.kept.len() implies a.visited.contains(
            (#[trigger] a.kept[i]).node_idx as int,
        ) && keep[a.kept[i].node_idx as int] by {
            assert(s.visited.contains(s.kept[i].node_idx as int));
        }
    }
    sifted_keeps_invariant(g, ds, keep, k, ef, a, list);
    sifted_in_range(g, a, ds, keep, k, ef, list);
    visited_bound(g, seen_by(t));
    assert forall|v: int| #[trigger] lists_node(s.frontier, v) && v != node implies lists_node(
        t.frontier,
        v,
    ) by {
        let i = choose|i: int|
            0 <= i < s.frontier.len() && (#[trigger] s.frontier[i]).node_idx == v;
        assert(a.frontier[i - 1] == s.frontier[i]);
        assert(lists_node(a.frontier, v));
    }
    if all_followed(g, ds, k, ef, s) {
        assert forall|v: int| #[trigger] t.visited.contains(v) implies lists_node(t.frontier, v)
            || followed(g, t, v) || hopeless(t, k, ef, rank32(ds[v])) by {
            if a.visited.contains(v) {
                assert(s.visited.contains(v));
                if v == node {
                    assert(followed(g, t, v));
                } else if lists_node(s.frontier, v) {
                    let i = choose|i: int|
                        0 <= i < s.frontier.len() && (#[trigger] s.frontier[i]).node_idx == v;
                    assert(a.frontier[i - 1] == s.frontier[i]);
                    assert(lists_node(a.frontier, v));
                } else if followed(g, s, v) {
                    assert forall|i: int|
                        0 <= i < links_of(g, v, 0).len() implies t.visited.contains(
                        #[trigger] links_of(g, v, 0)[i],
                    ) by {
                        assert(s.visited.contains(links_of(g, v, 0)[i]));
                        assert(a.visited.contains(links_of(g, v, 0)[i]));
                    }
                }
            }
        }
    }
}

/// What the outcome of a filtered search satisfies: at most `k` distinct nodes,
/// the closest first, all of which pass; and every neighbor of one of them that
/// passes is itself among them, or there are `k` and none is farther.
pub open spec fn is_filtered_optimum(
    g: Seq<NodeView>,
    ds: Seq<u32>,
    keep: Seq<bool>,
    k: nat,
    found: Seq<Candidate>,
) -> bool {
    &&& found.len() <= k
    &&& is_ranked(found)
    &&& holds_nodes(found, ds)
    &&& no_node_twice(found)
    &&& forall|i: int| 0 <= i < found.len() ==> keep[(#[trigger] found[i]).node_idx as int]
    &&& forall|i: int, j: int|
        0 <= i < found.len() && 0 <= j < links_of(g, found[i].node_idx as int, 0).len()
            && keep[links_of(g, found[i].node_idx as int, 0)[j]] ==> {
            let n = #[trigger] links_of(g, found[i].node_idx as int, 0)[j];
            lists_node(found, n) || (found.len() >= k && rank32(ds[n]) >= found.last().rank())
        }
}

proof fn closed_under_paths(g: Seq<NodeView>, s: Sieve, path: Seq<int>)
    requires
        is_path(g, 0, path),
        s.visited.contains(path[0]),
        forall|v: int| #[trigger] s.visited.contains(v) ==> followed(g, s, v),
    ensures
        s.visited.contains(path.last()),
    decreases path.len(),
{
    if path.len() > 1 {
        let shorter = path.drop_last();
        assert forall|i: int|
            0 < i < shorter.len() implies links_of(g, shorter[i - 1], 0).contains(
            #[trigger] shorter[i],
        ) by {
            assert(links_of(g, path[i - 1], 0).contains(path[i]));
        }
        closed_under_paths(g, s, shorter);
        let i = path.len() - 1;
        let list = links_of(g, path[i - 1], 0);
        assert(list.contains(path[i]));
        let j = choose|j: int| 0 <= j < list.len() && list[j] == path[i];
        assert(followed(g, s, path[i - 1]));
        assert(s.visited.contains(list[j]));
    }
}

proof fn run_sieve_is_optimal(
    g: Seq<NodeView>,
    ds: Seq<u32>,
    keep: Seq<bool>,
    k: nat,
    ef: nat,
    s: Sieve,
    path: Seq<int>,
)
    requires
        links_in_range(g),
        ds.len() == g.len(),
        keep.len() == g.len(),
        g.len() <= usize::MAX,
        k > 0,
        sieve_invariant(g, ds, keep, k, s),
        all_followed(g, ds, k, ef, s),
        is_path(g, 0, path),
        s.visited.contains(path[0]),
    ensures
        ({
            let found = run_sieve(g, ds, keep, k, ef, s);
            &&& is_filtered_optimum(g, ds, keep, k, found)
            &&& found.len() < k && keep[path.last()] ==> lists_node(found, path.last())
        }),
    decreases g.len() - s.visited.len() + s.frontier.len(),
{
    if s.frontier.len() > 0 && !hopeless(s, k, ef, s.frontier[0].rank()) {
        let node = s.frontier[0].node_idx as int;
        let t = sift_all(advanced(s), ds, keep, k, ef, links_of(g, node, 0));
        next_round(g, ds, keep, k, ef, s);
        run_sieve_is_optimal(g, ds, keep, k, ef, t, path);
    } else {
        let found = s.kept;
        assert(run_sieve(g, ds, keep, k, ef, s) == found);
        assert forall|i: int, j: int|
            0 <= i < found.len() && 0 <= j < links_of(g, found[i].node_idx as int, 0).len()
                && keep[links_of(g, found[i].node_idx as int, 0)[j]] implies {
            let n = #[trigger] links_of(g, found[i].node_idx as int, 0)[j];
            lists_node(found, n) || (found.len() >= k && rank32(ds[n]) >= found.last().rank())
        } by {
            let r = found[i].node_idx as int;
            let n = links_of(g, r, 0)[j];
            assert(s.visited.contains(s.kept[i].node_idx as int));
            assert(s.kept[i].distance == ds[r]);
            assert(s.kept[i].rank() <= s.kept[s.kept.len() - 1].rank());
            if lists_node(s.frontier, r) {
                let f = choose|f: int|
                    0 <= f < s.frontier.len() && (#[trigger] s.frontier[f]).node_idx == r;
                assert(s.frontier[f].distance == ds[r]);
                if f > 0 {
                    assert(s.frontier[0].rank() <= s.frontier[f].rank());
                }
                assert(false);
            }
            assert(followed(g, s, r));
            assert(s.visited.contains(links_of(g, r, 0)[j]));
            assert(lists_node(s.kept, n) || surpassed(s, ds, k, n));
        }
        if found.len() < k {
            assert(s.frontier.len() == 0);
            assert forall|v: int| #[trigger] s.visited.contains(v) implies followed(g, s, v) by {
                assert(!lists_node(s.frontier, v));
            }
            closed_under_paths(g, s, path);
            if keep[path.last()] {
                assert(lists_node(s.kept, path.last()));
            }
        }
    }
}

/// A filtered search finds at most `k` distinct nodes that pass, the closest
/// first; they are a local optimum among those that pass; and where it finds
/// fewer than `k` it has missed none: every node that passes and that a path
/// leads to from the entry point is found.
pub proof fn filtered_search_is_locally_optimal(
    g: Seq<NodeView>,
    ds: Seq<u32>,
    keep: Seq<bool>,
    k: nat,
    ef: nat,
    entry: int,
    path: Seq<int>,
)
    requires
        links_in_range(g),
        ds.len() == g.len(),
        keep.len() == g.len(),
        0 <= entry < g.len() <= usize::MAX,
        k > 0,
        is_path(g, 0, path),
        path[0] == entry,
    ensures
        is_filtered_optimum(g, ds, keep, k, filtered_search(g, ds, keep, k, ef, entry)),
        ({
            let found = filtered_search(g, ds, keep, k, ef, entry);
            found.len() < k && keep[path.last()] ==> lists_node(found, path.last())
        }),
{
    let s = sieve_at(ds, keep, entry);
    assert(s.frontier[0].node_idx == entry);
    assert(lists_node(s.frontier, entry));
    if keep[entry] {
        assert(s.kept[0].node_idx == entry);
        assert(lists_node(s.kept, entry));
    }
    run_sieve_is_optimal(g, ds, keep, k, ef, s, path);
}

proof fn run_sieve_follows_close_paths(
    g: Seq<NodeView>,
    ds: Seq<u32>,
    keep: Seq<bool>,
    k: nat,
    ef: nat,
    s: Sieve,
    path: Seq<int>,
)
    requires
        links_in_range(g),
        ds.len() == g.len(),
        keep.len() == g.len(),
        g.len() <= usize::MAX,
        k > 0,
        sieve_invariant(g, ds, keep, k, s),
        all_followed(g, ds, k, ef, s),
        is_path(g, 0, path),
        s.visited.contains(path[0]),
        run_sieve(g, ds, keep, k, ef, s).len() > 0,
        forall|i: int|
            0 <= i < path.len() ==> rank32(ds[#[trigger] path[i]]) < run_sieve(
                g,
                ds,
                keep,
                k,
                ef,
                s,
            ).last().rank(),
        keep[path.last()],
    ensures
        lists_node(run_sieve(g, ds, keep, k, ef, s), path.last()),
    decreases g.len() - s.visited.len() + s.frontier.len(),
{
    if s.frontier.len() > 0 && !hopeless(s, k, ef, s.frontier[0].rank()) {
        let node = s.frontier[0].node_idx as int;
        let t = sift_all(advanced(s), ds, keep, k, ef, links_of(g, node, 0));
        next_round(g, ds, keep, k, ef, s);
        run_sieve_follows_close_paths(g, ds, keep, k, ef, t, path);
    } else {
        assert(run_sieve(g, ds, keep, k, ef, s) == s.kept);
        close_path_is_seen(g, ds, keep, k, ef, s, path);
        let last = path.len() - 1;
        assert(rank32(ds[path[last]]) < s.kept.last().rank());
        assert(lists_node(s.kept, path.last()) || surpassed(s, ds, k, path.last()));
    }
}

proof fn close_path_is_seen(
    g: Seq<NodeView>,
    ds: Seq<u32>,
    keep: Seq<bool>,
    k: nat,
    ef: nat,
    s: Sieve,
    path: Seq<int>,
)
    requires
        sieve_invariant(g, ds, keep, k, s),
        all_followed(g, ds, k, ef, s),
        s.frontier.len() == 0 || hopeless(s, k, ef, s.frontier[0].rank()),
        is_path(g, 0, path),
        s.visited.contains(path[0]),
        s.kept.len() > 0,
        forall|i: int|
            0 <= i < path.len() ==> rank32(ds[#[trigger] path[i]]) < s.kept.last().rank(),
    ensures
        s.visited.contains(path.last()),
    decreases path.len(),
{
    if path.len() > 1 {
        let shorter = path.drop_last();
        assert forall|i: int|
            0 < i < shorter.len() implies links_of(g, shorter[i - 1], 0).contains(
            #[trigger] shorter[i],
        ) by {
            assert(links_of(g, path[i - 1], 0).contains(path[i]));
        }
        assert forall|i: int| 0 <= i < shorter.len() implies rank32(ds[#[trigger] shorter[i]])
            < s.kept.last().rank() by {
            assert(rank32(ds[path[i]]) < s.kept.last().rank());
        }
        close_path_is_seen(g, ds, keep, k, ef, s, shorter);
        let i = path.len() - 1;
        let v = path[i - 1];
        assert(rank32(ds[v]) < s.kept.last().rank());
        if lists_node(s.frontier, v) {
            let f = choose|f: int|
                0 <= f < s.frontier.len() && (#[trigger] s.frontier[f]).node_idx == v;
            assert(s.frontier[f].distance == ds[v]);
            if f > 0 {
                assert(s.frontier[0].rank() <= s.frontier[f].rank());
            }
            assert(false);
        }
        assert(followed(g, s, v));
        let list = links_of(g, v, 0);
        assert(list.contains(path[i]));
        let j = choose|j: int| 0 <= j < list.len() && list[j] == path[i];
        assert(s.visited.contains(links_of(g, v, 0)[j]));
    }
}

/// A filtered search follows every path that stays close, through nodes that do not
/// pass as well: a node that passes and that a path leads to from the entry point
/// is found if every node on the path is closer than the last that is found.
pub proof fn close_path_is_sifted(
    g: Seq<NodeView>,
    ds: Seq<u32>,
    keep: Seq<bool>,
    k: nat,
    ef: nat,
    entry: int,
    path: Seq<int>,
)
    requires
        links_in_range(g),
        ds.len() == g.len(),
        keep.len() == g.len(),
        0 <= entry < g.len() <= usize::MAX,
        k > 0,
        is_path(g, 0, path),
        path[0] == entry,
        filtered_search(g, ds, keep, k, ef, entry).len() > 0,
        forall|i: int|
            0 <= i < path.len() ==> rank32(ds[#[trigger] path[i]]) < filtered_search(
                g,
                ds,
                keep,
                k,
                ef,
                entry,
            ).last().rank(),
        keep[path.last()],
    ensures
        lists_node(filtered_search(g, ds, keep, k, ef, entry), path.last()),
{
    let s = sieve_at(ds, keep, entry);
    assert(s.frontier[0].node_idx == entry);
    assert(lists_node(s.frontier, entry));
    if keep[entry] {
        assert(s.kept[0].node_idx == entry);
        assert(lists_node(s.kept, entry));
    }
    run_sieve_follows_close_paths(g, ds, keep, k, ef, s, path);
}

/// A node passes if and only if its vector is not deleted and has metadata of which
/// the filter holds.
pub proof fn passing_is_exact(
    g: Seq<NodeView>,
    metadata: Seq<Option<Pairs>>,
    filter: Filter,
    node: int,
)
    requires
        0 <= node < g.len(),
    ensures
        passing(g, metadata, filter).len() == g.len(),
        passing(g, metadata, filter)[node] <==> {
            &&& !g[node].deleted
            &&& metadata[g[node].slot] is Some
            &&& filter.holds(pairs_map(metadata[g[node].slot]->0))
        },
{
}

} // verus!
