//! How a new node is linked into the graph.
//!
//! The specifications speak of a graph `g` and of the matrix `dm` of the
//! distances between its nodes.
use vstd::prelude::*;

use crate::distance::{at_most, at_most32};
use crate::index::beam::{beam_search, candidate, descend_layers, distances, greedy_descent,
    search_layer, slots_in_range};
use crate::index::graph::{capacity, fresh_node, with_neighbors, Graph, NodeView};
use crate::index::kernel::{distance, is_kernel, measure};
use crate::index::ranking::{insert_ranked, is_ranked, ranked, Candidate};
use crate::index::visited::VisitedPool;
use crate::storage::vecstore::VectorStore;

verus! {

/// The distances between all nodes: row `i` holds those from node `i`.
pub open spec fn matrix<K: Fn(&[u32], &[u32]) -> u32>(
    kernel: K,
    g: Seq<NodeView>,
    vectors: Seq<Seq<u32>>,
) -> Seq<Seq<u32>> {
    Seq::new(g.len(), |i: int| distances(kernel, vectors[g[i].slot], g, vectors))
}

/// A selection of neighbors in the making.
pub struct Selection {
    pub selected: Seq<int>,
    pub discarded: Seq<int>,
}

/// Whether a candidate is at least as close to its node as to any of the nodes
/// selected so far.
pub open spec fn is_diverse(dm: Seq<Seq<u32>>, c: Candidate, selected: Seq<int>) -> bool {
    forall|i: int|
        0 <= i < selected.len() ==> at_most32(
            c.distance,
            dm[c.node_idx as int][#[trigger] selected[i]],
        )
}

/// The selection once it has come to the end of some candidates: one is selected
/// if it is diverse and there is room, and else put by.
pub open spec fn select_from(dm: Seq<Seq<u32>>, max: nat, candidates: Seq<Candidate>) -> Selection
    decreases candidates.len(),
{
    if candidates.len() == 0 {
        Selection { selected: Seq::empty(), discarded: Seq::empty() }
    } else {
        let s = select_from(dm, max, candidates.drop_last());
        let c = candidates.last();
        if is_diverse(dm, c, s.selected) && s.selected.len() < max {
            Selection { selected: s.selected.push(c.node_idx as int), ..s }
        } else {
            Selection { discarded: s.discarded.push(c.node_idx as int), ..s }
        }
    }
}

/// The diversified choice of at most `max` neighbors; the first of those put by
/// fill what room is left.
pub open spec fn select_neighbors(dm: Seq<Seq<u32>>, max: nat, candidates: Seq<Candidate>) -> Seq<
    int,
> {
    let s = select_from(dm, max, candidates);
    let room = max - s.selected.len();
    s.selected + (if s.discarded.len() <= room { s.discarded } else { s.discarded.take(room) })
}

/// Some nodes with their distances.
pub open spec fn with_distances(ds: Seq<u32>, list: Seq<int>) -> Seq<Candidate> {
    Seq::new(list.len(), |i: int| candidate(ds, list[i]))
}

/// The neighbors that a node keeps of a list that is too long.
pub open spec fn pruned(dm: Seq<Seq<u32>>, node: int, max: nat, list: Seq<int>) -> Seq<int> {
    select_neighbors(dm, max, ranked(with_distances(dm[node], list)))
}

/// The graph once `node` has `new_node` among its neighbors, if it is in the
/// layer.
pub open spec fn linked_back(
    g: Seq<NodeView>,
    dm: Seq<Seq<u32>>,
    level: int,
    max: nat,
    new_node: int,
    node: int,
) -> Seq<NodeView> {
    if level < g[node].layers.len() {
        let list = g[node].layers[level].push(new_node);
        with_neighbors(
            g,
            node,
            level,
            if list.len() > max { pruned(dm, node, max, list) } else { list },
        )
    } else {
        g
    }
}

/// The graph once each of some nodes has `new_node` among its neighbors.
pub open spec fn linked_back_all(
    g: Seq<NodeView>,
    dm: Seq<Seq<u32>>,
    level: int,
    max: nat,
    new_node: int,
    nodes: Seq<int>,
) -> Seq<NodeView>
    decreases nodes.len(),
{
    if nodes.len() == 0 {
        g
    } else {
        linked_back(
            linked_back_all(g, dm, level, max, new_node, nodes.drop_last()),
            dm,
            level,
            max,
            new_node,
            nodes.last(),
        )
    }
}

/// The candidates that are not deleted and not `new_node` itself.
pub open spec fn live_candidates(
    g: Seq<NodeView>,
    new_node: int,
    found: Seq<Candidate>,
) -> Seq<Candidate>
    decreases found.len(),
{
    if found.len() == 0 {
        Seq::empty()
    } else {
        let fewer = live_candidates(g, new_node, found.drop_last());
        let c = found.last();
        if !g[c.node_idx as int].deleted && c.node_idx != new_node {
            fewer.push(c)
        } else {
            fewer
        }
    }
}

/// The candidates that a new node has in a layer, coming from `current`.
pub open spec fn layer_candidates(
    g: Seq<NodeView>,
    dm: Seq<Seq<u32>>,
    ef: nat,
    level: int,
    new_node: int,
    current: int,
) -> Seq<Candidate> {
    live_candidates(g, new_node, beam_search(g, dm[new_node], ef, level, current))
}

/// The graph once a new node has its neighbors in a layer, and they it.
pub open spec fn connected(
    g: Seq<NodeView>,
    dm: Seq<Seq<u32>>,
    ef: nat,
    level: int,
    max: nat,
    new_node: int,
    current: int,
) -> Seq<NodeView> {
    let chosen = select_neighbors(
        dm,
        max,
        layer_candidates(g, dm, ef, level, new_node, current),
    );
    linked_back_all(with_neighbors(g, new_node, level, chosen), dm, level, max, new_node, chosen)
}

/// Where the search in the next layer begins: at the closest candidate.
pub open spec fn next_entry(
    g: Seq<NodeView>,
    dm: Seq<Seq<u32>>,
    ef: nat,
    level: int,
    new_node: int,
    current: int,
) -> int {
    let live = layer_candidates(g, dm, ef, level, new_node, current);
    if live.len() > 0 {
        live[0].node_idx as int
    } else {
        current
    }
}

/// How many candidates and neighbors a graph works with.
pub struct Limits {
    pub m: int,
    pub m_max0: int,
    pub ef: nat,
}

/// The graph once a new node has its neighbors in all layers from `high` down.
pub open spec fn connected_layers(
    g: Seq<NodeView>,
    dm: Seq<Seq<u32>>,
    limits: Limits,
    high: int,
    new_node: int,
    current: int,
) -> Seq<NodeView>
    decreases high + 1,
{
    if high < 0 {
        g
    } else {
        let max = capacity(limits.m, limits.m_max0, high) as nat;
        connected_layers(
            connected(g, dm, limits.ef, high, max, new_node, current),
            dm,
            limits,
            high - 1,
            new_node,
            next_entry(g, dm, limits.ef, high, new_node, current),
        )
    }
}

/// A graph with its entry point.
pub struct Topology {
    pub g: Seq<NodeView>,
    pub entry: Option<int>,
    pub max_level: int,
}

/// The smaller of two numbers.
pub open spec fn smaller(a: int, b: int) -> int {
    if a <= b { a } else { b }
}

impl Topology {
    /// A graph without nodes.
    pub open spec fn empty() -> Topology {
        Topology { g: Seq::empty(), entry: None, max_level: 0 }
    }

    /// The graph with one more node, which has `level` layers above the lowest.
    /// `dm` holds the distances between the nodes, the new one included.
    pub open spec fn inserted(
        self,
        dm: Seq<Seq<u32>>,
        limits: Limits,
        slot: int,
        id: u64,
        level: nat,
    ) -> Topology {
        let g = self.g.push(fresh_node(slot, id, level));
        let new_node = self.g.len() as int;
        match self.entry {
            None => Topology { g, entry: Some(new_node), max_level: level as int },
            Some(entry) => {
                let current = descend_layers(
                    g,
                    dm[new_node],
                    false,
                    self.max_level,
                    level as int + 1,
                    entry,
                );
                let linked = connected_layers(
                    g,
                    dm,
                    limits,
                    smaller(level as int, self.max_level),
                    new_node,
                    current,
                );
                if level > self.max_level {
                    Topology { g: linked, entry: Some(new_node), max_level: level as int }
                } else {
                    Topology { g: linked, ..self }
                }
            },
        }
    }
}

/// Whether two graphs have the same nodes in the same layers, whatever their
/// links.
pub open spec fn same_nodes(g: Seq<NodeView>, h: Seq<NodeView>) -> bool {
    &&& g.len() == h.len()
    &&& forall|i: int|
        0 <= i < g.len() ==> {
            &&& (#[trigger] g[i]).slot == h[i].slot
            &&& g[i].id == h[i].id
            &&& g[i].deleted == h[i].deleted
            &&& g[i].layers.len() == h[i].layers.len()
        }
}

/// Links change no distance.
pub proof fn same_nodes_same_distances<K: Fn(&[u32], &[u32]) -> u32>(
    kernel: K,
    g: Seq<NodeView>,
    h: Seq<NodeView>,
    vectors: Seq<Seq<u32>>,
)
    requires
        same_nodes(g, h),
    ensures
        matrix(kernel, g, vectors) == matrix(kernel, h, vectors),
        forall|q: Seq<u32>| #[trigger]
            distances(kernel, q, g, vectors) == distances(kernel, q, h, vectors),
{
    assert forall|q: Seq<u32>| #[trigger] distances(kernel, q, g, vectors) == distances(
        kernel,
        q,
        h,
        vectors,
    ) by {
        let a = distances(kernel, q, g, vectors);
        let b = distances(kernel, q, h, vectors);
        assert forall|i: int| 0 <= i < a.len() implies a[i] == b[i] by {
            assert(g[i].slot == h[i].slot);
        }
        assert(a =~= b);
    }
    let a = matrix(kernel, g, vectors);
    let b = matrix(kernel, h, vectors);
    assert forall|i: int| 0 <= i < a.len() implies a[i] == b[i] by {
        assert(g[i].slot == h[i].slot);
        assert(distances(kernel, vectors[g[i].slot], g, vectors) == distances(
            kernel,
            vectors[g[i].slot],
            h,
            vectors,
        ));
    }
    assert(a =~= b);
}

/// The numbers in a vector.
pub open spec fn ints(v: Seq<usize>) -> Seq<int> {
    Seq::new(v.len(), |i: int| v[i] as int)
}

/// Whether all are nodes.
pub open spec fn are_nodes(list: Seq<int>, n: nat) -> bool {
    forall|i: int| 0 <= i < list.len() ==> 0 <= #[trigger] list[i] < n
}

proof fn selection_bounds(dm: Seq<Seq<u32>>, max: nat, candidates: Seq<Candidate>, n: nat)
    requires
        forall|i: int| 0 <= i < candidates.len() ==> (#[trigger] candidates[i]).node_idx < n,
    ensures
        select_from(dm, max, candidates).selected.len() <= max,
        are_nodes(select_from(dm, max, candidates).selected, n),
        are_nodes(select_from(dm, max, candidates).discarded, n),
        select_neighbors(dm, max, candidates).len() <= max,
        are_nodes(select_neighbors(dm, max, candidates), n),
    decreases candidates.len(),
{
    if candidates.len() > 0 {
        let fewer = candidates.drop_last();
        assert forall|i: int| 0 <= i < fewer.len() implies (#[trigger] fewer[i]).node_idx < n by {
            assert(fewer[i] == candidates[i]);
        }
        selection_bounds(dm, max, fewer, n);
        assert(candidates[candidates.len() - 1].node_idx < n);
    }
    let s = select_from(dm, max, candidates);
    let all = select_neighbors(dm, max, candidates);
    assert forall|i: int| 0 <= i < all.len() implies 0 <= #[trigger] all[i] < n by {
        if i < s.selected.len() {
            assert(all[i] == s.selected[i]);
        } else {
            assert(all[i] == s.discarded[i - s.selected.len()]);
        }
    }
}

/// Whether nodes of a graph over the vectors of a store can be linked.
pub open spec fn linkable<K: Fn(&[u32], &[u32]) -> u32>(
    graph: &Graph,
    store: &VectorStore,
    kernel: K,
) -> bool {
    &&& graph.wf()
    &&& store.wf()
    &&& slots_in_range(graph@, store@.ids.len())
    &&& is_kernel(kernel, store@.header.dimension)
}

/// The distance between two nodes.
fn nodes_distance<K: Fn(&[u32], &[u32]) -> u32>(
    graph: &Graph,
    store: &VectorStore,
    kernel: &K,
    a: usize,
    b: usize,
) -> (d: u32)
    requires
        linkable(graph, store, *kernel),
        a < graph@.len(),
        b < graph@.len(),
    ensures
        d == matrix(*kernel, graph@, store@.vectors)[a as int][b as int],
{
    assert(0 <= graph@[a as int].slot < store@.ids.len());
    assert(0 <= graph@[b as int].slot < store@.ids.len());
    measure(
        kernel,
        store.get_vector_unchecked(graph.slot(a)),
        store.get_vector_unchecked(graph.slot(b)),
    )
}

fn diverse<K: Fn(&[u32], &[u32]) -> u32>(
    graph: &Graph,
    store: &VectorStore,
    kernel: &K,
    c: Candidate,
    selected: &Vec<usize>,
) -> (r: bool)
    requires
        linkable(graph, store, *kernel),
        c.node_idx < graph@.len(),
        are_nodes(ints(selected@), graph@.len()),
    ensures
        r == is_diverse(matrix(*kernel, graph@, store@.vectors), c, ints(selected@)),
{
    let ghost dm = matrix(*kernel, graph@, store@.vectors);
    let ghost list = ints(selected@);
    for i in 0..selected.len()
        invariant
            linkable(graph, store, *kernel),
            c.node_idx < graph@.len(),
            list == ints(selected@),
            are_nodes(list, graph@.len()),
            dm == matrix(*kernel, graph@, store@.vectors),
            forall|j: int|
                0 <= j < i ==> at_most32(c.distance, dm[c.node_idx as int][#[trigger] list[j]]),
    {
        assert(0 <= list[i as int] < graph@.len());
        let d: u32 = nodes_distance(graph, store, kernel, c.node_idx, selected[i]);
        if !at_most(c.distance, d) {
            assert(!at_most32(c.distance, dm[c.node_idx as int][list[i as int]]));
            return false;
        }
    }
    true
}

/// Chooses at most `max_connections` neighbors among candidates, the closest
/// first, so that they lie in different directions.
pub fn select_neighbors_heuristic<K: Fn(&[u32], &[u32]) -> u32>(
    graph: &Graph,
    store: &VectorStore,
    kernel: &K,
    candidates: &Vec<Candidate>,
    max_connections: usize,
) -> (chosen: Vec<usize>)
    requires
        linkable(graph, store, *kernel),
        forall|i: int|
            0 <= i < candidates@.len() ==> (#[trigger] candidates@[i]).node_idx < graph@.len(),
    ensures
        ints(chosen@) == select_neighbors(
            matrix(*kernel, graph@, store@.vectors),
            max_connections as nat,
            candidates@,
        ),
        chosen@.len() <= max_connections,
        forall|i: int| 0 <= i < chosen@.len() ==> #[trigger] chosen@[i] < graph@.len(),
{
    let ghost dm = matrix(*kernel, graph@, store@.vectors);
    let ghost max = max_connections as nat;
    let ghost n = graph@.len();
    let mut selected: Vec<usize> = Vec::new();
    let mut discarded: Vec<usize> = Vec::new();
    proof {
        assert(candidates@.take(0) =~= Seq::empty());
        assert(ints(selected@) =~= Seq::empty());
        assert(ints(discarded@) =~= Seq::empty());
    }
    for i in 0..candidates.len()
        invariant
            linkable(graph, store, *kernel),
            dm == matrix(*kernel, graph@, store@.vectors),
            max == max_connections,
            n == graph@.len(),
            forall|j: int|
                0 <= j < candidates@.len() ==> (#[trigger] candidates@[j]).node_idx < n,
            (Selection { selected: ints(selected@), discarded: ints(discarded@) }) == select_from(
                dm,
                max,
                candidates@.take(i as int),
            ),
            are_nodes(ints(selected@), n),
            selected@.len() <= max,
    {
        let c = candidates[i];
        proof {
            assert(candidates@.take(i + 1).drop_last() =~= candidates@.take(i as int));
            assert(candidates@.take(i + 1).last() == c);
            assert(c.node_idx < n);
        }
        let ghost s = ints(selected@);
        let ghost d = ints(discarded@);
        if diverse(graph, store, kernel, c, &selected) && selected.len() < max_connections {
            selected.push(c.node_idx);
            assert(ints(selected@) =~= s.push(c.node_idx as int));
        } else {
            discarded.push(c.node_idx);
            assert(ints(discarded@) =~= d.push(c.node_idx as int));
        }
    }
    assert(candidates@.take(candidates@.len() as int) =~= candidates@);
    let room: usize = max_connections - selected.len();
    let fill: usize = if discarded.len() <= room {
        discarded.len()
    } else {
        room
    };
    let ghost s = ints(selected@);
    let ghost d = ints(discarded@);
    let ghost chosen_all = select_neighbors(dm, max, candidates@);
    proof {
        assert(d.take(d.len() as int) =~= d);
        assert(chosen_all == s + d.take(fill as int));
        assert(ints(selected@) =~= s + d.take(0));
    }
    for i in 0..fill
        invariant
            fill <= discarded@.len(),
            d == ints(discarded@),
            ints(selected@) == s + d.take(i as int),
    {
        let ghost before = ints(selected@);
        selected.push(discarded[i]);
        assert(ints(selected@) =~= before.push(d[i as int]));
        assert(d.take(i + 1) =~= d.take(i as int).push(d[i as int]));
        assert(ints(selected@) =~= s + d.take(i + 1));
    }
    proof {
        selection_bounds(dm, max, candidates@, n);
        assert forall|i: int| 0 <= i < selected@.len() implies #[trigger] selected@[i]
            < graph@.len() by {
            assert(ints(selected@)[i] == selected@[i]);
            assert(0 <= chosen_all[i] < n);
        }
        assert(selected@.len() == ints(selected@).len());
    }
    selected
}

/// The neighbors that a node keeps of a list that is too long: the diversified
/// choice among them, the closest first.
fn prune_connections<K: Fn(&[u32], &[u32]) -> u32>(
    graph: &Graph,
    store: &VectorStore,
    kernel: &K,
    node: usize,
    max_connections: usize,
    neighbors: &Vec<usize>,
) -> (kept: Vec<usize>)
    requires
        linkable(graph, store, *kernel),
        node < graph@.len(),
        forall|i: int| 0 <= i < neighbors@.len() ==> #[trigger] neighbors@[i] < graph@.len(),
    ensures
        ints(kept@) == pruned(
            matrix(*kernel, graph@, store@.vectors),
            node as int,
            max_connections as nat,
            ints(neighbors@),
        ),
        kept@.len() <= max_connections,
        forall|i: int| 0 <= i < kept@.len() ==> #[trigger] kept@[i] < graph@.len(),
{
    let ghost dm = matrix(*kernel, graph@, store@.vectors);
    let ghost all = with_distances(dm[node as int], ints(neighbors@));
    let mut candidates: Vec<Candidate> = Vec::new();
    assert(all.take(0) =~= Seq::empty());
    for i in 0..neighbors.len()
        invariant
            linkable(graph, store, *kernel),
            node < graph@.len(),
            dm == matrix(*kernel, graph@, store@.vectors),
            all == with_distances(dm[node as int], ints(neighbors@)),
            forall|j: int| 0 <= j < neighbors@.len() ==> #[trigger] neighbors@[j] < graph@.len(),
            candidates@ == ranked(all.take(i as int)),
            is_ranked(candidates@),
            forall|j: int|
                0 <= j < candidates@.len() ==> (#[trigger] candidates@[j]).node_idx < graph@.len(),
    {
        let neighbor: usize = neighbors[i];
        let c = Candidate {
            node_idx: neighbor,
            distance: nodes_distance(graph, store, kernel, node, neighbor),
        };
        proof {
            assert(all[i as int] == c);
            assert(all.take(i + 1).drop_last() =~= all.take(i as int));
            assert(all.take(i + 1).last() == c);
        }
        let ghost before = candidates@;
        insert_ranked(&mut candidates, c);
        proof {
            let p = crate::index::ranking::place(before, c.rank());
            crate::index::ranking::place_bounds(before, c.rank());
            assert forall|j: int| 0 <= j < candidates@.len() implies (
            #[trigger] candidates@[j]).node_idx < graph@.len() by {
                if j < p {
                    assert(candidates@[j] == before[j]);
                } else if j > p {
                    assert(candidates@[j] == before[j - 1]);
                }
            }
        }
    }
    assert(all.take(all.len() as int) =~= all);
    select_neighbors_heuristic(graph, store, kernel, &candidates, max_connections)
}

/// What does not change when links do.
pub open spec fn same_frame(before: &Graph, after: &Graph) -> bool {
    &&& after.wf()
    &&& same_nodes(before@, after@)
    &&& after.spec_m() == before.spec_m()
    &&& after.spec_m_max0() == before.spec_m_max0()
    &&& after.list_count() == before.list_count()
    &&& after.link_count() == before.link_count()
}

/// Gives `node` the new node as a neighbor, if it is in the layer.
fn link_back<K: Fn(&[u32], &[u32]) -> u32>(
    graph: &mut Graph,
    store: &VectorStore,
    kernel: &K,
    level: usize,
    new_node: usize,
    node: usize,
)
    requires
        linkable(old(graph), store, *kernel),
        new_node < old(graph)@.len(),
        node < old(graph)@.len(),
    ensures
        linkable(final(graph), store, *kernel),
        same_frame(old(graph), final(graph)),
        final(graph)@ == linked_back(
            old(graph)@,
            matrix(*kernel, old(graph)@, store@.vectors),
            level as int,
            capacity(
                old(graph).spec_m() as int,
                old(graph).spec_m_max0() as int,
                level as int,
            ) as nat,
            new_node as int,
            node as int,
        ),
{
    let ghost g = graph@;
    let ghost dm = matrix(*kernel, g, store@.vectors);
    if level < graph.layer_count(node) {
        let max: usize = graph.max_links(level);
        let existing = graph.neighbors(node, level);
        let ghost links = g[node as int].layers[level as int];
        let mut list: Vec<usize> = Vec::new();
        for i in 0..existing.len()
            invariant
                existing@.len() == links.len(),
                forall|j: int| 0 <= j < links.len() ==> #[trigger] existing@[j] == links[j],
                forall|j: int| 0 <= j < existing@.len() ==> #[trigger] existing@[j] < g.len(),
                ints(list@) =~= links.take(i as int),
                forall|j: int| 0 <= j < list@.len() ==> #[trigger] list@[j] < g.len(),
        {
            let ghost before = ints(list@);
            list.push(existing[i] as usize);
            assert(ints(list@) =~= before.push(links[i as int]));
            assert(links.take(i + 1) =~= links.take(i as int).push(links[i as int]));
        }
        let ghost before = ints(list@);
        list.push(new_node);
        assert(before =~= links);
        assert(ints(list@) =~= links.push(new_node as int));
        if list.len() > max {
            let kept = prune_connections(graph, store, kernel, node, max, &list);
            graph.replace_neighbors(node, level, &kept);
        } else {
            graph.replace_neighbors(node, level, &list);
        }
    }
}

proof fn frame_chains(a: &Graph, b: &Graph, c: &Graph)
    requires
        same_frame(a, b),
        same_frame(b, c),
    ensures
        same_frame(a, c),
{
}

proof fn frame_keeps_distances<K: Fn(&[u32], &[u32]) -> u32>(
    a: &Graph,
    b: &Graph,
    store: &VectorStore,
    kernel: K,
)
    requires
        same_frame(a, b),
        linkable(a, store, kernel),
    ensures
        matrix(kernel, a@, store@.vectors) == matrix(kernel, b@, store@.vectors),
        linkable(b, store, kernel),
{
    same_nodes_same_distances(kernel, a@, b@, store@.vectors);
    assert forall|i: int| 0 <= i < b@.len() implies 0 <= (#[trigger] b@[i]).slot
        < store@.ids.len() by {
        assert(a@[i].slot == b@[i].slot);
    }
}

/// The candidates that are not deleted and not the new node.
fn keep_live(graph: &Graph, new_node: usize, found: &Vec<Candidate>) -> (live: Vec<Candidate>)
    requires
        forall|i: int| 0 <= i < found@.len() ==> (#[trigger] found@[i]).node_idx < graph@.len(),
    ensures
        live@ == live_candidates(graph@, new_node as int, found@),
        forall|i: int| 0 <= i < live@.len() ==> (#[trigger] live@[i]).node_idx < graph@.len(),
{
    let mut live: Vec<Candidate> = Vec::new();
    assert(found@.take(0) =~= Seq::empty());
    for i in 0..found.len()
        invariant
            forall|j: int| 0 <= j < found@.len() ==> (#[trigger] found@[j]).node_idx < graph@.len(),
            live@ == live_candidates(graph@, new_node as int, found@.take(i as int)),
            forall|j: int| 0 <= j < live@.len() ==> (#[trigger] live@[j]).node_idx < graph@.len(),
    {
        let c = found[i];
        proof {
            assert(found@.take(i + 1).drop_last() =~= found@.take(i as int));
            assert(found@.take(i + 1).last() == c);
        }
        if !graph.deleted(c.node_idx) && c.node_idx != new_node {
            live.push(c);
        }
    }
    assert(found@.take(found@.len() as int) =~= found@);
    live
}

/// Gives the new node its neighbors in a layer, and them it. Returns where the
/// search in the next layer begins.
fn connect<K: Fn(&[u32], &[u32]) -> u32>(
    graph: &mut Graph,
    store: &VectorStore,
    kernel: &K,
    ef: usize,
    level: usize,
    new_node: usize,
    current: usize,
    pool: &mut VisitedPool,
) -> (next: usize)
    requires
        linkable(old(graph), store, *kernel),
        new_node < old(graph)@.len(),
        level < old(graph)@[new_node as int].layers.len(),
        current < old(graph)@.len(),
        old(pool).wf(),
    ensures
        final(pool).wf(),
        linkable(final(graph), store, *kernel),
        same_frame(old(graph), final(graph)),
        final(graph)@ == connected(
            old(graph)@,
            matrix(*kernel, old(graph)@, store@.vectors),
            ef as nat,
            level as int,
            capacity(
                old(graph).spec_m() as int,
                old(graph).spec_m_max0() as int,
                level as int,
            ) as nat,
            new_node as int,
            current as int,
        ),
        next < old(graph)@.len(),
        next == next_entry(
            old(graph)@,
            matrix(*kernel, old(graph)@, store@.vectors),
            ef as nat,
            level as int,
            new_node as int,
            current as int,
        ),
{
    let ghost before = *graph;
    let ghost g = graph@;
    let ghost dm = matrix(*kernel, g, store@.vectors);
    let ghost max = capacity(graph.spec_m() as int, graph.spec_m_max0() as int, level as int) as nat;
    assert(0 <= g[new_node as int].slot < store@.ids.len());
    let vector = store.get_vector_unchecked(graph.slot(new_node));
    let found = search_layer(graph, store, kernel, vector, current, ef, level, pool);
    assert(dm[new_node as int] == distances(*kernel, vector@, g, store@.vectors));
    assert forall|i: int| 0 <= i < found@.len() implies (#[trigger] found@[i]).node_idx
        < graph@.len() by {
        assert(found@[i].node_idx < dm[new_node as int].len());
    }
    let live = keep_live(graph, new_node, &found);
    let max_connections: usize = graph.max_links(level);
    let chosen = select_neighbors_heuristic(graph, store, kernel, &live, max_connections);
    let ghost list = ints(chosen@);
    graph.replace_neighbors(new_node, level, &chosen);
    let ghost linked = graph@;
    proof {
        frame_keeps_distances(&before, graph, store, *kernel);
        assert(linked == with_neighbors(g, new_node as int, level as int, list));
        assert(list.take(0) =~= Seq::empty());
    }
    for i in 0..chosen.len()
        invariant
            linkable(graph, store, *kernel),
            same_frame(&before, graph),
            g == before@,
            dm == matrix(*kernel, g, store@.vectors),
            dm == matrix(*kernel, graph@, store@.vectors),
            max == capacity(before.spec_m() as int, before.spec_m_max0() as int, level as int),
            new_node < g.len(),
            list == ints(chosen@),
            forall|j: int| 0 <= j < chosen@.len() ==> #[trigger] chosen@[j] < g.len(),
            graph@ == linked_back_all(
                linked,
                dm,
                level as int,
                max,
                new_node as int,
                list.take(i as int),
            ),
    {
        proof {
            assert(list.take(i + 1).drop_last() =~= list.take(i as int));
            assert(list.take(i + 1).last() == chosen@[i as int]);
        }
        let ghost mid = *graph;
        link_back(graph, store, kernel, level, new_node, chosen[i]);
        proof {
            frame_keeps_distances(&mid, graph, store, *kernel);
            frame_chains(&before, &mid, graph);
        }
    }
    assert(list.take(list.len() as int) =~= list);
    if live.len() > 0 {
        live[0].node_idx
    } else {
        current
    }
}

/// Gives the new node its neighbors in all layers from `high` down.
fn connect_layers<K: Fn(&[u32], &[u32]) -> u32>(
    graph: &mut Graph,
    store: &VectorStore,
    kernel: &K,
    ef: usize,
    high: usize,
    new_node: usize,
    start: usize,
    pool: &mut VisitedPool,
)
    requires
        linkable(old(graph), store, *kernel),
        new_node < old(graph)@.len(),
        high < old(graph)@[new_node as int].layers.len(),
        start < old(graph)@.len(),
        old(pool).wf(),
    ensures
        final(pool).wf(),
        linkable(final(graph), store, *kernel),
        same_frame(old(graph), final(graph)),
        final(graph)@ == connected_layers(
            old(graph)@,
            matrix(*kernel, old(graph)@, store@.vectors),
            (Limits {
                m: old(graph).spec_m() as int,
                m_max0: old(graph).spec_m_max0() as int,
                ef: ef as nat,
            }),
            high as int,
            new_node as int,
            start as int,
        ),
{
    let ghost before = *graph;
    let ghost dm = matrix(*kernel, graph@, store@.vectors);
    let ghost limits = Limits {
        m: graph.spec_m() as int,
        m_max0: graph.spec_m_max0() as int,
        ef: ef as nat,
    };
    let ghost goal = connected_layers(
        graph@,
        dm,
        limits,
        high as int,
        new_node as int,
        start as int,
    );
    let mut current: usize = start;
    let layers: usize = graph.layer_count(new_node);
    assert(high < layers);
    let mut left: usize = high + 1;
    while left > 0
        invariant
            left <= high + 1,
            linkable(graph, store, *kernel),
            same_frame(&before, graph),
            dm == matrix(*kernel, graph@, store@.vectors),
            limits == (Limits {
                m: before.spec_m() as int,
                m_max0: before.spec_m_max0() as int,
                ef: ef as nat,
            }),
            new_node < before@.len(),
            high < before@[new_node as int].layers.len(),
            current < before@.len(),
            pool.wf(),
            connected_layers(
                graph@,
                dm,
                limits,
                left - 1,
                new_node as int,
                current as int,
            ) == goal,
        decreases left,
    {
        let ghost mid = *graph;
        let level: usize = left - 1;
        assert(before@[new_node as int].layers.len() == graph@[new_node as int].layers.len());
        current = connect(graph, store, kernel, ef, level, new_node, current, pool);
        proof {
            frame_keeps_distances(&mid, graph, store, *kernel);
            frame_chains(&before, &mid, graph);
        }
        left = level;
    }
}

/// Whether the entry point of a graph is a node of its highest layer; a graph
/// has one if it has a node.
pub open spec fn topology_wf(t: Topology) -> bool {
    match t.entry {
        None => t.g.len() == 0,
        Some(e) => {
            &&& 0 <= e < t.g.len()
            &&& t.g[e].layers.len() == t.max_level + 1
            &&& forall|i: int|
                0 <= i < t.g.len() ==> (#[trigger] t.g[i]).layers.len() <= t.max_level + 1
        },
    }
}

/// The entry point as the specifications speak of it.
pub open spec fn entry_view(entry: Option<usize>) -> Option<int> {
    match entry {
        Some(e) => Some(e as int),
        None => None,
    }
}

/// Adds a node for the vector in `slot`, with `level` layers above the lowest,
/// and links it into the graph. Returns the entry point and the highest layer.
pub fn insert_into_graph<K: Fn(&[u32], &[u32]) -> u32>(
    graph: &mut Graph,
    store: &VectorStore,
    kernel: &K,
    ef_construction: usize,
    entry_point: Option<usize>,
    max_level: usize,
    slot: usize,
    vector_id: u64,
    level: usize,
    pool: &mut VisitedPool,
) -> (top: (Option<usize>, usize))
    requires
        linkable(old(graph), store, *kernel),
        old(graph).has_room(level as int),
        slot < store@.ids.len(),
        topology_wf(
            (Topology {
                g: old(graph)@,
                entry: entry_view(entry_point),
                max_level: max_level as int,
            }),
        ),
        old(pool).wf(),
    ensures
        final(pool).wf(),
        linkable(final(graph), store, *kernel),
        final(graph).spec_m() == old(graph).spec_m(),
        final(graph).spec_m_max0() == old(graph).spec_m_max0(),
        final(graph).list_count() == old(graph).list_count() + level + 1,
        final(graph).link_count() == old(graph).link_count() + old(graph).spec_m_max0() + level
            * old(graph).spec_m(),
        same_nodes(
            old(graph)@.push(fresh_node(slot as int, vector_id, level as nat)),
            final(graph)@,
        ),
        topology_wf(
            (Topology {
                g: final(graph)@,
                entry: entry_view(top.0),
                max_level: top.1 as int,
            }),
        ),
        (Topology {
            g: final(graph)@,
            entry: entry_view(top.0),
            max_level: top.1 as int,
        }) == (Topology {
            g: old(graph)@,
            entry: entry_view(entry_point),
            max_level: max_level as int,
        }).inserted(
            matrix(
                *kernel,
                old(graph)@.push(fresh_node(slot as int, vector_id, level as nat)),
                store@.vectors,
            ),
            (Limits {
                m: old(graph).spec_m() as int,
                m_max0: old(graph).spec_m_max0() as int,
                ef: ef_construction as nat,
            }),
            slot as int,
            vector_id,
            level as nat,
        ),
{
    let ghost first = graph@;
    let new_node: usize = graph.len();
    graph.add_node(slot, vector_id, level);
    let ghost added = *graph;
    let ghost g = graph@;
    proof {
        assert forall|i: int| 0 <= i < g.len() implies 0 <= (#[trigger] g[i]).slot
            < store@.ids.len() by {
            if i < first.len() {
                assert(g[i] == first[i]);
            }
        }
        assert(g[new_node as int].layers.len() == level + 1);
        assert(same_nodes(g, g));
    }
    let entry: usize = match entry_point {
        None => {
            return (Some(new_node), level);
        },
        Some(entry) => entry,
    };
    let vector = store.get_vector_unchecked(slot);
    assert(matrix(*kernel, g, store@.vectors)[new_node as int] == distances(
        *kernel,
        vector@,
        g,
        store@.vectors,
    ));
    let current: usize = greedy_descent(
        graph,
        store,
        kernel,
        vector,
        false,
        max_level,
        level + 1,
        entry,
    );
    let insert_from: usize = if level <= max_level {
        level
    } else {
        max_level
    };
    connect_layers(graph, store, kernel, ef_construction, insert_from, new_node, current, pool);
    proof {
        assert forall|i: int| 0 <= i < graph@.len() implies (#[trigger] graph@[i]).layers.len()
            == g[i].layers.len() by {
            assert(added@[i].layers.len() == graph@[i].layers.len());
        }
        assert forall|i: int| 0 <= i < first.len() implies (#[trigger] g[i]) == first[i] by {}
        assert forall|i: int| 0 <= i < first.len() implies (#[trigger] graph@[i]).layers.len()
            <= max_level + 1 by {
            assert(first[i].layers.len() <= max_level + 1);
            assert(g[i] == first[i]);
        }
    }
    if level > max_level {
        (Some(new_node), level)
    } else {
        (Some(entry), max_level)
    }
}

/// The distance between two nodes is that of their vectors, from the first to the
/// second.
pub proof fn node_distances_are_those_of_vectors<K: Fn(&[u32], &[u32]) -> u32>(
    kernel: K,
    g: Seq<NodeView>,
    vectors: Seq<Seq<u32>>,
    query: Seq<u32>,
    i: int,
    j: int,
)
    requires
        0 <= i < g.len(),
        0 <= j < g.len(),
    ensures
        matrix(kernel, g, vectors).len() == g.len(),
        matrix(kernel, g, vectors)[i].len() == g.len(),
        matrix(kernel, g, vectors)[i][j] == distance(
            kernel,
            vectors[g[i].slot],
            vectors[g[j].slot],
        ),
        distances(kernel, query, g, vectors).len() == g.len(),
        distances(kernel, query, g, vectors)[i] == distance(kernel, query, vectors[g[i].slot]),
{
}

/// Whether the candidate at `c` is closer to one of the chosen that came before it
/// than to its node. The chosen stand at `at` among the candidates.
pub open spec fn is_crowded(
    dm: Seq<Seq<u32>>,
    candidates: Seq<Candidate>,
    at: Seq<int>,
    c: int,
) -> bool {
    exists|i: int|
        0 <= i < at.len() && at[i] < c && !at_most32(
            candidates[c].distance,
            dm[candidates[c].node_idx as int][candidates[#[trigger] at[i]].node_idx as int],
        )
}

/// Whether the places ascend and are among the first `n`.
pub open spec fn places_ascend(at: Seq<int>, n: int) -> bool {
    &&& forall|i: int| 0 <= i < at.len() ==> 0 <= #[trigger] at[i] < n
    &&& forall|i: int, j: int| 0 <= i < j < at.len() ==> #[trigger] at[i] < #[trigger] at[j]
}

/// The nodes of the candidates at some places.
pub open spec fn nodes_at(candidates: Seq<Candidate>, at: Seq<int>) -> Seq<int> {
    Seq::new(at.len(), |i: int| candidates[at[i]].node_idx as int)
}

/// Whether a choice is explained by two lists of places among the candidates: `spread`
/// are those that are not crowded, up to `max` of them, and `others` are all the rest.
pub open spec fn choice_is_explained(
    dm: Seq<Seq<u32>>,
    max: nat,
    candidates: Seq<Candidate>,
    spread: Seq<int>,
    others: Seq<int>,
) -> bool {
    &&& places_ascend(spread, candidates.len() as int)
    &&& places_ascend(others, candidates.len() as int)
    &&& spread.len() + others.len() == candidates.len()
    &&& spread.len() <= max
    &&& forall|i: int|
        0 <= i < spread.len() ==> !#[trigger] is_crowded(dm, candidates, spread, spread[i])
    &&& forall|i: int|
        0 <= i < others.len() ==> !spread.contains(#[trigger] others[i]) && (is_crowded(
            dm,
            candidates,
            spread,
            others[i],
        ) || (spread.len() == max && (max > 0 ==> spread.last() < others[i])))
}

proof fn selection_is_explained(dm: Seq<Seq<u32>>, max: nat, candidates: Seq<Candidate>) -> (r: (
    Seq<int>,
    Seq<int>,
))
    ensures
        choice_is_explained(dm, max, candidates, r.0, r.1),
        select_from(dm, max, candidates).selected == nodes_at(candidates, r.0),
        select_from(dm, max, candidates).discarded == nodes_at(candidates, r.1),
    decreases candidates.len(),
{
    let s = select_from(dm, max, candidates);
    if candidates.len() == 0 {
        assert(s.selected =~= nodes_at(candidates, Seq::empty()));
        assert(s.discarded =~= nodes_at(candidates, Seq::empty()));
        (Seq::empty(), Seq::empty())
    } else {
        let fewer = candidates.drop_last();
        let c = candidates.last();
        let last = candidates.len() - 1;
        let (spread, others) = selection_is_explained(dm, max, fewer);
        let t = select_from(dm, max, fewer);
        let spread2 = spread.push(last);
        let others2 = others.push(last);
        assert(nodes_at(candidates, spread) =~= t.selected);
        assert(nodes_at(candidates, others) =~= t.discarded);
        assert(is_crowded(dm, candidates, spread, last) <==> !is_diverse(dm, c, t.selected)) by {
            if is_crowded(dm, candidates, spread, last) {
                let i = choose|i: int|
                    0 <= i < spread.len() && spread[i] < last && !at_most32(
                        candidates[last].distance,
                        dm[candidates[last].node_idx as int][candidates[
                        #[trigger] spread[i]].node_idx as int],
                    );
                assert(t.selected[i] == candidates[spread[i]].node_idx);
            }
            if !is_diverse(dm, c, t.selected) {
                let i = choose|i: int|
                    0 <= i < t.selected.len() && !at_most32(
                        c.distance,
                        dm[c.node_idx as int][#[trigger] t.selected[i]],
                    );
                assert(candidates[spread[i]].node_idx == t.selected[i]);
            }
        }
        assert forall|x: int| 0 <= x < last implies (#[trigger] is_crowded(
            dm,
            candidates,
            spread,
            x,
        ) <==> is_crowded(dm, fewer, spread, x)) && (is_crowded(dm, candidates, spread2, x)
            <==> is_crowded(dm, fewer, spread, x)) by {
            crowded_by_earlier(dm, candidates, spread, x);
        }
        if is_diverse(dm, c, t.selected) && t.selected.len() < max {
            assert(nodes_at(candidates, spread2) =~= s.selected);
            assert(!is_crowded(dm, candidates, spread2, last)) by {
                if is_crowded(dm, candidates, spread2, last) {
                    let i = choose|i: int|
                        0 <= i < spread2.len() && spread2[i] < last && !at_most32(
                            candidates[last].distance,
                            dm[candidates[last].node_idx as int][candidates[
                            #[trigger] spread2[i]].node_idx as int],
                        );
                    assert(spread[i] == spread2[i]);
                }
            }
            assert forall|i: int| 0 <= i < spread2.len() implies !#[trigger] is_crowded(
                dm,
                candidates,
                spread2,
                spread2[i],
            ) by {
                if i < spread.len() {
                    assert(spread2[i] == spread[i]);
                    assert(!is_crowded(dm, fewer, spread, spread[i]));
                    assert(is_crowded(dm, candidates, spread, spread[i]) <==> is_crowded(
                        dm,
                        fewer,
                        spread,
                        spread[i],
                    ));
                }
            }
            assert forall|i: int| 0 <= i < others.len() implies !spread2.contains(
                #[trigger] others[i],
            ) && is_crowded(dm, candidates, spread2, others[i]) by {
                assert(is_crowded(dm, fewer, spread, others[i]));
                assert(is_crowded(dm, candidates, spread, others[i]));
                if spread2.contains(others[i]) {
                    let j = choose|j: int| 0 <= j < spread2.len() && spread2[j] == others[i];
                    assert(spread[j] == others[i]);
                }
            }
            (spread2, others)
        } else {
            assert(nodes_at(candidates, others2) =~= s.discarded);
            assert forall|i: int| 0 <= i < spread.len() implies !#[trigger] is_crowded(
                dm,
                candidates,
                spread,
                spread[i],
            ) by {
                assert(!is_crowded(dm, fewer, spread, spread[i]));
            }
            assert forall|i: int| 0 <= i < others2.len() implies !spread.contains(
                #[trigger] others2[i],
            ) && (is_crowded(dm, candidates, spread, others2[i]) || (spread.len() == max && (max > 0
                ==> spread.last() < others2[i]))) by {
                if i < others.len() {
                    assert(others2[i] == others[i]);
                    assert(is_crowded(dm, candidates, spread, others[i]) <==> is_crowded(
                        dm,
                        fewer,
                        spread,
                        others[i],
                    ));
                }
            }
            (spread, others2)
        }
    }
}

proof fn crowded_by_earlier(
    dm: Seq<Seq<u32>>,
    candidates: Seq<Candidate>,
    spread: Seq<int>,
    x: int,
)
    requires
        candidates.len() > 0,
        places_ascend(spread, candidates.len() - 1),
        0 <= x < candidates.len() - 1,
    ensures
        is_crowded(dm, candidates, spread, x) <==> is_crowded(
            dm,
            candidates.drop_last(),
            spread,
            x,
        ),
        is_crowded(dm, candidates, spread.push(candidates.len() - 1), x) <==> is_crowded(
            dm,
            candidates.drop_last(),
            spread,
            x,
        ),
{
    let fewer = candidates.drop_last();
    let more = spread.push(candidates.len() - 1);
    if is_crowded(dm, candidates, spread, x) {
        let i = choose|i: int|
            0 <= i < spread.len() && spread[i] < x && !at_most32(
                candidates[x].distance,
                dm[candidates[x].node_idx as int][candidates[
                #[trigger] spread[i]].node_idx as int],
            );
        assert(fewer[spread[i]] == candidates[spread[i]]);
    }
    if is_crowded(dm, fewer, spread, x) {
        let i = choose|i: int|
            0 <= i < spread.len() && spread[i] < x && !at_most32(
                fewer[x].distance,
                dm[fewer[x].node_idx as int][fewer[#[trigger] spread[i]].node_idx as int],
            );
        assert(fewer[spread[i]] == candidates[spread[i]]);
        assert(more[i] == spread[i]);
    }
    if is_crowded(dm, candidates, more, x) {
        let i = choose|i: int|
            0 <= i < more.len() && more[i] < x && !at_most32(
                candidates[x].distance,
                dm[candidates[x].node_idx as int][candidates[
                #[trigger] more[i]].node_idx as int],
            );
        assert(more[i] == spread[i]);
        assert(fewer[spread[i]] == candidates[spread[i]]);
    }
}

/// Neighbors are chosen to spread out: first those candidates that are at least as
/// close to the node as to every neighbor chosen before, in their order and as many as
/// there is room for; then, where room is left, the others in their order.
pub proof fn neighbors_spread_out(dm: Seq<Seq<u32>>, max: nat, candidates: Seq<Candidate>)
    ensures
        exists|spread: Seq<int>, others: Seq<int>|
            {
                let all = nodes_at(candidates, spread) + nodes_at(candidates, others);
                &&& #[trigger] choice_is_explained(dm, max, candidates, spread, others)
                &&& select_neighbors(dm, max, candidates) == (if all.len() <= max {
                    all
                } else {
                    all.take(max as int)
                })
            },
{
    let (spread, others) = selection_is_explained(dm, max, candidates);
    let all = nodes_at(candidates, spread) + nodes_at(candidates, others);
    assert(choice_is_explained(dm, max, candidates, spread, others));
    assert(select_neighbors(dm, max, candidates) =~= (if all.len() <= max {
        all
    } else {
        all.take(max as int)
    }));
}

/// The entry point is a node of the highest layer: a new node takes its place only
/// where it is the first, or is in a layer above all others.
pub proof fn entry_point_moves_up_only(
    t: Topology,
    dm: Seq<Seq<u32>>,
    limits: Limits,
    slot: int,
    id: u64,
    level: nat,
)
    ensures
        ({
            let after = t.inserted(dm, limits, slot, id, level);
            if t.entry is None || level > t.max_level {
                after.entry == Some(t.g.len() as int) && after.max_level == level
            } else {
                after.entry == t.entry && after.max_level == t.max_level
            }
        }),
{
}

} // verus!
