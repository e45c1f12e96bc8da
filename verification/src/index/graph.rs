//! The layered graph, with its neighbor lists packed into arenas.
//!
//! A node has one list of neighbors in each of its layers. The lists are blocks
//! of fixed capacity in one arena of links; where the blocks of a node start is
//! told by another arena, which the node points into.
use vstd::prelude::*;

verus! {

/// A node of the graph.
#[derive(Debug, Clone, Copy)]
struct HnswNode {
    slot: usize,
    vector_id: u64,
    max_layer: usize,
    levels_offset: u32,
    deleted: bool,
}

/// Where the neighbor list of a node in one layer stands among the links.
#[derive(Debug, Clone, Copy)]
struct LevelBlock {
    offset: u32,
    len: u32,
    capacity: u32,
}

/// What the graph says of a node.
pub struct NodeView {
    /// The slot of its vector.
    pub slot: int,
    /// Its vector ID.
    pub id: u64,
    /// Whether its vector is deleted.
    pub deleted: bool,
    /// Its neighbors, layer by layer.
    pub layers: Seq<Seq<int>>,
}

/// How many neighbors a node may have in a layer.
pub open spec fn capacity(m: int, m_max0: int, level: int) -> int {
    if level == 0 { m_max0 } else { m }
}

/// A node without neighbors.
pub open spec fn fresh_node(slot: int, id: u64, level: nat) -> NodeView {
    NodeView {
        slot,
        id,
        deleted: false,
        layers: Seq::new(level + 1, |l: int| Seq::<int>::empty()),
    }
}

/// The graph with another list of neighbors for one node in one layer.
pub open spec fn with_neighbors(g: Seq<NodeView>, node: int, level: int, list: Seq<int>) -> Seq<
    NodeView,
> {
    g.update(node, NodeView { layers: g[node].layers.update(level, list), ..g[node] })
}

/// The graph with one node marked as deleted.
pub open spec fn with_tombstone(g: Seq<NodeView>, node: int) -> Seq<NodeView> {
    g.update(node, NodeView { deleted: true, ..g[node] })
}

/// Whether every node has a layer, and at most as many neighbors in each as it
/// may have, all of them nodes.
pub open spec fn graph_wf(g: Seq<NodeView>, m: int, m_max0: int) -> bool {
    &&& forall|i: int| 0 <= i < g.len() ==> (#[trigger] g[i]).layers.len() >= 1
    &&& forall|i: int, l: int|
        0 <= i < g.len() && 0 <= l < g[i].layers.len() ==> (#[trigger] g[i].layers[l]).len()
            <= capacity(m, m_max0, l)
    &&& forall|i: int, l: int, j: int|
        0 <= i < g.len() && 0 <= l < g[i].layers.len() && 0 <= j < g[i].layers[l].len() ==> 0
            <= #[trigger] g[i].layers[l][j] < g.len()
}

/// The graph.
#[derive(Debug)]
pub struct Graph {
    m: usize,
    m_max0: usize,
    nodes: Vec<HnswNode>,
    links: Vec<u32>,
    blocks: Vec<LevelBlock>,
}

/// The neighbors in a block.
spec fn block_list(links: Seq<u32>, b: LevelBlock) -> Seq<int> {
    Seq::new(b.len as nat, |i: int| links[b.offset + i] as int)
}

impl View for Graph {
    type V = Seq<NodeView>;

    closed spec fn view(&self) -> Seq<NodeView> {
        Seq::new(
            self.nodes@.len(),
            |i: int|
                NodeView {
                    slot: self.nodes@[i].slot as int,
                    id: self.nodes@[i].vector_id,
                    deleted: self.nodes@[i].deleted,
                    layers: Seq::new(
                        self.nodes@[i].max_layer as nat + 1,
                        |l: int|
                            block_list(self.links@, self.blocks@[self.nodes@[i].levels_offset + l]),
                    ),
                },
        )
    }
}

impl Graph {
    /// How many neighbors a node may have above the lowest layer.
    pub closed spec fn spec_m(&self) -> usize {
        self.m
    }

    /// How many neighbors a node may have in the lowest layer.
    pub closed spec fn spec_m_max0(&self) -> usize {
        self.m_max0
    }

    /// How many lists of neighbors there are.
    pub closed spec fn list_count(&self) -> nat {
        self.blocks@.len()
    }

    /// How many links there is room for in those lists.
    pub closed spec fn link_count(&self) -> nat {
        self.links@.len()
    }

    /// The blocks of different lists do not overlap.
    spec fn packed(&self) -> bool {
        &&& forall|i: int|
            0 <= i < self.nodes@.len() ==> (#[trigger] self.nodes@[i]).levels_offset
                + self.nodes@[i].max_layer + 1 <= self.blocks@.len()
        &&& forall|i: int, j: int|
            0 <= i < j < self.nodes@.len() ==> (#[trigger] self.nodes@[i]).levels_offset
                + self.nodes@[i].max_layer + 1 <= (#[trigger] self.nodes@[j]).levels_offset
        &&& forall|b: int|
            0 <= b < self.blocks@.len() ==> (#[trigger] self.blocks@[b]).offset
                + self.blocks@[b].capacity <= self.links@.len() && self.blocks@[b].len
                <= self.blocks@[b].capacity
        &&& forall|a: int, b: int|
            0 <= a < b < self.blocks@.len() ==> (#[trigger] self.blocks@[a]).offset
                + self.blocks@[a].capacity <= (#[trigger] self.blocks@[b]).offset
        &&& forall|i: int, l: int|
            0 <= i < self.nodes@.len() && 0 <= l <= self.nodes@[i].max_layer ==> (
            #[trigger] self.blocks@[self.nodes@[i].levels_offset + l]).capacity == capacity(
                self.m as int,
                self.m_max0 as int,
                l,
            )
        &&& self.m <= u32::MAX
        &&& self.m_max0 <= u32::MAX
        &&& self.nodes@.len() <= u32::MAX
        &&& self.blocks@.len() <= u32::MAX
        &&& self.links@.len() <= u32::MAX
    }

    /// The arenas are in order, and so is the graph that they hold.
    pub closed spec fn wf(&self) -> bool {
        &&& self.packed()
        &&& graph_wf(self@, self.m as int, self.m_max0 as int)
    }

    /// What holds of the graph in every well-formed arena.
    pub proof fn wf_facts(&self)
        requires
            self.wf(),
        ensures
            graph_wf(self@, self.spec_m() as int, self.spec_m_max0() as int),
            self@.len() <= u32::MAX,
            self.spec_m() <= u32::MAX,
            self.spec_m_max0() <= u32::MAX,
            forall|i: int|
                0 <= i < self@.len() ==> 0 <= (#[trigger] self@[i]).slot <= usize::MAX
                    && self@[i].layers.len() <= u32::MAX,
    {
        assert forall|i: int| 0 <= i < self@.len() implies (#[trigger] self@[i]).layers.len()
            <= u32::MAX by {
            let x = self.nodes@[i];
            assert(x.levels_offset + x.max_layer + 1 <= self.blocks@.len());
        }
    }

    /// How much the arenas can hold.
    pub proof fn counts_bounded(&self)
        requires
            self.wf(),
        ensures
            self.list_count() <= u32::MAX,
            self.link_count() <= u32::MAX,
    {
    }

    /// Whether the arenas have room for a node with this many layers above the
    /// lowest.
    pub open spec fn has_room(&self, level: int) -> bool {
        &&& self@.len() < u32::MAX
        &&& self.list_count() + level + 1 <= u32::MAX
        &&& self.link_count() + self.spec_m_max0() + level * self.spec_m() <= u32::MAX
    }

    /// A graph without nodes.
    pub fn new(m: usize, m_max0: usize) -> (graph: Self)
        requires
            m <= u32::MAX,
            m_max0 <= u32::MAX,
        ensures
            graph.wf(),
            graph@ == Seq::<NodeView>::empty(),
            graph.spec_m() == m,
            graph.spec_m_max0() == m_max0,
            graph.list_count() == 0,
            graph.link_count() == 0,
    {
        let graph = Graph {
            m,
            m_max0,
            nodes: Vec::new(),
            links: Vec::new(),
            blocks: Vec::new(),
        };
        assert(graph@ =~= Seq::<NodeView>::empty());
        graph
    }

    /// How many neighbors a node may have in a layer.
    pub fn max_links(&self, level: usize) -> (n: usize)
        ensures
            n == capacity(self.spec_m() as int, self.spec_m_max0() as int, level as int),
    {
        if level == 0 {
            self.m_max0
        } else {
            self.m
        }
    }

    /// Number of nodes.
    pub fn len(&self) -> (n: usize)
        ensures
            n == self@.len(),
    {
        self.nodes.len()
    }

    /// Number of neighbor lists.
    pub fn lists(&self) -> (n: usize)
        requires
            self.wf(),
        ensures
            n == self.list_count(),
            n <= u32::MAX,
    {
        self.blocks.len()
    }

    /// Number of links that there is room for.
    pub fn links(&self) -> (n: usize)
        requires
            self.wf(),
        ensures
            n == self.link_count(),
            n <= u32::MAX,
    {
        self.links.len()
    }

    /// The slot of a node.
    pub fn slot(&self, node: usize) -> (slot: usize)
        requires
            node < self@.len(),
        ensures
            slot == self@[node as int].slot,
    {
        self.nodes[node].slot
    }

    /// The vector ID of a node.
    pub fn vector_id(&self, node: usize) -> (id: u64)
        requires
            node < self@.len(),
        ensures
            id == self@[node as int].id,
    {
        self.nodes[node].vector_id
    }

    /// Whether the vector of a node is deleted.
    pub fn deleted(&self, node: usize) -> (deleted: bool)
        requires
            node < self@.len(),
        ensures
            deleted == self@[node as int].deleted,
    {
        self.nodes[node].deleted
    }

    /// Number of layers of a node.
    pub fn layer_count(&self, node: usize) -> (n: usize)
        requires
            self.wf(),
            node < self@.len(),
        ensures
            n == self@[node as int].layers.len(),
            n >= 1,
    {
        proof {
            let x = self.nodes@[node as int];
            assert(x.levels_offset + x.max_layer + 1 <= self.blocks@.len());
        }
        self.nodes[node].max_layer + 1
    }

    /// Number of layers of a node, in 32 bits.
    pub fn layer_word(&self, node: usize) -> (n: u32)
        requires
            self.wf(),
            node < self@.len(),
        ensures
            n == self@[node as int].layers.len(),
    {
        proof {
            let x = self.nodes@[node as int];
            assert(x.levels_offset + x.max_layer + 1 <= self.blocks@.len());
        }
        (self.nodes[node].max_layer + 1) as u32
    }

    /// Where the block of a node in a layer is.
    fn block_index(&self, node: usize, level: usize) -> (b: usize)
        requires
            self.packed(),
            node < self@.len(),
            level < self@[node as int].layers.len(),
        ensures
            b == self.nodes@[node as int].levels_offset + level,
            b < self.blocks@.len(),
    {
        proof {
            let x = self.nodes@[node as int];
            assert(x.levels_offset + x.max_layer + 1 <= self.blocks@.len());
        }
        self.nodes[node].levels_offset as usize + level
    }

    /// The neighbors of a node in a layer.
    pub fn neighbors(&self, node: usize, level: usize) -> (links: &[u32])
        requires
            self.wf(),
            node < self@.len(),
            level < self@[node as int].layers.len(),
        ensures
            links@.len() == self@[node as int].layers[level as int].len(),
            forall|i: int|
                0 <= i < links@.len() ==> #[trigger] links@[i]
                    == self@[node as int].layers[level as int][i],
            forall|i: int| 0 <= i < links@.len() ==> #[trigger] links@[i] < self@.len(),
    {
        let b: usize = self.block_index(node, level);
        let block = self.blocks[b];
        let start: usize = block.offset as usize;
        proof {
            assert(self.blocks@[b as int].offset + self.blocks@[b as int].capacity
                <= self.links@.len());
            let list = self@[node as int].layers[level as int];
            assert(list =~= block_list(self.links@, block));
            assert forall|i: int| 0 <= i < list.len() implies self.links@[start + i] == list[i]
                && list[i] < self@.len() by {
                assert(0 <= self@[node as int].layers[level as int][i] < self@.len());
            }
        }
        let links = vstd::slice::slice_subrange(
            self.links.as_slice(),
            start,
            start + block.len as usize,
        );
        proof {
            assert forall|i: int| 0 <= i < links@.len() implies #[trigger] links@[i]
                == self@[node as int].layers[level as int][i] && links@[i] < self@.len() by {
                assert(links@[i] == self.links@[start + i]);
                assert(0 <= self@[node as int].layers[level as int][i] < self@.len());
            }
        }
        links
    }

    /// Gives a node other neighbors in a layer.
    pub fn replace_neighbors(&mut self, node: usize, level: usize, list: &Vec<usize>)
        requires
            old(self).wf(),
            node < old(self)@.len(),
            level < old(self)@[node as int].layers.len(),
            list@.len() <= capacity(
                old(self).spec_m() as int,
                old(self).spec_m_max0() as int,
                level as int,
            ),
            forall|i: int| 0 <= i < list@.len() ==> #[trigger] list@[i] < old(self)@.len(),
        ensures
            final(self).wf(),
            final(self)@ == with_neighbors(
                old(self)@,
                node as int,
                level as int,
                Seq::new(list@.len(), |i: int| list@[i] as int),
            ),
            final(self).spec_m() == old(self).spec_m(),
            final(self).spec_m_max0() == old(self).spec_m_max0(),
            final(self).list_count() == old(self).list_count(),
            final(self).link_count() == old(self).link_count(),
    {
        let ghost before = *self;
        let b: usize = self.block_index(node, level);
        let block = self.blocks[b];
        let start: usize = block.offset as usize;
        assert(block.offset + block.capacity <= self.links@.len());
        assert(block.capacity == capacity(self.m as int, self.m_max0 as int, level as int));
        for i in 0..list.len()
            invariant
                self.nodes@ == before.nodes@,
                self.blocks@ == before.blocks@,
                self.m == before.m,
                self.m_max0 == before.m_max0,
                before.packed(),
                start == block.offset,
                list@.len() <= block.capacity,
                block.offset + block.capacity <= before.links@.len(),
                self.links@.len() == before.links@.len(),
                forall|j: int| 0 <= j < list@.len() ==> #[trigger] list@[j] < before.nodes@.len(),
                forall|j: int| 0 <= j < i ==> #[trigger] self.links@[start + j] == list@[j],
                forall|j: int|
                    0 <= j < self.links@.len() && !(start <= j < start + i) ==> #[trigger] self.links@[j]
                        == before.links@[j],
        {
            self.links.set(start + i, list[i] as u32);
            assert(self.links@[start + i] == list@[i as int]);
        }
        self.blocks.set(
            b,
            LevelBlock { offset: block.offset, len: list.len() as u32, capacity: block.capacity },
        );
        proof {
            let new_list = Seq::new(list@.len(), |i: int| list@[i] as int);
            let after = with_neighbors(before@, node as int, level as int, new_list);
            assert(self@.len() == after.len());
            assert forall|i: int| 0 <= i < after.len() implies #[trigger] self@[i] == after[i] by {
                let x = before.nodes@[i];
                let want = after[i].layers;
                let have = self@[i].layers;
                assert(have.len() == want.len());
                assert forall|l: int| 0 <= l < have.len() implies #[trigger] have[l] == want[l] by {
                    let c = x.levels_offset + l;
                    assert(x.levels_offset + x.max_layer + 1 <= before.blocks@.len());
                    if i == node && l == level {
                        assert(c == b);
                        assert forall|j: int| 0 <= j < have[l].len() implies #[trigger] have[l][j]
                            == new_list[j] by {
                            assert(self.links@[start + j] == list@[j]);
                        }
                        assert(have[l] =~= new_list);
                    } else {
                        assert(c != b) by {
                            let y = before.nodes@[node as int];
                            if i < node {
                                assert(x.levels_offset + x.max_layer + 1 <= y.levels_offset);
                            } else if node < i {
                                assert(y.levels_offset + y.max_layer + 1 <= x.levels_offset);
                            }
                        }
                        let blk = before.blocks@[c];
                        assert(self.blocks@[c] == blk);
                        if c < b {
                            assert(blk.offset + blk.capacity <= before.blocks@[b as int].offset);
                        } else {
                            assert(before.blocks@[b as int].offset
                                + before.blocks@[b as int].capacity <= blk.offset);
                        }
                        assert(blk.offset + blk.capacity <= before.links@.len());
                        assert forall|j: int| 0 <= j < have[l].len() implies #[trigger] have[l][j]
                            == want[l][j] by {
                            assert(self.links@[blk.offset + j] == before.links@[blk.offset + j]);
                        }
                        assert(have[l] =~= want[l]);
                    }
                }
                assert(have =~= want);
            }
            assert(self@ =~= after);
            with_neighbors_wf(
                before@,
                node as int,
                level as int,
                new_list,
                self.m as int,
                self.m_max0 as int,
            );
            assert(self.packed()) by {
                assert forall|i: int, l: int|
                    0 <= i < self.nodes@.len() && 0 <= l <= self.nodes@[i].max_layer implies (
                #[trigger] self.blocks@[self.nodes@[i].levels_offset + l]).capacity == capacity(
                    self.m as int,
                    self.m_max0 as int,
                    l,
                ) by {
                    let c = self.nodes@[i].levels_offset + l;
                    assert(before.blocks@[before.nodes@[i].levels_offset + l].capacity == capacity(
                        self.m as int,
                        self.m_max0 as int,
                        l,
                    ));
                }
            }
        }
    }

    /// Adds a node without neighbors, with `level` layers above the lowest.
    pub fn add_node(&mut self, slot: usize, vector_id: u64, level: usize)
        requires
            old(self).wf(),
            old(self).has_room(level as int),
        ensures
            final(self).wf(),
            final(self)@ == old(self)@.push(fresh_node(slot as int, vector_id, level as nat)),
            final(self).spec_m() == old(self).spec_m(),
            final(self).spec_m_max0() == old(self).spec_m_max0(),
            final(self).list_count() == old(self).list_count() + level + 1,
            final(self).link_count() == old(self).link_count() + old(self).spec_m_max0() + level
                * old(self).spec_m(),
    {
        let ghost before = *self;
        let levels_offset: u32 = self.blocks.len() as u32;
        let ghost base = before.links@.len() as int;
        let ghost first = before.blocks@.len() as int;
        let ghost m = self.m as int;
        let ghost m0 = self.m_max0 as int;
        let mut done: usize = 0;
        while done <= level
            invariant
                done <= level + 1,
                self.nodes@ == before.nodes@,
                self.m == before.m,
                self.m_max0 == before.m_max0,
                m == self.m,
                m0 == self.m_max0,
                before.wf(),
                before.has_room(level as int),
                base == before.links@.len(),
                first == before.blocks@.len(),
                self.blocks@.len() == first + done,
                self.links@.len() == base + (if done == 0 { 0 } else { m0 + (done - 1) * m }),
                forall|b: int| 0 <= b < first ==> #[trigger] self.blocks@[b] == before.blocks@[b],
                forall|j: int| 0 <= j < base ==> #[trigger] self.links@[j] == before.links@[j],
                forall|b: int|
                    first <= b < first + done ==> {
                        &&& (#[trigger] self.blocks@[b]).len == 0
                        &&& self.blocks@[b].capacity == capacity(m, m0, b - first)
                        &&& self.blocks@[b].offset >= base
                        &&& self.blocks@[b].offset + self.blocks@[b].capacity <= self.links@.len()
                    },
                forall|a: int, b: int|
                    first <= a < b < first + done ==> (#[trigger] self.blocks@[a]).offset
                        + self.blocks@[a].capacity <= (#[trigger] self.blocks@[b]).offset,
            decreases level + 1 - done,
        {
            let cap: usize = if done == 0 {
                self.m_max0
            } else {
                self.m
            };
            proof {
                assert(done > 0 ==> (done - 1) * m + m == done * m) by (nonlinear_arith);
                assert(done * m <= level * m) by (nonlinear_arith)
                    requires
                        done <= level,
                        m >= 0,
                ;
                assert(0 * m == 0);
            }
            let offset: usize = self.links.len();
            let ghost was = self.links@;
            self.links.resize(offset + cap, 0);
            assert forall|j: int| 0 <= j < base implies #[trigger] self.links@[j]
                == before.links@[j] by {
                assert(self.links@[j] == was[j]);
            }
            self.blocks.push(LevelBlock { offset: offset as u32, len: 0, capacity: cap as u32 });
            done = done + 1;
        }
        self.nodes.push(
            HnswNode { slot, vector_id, max_layer: level, levels_offset, deleted: false },
        );
        proof {
            let node = fresh_node(slot as int, vector_id, level as nat);
            let after = before@.push(node);
            assert forall|i: int| 0 <= i < after.len() implies #[trigger] self@[i] == after[i] by {
                if i < before@.len() {
                    let x = before.nodes@[i];
                    assert(self.nodes@[i] == x);
                    assert(x.levels_offset + x.max_layer + 1 <= before.blocks@.len());
                    assert forall|l: int| 0 <= l < x.max_layer + 1 implies #[trigger] self@[i].layers[l]
                        == before@[i].layers[l] by {
                        let blk = before.blocks@[x.levels_offset + l];
                        assert(self.blocks@[x.levels_offset + l] == blk);
                        assert(blk.offset + blk.capacity <= before.links@.len());
                        assert(self@[i].layers[l] =~= before@[i].layers[l]);
                    }
                    assert(self@[i].layers =~= before@[i].layers);
                } else {
                    assert forall|l: int| 0 <= l < level + 1 implies #[trigger] self@[i].layers[l]
                        == node.layers[l] by {
                        assert(self.blocks@[first + l].len == 0);
                        assert(self@[i].layers[l] =~= Seq::<int>::empty());
                    }
                    assert(self@[i].layers =~= node.layers);
                }
            }
            assert(self@ =~= after);
            added_node_wf(before@, node, m, m0);
            assert(self.packed()) by {
                assert forall|a: int, b: int| 0 <= a < b < self.blocks@.len() implies (
                #[trigger] self.blocks@[a]).offset + self.blocks@[a].capacity <= (
                #[trigger] self.blocks@[b]).offset by {
                    if b < first {
                        assert(before.blocks@[a].offset + before.blocks@[a].capacity
                            <= before.blocks@[b].offset);
                    } else if a < first {
                        assert(before.blocks@[a].offset + before.blocks@[a].capacity
                            <= before.links@.len());
                    }
                }
                assert forall|b: int| 0 <= b < self.blocks@.len() implies (
                #[trigger] self.blocks@[b]).offset + self.blocks@[b].capacity <= self.links@.len()
                    && self.blocks@[b].len <= self.blocks@[b].capacity by {
                    if b < first {
                        assert(before.blocks@[b].offset + before.blocks@[b].capacity
                            <= before.links@.len());
                    }
                }
                assert forall|i: int| 0 <= i < self.nodes@.len() implies (
                #[trigger] self.nodes@[i]).levels_offset + self.nodes@[i].max_layer + 1
                    <= self.blocks@.len() by {
                    if i < before.nodes@.len() {
                        assert(before.nodes@[i].levels_offset + before.nodes@[i].max_layer + 1
                            <= before.blocks@.len());
                    }
                }
                assert forall|i: int, j: int| 0 <= i < j < self.nodes@.len() implies (
                #[trigger] self.nodes@[i]).levels_offset + self.nodes@[i].max_layer + 1 <= (
                #[trigger] self.nodes@[j]).levels_offset by {
                    assert(before.nodes@[i].levels_offset + before.nodes@[i].max_layer + 1
                        <= before.blocks@.len());
                    if j < before.nodes@.len() {
                        assert(before.nodes@[i].levels_offset + before.nodes@[i].max_layer + 1
                            <= before.nodes@[j].levels_offset);
                    }
                }
                assert forall|i: int, l: int|
                    0 <= i < self.nodes@.len() && 0 <= l <= self.nodes@[i].max_layer implies (
                #[trigger] self.blocks@[self.nodes@[i].levels_offset + l]).capacity == capacity(
                    self.m as int,
                    self.m_max0 as int,
                    l,
                ) by {
                    if i < before.nodes@.len() {
                        let x = before.nodes@[i];
                        assert(x.levels_offset + x.max_layer + 1 <= before.blocks@.len());
                        assert(before.blocks@[x.levels_offset + l].capacity == capacity(m, m0, l));
                    } else {
                        assert(self.blocks@[first + l].capacity == capacity(m, m0, l));
                    }
                }
            }
        }
    }

    /// Marks the vector of a node as deleted.
    pub fn mark_deleted(&mut self, node: usize)
        requires
            old(self).wf(),
            node < old(self)@.len(),
        ensures
            final(self).wf(),
            final(self)@ == with_tombstone(old(self)@, node as int),
            final(self).spec_m() == old(self).spec_m(),
            final(self).spec_m_max0() == old(self).spec_m_max0(),
            final(self).list_count() == old(self).list_count(),
            final(self).link_count() == old(self).link_count(),
    {
        let ghost before = *self;
        let x = self.nodes[node];
        self.nodes.set(
            node,
            HnswNode {
                slot: x.slot,
                vector_id: x.vector_id,
                max_layer: x.max_layer,
                levels_offset: x.levels_offset,
                deleted: true,
            },
        );
        proof {
            let after = with_tombstone(before@, node as int);
            assert forall|i: int| 0 <= i < after.len() implies #[trigger] self@[i] == after[i] by {
                assert(self@[i].layers =~= before@[i].layers);
            }
            assert(self@ =~= after);
            tombstone_wf(before@, node as int, self.m as int, self.m_max0 as int);
            assert(self.packed()) by {
                assert forall|i: int, l: int|
                    0 <= i < self.nodes@.len() && 0 <= l <= self.nodes@[i].max_layer implies (
                #[trigger] self.blocks@[self.nodes@[i].levels_offset + l]).capacity == capacity(
                    self.m as int,
                    self.m_max0 as int,
                    l,
                ) by {
                    assert(before.blocks@[before.nodes@[i].levels_offset + l].capacity == capacity(
                        self.m as int,
                        self.m_max0 as int,
                        l,
                    ));
                }
            }
        }
    }
}

/// A graph with other neighbors for one node is well formed when they are nodes,
/// and not too many.
pub proof fn with_neighbors_wf(
    g: Seq<NodeView>,
    node: int,
    level: int,
    list: Seq<int>,
    m: int,
    m_max0: int,
)
    requires
        graph_wf(g, m, m_max0),
        0 <= node < g.len(),
        0 <= level < g[node].layers.len(),
        list.len() <= capacity(m, m_max0, level),
        forall|i: int| 0 <= i < list.len() ==> 0 <= #[trigger] list[i] < g.len(),
    ensures
        graph_wf(with_neighbors(g, node, level, list), m, m_max0),
{
    let h = with_neighbors(g, node, level, list);
    assert forall|i: int, l: int| 0 <= i < h.len() && 0 <= l < h[i].layers.len() implies (
    #[trigger] h[i].layers[l]).len() <= capacity(m, m_max0, l) by {
        if i != node || l != level {
            assert(h[i].layers[l] == g[i].layers[l]);
        }
    }
    assert forall|i: int, l: int, j: int|
        0 <= i < h.len() && 0 <= l < h[i].layers.len() && 0 <= j < h[i].layers[l].len() implies 0
        <= #[trigger] h[i].layers[l][j] < h.len() by {
        if i != node || l != level {
            assert(h[i].layers[l][j] == g[i].layers[l][j]);
        } else {
            assert(h[i].layers[l][j] == list[j]);
        }
    }
}

/// A graph with one more node without neighbors is well formed.
pub proof fn added_node_wf(g: Seq<NodeView>, node: NodeView, m: int, m_max0: int)
    requires
        graph_wf(g, m, m_max0),
        0 <= m,
        0 <= m_max0,
        node.layers.len() >= 1,
        forall|l: int| 0 <= l < node.layers.len() ==> (#[trigger] node.layers[l]).len() == 0,
    ensures
        graph_wf(g.push(node), m, m_max0),
{
    let h = g.push(node);
    assert forall|i: int, l: int| 0 <= i < h.len() && 0 <= l < h[i].layers.len() implies (
    #[trigger] h[i].layers[l]).len() <= capacity(m, m_max0, l) by {
        if i < g.len() {
            assert(h[i].layers[l] == g[i].layers[l]);
        }
    }
    assert forall|i: int, l: int, j: int|
        0 <= i < h.len() && 0 <= l < h[i].layers.len() && 0 <= j < h[i].layers[l].len() implies 0
        <= #[trigger] h[i].layers[l][j] < h.len() by {
        if i < g.len() {
            assert(h[i].layers[l][j] == g[i].layers[l][j]);
        }
    }
}

/// A graph with one more tombstone is well formed.
pub proof fn tombstone_wf(g: Seq<NodeView>, node: int, m: int, m_max0: int)
    requires
        graph_wf(g, m, m_max0),
        0 <= node < g.len(),
    ensures
        graph_wf(with_tombstone(g, node), m, m_max0),
{
    let h = with_tombstone(g, node);
    assert forall|i: int, l: int| 0 <= i < h.len() && 0 <= l < h[i].layers.len() implies (
    #[trigger] h[i].layers[l]).len() <= capacity(m, m_max0, l) by {
        assert(h[i].layers[l] == g[i].layers[l]);
    }
    assert forall|i: int, l: int, j: int|
        0 <= i < h.len() && 0 <= l < h[i].layers.len() && 0 <= j < h[i].layers[l].len() implies 0
        <= #[trigger] h[i].layers[l][j] < h.len() by {
        assert(h[i].layers[l][j] == g[i].layers[l][j]);
    }
}

/// A new list of neighbors touches that list alone, and a tombstone nothing but its
/// node's mark. A new node is in the lowest layer and as many above it as its level
/// says, without neighbors in any. In the lowest layer a node may have `m_max0`
/// neighbors, in the others `m`.
pub proof fn edits_are_local(
    g: Seq<NodeView>,
    node: int,
    level: int,
    list: Seq<int>,
    m: int,
    m_max0: int,
)
    requires
        0 <= node < g.len(),
        0 <= level < g[node].layers.len(),
    ensures
        ({
            let h = with_neighbors(g, node, level, list);
            &&& h.len() == g.len()
            &&& h[node].layers[level] == list
            &&& forall|i: int|
                0 <= i < g.len() ==> (#[trigger] h[i]).slot == g[i].slot && h[i].id == g[i].id
                    && h[i].deleted == g[i].deleted && h[i].layers.len() == g[i].layers.len()
            &&& forall|i: int, l: int|
                0 <= i < g.len() && 0 <= l < g[i].layers.len() && !(i == node && l == level)
                    ==> #[trigger] h[i].layers[l] == g[i].layers[l]
        }),
        ({
            let h = with_tombstone(g, node);
            &&& h.len() == g.len()
            &&& h[node].deleted && h[node].slot == g[node].slot && h[node].id == g[node].id
                && h[node].layers == g[node].layers
            &&& forall|i: int| 0 <= i < g.len() && i != node ==> #[trigger] h[i] == g[i]
        }),
        forall|slot: int, id: u64, height: nat| #![trigger fresh_node(slot, id, height)]
            {
                let new = fresh_node(slot, id, height);
                &&& new.slot == slot && new.id == id && !new.deleted
                &&& new.layers.len() == height + 1
                &&& forall|l: int| 0 <= l <= height ==> (#[trigger] new.layers[l]).len() == 0
            },
        capacity(m, m_max0, 0) == m_max0,
        forall|l: int| l != 0 ==> #[trigger] capacity(m, m_max0, l) == m,
{
}

} // verus!
