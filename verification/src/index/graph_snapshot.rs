//! The graph snapshot: the links of the graph, so that opening an index need not
//! search for them anew.
//!
//! ```text
//! Offset  Size  Field
//! ------  ----  -----
//! 0       4     Magic bytes: b"QVGR"
//! 4       1     Snapshot version (1)
//! 5       3     Reserved (zeroed)
//! 8       32    Configuration: m, m_max0, ef_construction, random_seed (u64 each)
//! 40      8     Number of nodes (u64)
//! 48      8     Largest vector ID assigned so far (u64)
//! 56      8     Entry point plus one; 0 where there is none (u64)
//! 64      8     Highest layer (u64)
//! 72      4     CRC32 of the bytes [0..72)
//! 76      ...   Nodes: [u64 vector ID][u32 layers], and for each layer
//!               [u32 neighbors][u32 each]
//! end-4   4     CRC32 of the nodes
//! ```
//!
//! All numbers are little-endian. A snapshot that does not check out against its
//! sums, the configuration or the store is passed over.
use vstd::prelude::*;
use vstd::slice::slice_subrange;

use crate::bytes::{get_u32, get_u64, put_u32, put_u64, u32_at, u32_bytes, u32_read_back, u64_at,
    u64_bytes, u64_read_back};
use crate::checksum::{checksum, crc32};
use crate::index::graph::{capacity, fresh_node, graph_wf, Graph, NodeView};
use crate::index::hnsw::{fits_arenas, links_needed, lists_needed, HnswConfig};
use crate::index::link::{entry_view, ints, topology_wf, Topology};
use crate::storage::format::{put_vector, read_vector, vector_at, vector_bytes, vector_read_back};

verus! {

/// Version of the snapshot format.
pub const GRAPH_FORMAT_VERSION: u8 = 1;

/// Size of the snapshot's header, its checksum included.
pub const GRAPH_HEADER_SIZE: usize = 76;

/// The bytes that identify a snapshot: "QVGR".
pub open spec fn graph_magic() -> Seq<u8> {
    seq![81u8, 86u8, 71u8, 82u8]
}

/// Nodes as the snapshot holds them.
pub open spec fn as_words(list: Seq<int>) -> Seq<u32> {
    Seq::new(list.len(), |i: int| list[i] as u32)
}

/// Words as nodes.
pub open spec fn as_nodes(words: Seq<u32>) -> Seq<int> {
    Seq::new(words.len(), |i: int| words[i] as int)
}

/// The neighbors of a node in one layer.
pub open spec fn layer_bytes(list: Seq<int>) -> Seq<u8> {
    u32_bytes(list.len() as u32) + vector_bytes(as_words(list))
}

/// The neighbors of a node in the layers from `from` up.
pub open spec fn layers_bytes(layers: Seq<Seq<int>>, from: int) -> Seq<u8>
    decreases layers.len() - from,
{
    if from >= layers.len() {
        Seq::empty()
    } else {
        layer_bytes(layers[from]) + layers_bytes(layers, from + 1)
    }
}

/// One node.
pub open spec fn node_bytes(node: NodeView) -> Seq<u8> {
    u64_bytes(node.id) + u32_bytes(node.layers.len() as u32) + layers_bytes(node.layers, 0)
}

/// The nodes from `from` on.
pub open spec fn nodes_bytes(g: Seq<NodeView>, from: int) -> Seq<u8>
    decreases g.len() - from,
{
    if from >= g.len() {
        Seq::empty()
    } else {
        node_bytes(g[from]) + nodes_bytes(g, from + 1)
    }
}

/// The entry point as the snapshot holds it.
pub open spec fn entry_word(entry: Option<int>) -> u64 {
    match entry {
        None => 0,
        Some(e) => (e + 1) as u64,
    }
}

/// Some numbers of eight bytes each.
pub open spec fn words_bytes(words: Seq<u64>) -> Seq<u8> {
    Seq::new(8 * words.len(), |i: int| u64_bytes(words[i / 8])[i % 8])
}

/// The numbers in the header of a snapshot.
pub open spec fn header_words(t: Topology, config: HnswConfig, max_id: u64) -> Seq<u64> {
    seq![
        config.m as u64,
        config.m_max0 as u64,
        config.ef_construction as u64,
        config.random_seed,
        t.g.len() as u64,
        max_id,
        entry_word(t.entry),
        t.max_level as u64,
    ]
}

/// The header of a snapshot, without its checksum.
pub open spec fn graph_header(t: Topology, config: HnswConfig, max_id: u64) -> Seq<u8> {
    graph_magic() + seq![GRAPH_FORMAT_VERSION, 0u8, 0u8, 0u8] + words_bytes(
        header_words(t, config, max_id),
    )
}

/// A snapshot of a graph.
pub open spec fn graph_bytes(t: Topology, config: HnswConfig, max_id: u64) -> Seq<u8> {
    let header = graph_header(t, config, max_id);
    let body = nodes_bytes(t.g, 0);
    header + u32_bytes(crc32(header)) + body + u32_bytes(crc32(body))
}

/// The neighbors in the layer that stands at `at`, and where it ends.
pub open spec fn parse_layer(d: Seq<u8>, end: int, at: int) -> Option<(Seq<int>, int)> {
    if at + 4 > end || at + 4 + 4 * u32_at(d, at) > end {
        None
    } else {
        Some(
            (
                as_nodes(vector_at(d, at + 4, u32_at(d, at) as nat)),
                at + 4 + 4 * u32_at(d, at),
            ),
        )
    }
}

/// The `count` layers from `at` on, and where they end.
pub open spec fn parse_layers(d: Seq<u8>, end: int, at: int, count: nat) -> Option<
    (Seq<Seq<int>>, int),
>
    decreases count,
{
    if count == 0 {
        Some((Seq::empty(), at))
    } else {
        match parse_layer(d, end, at) {
            None => None,
            Some((list, next)) => match parse_layers(d, end, next, (count - 1) as nat) {
                None => None,
                Some((rest, after)) => Some((seq![list] + rest, after)),
            },
        }
    }
}

/// The node that stands at `at`, for the vector in `slot`, and where it ends.
pub open spec fn parse_node(d: Seq<u8>, end: int, at: int, slot: int) -> Option<(NodeView, int)> {
    if at + 12 > end {
        None
    } else {
        match parse_layers(d, end, at + 12, u32_at(d, at + 8) as nat) {
            None => None,
            Some((layers, next)) => Some(
                (NodeView { slot, id: u64_at(d, at), deleted: false, layers }, next),
            ),
        }
    }
}

/// The nodes for the slots from `slot` up to `n`, from `at` on, and where they
/// end.
pub open spec fn parse_nodes(d: Seq<u8>, end: int, at: int, slot: int, n: nat) -> Option<
    (Seq<NodeView>, int),
>
    decreases n - slot,
{
    if slot >= n {
        Some((Seq::empty(), at))
    } else {
        match parse_node(d, end, at, slot) {
            None => None,
            Some((node, next)) => match parse_nodes(d, end, next, slot + 1, n) {
                None => None,
                Some((rest, after)) => Some((seq![node] + rest, after)),
            },
        }
    }
}

/// The layers of each node above the lowest.
pub open spec fn levels_of(g: Seq<NodeView>) -> Seq<usize> {
    Seq::new(g.len(), |i: int| (g[i].layers.len() - 1) as usize)
}

/// Whether the nodes of a snapshot are those of a store and make up a graph that
/// the arenas can hold.
pub open spec fn graph_matches(
    t: Topology,
    config: HnswConfig,
    ids: Seq<u64>,
) -> bool {
    &&& t.g.len() == ids.len()
    &&& forall|i: int| 0 <= i < t.g.len() ==> (#[trigger] t.g[i]).id == ids[i]
    &&& graph_wf(t.g, config.m as int, config.m_max0 as int)
    &&& topology_wf(t)
    &&& t.entry is None ==> t.max_level == 0
    &&& t.g.len() <= u32::MAX
    &&& lists_needed(levels_of(t.g), t.g.len()) <= u32::MAX
    &&& links_needed(levels_of(t.g), config.m as int, config.m_max0 as int, t.g.len()) <= u32::MAX
}

/// The entry point that a word of the snapshot names.
pub open spec fn entry_of(word: u64) -> Option<int> {
    if word == 0 { None } else { Some(word - 1) }
}

/// The graph that a snapshot holds, given the checksums of its header and its
/// nodes; none where it does not check out against them, the configuration or
/// the store, which has the vectors `ids` and has assigned IDs up to `max_id`.
pub open spec fn restore_with_sums(
    d: Seq<u8>,
    config: HnswConfig,
    ids: Seq<u64>,
    max_id: u64,
    header_sum: u32,
    body_sum: u32,
) -> Option<Topology> {
    if d.len() < GRAPH_HEADER_SIZE + 4 || d.subrange(0, 4) != graph_magic() || d[4]
        != GRAPH_FORMAT_VERSION || header_sum != u32_at(d, 72) || body_sum != u32_at(
        d,
        d.len() - 4,
    ) || u64_at(d, 8) != config.m || u64_at(d, 16) != config.m_max0 || u64_at(d, 24)
        != config.ef_construction || u64_at(d, 32) != config.random_seed || u64_at(d, 40)
        != ids.len() || u64_at(d, 48) != max_id {
        None
    } else {
        match parse_nodes(d, d.len() - 4, GRAPH_HEADER_SIZE as int, 0, ids.len()) {
            None => None,
            Some((g, after)) => {
                let t = Topology {
                    g,
                    entry: entry_of(u64_at(d, 56)),
                    max_level: u64_at(d, 64) as int,
                };
                if after == d.len() - 4 && graph_matches(t, config, ids) {
                    Some(t)
                } else {
                    None
                }
            },
        }
    }
}

/// The graph that a snapshot holds; none where it does not check out.
pub open spec fn restore_graph(
    d: Seq<u8>,
    config: HnswConfig,
    ids: Seq<u64>,
    max_id: u64,
) -> Option<Topology> {
    restore_with_sums(
        d,
        config,
        ids,
        max_id,
        crc32(d.subrange(0, GRAPH_HEADER_SIZE - 4)),
        crc32(d.subrange(GRAPH_HEADER_SIZE as int, d.len() - 4)),
    )
}

/// Appends the neighbors of a node in the layers that it has.
fn put_layers(out: &mut Vec<u8>, graph: &Graph, node: usize)
    requires
        graph.wf(),
        node < graph@.len(),
    ensures
        final(out)@ == old(out)@ + layers_bytes(graph@[node as int].layers, 0),
{
    let ghost before = out@;
    let ghost layers = graph@[node as int].layers;
    let ghost whole = layers_bytes(layers, 0);
    let count: usize = graph.layer_count(node);
    for level in 0..count
        invariant
            graph.wf(),
            node < graph@.len(),
            layers == graph@[node as int].layers,
            count == layers.len(),
            out@ + layers_bytes(layers, level as int) == before + whole,
    {
        let ghost so_far = out@;
        let links = graph.neighbors(node, level);
        proof {
            graph.wf_facts();
            let list = layers[level as int];
            assert(links@ =~= as_words(list));
            assert(list.len() <= capacity(
                graph.spec_m() as int,
                graph.spec_m_max0() as int,
                level as int,
            ));
        }
        assert(links@.len() <= u32::MAX);
        put_u32(out, links.len() as u32);
        put_vector(out, links);
        assert(out@ =~= so_far + layer_bytes(layers[level as int]));
        assert(out@ + layers_bytes(layers, level + 1) =~= so_far + layers_bytes(
            layers,
            level as int,
        ));
    }
    assert(out@ =~= before + whole);
}

proof fn words_push(words: Seq<u64>, x: u64)
    ensures
        words_bytes(words.push(x)) == words_bytes(words) + u64_bytes(x),
{
    let w = words.push(x);
    assert forall|i: int| 0 <= i < 8 * w.len() implies #[trigger] words_bytes(w)[i] == (
    words_bytes(words) + u64_bytes(x))[i] by {
        if i < 8 * words.len() {
            assert(w[i / 8] == words[i / 8]);
        } else {
            assert(i / 8 == words.len() && i % 8 == i - 8 * words.len());
        }
    }
    assert(words_bytes(w) =~= words_bytes(words) + u64_bytes(x));
}

/// Appends some numbers of eight bytes each.
fn put_words(out: &mut Vec<u8>, words: &[u64])
    ensures
        final(out)@ == old(out)@ + words_bytes(words@),
{
    let ghost before = out@;
    assert(out@ =~= before + words_bytes(words@.take(0)));
    for i in 0..words.len()
        invariant
            out@ == before + words_bytes(words@.take(i as int)),
    {
        put_u64(out, words[i]);
        proof {
            let w = words@.take(i as int);
            words_push(w, words@[i as int]);
            assert(w.push(words@[i as int]) =~= words@.take(i + 1));
            assert(out@ =~= before + words_bytes(words@.take(i + 1)));
        }
    }
    assert(words@.take(words@.len() as int) =~= words@);
}

/// Writes a snapshot of a graph.
pub fn serialize_graph(
    graph: &Graph,
    entry_point: Option<usize>,
    max_level: usize,
    config: HnswConfig,
    max_vector_id: u64,
) -> (out: Vec<u8>)
    requires
        graph.wf(),
        entry_point matches Some(e) ==> e < graph@.len(),
    ensures
        out@ == graph_bytes(
            (Topology { g: graph@, entry: entry_view(entry_point), max_level: max_level as int }),
            config,
            max_vector_id,
        ),
{
    let ghost t = Topology {
        g: graph@,
        entry: entry_view(entry_point),
        max_level: max_level as int,
    };
    proof {
        graph.wf_facts();
    }
    let mut header: Vec<u8> = Vec::new();
    header.push(81);
    header.push(86);
    header.push(71);
    header.push(82);
    header.push(GRAPH_FORMAT_VERSION);
    header.push(0);
    header.push(0);
    header.push(0);
    assert(header@ =~= graph_magic() + seq![GRAPH_FORMAT_VERSION, 0u8, 0u8, 0u8]);
    let entry: u64 = match entry_point {
        None => 0,
        Some(e) => e as u64 + 1,
    };
    let words: [u64; 8] = [
        config.m as u64,
        config.m_max0 as u64,
        config.ef_construction as u64,
        config.random_seed,
        graph.len() as u64,
        max_vector_id,
        entry,
        max_level as u64,
    ];
    assert(words@ =~= header_words(t, config, max_vector_id));
    put_words(&mut header, &words);
    assert(header@ =~= graph_header(t, config, max_vector_id));

    let mut body: Vec<u8> = Vec::new();
    let ghost whole = nodes_bytes(t.g, 0);
    assert(body@ + whole =~= whole);
    let n: usize = graph.len();
    for node in 0..n
        invariant
            graph.wf(),
            t.g == graph@,
            n == t.g.len(),
            body@ + nodes_bytes(t.g, node as int) == whole,
    {
        let ghost so_far = body@;
        put_u64(&mut body, graph.vector_id(node));
        put_u32(&mut body, graph.layer_word(node));
        put_layers(&mut body, graph, node);
        assert(body@ =~= so_far + node_bytes(t.g[node as int]));
        assert(body@ + nodes_bytes(t.g, node + 1) =~= so_far + nodes_bytes(t.g, node as int));
    }
    assert(body@ =~= whole);

    let header_sum: u32 = checksum(header.as_slice());
    put_u32(&mut header, header_sum);
    let body_sum: u32 = checksum(body.as_slice());
    header.extend_from_slice(body.as_slice());
    put_u32(&mut header, body_sum);
    assert(header@ =~= graph_bytes(t, config, max_vector_id));
    header
}

/// A node as it was read, before the graph is built: its ID and its neighbors.
struct RawNode {
    id: u64,
    layers: Vec<Vec<usize>>,
}

spec fn raw_layers(layers: Seq<Vec<usize>>) -> Seq<Seq<int>> {
    Seq::new(layers.len(), |l: int| ints(layers[l]@))
}

spec fn raw_view(node: RawNode, slot: int) -> NodeView {
    NodeView { slot, id: node.id, deleted: false, layers: raw_layers(node.layers@) }
}

spec fn raw_views(nodes: Seq<RawNode>) -> Seq<NodeView> {
    Seq::new(nodes.len(), |i: int| raw_view(nodes[i], i))
}

fn read_layer(d: &[u8], end: usize, at: usize) -> (layer: Option<(Vec<usize>, usize)>)
    requires
        at <= end <= d.len(),
    ensures
        match layer {
            Some((list, next)) => parse_layer(d@, end as int, at as int) == Some(
                (ints(list@), next as int),
            ) && at < next <= end,
            None => parse_layer(d@, end as int, at as int) is None,
        },
{
    if end - at < 4 {
        return None;
    }
    let len: usize = get_u32(d, at) as usize;
    if (end - at - 4) / 4 < len {
        return None;
    }
    let words = read_vector(d, at + 4, len);
    let mut list: Vec<usize> = Vec::with_capacity(len);
    for i in 0..words.len()
        invariant
            ints(list@) =~= as_nodes(words@).take(i as int),
    {
        let ghost before = ints(list@);
        list.push(words[i] as usize);
        assert(ints(list@) =~= before.push(words@[i as int] as int));
    }
    assert(ints(list@) =~= as_nodes(words@));
    Some((list, at + 4 + 4 * len))
}

fn read_layers(d: &[u8], end: usize, start: usize, count: u32) -> (layers: Option<
    (Vec<Vec<usize>>, usize),
>)
    requires
        start <= end <= d.len(),
    ensures
        match layers {
            Some((lists, next)) => parse_layers(d@, end as int, start as int, count as nat)
                == Some((raw_layers(lists@), next as int)) && start <= next <= end,
            None => parse_layers(d@, end as int, start as int, count as nat) is None,
        },
{
    let mut lists: Vec<Vec<usize>> = Vec::new();
    let mut at: usize = start;
    let mut left: u32 = count;
    let ghost goal = parse_layers(d@, end as int, start as int, count as nat);
    proof {
        if goal is Some {
            assert(raw_layers(lists@) + (goal->0).0 =~= (goal->0).0);
        }
    }
    while left > 0
        invariant
            start <= at <= end <= d.len(),
            goal == parse_layers(d@, end as int, start as int, count as nat),
            match parse_layers(d@, end as int, at as int, left as nat) {
                Some((rest, after)) => goal == Some((raw_layers(lists@) + rest, after)),
                None => goal is None,
            },
        decreases left,
    {
        match read_layer(d, end, at) {
            None => return None,
            Some((list, next)) => {
                let ghost before = raw_layers(lists@);
                let ghost read = ints(list@);
                lists.push(list);
                proof {
                    assert(raw_layers(lists@) =~= before.push(read));
                    if let Some((rest, after)) = parse_layers(
                        d@,
                        end as int,
                        next as int,
                        (left - 1) as nat,
                    ) {
                        assert(before + (seq![read] + rest) =~= before.push(read) + rest);
                    }
                }
                at = next;
                left = left - 1;
            },
        }
    }
    assert(raw_layers(lists@) + Seq::<Seq<int>>::empty() =~= raw_layers(lists@));
    Some((lists, at))
}

fn read_nodes(d: &[u8], end: usize, start: usize, n: usize) -> (nodes: Option<
    (Vec<RawNode>, usize),
>)
    requires
        start <= end <= d.len(),
    ensures
        match nodes {
            Some((list, next)) => parse_nodes(d@, end as int, start as int, 0, n as nat) == Some(
                (raw_views(list@), next as int),
            ) && list@.len() == n,
            None => parse_nodes(d@, end as int, start as int, 0, n as nat) is None,
        },
{
    let mut nodes: Vec<RawNode> = Vec::new();
    let mut at: usize = start;
    let ghost goal = parse_nodes(d@, end as int, start as int, 0, n as nat);
    proof {
        if goal is Some {
            assert(raw_views(nodes@) + (goal->0).0 =~= (goal->0).0);
        }
    }
    for slot in 0..n
        invariant
            start <= at <= end <= d.len(),
            goal == parse_nodes(d@, end as int, start as int, 0, n as nat),
            nodes@.len() == slot,
            match parse_nodes(d@, end as int, at as int, slot as int, n as nat) {
                Some((rest, after)) => goal == Some((raw_views(nodes@) + rest, after)),
                None => goal is None,
            },
    {
        if end - at < 12 {
            return None;
        }
        let id: u64 = get_u64(d, at);
        match read_layers(d, end, at + 12, get_u32(d, at + 8)) {
            None => return None,
            Some((layers, next)) => {
                let ghost before = raw_views(nodes@);
                let node = RawNode { id, layers };
                let ghost view = raw_view(node, slot as int);
                nodes.push(node);
                proof {
                    assert(raw_views(nodes@) =~= before.push(view));
                    if let Some((rest, after)) = parse_nodes(
                        d@,
                        end as int,
                        next as int,
                        slot + 1,
                        n as nat,
                    ) {
                        assert(before + (seq![view] + rest) =~= before.push(view) + rest);
                    }
                }
                at = next;
            },
        }
    }
    assert(raw_views(nodes@) + Seq::<NodeView>::empty() =~= raw_views(nodes@));
    Some((nodes, at))
}

/// Whether the lists of a node are not too long and lead to nodes.
fn lists_fit(node: &RawNode, n: usize, config: HnswConfig) -> (r: bool)
    ensures
        r == (raw_layers(node.layers@).len() >= 1 && (forall|l: int|
            0 <= l < raw_layers(node.layers@).len() ==> (#[trigger] raw_layers(
                node.layers@,
            )[l]).len() <= capacity(config.m as int, config.m_max0 as int, l)) && (forall|
            l: int,
            j: int,
        |
            0 <= l < raw_layers(node.layers@).len() && 0 <= j < raw_layers(node.layers@)[l].len()
                ==> 0 <= #[trigger] raw_layers(node.layers@)[l][j] < n)),
{
    let ghost layers = raw_layers(node.layers@);
    if node.layers.len() == 0 {
        return false;
    }
    for l in 0..node.layers.len()
        invariant
            layers == raw_layers(node.layers@),
            forall|x: int|
                0 <= x < l ==> (#[trigger] layers[x]).len() <= capacity(
                    config.m as int,
                    config.m_max0 as int,
                    x,
                ),
            forall|x: int, j: int|
                0 <= x < l && 0 <= j < layers[x].len() ==> 0 <= #[trigger] layers[x][j] < n,
    {
        let list = &node.layers[l];
        let max: usize = if l == 0 {
            config.m_max0
        } else {
            config.m
        };
        assert(layers[l as int] == ints(list@));
        if list.len() > max {
            return false;
        }
        for j in 0..list.len()
            invariant
                layers == raw_layers(node.layers@),
                l < node.layers@.len(),
                layers[l as int] == ints(list@),
                forall|x: int| 0 <= x < j ==> 0 <= #[trigger] layers[l as int][x] < n,
        {
            if list[j] >= n {
                assert(layers[l as int][j as int] >= n);
                return false;
            }
        }
    }
    true
}

/// Whether raw nodes make up a graph with this entry point.
fn nodes_fit(
    nodes: &Vec<RawNode>,
    ids: &Vec<u64>,
    config: HnswConfig,
    entry: u64,
    max_level: u64,
) -> (r: bool)
    requires
        config.fits(),
    ensures
        r == graph_matches(
            (Topology {
                g: raw_views(nodes@),
                entry: entry_of(entry),
                max_level: max_level as int,
            }),
            config,
            ids@,
        ),
{
    let ghost g = raw_views(nodes@);
    let n: usize = nodes.len();
    if n != ids.len() || n > u32::MAX as usize {
        return false;
    }
    let mut levels: Vec<usize> = Vec::with_capacity(n);
    for i in 0..n
        invariant
            g == raw_views(nodes@),
            n == nodes@.len(),
            n == ids@.len(),
            levels@ =~= levels_of(g).take(i as int),
            forall|x: int|
                0 <= x < i ==> {
                    &&& (#[trigger] g[x]).id == ids@[x]
                    &&& g[x].layers.len() >= 1
                    &&& entry != 0 ==> g[x].layers.len() <= max_level + 1
                },
            forall|x: int, l: int|
                0 <= x < i && 0 <= l < g[x].layers.len() ==> (#[trigger] g[x].layers[l]).len()
                    <= capacity(config.m as int, config.m_max0 as int, l),
            forall|x: int, l: int, j: int|
                0 <= x < i && 0 <= l < g[x].layers.len() && 0 <= j < g[x].layers[l].len() ==> 0
                    <= #[trigger] g[x].layers[l][j] < n,
    {
        let node = &nodes[i];
        assert(g[i as int] == raw_view(*node, i as int));
        let ghost layers = raw_layers(node.layers@);
        if node.id != ids[i] {
            assert(g[i as int].id != ids@[i as int]);
            return false;
        }
        if !lists_fit(node, n, config) {
            proof {
                assert(g[i as int].layers == layers);
                if layers.len() >= 1 {
                    if exists|l: int|
                        0 <= l < layers.len() && (#[trigger] layers[l]).len() > capacity(
                            config.m as int,
                            config.m_max0 as int,
                            l,
                        ) {
                        let l = choose|l: int|
                            0 <= l < layers.len() && (#[trigger] layers[l]).len() > capacity(
                                config.m as int,
                                config.m_max0 as int,
                                l,
                            );
                        assert(g[i as int].layers[l].len() > capacity(
                            config.m as int,
                            config.m_max0 as int,
                            l,
                        ));
                    } else {
                        let (l, j) = choose|l: int, j: int|
                            0 <= l < layers.len() && 0 <= j < layers[l].len() && !(0
                                <= #[trigger] layers[l][j] < n);
                        assert(!(0 <= g[i as int].layers[l][j] < n));
                    }
                }
            }
            return false;
        }
        if entry != 0 && node.layers.len() as u64 - 1 > max_level {
            assert(g[i as int].layers.len() > max_level + 1);
            return false;
        }
        levels.push(node.layers.len() - 1);
    }
    assert(levels@ =~= levels_of(g));
    if entry == 0 {
        if n != 0 || max_level != 0 {
            return false;
        }
    } else {
        if entry - 1 >= n as u64 {
            return false;
        }
        let top: usize = (entry - 1) as usize;
        assert(g[top as int].layers.len() == nodes@[top as int].layers@.len());
        if nodes[top].layers.len() as u64 - 1 != max_level {
            return false;
        }
    }
    fits_arenas(0, 0, 0, config, levels.as_slice())
}

/// Builds the graph of raw nodes.
fn build_graph(nodes: &Vec<RawNode>, config: HnswConfig) -> (graph: Graph)
    requires
        config.fits(),
        graph_wf(raw_views(nodes@), config.m as int, config.m_max0 as int),
        nodes@.len() <= u32::MAX,
        lists_needed(levels_of(raw_views(nodes@)), nodes@.len()) <= u32::MAX,
        links_needed(
            levels_of(raw_views(nodes@)),
            config.m as int,
            config.m_max0 as int,
            nodes@.len(),
        ) <= u32::MAX,
    ensures
        graph.wf(),
        graph@ == raw_views(nodes@),
        graph.spec_m() == config.m,
        graph.spec_m_max0() == config.m_max0,
        graph.list_count() == lists_needed(levels_of(raw_views(nodes@)), nodes@.len()),
        graph.link_count() == links_needed(
            levels_of(raw_views(nodes@)),
            config.m as int,
            config.m_max0 as int,
            nodes@.len(),
        ),
{
    let ghost g = raw_views(nodes@);
    let ghost levels = levels_of(g);
    let ghost m = config.m as int;
    let ghost m0 = config.m_max0 as int;
    let n: usize = nodes.len();
    let mut graph = Graph::new(config.m, config.m_max0);
    for i in 0..n
        invariant
            config.fits(),
            g == raw_views(nodes@),
            levels == levels_of(g),
            n == nodes@.len(),
            n <= u32::MAX,
            m == config.m,
            m0 == config.m_max0,
            graph_wf(g, m, m0),
            lists_needed(levels, n as nat) <= u32::MAX,
            links_needed(levels, m, m0, n as nat) <= u32::MAX,
            graph.wf(),
            graph.spec_m() == m,
            graph.spec_m_max0() == m0,
            graph@.len() == i,
            graph.list_count() == lists_needed(levels, i as nat),
            graph.link_count() == links_needed(levels, m, m0, i as nat),
            forall|x: int|
                0 <= x < i ==> #[trigger] graph@[x] == fresh_node(x, g[x].id, levels[x] as nat),
    {
        proof {
            crate::index::hnsw::needed_grows(levels, m, m0, (i + 1) as nat, n as nat);
            assert(g[i as int].layers.len() >= 1);
            assert(g[i as int].layers.len() == nodes@[i as int].layers@.len());
        }
        let level: usize = nodes[i].layers.len() - 1;
        graph.add_node(i, nodes[i].id, level);
    }
    for i in 0..n
        invariant
            g == raw_views(nodes@),
            levels == levels_of(g),
            n == nodes@.len(),
            m == config.m,
            m0 == config.m_max0,
            graph_wf(g, m, m0),
            graph.wf(),
            graph.spec_m() == m,
            graph.spec_m_max0() == m0,
            graph@.len() == n,
            graph.list_count() == lists_needed(levels, n as nat),
            graph.link_count() == links_needed(levels, m, m0, n as nat),
            forall|x: int| 0 <= x < i ==> #[trigger] graph@[x] == g[x],
            forall|x: int|
                i <= x < n ==> #[trigger] graph@[x] == fresh_node(x, g[x].id, levels[x] as nat),
    {
        let node = &nodes[i];
        let ghost view = g[i as int];
        assert(view == raw_view(*node, i as int));
        assert(view.layers.len() >= 1);
        for l in 0..node.layers.len()
            invariant
                g == raw_views(nodes@),
                levels == levels_of(g),
                n == nodes@.len(),
                m == config.m,
                m0 == config.m_max0,
                graph_wf(g, m, m0),
                i < n,
                *node == nodes@[i as int],
                view == g[i as int],
                view.layers.len() == node.layers@.len(),
                view.layers.len() >= 1,
                graph.wf(),
                graph.spec_m() == m,
                graph.spec_m_max0() == m0,
                graph@.len() == n,
                graph.list_count() == lists_needed(levels, n as nat),
                graph.link_count() == links_needed(levels, m, m0, n as nat),
                forall|x: int| 0 <= x < i ==> #[trigger] graph@[x] == g[x],
                forall|x: int|
                    i < x < n ==> #[trigger] graph@[x] == fresh_node(x, g[x].id, levels[x] as nat),
                graph@[i as int].slot == i,
                graph@[i as int].id == view.id,
                !graph@[i as int].deleted,
                graph@[i as int].layers.len() == view.layers.len(),
                forall|x: int|
                    0 <= x < l ==> #[trigger] graph@[i as int].layers[x] == view.layers[x],
                forall|x: int|
                    l <= x < view.layers.len() ==> (#[trigger] graph@[i as int].layers[x]).len()
                        == 0,
        {
            let list = &node.layers[l];
            proof {
                assert(view.layers[l as int] == ints(list@));
                assert(g[i as int].layers[l as int].len() <= capacity(m, m0, l as int));
                assert forall|j: int| 0 <= j < list@.len() implies #[trigger] list@[j]
                    < graph@.len() by {
                    assert(0 <= g[i as int].layers[l as int][j] < g.len());
                }
            }
            graph.replace_neighbors(i, l, list);
            assert(graph@[i as int].layers[l as int] =~= view.layers[l as int]);
        }
        assert(graph@[i as int].layers =~= view.layers);
        assert(graph@[i as int] == view);
    }
    assert(graph@ =~= g);
    graph
}

/// Checks a snapshot, given the checksums of its header and its nodes, and
/// builds the graph that it holds, with its entry point and its highest layer.
pub fn restore_with_checksums(
    data: &[u8],
    config: HnswConfig,
    ids: &Vec<u64>,
    max_vector_id: u64,
    header_sum: u32,
    body_sum: u32,
) -> (restored: Option<(Graph, Option<usize>, usize)>)
    requires
        config.fits(),
    ensures
        match restored {
            Some((graph, entry, max_level)) => {
                &&& graph.wf()
                &&& graph.spec_m() == config.m
                &&& graph.spec_m_max0() == config.m_max0
                &&& graph.list_count() == lists_needed(levels_of(graph@), graph@.len())
                &&& graph.link_count() == links_needed(
                    levels_of(graph@),
                    config.m as int,
                    config.m_max0 as int,
                    graph@.len(),
                )
                &&& restore_with_sums(data@, config, ids@, max_vector_id, header_sum, body_sum)
                    == Some(
                    (Topology { g: graph@, entry: entry_view(entry), max_level: max_level as int }),
                )
            },
            None => restore_with_sums(data@, config, ids@, max_vector_id, header_sum, body_sum)
                is None,
        },
{
    if data.len() < GRAPH_HEADER_SIZE + 4 {
        return None;
    }
    if !(data[0] == 81 && data[1] == 86 && data[2] == 71 && data[3] == 82) {
        proof {
            let s = data@.subrange(0, 4);
            assert(s[0] == data@[0] && s[1] == data@[1] && s[2] == data@[2] && s[3] == data@[3]);
        }
        return None;
    }
    assert(data@.subrange(0, 4) =~= graph_magic());
    let end: usize = data.len() - 4;
    if data[4] != GRAPH_FORMAT_VERSION || header_sum != get_u32(data, 72) || body_sum != get_u32(
        data,
        end,
    ) {
        return None;
    }
    if get_u64(data, 8) != config.m as u64 || get_u64(data, 16) != config.m_max0 as u64 || get_u64(
        data,
        24,
    ) != config.ef_construction as u64 || get_u64(data, 32) != config.random_seed {
        return None;
    }
    if get_u64(data, 40) != ids.len() as u64 || get_u64(data, 48) != max_vector_id {
        return None;
    }
    let entry: u64 = get_u64(data, 56);
    let max_level: u64 = get_u64(data, 64);
    match read_nodes(data, end, GRAPH_HEADER_SIZE, ids.len()) {
        None => None,
        Some((nodes, after)) => {
            if after != end || !nodes_fit(&nodes, ids, config, entry, max_level) {
                return None;
            }
            let ghost g = raw_views(nodes@);
            if entry == 0 {
                let graph = build_graph(&nodes, config);
                Some((graph, None, 0))
            } else {
                let top: usize = (entry - 1) as usize;
                assert(g[top as int].layers.len() == max_level + 1);
                assert(g[top as int].layers.len() == nodes@[top as int].layers@.len());
                let layers: usize = nodes[top].layers.len();
                let graph = build_graph(&nodes, config);
                Some((graph, Some(top), layers - 1))
            }
        },
    }
}

/// Checks a snapshot and builds the graph that it holds, with its entry point
/// and its highest layer.
pub fn restore(data: &[u8], config: HnswConfig, ids: &Vec<u64>, max_vector_id: u64) -> (restored:
    Option<(Graph, Option<usize>, usize)>)
    requires
        config.fits(),
    ensures
        match restored {
            Some((graph, entry, max_level)) => {
                &&& graph.wf()
                &&& graph.spec_m() == config.m
                &&& graph.spec_m_max0() == config.m_max0
                &&& graph.list_count() == lists_needed(levels_of(graph@), graph@.len())
                &&& graph.link_count() == links_needed(
                    levels_of(graph@),
                    config.m as int,
                    config.m_max0 as int,
                    graph@.len(),
                )
                &&& restore_graph(data@, config, ids@, max_vector_id) == Some(
                    (Topology { g: graph@, entry: entry_view(entry), max_level: max_level as int }),
                )
            },
            None => restore_graph(data@, config, ids@, max_vector_id) is None,
        },
{
    if data.len() < GRAPH_HEADER_SIZE + 4 {
        return None;
    }
    let header_sum: u32 = checksum(slice_subrange(data, 0, GRAPH_HEADER_SIZE - 4));
    let body_sum: u32 = checksum(slice_subrange(data, GRAPH_HEADER_SIZE, data.len() - 4));
    restore_with_checksums(data, config, ids, max_vector_id, header_sum, body_sum)
}

proof fn parsed_nodes(d: Seq<u8>, end: int, at: int, slot: int, n: nat)
    requires
        0 <= slot,
    ensures
        parse_nodes(d, end, at, slot, n) matches Some((g, _)) ==> (slot <= n ==> g.len() == n
            - slot) && forall|i: int|
            0 <= i < g.len() ==> (#[trigger] g[i]).slot == slot + i && !g[i].deleted,
    decreases n - slot,
{
    if slot < n {
        if let Some((node, next)) = parse_node(d, end, at, slot) {
            parsed_nodes(d, end, next, slot + 1, n);
            if let Some((rest, after)) = parse_nodes(d, end, next, slot + 1, n) {
                let g = seq![node] + rest;
                assert forall|i: int| 0 <= i < g.len() implies (#[trigger] g[i]).slot == slot + i
                    && !g[i].deleted by {
                    if i > 0 {
                        assert(g[i] == rest[i - 1]);
                    }
                }
            }
        }
    }
}

/// The nodes of a restored graph stand for the slots of the store, none of them
/// marked as deleted yet.
pub proof fn restored_nodes(d: Seq<u8>, config: HnswConfig, ids: Seq<u64>, max_id: u64)
    ensures
        restore_graph(d, config, ids, max_id) matches Some(t) ==> {
            &&& graph_matches(t, config, ids)
            &&& forall|i: int|
                0 <= i < t.g.len() ==> (#[trigger] t.g[i]).slot == i && !t.g[i].deleted
        },
{
    parsed_nodes(d, d.len() - 4, GRAPH_HEADER_SIZE as int, 0, ids.len());
}

proof fn layer_read_back(d: Seq<u8>, end: int, at: int, list: Seq<int>)
    requires
        0 <= at,
        end <= d.len(),
        list.len() <= u32::MAX,
        forall|j: int| 0 <= j < list.len() ==> 0 <= #[trigger] list[j] <= u32::MAX,
        at + layer_bytes(list).len() <= end,
        d.subrange(at, at + layer_bytes(list).len()) == layer_bytes(list),
    ensures
        parse_layer(d, end, at) == Some((list, at + layer_bytes(list).len())),
        layer_bytes(list).len() == 4 + 4 * list.len(),
{
    let words = as_words(list);
    let whole = d.subrange(at, at + layer_bytes(list).len());
    assert(d.subrange(at, at + 4) =~= whole.subrange(0, 4));
    assert(whole.subrange(0, 4) =~= u32_bytes(list.len() as u32));
    u32_read_back(d, at, list.len() as u32);
    assert(d.subrange(at + 4, at + 4 + 4 * words.len()) =~= whole.subrange(
        4,
        whole.len() as int,
    ));
    assert(whole.subrange(4, whole.len() as int) =~= vector_bytes(words));
    vector_read_back(d, at + 4, words);
    assert(as_nodes(words) =~= list);
}

/// Whether the snapshot's fields can hold the layers of a node.
pub open spec fn layers_hold(layers: Seq<Seq<int>>) -> bool {
    &&& forall|l: int| 0 <= l < layers.len() ==> (#[trigger] layers[l]).len() <= u32::MAX
    &&& forall|l: int, j: int|
        0 <= l < layers.len() && 0 <= j < layers[l].len() ==> 0 <= #[trigger] layers[l][j]
            <= u32::MAX
}

proof fn layers_read_back(d: Seq<u8>, end: int, at: int, layers: Seq<Seq<int>>, from: int)
    requires
        0 <= at,
        end <= d.len(),
        0 <= from <= layers.len(),
        layers_hold(layers),
        at + layers_bytes(layers, from).len() <= end,
        d.subrange(at, at + layers_bytes(layers, from).len()) == layers_bytes(layers, from),
    ensures
        parse_layers(d, end, at, (layers.len() - from) as nat) == Some(
            (layers.skip(from), at + layers_bytes(layers, from).len()),
        ),
    decreases layers.len() - from,
{
    if from == layers.len() {
        assert(layers.skip(from) =~= Seq::empty());
    } else {
        let list = layers[from];
        let b = layer_bytes(list);
        let rest = layers_bytes(layers, from + 1);
        let whole = d.subrange(at, at + layers_bytes(layers, from).len());
        let next = at + b.len();
        assert(d.subrange(at, next) =~= whole.subrange(0, b.len() as int));
        assert(whole.subrange(0, b.len() as int) =~= b);
        assert forall|j: int| 0 <= j < list.len() implies 0 <= #[trigger] list[j] <= u32::MAX by {
            assert(0 <= layers[from][j] <= u32::MAX);
        }
        layer_read_back(d, end, at, list);
        assert(d.subrange(next, next + rest.len()) =~= whole.subrange(
            b.len() as int,
            whole.len() as int,
        ));
        assert(whole.subrange(b.len() as int, whole.len() as int) =~= rest);
        layers_read_back(d, end, next, layers, from + 1);
        assert(seq![list] + layers.skip(from + 1) =~= layers.skip(from));
    }
}

proof fn nodes_read_back(d: Seq<u8>, end: int, at: int, g: Seq<NodeView>, from: int)
    requires
        0 <= at,
        end <= d.len(),
        0 <= from <= g.len(),
        forall|i: int|
            0 <= i < g.len() ==> {
                &&& (#[trigger] g[i]).slot == i
                &&& !g[i].deleted
                &&& g[i].layers.len() <= u32::MAX
                &&& layers_hold(g[i].layers)
            },
        at + nodes_bytes(g, from).len() <= end,
        d.subrange(at, at + nodes_bytes(g, from).len()) == nodes_bytes(g, from),
    ensures
        parse_nodes(d, end, at, from, g.len()) == Some(
            (g.skip(from), at + nodes_bytes(g, from).len()),
        ),
    decreases g.len() - from,
{
    if from == g.len() {
        assert(g.skip(from) =~= Seq::empty());
    } else {
        let node = g[from];
        let b = node_bytes(node);
        let rest = nodes_bytes(g, from + 1);
        let whole = d.subrange(at, at + nodes_bytes(g, from).len());
        let next = at + b.len();
        let layers = layers_bytes(node.layers, 0);
        assert(whole == b + rest);
        assert(d.subrange(at, at + 8) =~= whole.subrange(0, 8));
        assert(whole.subrange(0, 8) =~= u64_bytes(node.id));
        u64_read_back(d, at, node.id);
        assert(d.subrange(at + 8, at + 12) =~= whole.subrange(8, 12));
        assert(whole.subrange(8, 12) =~= u32_bytes(node.layers.len() as u32));
        u32_read_back(d, at + 8, node.layers.len() as u32);
        assert(d.subrange(at + 12, at + 12 + layers.len()) =~= whole.subrange(
            12,
            b.len() as int,
        ));
        assert(whole.subrange(12, b.len() as int) =~= layers);
        layers_read_back(d, end, at + 12, node.layers, 0);
        assert(node.layers.skip(0) =~= node.layers);
        assert(parse_node(d, end, at, from) == Some((node, next)));
        assert(d.subrange(next, next + rest.len()) =~= whole.subrange(
            b.len() as int,
            whole.len() as int,
        ));
        assert(whole.subrange(b.len() as int, whole.len() as int) =~= rest);
        nodes_read_back(d, end, next, g, from + 1);
        assert(seq![node] + g.skip(from + 1) =~= g.skip(from));
    }
}

proof fn layers_bounded(g: Seq<NodeView>, n: nat, i: int)
    requires
        n <= g.len(),
        0 <= i < n,
        forall|x: int|
            0 <= x < g.len() ==> 1 <= (#[trigger] g[x]).layers.len() <= usize::MAX,
    ensures
        g[i].layers.len() <= lists_needed(levels_of(g), n),
        lists_needed(levels_of(g), n) >= 0,
    decreases n,
{
    assert(1 <= g[n - 1].layers.len() <= usize::MAX);
    assert(levels_of(g)[n - 1] + 1 == g[n - 1].layers.len());
    if n > 1 {
        layers_bounded(g, (n - 1) as nat, if i < n - 1 { i } else { 0 });
    } else {
        reveal_with_fuel(lists_needed, 2);
    }
}

/// A graph without its tombstones, which are kept in the store.
pub open spec fn bare(g: Seq<NodeView>) -> Seq<NodeView> {
    Seq::new(g.len(), |i: int| NodeView { deleted: false, ..g[i] })
}

proof fn bare_nodes_bytes(g: Seq<NodeView>, from: int)
    ensures
        0 <= from ==> nodes_bytes(bare(g), from) == nodes_bytes(g, from),
    decreases g.len() - from,
{
    if 0 <= from < g.len() {
        bare_nodes_bytes(g, from + 1);
        assert(node_bytes(bare(g)[from]) == node_bytes(g[from]));
    }
}

/// What the header of a snapshot says, and where its nodes stand.
proof fn header_read_back(t: Topology, config: HnswConfig, max_id: u64)
    ensures
        ({
            let d = graph_bytes(t, config, max_id);
            let body = nodes_bytes(t.g, 0);
            &&& d.len() == 80 + body.len()
            &&& d.subrange(0, 4) == graph_magic()
            &&& d[4] == GRAPH_FORMAT_VERSION
            &&& u64_at(d, 8) == config.m as u64
            &&& u64_at(d, 16) == config.m_max0 as u64
            &&& u64_at(d, 24) == config.ef_construction as u64
            &&& u64_at(d, 32) == config.random_seed
            &&& u64_at(d, 40) == t.g.len() as u64
            &&& u64_at(d, 48) == max_id
            &&& u64_at(d, 56) == entry_word(t.entry)
            &&& u64_at(d, 64) == t.max_level as u64
            &&& u32_at(d, 72) == crc32(d.subrange(0, 72))
            &&& d.subrange(76, d.len() - 4) == body
            &&& u32_at(d, d.len() - 4) == crc32(body)
        }),
{
    let d = graph_bytes(t, config, max_id);
    let header = graph_header(t, config, max_id);
    let body = nodes_bytes(t.g, 0);
    let end = d.len() - 4;
    let words = header_words(t, config, max_id);
    assert(header.len() == 72);
    assert(d.subrange(0, 72) =~= header);
    assert(d.subrange(0, 4) =~= graph_magic());
    header_word(d, words, 0);
    header_word(d, words, 1);
    header_word(d, words, 2);
    header_word(d, words, 3);
    header_word(d, words, 4);
    header_word(d, words, 5);
    header_word(d, words, 6);
    header_word(d, words, 7);
    assert(d.subrange(72, 76) =~= u32_bytes(crc32(header)));
    assert(d.subrange(76, end) =~= body);
    assert(d.subrange(end, d.len() as int) =~= u32_bytes(crc32(body)));
    u32_read_back(d, 72, crc32(header));
    u32_read_back(d, end, crc32(body));
}

proof fn header_word(d: Seq<u8>, words: Seq<u64>, i: int)
    requires
        words.len() == 8,
        d.len() >= 72,
        d.subrange(0, 72) == graph_magic() + seq![GRAPH_FORMAT_VERSION, 0u8, 0u8, 0u8]
            + words_bytes(words),
        0 <= i < 8,
    ensures
        u64_at(d, 8 + 8 * i) == words[i],
{
    let header = d.subrange(0, 72);
    let at = 8 + 8 * i;
    assert forall|j: int| 0 <= j < 8 implies #[trigger] d[at + j] == u64_bytes(words[i])[j] by {
        assert(d[at + j] == header[at + j]);
        assert(header[at + j] == words_bytes(words)[8 * i + j]);
        assert((8 * i + j) / 8 == i && (8 * i + j) % 8 == j);
    }
    let field = d.subrange(at, at + 8);
    assert forall|j: int| 0 <= j < 8 implies #[trigger] field[j] == u64_bytes(words[i])[j] by {
        assert(field[j] == d[at + j]);
    }
    assert(u64_bytes(words[i]).len() == 8);
    assert(field =~= u64_bytes(words[i]));
    u64_read_back(d, at, words[i]);
}

/// A graph matches a store with or without its tombstones.
proof fn bare_matches(t: Topology, config: HnswConfig, ids: Seq<u64>)
    requires
        graph_matches(t, config, ids),
    ensures
        graph_matches((Topology { g: bare(t.g), ..t }), config, ids),
{
    let u = Topology { g: bare(t.g), ..t };
    let g = u.g;
    assert(levels_of(g) =~= levels_of(t.g));
    assert forall|i: int| 0 <= i < g.len() implies (#[trigger] g[i]).layers == t.g[i].layers
        && g[i].id == ids[i] by {
        assert(t.g[i].id == ids[i]);
    }
    assert forall|i: int| 0 <= i < g.len() implies (#[trigger] g[i]).layers.len() >= 1 by {
        assert(t.g[i].layers.len() >= 1);
    }
    assert forall|i: int, l: int| 0 <= i < g.len() && 0 <= l < g[i].layers.len() implies (
    #[trigger] g[i].layers[l]).len() <= capacity(config.m as int, config.m_max0 as int, l) by {
        assert(t.g[i].layers[l].len() <= capacity(config.m as int, config.m_max0 as int, l));
    }
    assert forall|i: int, l: int, j: int|
        0 <= i < g.len() && 0 <= l < g[i].layers.len() && 0 <= j < g[i].layers[l].len() implies 0
        <= #[trigger] g[i].layers[l][j] < g.len() by {
        assert(0 <= t.g[i].layers[l][j] < t.g.len());
    }
    assert(topology_wf(u)) by {
        if let Some(e) = t.entry {
            assert forall|i: int| 0 <= i < g.len() implies (#[trigger] g[i]).layers.len()
                <= t.max_level + 1 by {
                assert(t.g[i].layers.len() <= t.max_level + 1);
            }
        }
    }
}

/// A graph is read back from its snapshot, but for the tombstones.
pub proof fn graph_round_trip(t: Topology, config: HnswConfig, ids: Seq<u64>, max_id: u64)
    requires
        config.fits(),
        graph_matches(t, config, ids),
        0 <= t.max_level < u64::MAX,
        forall|i: int|
            0 <= i < t.g.len() ==> (#[trigger] t.g[i]).slot == i && t.g[i].layers.len()
                <= usize::MAX,
    ensures
        restore_graph(graph_bytes(t, config, max_id), config, ids, max_id) == Some(
            (Topology { g: bare(t.g), ..t }),
        ),
{
    let d = graph_bytes(t, config, max_id);
    let g = bare(t.g);
    let end = d.len() - 4;
    bare_nodes_bytes(t.g, 0);
    header_read_back(t, config, max_id);
    bare_matches(t, config, ids);
    assert forall|x: int| 0 <= x < t.g.len() implies 1 <= (#[trigger] t.g[x]).layers.len()
        <= usize::MAX by {}
    assert forall|i: int| 0 <= i < g.len() implies {
        &&& (#[trigger] g[i]).slot == i
        &&& !g[i].deleted
        &&& g[i].layers.len() <= u32::MAX
        &&& layers_hold(g[i].layers)
    } by {
        layers_bounded(t.g, t.g.len(), i);
        assert(t.g[i].slot == i);
        assert(g[i].layers == t.g[i].layers);
        assert forall|l: int| 0 <= l < g[i].layers.len() implies (#[trigger] g[i].layers[l]).len()
            <= u32::MAX by {
            assert(t.g[i].layers[l].len() <= capacity(config.m as int, config.m_max0 as int, l));
        }
        assert forall|l: int, j: int|
            0 <= l < g[i].layers.len() && 0 <= j < g[i].layers[l].len() implies 0
            <= #[trigger] g[i].layers[l][j] <= u32::MAX by {
            assert(0 <= t.g[i].layers[l][j] < t.g.len());
        }
    }
    nodes_read_back(d, end, 76, g, 0);
    assert(g.skip(0) =~= g);
    assert(entry_of(entry_word(t.entry)) == t.entry);
    assert(t.g.len() == ids.len());
    assert(t.max_level as u64 as int == t.max_level);
}

/// A graph snapshot is taken up only where both checksums are right, it was made
/// with the same parameters and of this very store, and what it holds is a graph:
/// every list is of a length that is allowed and leads to nodes, and the entry point
/// is in the highest layer.
pub proof fn accepted_graph_checks_out(d: Seq<u8>, config: HnswConfig, ids: Seq<u64>, max_id: u64)
    ensures
        restore_graph(d, config, ids, max_id) matches Some(t) ==> {
            &&& d.len() >= 80
            &&& u32_at(d, 72) == crc32(d.subrange(0, 72))
            &&& u32_at(d, d.len() - 4) == crc32(d.subrange(76, d.len() - 4))
            &&& u64_at(d, 8) == config.m && u64_at(d, 16) == config.m_max0 && u64_at(d, 24)
                == config.ef_construction && u64_at(d, 32) == config.random_seed
            &&& u64_at(d, 40) == ids.len() && u64_at(d, 48) == max_id
            &&& t.g.len() == ids.len()
            &&& forall|i: int|
                0 <= i < t.g.len() ==> {
                    &&& (#[trigger] t.g[i]).slot == i
                    &&& t.g[i].id == ids[i]
                    &&& !t.g[i].deleted
                    &&& 1 <= t.g[i].layers.len() <= t.max_level + 1
                }
            &&& forall|i: int, l: int|
                0 <= i < t.g.len() && 0 <= l < t.g[i].layers.len() ==> (
                #[trigger] t.g[i].layers[l]).len() <= (if l == 0 { config.m_max0 } else {
                    config.m
                })
            &&& forall|i: int, l: int, j: int|
                0 <= i < t.g.len() && 0 <= l < t.g[i].layers.len() && 0 <= j
                    < t.g[i].layers[l].len() ==> 0 <= #[trigger] t.g[i].layers[l][j] < t.g.len()
            &&& t.g.len() == 0 <==> t.entry is None
            &&& t.entry matches Some(e) ==> 0 <= e < t.g.len() && t.g[e].layers.len()
                == t.max_level + 1
            &&& t.entry matches Some(e) ==> u64_at(d, 56) == e + 1
        },
{
    restored_nodes(d, config, ids, max_id);
}

} // verus!
