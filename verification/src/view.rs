//! The bridge to an external Graphviz renderer: lay the enumerated
//! subgraph out as a petgraph graph — one "record" node per value node,
//! one "circle" node per operation — and format it as a dot description.
//!
//! Scalars have no textual form inside the library, so the caller hands
//! in one display label per enumerated node; everything else about the
//! drawing is computed and verified here.

use vstd::prelude::*;

use crate::traverse::{
    dfs_init, dfs_node, lemma_dfs_node_bounds, lemma_dfs_node_closed, lemma_dfs_node_edge_consumers,
    lemma_dfs_node_sets, lemma_enumeration_complete, trace_edges, trace_node_ids,
};
use crate::value::{graph_wf, node_wf, op_sym, NodeV, Tape, Value};

verus! {

/// One drawable node handed to petgraph: a display label and a Graphviz
/// shape.
#[derive(Debug)]
pub struct NodeData {
    pub label: String,
    pub shape: String,
}

impl NodeData {
    /// A drawable node with the given label and shape.
    pub fn new(label: String, shape: String) -> (n: NodeData)
        ensures
            n.label == label,
            n.shape == shape,
    {
        NodeData { label, shape }
    }
}

/// The drawable nodes of the petgraph graph, in insertion order, each as
/// its label and shape text.
pub uninterp spec fn dot_nodes(g: petgraph::graph::Graph<NodeData, ()>) -> Seq<
    (Seq<char>, Seq<char>),
>;

/// The edges of the petgraph graph, in insertion order, as index pairs.
pub uninterp spec fn dot_edges(g: petgraph::graph::Graph<NodeData, ()>) -> Seq<(int, int)>;

/// The dot text that petgraph renders for a graph with the given nodes
/// and edges; a function of the two sequences alone.
pub uninterp spec fn dot_render(
    nodes: Seq<(Seq<char>, Seq<char>)>,
    edges: Seq<(int, int)>,
) -> Seq<char>;

#[verifier::external_type_specification]
#[verifier::external_body]
pub struct ExDirected(petgraph::Directed);

#[verifier::external_type_specification]
#[verifier::external_body]
#[verifier::reject_recursive_types(N)]
#[verifier::reject_recursive_types(E)]
#[verifier::reject_recursive_types(Ty)]
#[verifier::reject_recursive_types(Ix)]
pub struct ExPetgraph<N, E, Ty, Ix>(petgraph::graph::Graph<N, E, Ty, Ix>);

/// Relies on petgraph::Graph::new: a graph with no nodes and no edges.
#[verifier::external_body]
fn dot_graph_new() -> (g: petgraph::graph::Graph<NodeData, ()>)
    ensures
        dot_nodes(g) == Seq::<(Seq<char>, Seq<char>)>::empty(),
        dot_edges(g) == Seq::<(int, int)>::empty(),
{
    petgraph::graph::Graph::new()
}

/// Relies on petgraph::Graph::add_node: appends one node and returns its
/// index, which petgraph assigns sequentially from zero; it panics only
/// at the index type's limit, which the bound below keeps away.
#[verifier::external_body]
fn dot_add_node(g: &mut petgraph::graph::Graph<NodeData, ()>, w: NodeData) -> (ix: usize)
    requires
        dot_nodes(*old(g)).len() < 0xFFFF_FFFF,
    ensures
        dot_nodes(*final(g)) == dot_nodes(*old(g)).push((w.label@, w.shape@)),
        dot_edges(*final(g)) == dot_edges(*old(g)),
        ix == dot_nodes(*old(g)).len(),
{
    g.add_node(w).index()
}

/// Relies on petgraph::Graph::add_edge: appends one directed edge from
/// `a` to `b`; it panics only on an out-of-range endpoint or at the index
/// type's limit, which the bounds below keep away.
#[verifier::external_body]
fn dot_add_edge(g: &mut petgraph::graph::Graph<NodeData, ()>, a: usize, b: usize)
    requires
        a < dot_nodes(*old(g)).len(),
        b < dot_nodes(*old(g)).len(),
        dot_edges(*old(g)).len() < 0xFFFF_FFFF,
    ensures
        dot_nodes(*final(g)) == dot_nodes(*old(g)),
        dot_edges(*final(g)) == dot_edges(*old(g)).push((a as int, b as int)),
{
    g.add_edge(
        petgraph::graph::NodeIndex::new(a),
        petgraph::graph::NodeIndex::new(b),
        (),
    );
}

/// Relies on petgraph::dot::Dot::with_attr_getters and the Debug
/// formatting of the graph: left-to-right rank direction, no edge
/// labels, and one `label`/`shape` attribute pair per node, so the text
/// depends on the nodes and edges alone.
#[verifier::external_body]
fn dot_format(g: &petgraph::graph::Graph<NodeData, ()>) -> (s: String)
    ensures
        s@ == dot_render(dot_nodes(*g), dot_edges(*g)),
{
    let attrs = |_, n: (petgraph::graph::NodeIndex, &NodeData)|
        format!("label=\"{}\" shape={}", n.1.label, n.1.shape);
    format!(
        "{:?}",
        petgraph::dot::Dot::with_attr_getters(
            g,
            &[
                petgraph::dot::Config::EdgeNoLabel,
                petgraph::dot::Config::RankDir(petgraph::dot::RankDir::LR),
            ],
            &|_, _| String::new(),
            &attrs,
        ),
    )
}

/// The operation symbol of each enumerated node, `None` on a leaf.
pub open spec fn trace_syms(g: Seq<NodeV>, ids: Seq<usize>) -> Seq<Option<Seq<char>>> {
    Seq::new(
        ids.len(),
        |k: int|
            if g[ids[k] as int].op is Leaf {
                None
            } else {
                Some(op_sym(g[ids[k] as int].op))
            },
    )
}

/// How many drawable nodes the first `k` enumerated nodes yield: one
/// record each, plus one circle for each that has an operation.
pub open spec fn layout_len(syms: Seq<Option<Seq<char>>>, k: int) -> int
    decreases k,
{
    if k <= 0 {
        0
    } else {
        layout_len(syms, k - 1) + (if syms[k - 1] is Some {
            2int
        } else {
            1int
        })
    }
}

/// The drawable nodes for the first `k` enumerated nodes: the record
/// carrying the node's label, then, for an operation node, the circle
/// carrying its symbol.
pub open spec fn layout_nodes(
    labels: Seq<Seq<char>>,
    syms: Seq<Option<Seq<char>>>,
    k: int,
) -> Seq<(Seq<char>, Seq<char>)>
    decreases k,
{
    if k <= 0 {
        Seq::empty()
    } else {
        let pre = layout_nodes(labels, syms, k - 1).push((labels[k - 1], "record"@));
        match syms[k - 1] {
            Some(s) => pre.push((s, "circle"@)),
            None => pre,
        }
    }
}

/// The circle-to-record edges of the first `k` enumerated nodes: each
/// operation circle feeds its own record.
pub open spec fn layout_op_edges(syms: Seq<Option<Seq<char>>>, k: int) -> Seq<(int, int)>
    decreases k,
{
    if k <= 0 {
        Seq::empty()
    } else {
        let pre = layout_op_edges(syms, k - 1);
        match syms[k - 1] {
            Some(_) => pre.push((layout_len(syms, k - 1) + 1, layout_len(syms, k - 1))),
            None => pre,
        }
    }
}

/// The position of enumerated node `x` in the enumeration.
pub open spec fn pos_in(ids: Seq<usize>, x: usize) -> int {
    choose|k: int| 0 <= k < ids.len() && ids[k] == x
}

/// Where an edge into enumerated position `p` attaches: the node's
/// operation circle when it has one, else its record.
pub open spec fn target_idx(syms: Seq<Option<Seq<char>>>, p: int) -> int {
    if syms[p] is Some {
        layout_len(syms, p) + 1
    } else {
        layout_len(syms, p)
    }
}

/// The drawable edges for the first `j` operand edges: from the
/// operand's record to the consumer's circle (or record, on a leaf
/// consumer, which cannot occur for a consumer).
pub open spec fn layout_trace_edges(
    ids: Seq<usize>,
    syms: Seq<Option<Seq<char>>>,
    edges: Seq<(usize, usize)>,
    j: int,
) -> Seq<(int, int)>
    decreases j,
{
    if j <= 0 {
        Seq::empty()
    } else {
        layout_trace_edges(ids, syms, edges, j - 1).push(
            (
                layout_len(syms, pos_in(ids, edges[j - 1].0)),
                target_idx(syms, pos_in(ids, edges[j - 1].1)),
            ),
        )
    }
}

/// The whole dot description of the subgraph under `root`, given one
/// display label per enumerated node.
pub open spec fn dot_description(g: Seq<NodeV>, root: usize, labels: Seq<Seq<char>>) -> Seq<char> {
    let ids = trace_node_ids(g, root);
    let syms = trace_syms(g, ids);
    let edges = trace_edges(g, root);
    dot_render(
        layout_nodes(labels, syms, ids.len() as int),
        layout_op_edges(syms, ids.len() as int) + layout_trace_edges(
            ids,
            syms,
            edges,
            edges.len() as int,
        ),
    )
}

/// Drawable-node counts stay between `k` and `2 k`.
proof fn lemma_layout_len_bounds(syms: Seq<Option<Seq<char>>>, k: int)
    requires
        0 <= k,
    ensures
        k <= layout_len(syms, k) <= 2 * k,
    decreases k,
{
    if k > 0 {
        lemma_layout_len_bounds(syms, k - 1);
    }
}

/// The drawable-node sequence has exactly `layout_len` entries.
proof fn lemma_layout_nodes_len(labels: Seq<Seq<char>>, syms: Seq<Option<Seq<char>>>, k: int)
    ensures
        layout_nodes(labels, syms, k).len() == layout_len(syms, k),
    decreases k,
{
    if k > 0 {
        lemma_layout_nodes_len(labels, syms, k - 1);
    }
}

/// Op-edge counts never exceed `k`.
proof fn lemma_layout_op_edges_len(syms: Seq<Option<Seq<char>>>, k: int)
    requires
        0 <= k,
    ensures
        0 <= layout_op_edges(syms, k).len() <= k,
    decreases k,
{
    if k > 0 {
        lemma_layout_op_edges_len(syms, k - 1);
    }
}

impl Value {
    /// The dot description of the subgraph reachable from this node, for
    /// an external renderer to turn into an image. `labels` holds one
    /// display text per enumerated node, in enumeration order — the
    /// caller formats the scalar values. The two size bounds keep
    /// petgraph's node- and edge-index types from overflowing.
    pub fn to_dot(&self, g: &Tape, labels: &Vec<String>) -> (r: String)
        requires
            g.wf(),
            self.id < g@.len(),
            labels@.len() == trace_node_ids(g@, self.id).len(),
            labels@.len() < 0x4000_0000,
            trace_edges(g@, self.id).len() < 0x7FFF_FFFF,
        ensures
            r@ == dot_description(g@, self.id, labels@.map_values(|s: String| s@)),
    {
        let ghost gv = g@;
        let ghost ids = trace_node_ids(gv, self.id);
        let ghost syms = trace_syms(gv, ids);
        let ghost lv = labels@.map_values(|s: String| s@);
        proof {
            lemma_enumeration_complete(gv, self.id);
            lemma_dfs_node_bounds(gv, self.id, dfs_init());
            lemma_dfs_node_sets(gv, self.id, dfs_init());
            lemma_dfs_node_closed(gv, self.id, dfs_init(), Set::empty());
            lemma_dfs_node_edge_consumers(gv, self.id, dfs_init());
        }
        let (nodes, edges) = self.trace(g);
        let n = nodes.len();
        proof {
            assert(nodes@.len() == ids.len());
            assert(g@.len() == g.nodes@.len());
        }
        // Positions of arena ids inside the enumeration.
        let mut pos: Vec<usize> = Vec::new();
        let glen = g.nodes.len();
        let mut t: usize = 0;
        while t < glen
            invariant
                t <= glen,
                pos@.len() == t,
            decreases glen - t,
        {
            pos.push(0);
            t = t + 1;
        }
        let mut k: usize = 0;
        while k < n
            invariant
                k <= n,
                n == ids.len(),
                pos@.len() == gv.len(),
                forall|kk: int| 0 <= kk < nodes@.len() ==> (#[trigger] nodes@[kk]).id == ids[kk],
                forall|kk: int| 0 <= kk < ids.len() ==> (#[trigger] ids[kk]) < gv.len(),
                ids.no_duplicates(),
                nodes@.len() == n,
                forall|kk: int| 0 <= kk < k ==> pos@[(#[trigger] ids[kk]) as int] == kk,
            decreases n - k,
        {
            pos.set(nodes[k].id, k);
            proof {
                assert forall|kk: int| 0 <= kk < k + 1 implies pos@[(#[trigger] ids[kk]) as int]
                    == kk by {
                    if kk < k {
                        assert(ids[kk] != ids[k as int]);
                    }
                }
            }
            k = k + 1;
        }
        // Drawable nodes: a record per enumerated node, a circle per
        // operation, and the circle-to-record edges.
        let mut pg = dot_graph_new();
        let mut rec: Vec<usize> = Vec::new();
        let mut k: usize = 0;
        while k < n
            invariant
                k <= n,
                n == ids.len(),
                n == labels@.len(),
                n == nodes@.len(),
                n < 0x4000_0000,
                lv == labels@.map_values(|s: String| s@),
                syms == trace_syms(gv, ids),
                forall|kk: int| 0 <= kk < ids.len() ==> (#[trigger] ids[kk]) < gv.len(),
                forall|kk: int|
                    0 <= kk < nodes@.len() ==> crate::traverse::dv_matches(
                        gv,
                        #[trigger] nodes@[kk],
                        ids[kk],
                    ),
                dot_nodes(pg) == layout_nodes(lv, syms, k as int),
                dot_edges(pg) == layout_op_edges(syms, k as int),
                rec@.len() == k,
                forall|kk: int| 0 <= kk < k ==> (#[trigger] rec@[kk]) == layout_len(syms, kk),
            decreases n - k,
        {
            proof {
                lemma_layout_len_bounds(syms, k as int);
                lemma_layout_nodes_len(lv, syms, k as int);
                lemma_layout_op_edges_len(syms, k as int);
                assert(crate::traverse::dv_matches(gv, nodes@[k as int], ids[k as int]));
            }
            let ri = dot_add_node(&mut pg, NodeData::new(labels[k].clone(), String::from_str("record")));
            rec.push(ri);
            match &nodes[k].op {
                Some(sym) => {
                    proof {
                        lemma_layout_nodes_len(lv, syms, k as int);
                    }
                    let ci = dot_add_node(&mut pg, NodeData::new(sym.clone(), String::from_str("circle")));
                    dot_add_edge(&mut pg, ci, ri);
                    proof {
                        assert(syms[k as int] is Some);
                        assert(syms[k as int]->0 == op_sym(gv[ids[k as int] as int].op));
                        assert(dot_nodes(pg) == layout_nodes(lv, syms, k as int + 1));
                        assert(dot_edges(pg) == layout_op_edges(syms, k as int + 1));
                    }
                },
                None => {
                    proof {
                        assert(syms[k as int] is None);
                        assert(dot_nodes(pg) == layout_nodes(lv, syms, k as int + 1));
                        assert(dot_edges(pg) == layout_op_edges(syms, k as int + 1));
                    }
                },
            }
            proof {
                assert forall|kk: int| 0 <= kk < k + 1 implies (#[trigger] rec@[kk]) == layout_len(
                    syms,
                    kk,
                ) by {
                    if kk == k {
                        lemma_layout_nodes_len(lv, syms, k as int);
                    }
                }
            }
            k = k + 1;
        }
        // The operand edges, each from the operand's record to the
        // consumer's operation circle.
        let ghost tre = trace_edges(gv, self.id);
        let ghost full_vis = dfs_node(gv, self.id, dfs_init()).vis;
        let m = edges.len();
        let mut j: usize = 0;
        while j < m
            invariant
                j <= m,
                m == tre.len(),
                m < 0x7FFF_FFFF,
                n == ids.len(),
                n < 0x4000_0000,
                edges@ == tre,
                syms == trace_syms(gv, ids),
                lv == labels@.map_values(|s: String| s@),
                n == labels@.len(),
                graph_wf(gv),
                gv == g@,
                ids.no_duplicates(),
                forall|kk: int| 0 <= kk < ids.len() ==> (#[trigger] ids[kk]) < gv.len(),
                forall|x: usize| #[trigger] ids.contains(x) <==> full_vis.contains(x),
                crate::traverse::closed_except(gv, full_vis, Set::empty()),
                forall|jj: int|
                    0 <= jj < tre.len() ==> full_vis.contains((#[trigger] tre[jj]).1),
                forall|jj: int|
                    0 <= jj < tre.len() ==> (#[trigger] tre[jj]).1 < gv.len() && gv[tre[jj].1 as int].prev.contains(tre[jj].0),
                pos@.len() == gv.len(),
                forall|kk: int| 0 <= kk < ids.len() ==> pos@[(#[trigger] ids[kk]) as int] == kk,
                rec@.len() == n,
                forall|kk: int| 0 <= kk < n ==> (#[trigger] rec@[kk]) == layout_len(syms, kk),
                nodes@.len() == n,
                forall|kk: int|
                    0 <= kk < nodes@.len() ==> crate::traverse::dv_matches(
                        gv,
                        #[trigger] nodes@[kk],
                        ids[kk],
                    ),
                dot_nodes(pg) == layout_nodes(lv, syms, n as int),
                dot_edges(pg) == layout_op_edges(syms, n as int) + layout_trace_edges(
                    ids,
                    syms,
                    tre,
                    j as int,
                ),
            decreases m - j,
        {
            let (c, v) = edges[j];
            proof {
                assert(tre[j as int] == (c, v));
                assert(full_vis.contains(v));
                assert(ids.contains(v));
                assert(gv[v as int].prev.contains(c));
                assert(full_vis.contains(c)) by {
                    let kk = choose|kk: int|
                        0 <= kk < gv[v as int].prev.len() && gv[v as int].prev[kk] == c;
                    assert(full_vis.contains(gv[v as int].prev[kk]));
                }
                assert(ids.contains(c));
                let pc = pos_in(ids, c);
                let pv = pos_in(ids, v);
                assert(0 <= pc < ids.len() && ids[pc] == c) by {
                    let w = choose|w: int| 0 <= w < ids.len() && ids[w] == c;
                    assert(0 <= w < ids.len() && ids[w] == c);
                }
                assert(0 <= pv < ids.len() && ids[pv] == v) by {
                    let w = choose|w: int| 0 <= w < ids.len() && ids[w] == v;
                    assert(0 <= w < ids.len() && ids[w] == v);
                }
                assert(pos@[c as int] == pc);
                assert(pos@[v as int] == pv);
                lemma_layout_nodes_len(lv, syms, n as int);
                lemma_layout_len_bounds(syms, n as int);
                lemma_layout_op_edges_len(syms, n as int);
                lemma_layout_trace_edges_len(ids, syms, tre, j as int);
            }
            let pc = pos[c];
            let pv = pos[v];
            proof {
                lemma_layout_len_bounds(syms, pc as int);
                lemma_layout_len_bounds(syms, pv as int);
                lemma_layout_len_mono(syms, pc as int + 1, n as int);
                lemma_layout_len_mono(syms, pv as int + 1, n as int);
                // The consumer of an operand edge is no leaf.
                assert(node_wf(gv, v as int));
                assert(crate::traverse::dv_matches(gv, nodes@[pos_in(ids, v)], v));
                assert(!(gv[v as int].op is Leaf)) by {
                    if gv[v as int].op is Leaf {
                        assert(gv[v as int].prev.len() == 0);
                        let kk = choose|kk: int|
                            0 <= kk < gv[v as int].prev.len() && gv[v as int].prev[kk] == c;
                    }
                }
                assert(syms[pos_in(ids, v)] is Some);
            }
            let a = rec[pc];
            let b = rec[pv] + 1;
            dot_add_edge(&mut pg, a, b);
            j = j + 1;
        }
        proof {
            assert(dot_edges(pg) == layout_op_edges(syms, n as int) + layout_trace_edges(
                ids,
                syms,
                tre,
                tre.len() as int,
            ));
        }
        dot_format(&pg)
    }
}

/// One drawable edge per operand edge.
proof fn lemma_layout_trace_edges_len(
    ids: Seq<usize>,
    syms: Seq<Option<Seq<char>>>,
    edges: Seq<(usize, usize)>,
    j: int,
)
    requires
        0 <= j,
    ensures
        layout_trace_edges(ids, syms, edges, j).len() == j,
    decreases j,
{
    if j > 0 {
        lemma_layout_trace_edges_len(ids, syms, edges, j - 1);
    }
}

/// Drawable-node counts grow with the prefix length.
proof fn lemma_layout_len_mono(syms: Seq<Option<Seq<char>>>, a: int, b: int)
    requires
        0 <= a <= b,
    ensures
        layout_len(syms, a) <= layout_len(syms, b),
    decreases b - a,
{
    if a < b {
        lemma_layout_len_mono(syms, a, b - 1);
    }
}

} // verus!
