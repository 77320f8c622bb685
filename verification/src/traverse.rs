//! Tape traversal: the depth-first walk shared by differentiation and
//! enumeration, the reverse-mode gradient pass, and the flattened view of
//! a graph for external rendering.
//!
//! The walk is modelled once, by [`dfs_node`]: a depth-first visit guarded
//! by a visited set, recording nodes in discovery order (`disc`), in
//! post-order (`post`, operands before consumers), and every operand edge
//! met on the way (`edges`). The executable functions are proved equal to
//! this model, and the model's properties are proved as lemmas.

use vstd::multiset::Multiset;
use vstd::prelude::*;

use crate::scalar::{
    add_bits, add_bits_exec, mul_bits, mul_bits_exec, sub_bits, sub_bits_exec, F64_ONE_BITS,
    F64_TWO_BITS,
};
use crate::value::{
    graph_wf, node_wf, nodes_view, set_grad, set_grad_exec, Tape, InternalValue, NodeV, Op, Value,
};

verus! {

/// The state carried through the depth-first walk.
pub ghost struct DfsState {
    /// Indices already visited.
    pub vis: Set<usize>,
    /// Post-order: a node follows all nodes reachable from it.
    pub post: Seq<usize>,
    /// Discovery order: a node precedes all nodes first found below it.
    pub disc: Seq<usize>,
    /// Operand edges `(operand, consumer)`, one per stored operand slot.
    pub edges: Seq<(usize, usize)>,
}

/// The walk's starting state: nothing visited, nothing recorded.
pub open spec fn dfs_init() -> DfsState {
    DfsState { vis: Set::empty(), post: Seq::empty(), disc: Seq::empty(), edges: Seq::empty() }
}

/// Depth-first visit of node `v`: already-visited or out-of-range nodes
/// change nothing; otherwise `v` is marked and discovered, its operands
/// are walked in order, and `v` is appended to the post-order.
pub open spec fn dfs_node(g: Seq<NodeV>, v: usize, st: DfsState) -> DfsState
    decreases v, 1int, 0int,
{
    if v >= g.len() || st.vis.contains(v) {
        st
    } else {
        let st1 = DfsState {
            vis: st.vis.insert(v),
            post: st.post,
            disc: st.disc.push(v),
            edges: st.edges,
        };
        let st2 = dfs_kids(g, g[v as int].prev, v, st1);
        DfsState { vis: st2.vis, post: st2.post.push(v), disc: st2.disc, edges: st2.edges }
    }
}

/// Walk the operand list `kids` of the consumer `bound`, recording one
/// edge per operand slot before descending into the operand.
pub open spec fn dfs_kids(g: Seq<NodeV>, kids: Seq<usize>, bound: usize, st: DfsState) -> DfsState
    decreases bound, 0int, kids.len(),
{
    if kids.len() == 0 {
        st
    } else {
        let c = kids[0];
        let ste = DfsState {
            vis: st.vis,
            post: st.post,
            disc: st.disc,
            edges: st.edges.push((c, bound)),
        };
        let st2 = if c < bound {
            dfs_node(g, c, ste)
        } else {
            ste
        };
        dfs_kids(g, kids.drop_first(), bound, st2)
    }
}

/// The set of nodes reachable from `v` through operand links, `v` included.
pub open spec fn reach_node(g: Seq<NodeV>, v: usize) -> Set<usize>
    decreases v, 1int, 0int,
{
    if v >= g.len() {
        set![v]
    } else {
        set![v].union(reach_kids(g, g[v as int].prev, v))
    }
}

/// The union of what is reachable from each operand in `kids`.
pub open spec fn reach_kids(g: Seq<NodeV>, kids: Seq<usize>, bound: usize) -> Set<usize>
    decreases bound, 0int, kids.len(),
{
    if kids.len() == 0 {
        Set::empty()
    } else {
        let head = if kids[0] < bound {
            reach_node(g, kids[0])
        } else {
            Set::empty()
        };
        head.union(reach_kids(g, kids.drop_first(), bound))
    }
}

/// The topological order used by the gradient pass: a full depth-first
/// walk from `root` on a fresh state; operands precede consumers.
pub open spec fn topo_order(g: Seq<NodeV>, root: usize) -> Seq<usize> {
    dfs_node(g, root, dfs_init()).post
}

/// The node indices of the enumeration, in discovery order.
pub open spec fn trace_node_ids(g: Seq<NodeV>, root: usize) -> Seq<usize> {
    dfs_node(g, root, dfs_init()).disc
}

/// The operand edges of the enumeration, as `(operand, consumer)` pairs.
pub open spec fn trace_edges(g: Seq<NodeV>, root: usize) -> Seq<(usize, usize)> {
    dfs_node(g, root, dfs_init()).edges
}

/// Add `d` into the gradient accumulator of node `i`.
pub open spec fn acc_grad(g: Seq<NodeV>, i: int, d: u64) -> Seq<NodeV> {
    set_grad(g, i, add_bits(g[i].grad, d))
}

/// One node's backward rule: push the node's current gradient, scaled by
/// the local derivative, into each operand's accumulator. An aliased
/// binary node (both operand slots were one node) pushes both
/// contributions at once: twice the gradient for `x + x`, nothing for
/// `x - x` (the two contributions cancel), and twice `x` times the
/// gradient for `x * x`. Leaves have no rule.
pub open spec fn apply_rule(g: Seq<NodeV>, v: usize) -> Seq<NodeV> {
    if v >= g.len() || !node_wf(g, v as int) {
        g
    } else {
        let n = g[v as int];
        let og = n.grad;
        match n.op {
            Op::Leaf => g,
            Op::Tanh => acc_grad(
                g,
                n.prev[0] as int,
                mul_bits(sub_bits(F64_ONE_BITS, mul_bits(n.data, n.data)), og),
            ),
            Op::Add => if n.alias {
                acc_grad(g, n.prev[0] as int, mul_bits(F64_TWO_BITS, og))
            } else {
                acc_grad(acc_grad(g, n.prev[0] as int, og), n.prev[1] as int, og)
            },
            Op::Sub => if n.alias {
                g
            } else {
                let g1 = acc_grad(g, n.prev[0] as int, og);
                set_grad(g1, n.prev[1] as int, sub_bits(g1[n.prev[1] as int].grad, og))
            },
            Op::Mul => if n.alias {
                acc_grad(
                    g,
                    n.prev[0] as int,
                    mul_bits(mul_bits(F64_TWO_BITS, g[n.prev[0] as int].data), og),
                )
            } else {
                let g1 = acc_grad(g, n.prev[0] as int, mul_bits(g[n.prev[1] as int].data, og));
                acc_grad(g1, n.prev[1] as int, mul_bits(g[n.prev[0] as int].data, og))
            },
        }
    }
}

/// Apply the backward rules of `order` from its last element to its first.
pub open spec fn apply_rules_rev(g: Seq<NodeV>, order: Seq<usize>) -> Seq<NodeV>
    decreases order.len(),
{
    if order.len() == 0 {
        g
    } else {
        apply_rules_rev(apply_rule(g, order.last()), order.drop_last())
    }
}

/// What differentiation from `root` does to the whole arena: seed the
/// root's gradient with 1.0 (leaving every other accumulator as it was),
/// then run every reachable node's backward rule exactly once, consumers
/// before operands.
pub open spec fn backward_model(g: Seq<NodeV>, root: usize) -> Seq<NodeV> {
    apply_rules_rev(set_grad(g, root as int, F64_ONE_BITS), topo_order(g, root))
}

/// The visited set described by a boolean marker vector.
pub open spec fn vis_set(b: Seq<bool>) -> Set<usize> {
    Set::new(|i: usize| i < b.len() && b[i as int])
}

/// Bounds of a depth-first visit: records only grow, nothing visited is
/// forgotten, and every newly recorded node lies at or below `v` (indices
/// only decrease along operand links) and inside the arena.
pub proof fn lemma_dfs_node_bounds(g: Seq<NodeV>, v: usize, st: DfsState)
    requires
        graph_wf(g),
        v < g.len(),
    ensures
        ({
            let r = dfs_node(g, v, st);
            &&& st.vis.subset_of(r.vis)
            &&& r.vis.contains(v)
            &&& r.post.len() >= st.post.len()
            &&& forall|j: int| 0 <= j < st.post.len() ==> r.post[j] == st.post[j]
            &&& forall|j: int|
                st.post.len() <= j < r.post.len() ==> (#[trigger] r.post[j]) <= v && r.post[j]
                    < g.len()
            &&& r.disc.len() >= st.disc.len()
            &&& forall|j: int| 0 <= j < st.disc.len() ==> r.disc[j] == st.disc[j]
            &&& forall|j: int|
                st.disc.len() <= j < r.disc.len() ==> (#[trigger] r.disc[j]) <= v && r.disc[j]
                    < g.len()
            &&& r.edges.len() >= st.edges.len()
            &&& forall|j: int| 0 <= j < st.edges.len() ==> r.edges[j] == st.edges[j]
            &&& forall|j: int|
                st.edges.len() <= j < r.edges.len() ==> (#[trigger] r.edges[j]).1 <= v
                    && r.edges[j].1 < g.len() && g[r.edges[j].1 as int].prev.contains(
                    r.edges[j].0,
                )
        }),
    decreases v, 1int, 0int,
{
    let r = dfs_node(g, v, st);
    if st.vis.contains(v) {
    } else {
        let st1 = DfsState {
            vis: st.vis.insert(v),
            post: st.post,
            disc: st.disc.push(v),
            edges: st.edges,
        };
        assert(node_wf(g, v as int));
        lemma_dfs_kids_bounds(g, g[v as int].prev, v, st1);
    }
}

/// Bounds of the operand walk; every operand in `kids` lies below `bound`.
pub proof fn lemma_dfs_kids_bounds(g: Seq<NodeV>, kids: Seq<usize>, bound: usize, st: DfsState)
    requires
        graph_wf(g),
        bound < g.len(),
        forall|k: int| 0 <= k < kids.len() ==> (#[trigger] kids[k]) < bound,
        forall|k: int| 0 <= k < kids.len() ==> g[bound as int].prev.contains(#[trigger] kids[k]),
    ensures
        ({
            let r = dfs_kids(g, kids, bound, st);
            &&& st.vis.subset_of(r.vis)
            &&& r.post.len() >= st.post.len()
            &&& forall|j: int| 0 <= j < st.post.len() ==> r.post[j] == st.post[j]
            &&& forall|j: int|
                st.post.len() <= j < r.post.len() ==> (#[trigger] r.post[j]) < bound && r.post[j]
                    < g.len()
            &&& r.disc.len() >= st.disc.len()
            &&& forall|j: int| 0 <= j < st.disc.len() ==> r.disc[j] == st.disc[j]
            &&& forall|j: int|
                st.disc.len() <= j < r.disc.len() ==> (#[trigger] r.disc[j]) < bound && r.disc[j]
                    < g.len()
            &&& r.edges.len() >= st.edges.len()
            &&& forall|j: int| 0 <= j < st.edges.len() ==> r.edges[j] == st.edges[j]
            &&& forall|j: int|
                st.edges.len() <= j < r.edges.len() ==> (#[trigger] r.edges[j]).1 <= bound
                    && r.edges[j].1 < g.len() && g[r.edges[j].1 as int].prev.contains(
                    r.edges[j].0,
                )
        }),
    decreases bound, 0int, kids.len(),
{
    if kids.len() == 0 {
    } else {
        let c = kids[0];
        let ste = DfsState {
            vis: st.vis,
            post: st.post,
            disc: st.disc,
            edges: st.edges.push((c, bound)),
        };
        assert(g[bound as int].prev.contains(c));
        let st2 = if c < bound {
            dfs_node(g, c, ste)
        } else {
            ste
        };
        if c < bound {
            lemma_dfs_node_bounds(g, c, ste);
        }
        assert(forall|k: int|
            0 <= k < kids.drop_first().len() ==> (#[trigger] kids.drop_first()[k]) < bound);
        assert(forall|k: int|
            0 <= k < kids.drop_first().len() ==> g[bound as int].prev.contains(
                #[trigger] kids.drop_first()[k],
            ));
        lemma_dfs_kids_bounds(g, kids.drop_first(), bound, st2);
    }
}

/// A vector of `n` unset markers.
fn vec_false(n: usize) -> (r: Vec<bool>)
    ensures
        r@.len() == n,
        forall|i: int| 0 <= i < n ==> !r@[i],
{
    let mut r: Vec<bool> = Vec::new();
    let mut i: usize = 0;
    while i < n
        invariant
            i <= n,
            r@.len() == i,
            forall|j: int| 0 <= j < i ==> !r@[j],
        decreases n - i,
    {
        r.push(false);
        i = i + 1;
    }
    r
}

/// Post-order depth-first walk from `v`, appending finished nodes to
/// `topo`; mirrors [`dfs_node`] exactly.
pub(crate) fn build_topo(
    nodes: &Vec<InternalValue>,
    v: usize,
    visited: &mut Vec<bool>,
    topo: &mut Vec<usize>,
    Ghost(st): Ghost<DfsState>,
)
    requires
        graph_wf(nodes_view(nodes@)),
        v < nodes@.len(),
        old(visited)@.len() == nodes@.len(),
        st.vis == vis_set(old(visited)@),
        st.post == old(topo)@,
    ensures
        final(visited)@.len() == nodes@.len(),
        vis_set(final(visited)@) == dfs_node(nodes_view(nodes@), v, st).vis,
        final(topo)@ == dfs_node(nodes_view(nodes@), v, st).post,
    decreases v,
{
    let ghost g = nodes_view(nodes@);
    proof {
        assert(g.len() == nodes@.len());
    }
    if visited[v] {
        proof {
            assert(st.vis.contains(v));
        }
    } else {
        proof {
            assert(!st.vis.contains(v));
        }
        visited.set(v, true);
        let ghost st1 = DfsState {
            vis: st.vis.insert(v),
            post: st.post,
            disc: st.disc.push(v),
            edges: st.edges,
        };
        proof {
            assert(vis_set(visited@) =~= st1.vis);
            assert(node_wf(g, v as int));
            assert(g[v as int].prev == nodes@[v as int].prev@);
        }
        let ghost kids = g[v as int].prev;
        let nk = nodes[v].prev.len();
        let ghost mut stc = st1;
        let mut k: usize = 0;
        proof {
            assert(kids.skip(0) =~= kids);
        }
        while k < nk
            invariant
                graph_wf(g),
                g == nodes_view(nodes@),
                g.len() == nodes@.len(),
                v < g.len(),
                node_wf(g, v as int),
                kids == g[v as int].prev,
                kids == nodes@[v as int].prev@,
                nk == kids.len(),
                k <= nk,
                visited@.len() == g.len(),
                stc.vis == vis_set(visited@),
                stc.post == topo@,
                dfs_kids(g, kids.skip(k as int), v, stc) == dfs_kids(g, kids, v, st1),
            decreases nk - k,
        {
            let c = nodes[v].prev[k];
            proof {
                assert(kids[k as int] == c);
                assert(kids[k as int] < v);
            }
            let ghost ste = DfsState {
                vis: stc.vis,
                post: stc.post,
                disc: stc.disc,
                edges: stc.edges.push((c, v)),
            };
            build_topo(nodes, c, visited, topo, Ghost(ste));
            proof {
                let sk = kids.skip(k as int);
                assert(sk.len() > 0);
                assert(sk[0] == c);
                assert(sk.drop_first() =~= kids.skip(k as int + 1));
                stc = dfs_node(g, c, ste);
            }
            k = k + 1;
        }
        topo.push(v);
        proof {
            assert(kids.skip(nk as int) =~= Seq::<usize>::empty());
            assert(stc == dfs_kids(g, kids, v, st1));
        }
    }
}

/// `g2` and `g` describe the same graph, gradients apart: same length,
/// and every node keeps its value, operation, operands, aliasing, label
/// and identifier.
pub open spec fn same_structure(g: Seq<NodeV>, g2: Seq<NodeV>) -> bool {
    &&& g2.len() == g.len()
    &&& forall|i: int|
        0 <= i < g.len() ==> {
            &&& (#[trigger] g2[i]).data == g[i].data
            &&& g2[i].op == g[i].op
            &&& g2[i].prev == g[i].prev
            &&& g2[i].alias == g[i].alias
            &&& g2[i].label == g[i].label
            &&& g2[i].uuid == g[i].uuid
        }
}

/// Sameness of structure is transitive.
pub proof fn lemma_same_structure_trans(a: Seq<NodeV>, b: Seq<NodeV>, c: Seq<NodeV>)
    requires
        same_structure(a, b),
        same_structure(b, c),
    ensures
        same_structure(a, c),
{
    assert forall|i: int| 0 <= i < a.len() implies {
        &&& (#[trigger] c[i]).data == a[i].data
        &&& c[i].op == a[i].op
        &&& c[i].prev == a[i].prev
        &&& c[i].alias == a[i].alias
        &&& c[i].label == a[i].label
        &&& c[i].uuid == a[i].uuid
    } by {
        assert(b[i].data == a[i].data);
        assert(c[i].data == b[i].data);
    }
}

/// Well-formedness only reads what structure keeps.
pub proof fn lemma_same_structure_wf(g: Seq<NodeV>, g2: Seq<NodeV>)
    requires
        graph_wf(g),
        same_structure(g, g2),
    ensures
        graph_wf(g2),
{
    assert forall|i: int| 0 <= i < g2.len() implies node_wf(g2, i) by {
        assert(node_wf(g, i));
        assert(g2[i].op == g[i].op);
        assert(g2[i].prev == g[i].prev);
        assert(g2[i].alias == g[i].alias);
    }
}

/// One backward rule only moves gradients, and only into the operand
/// slots of `v`: every other accumulator, and everything that is not an
/// accumulator, stays as it was.
pub proof fn lemma_apply_rule_frame(g: Seq<NodeV>, v: usize)
    requires
        graph_wf(g),
    ensures
        same_structure(g, apply_rule(g, v)),
        graph_wf(apply_rule(g, v)),
        forall|i: usize|
            i < g.len() && (v >= g.len() || !g[v as int].prev.contains(i)) ==> apply_rule(
                g,
                v,
            )[i as int].grad == g[i as int].grad,
{
    let r = apply_rule(g, v);
    if v < g.len() && node_wf(g, v as int) {
        let n = g[v as int];
        assert forall|i: usize| i < g.len() && !g[v as int].prev.contains(i) implies r[i as int].grad
            == g[i as int].grad by {
            if n.prev.len() >= 1 {
                assert(n.prev[0] != i);
            }
            if n.prev.len() >= 2 {
                assert(n.prev[1] != i);
            }
        }
    }
    lemma_same_structure_wf(g, r);
}

/// A whole pass of backward rules keeps the graph's structure, and keeps
/// the gradient of any node that no rule in `order` feeds: in particular
/// of any node at or above every element of `order`, since rules only
/// feed strictly smaller indices.
pub proof fn lemma_apply_rules_rev_frame(g: Seq<NodeV>, order: Seq<usize>, h: usize)
    requires
        graph_wf(g),
        h < g.len(),
        forall|j: int| 0 <= j < order.len() ==> (#[trigger] order[j]) <= h,
    ensures
        same_structure(g, apply_rules_rev(g, order)),
        graph_wf(apply_rules_rev(g, order)),
        apply_rules_rev(g, order)[h as int].grad == g[h as int].grad,
    decreases order.len(),
{
    if order.len() == 0 {
    } else {
        let v = order.last();
        let g1 = apply_rule(g, v);
        lemma_apply_rule_frame(g, v);
        if v < g.len() {
            assert(node_wf(g, v as int));
            assert(!g[v as int].prev.contains(h)) by {
                if g[v as int].prev.contains(h) {
                    let k = choose|k: int|
                        0 <= k < g[v as int].prev.len() && g[v as int].prev[k] == h;
                    assert(g[v as int].prev[k] < v);
                }
            }
        }
        assert(g1[h as int].grad == g[h as int].grad);
        lemma_apply_rules_rev_frame(g1, order.drop_last(), h);
        lemma_same_structure_trans(g, g1, apply_rules_rev(g1, order.drop_last()));
    }
}

/// Differentiation never changes a forward value, an operand list, an
/// operation tag, a label or an identifier, on any node of the arena.
pub proof fn lemma_backward_keeps_structure(g: Seq<NodeV>, root: usize)
    requires
        graph_wf(g),
        root < g.len(),
    ensures
        same_structure(g, backward_model(g, root)),
        graph_wf(backward_model(g, root)),
{
    let g1 = set_grad(g, root as int, F64_ONE_BITS);
    crate::value::lemma_set_grad_wf(g, root as int, F64_ONE_BITS);
    lemma_dfs_node_bounds(g, root, dfs_init());
    lemma_apply_rules_rev_frame(g1, topo_order(g, root), root);
    lemma_same_structure_trans(g, g1, backward_model(g, root));
}

/// After differentiation from `root`, the root's own gradient is exactly
/// 1.0: the pass seeds it and no backward rule ever feeds the root, since
/// rules feed operands and every operand index lies strictly below its
/// consumer, hence at or below the root.
pub proof fn lemma_root_self_gradient(g: Seq<NodeV>, root: usize)
    requires
        graph_wf(g),
        root < g.len(),
    ensures
        backward_model(g, root)[root as int].grad == F64_ONE_BITS,
{
    let g1 = set_grad(g, root as int, F64_ONE_BITS);
    crate::value::lemma_set_grad_wf(g, root as int, F64_ONE_BITS);
    lemma_dfs_node_bounds(g, root, dfs_init());
    lemma_apply_rules_rev_frame(g1, topo_order(g, root), root);
}

/// `x` occurs in `s` at or after position `from`.
pub open spec fn appears_from(s: Seq<usize>, from: int, x: usize) -> bool {
    exists|j: int| from <= j < s.len() && #[trigger] s[j] == x
}

/// Occurrence after `n` in an extension `s2` of `s1` splits into an
/// occurrence in `s1` after `n` or one in the added tail.
pub proof fn lemma_appears_split(s1: Seq<usize>, s2: Seq<usize>, n: int, x: usize)
    requires
        0 <= n <= s1.len() <= s2.len(),
        forall|j: int| 0 <= j < s1.len() ==> s1[j] == s2[j],
    ensures
        appears_from(s2, n, x) <==> (appears_from(s1, n, x) || appears_from(
            s2,
            s1.len() as int,
            x,
        )),
{
    if appears_from(s2, n, x) {
        let j = choose|j: int| n <= j < s2.len() && #[trigger] s2[j] == x;
        if j < s1.len() {
            assert(s1[j] == x);
            assert(appears_from(s1, n, x));
        } else {
            assert(appears_from(s2, s1.len() as int, x));
        }
    }
    if appears_from(s1, n, x) {
        let j = choose|j: int| n <= j < s1.len() && #[trigger] s1[j] == x;
        assert(s2[j] == x);
        assert(appears_from(s2, n, x));
    }
}

/// What a depth-first visit adds: its visited set grows by exactly the
/// newly discovered nodes; every newly discovered node was unvisited and
/// is reachable from `v`; the post-order gains exactly the same nodes as
/// the discovery order; and both orders stay free of duplicates and
/// inside the visited set.
pub proof fn lemma_dfs_node_sets(g: Seq<NodeV>, v: usize, st: DfsState)
    requires
        graph_wf(g),
        v < g.len(),
    ensures
        ({
            let r = dfs_node(g, v, st);
            &&& forall|x: usize|
                #[trigger] r.vis.contains(x) <==> st.vis.contains(x) || appears_from(
                    r.disc,
                    st.disc.len() as int,
                    x,
                )
            &&& forall|j: int|
                st.disc.len() <= j < r.disc.len() ==> !st.vis.contains(#[trigger] r.disc[j])
                    && reach_node(g, v).contains(r.disc[j])
            &&& forall|x: usize|
                #[trigger] appears_from(r.post, st.post.len() as int, x) <==> appears_from(
                    r.disc,
                    st.disc.len() as int,
                    x,
                )
            &&& (st.disc.no_duplicates() && (forall|j: int|
                0 <= j < st.disc.len() ==> st.vis.contains(#[trigger] st.disc[j]))) ==> (
            r.disc.no_duplicates() && (forall|j: int|
                0 <= j < r.disc.len() ==> r.vis.contains(#[trigger] r.disc[j])))
            &&& (st.post.no_duplicates() && (forall|j: int|
                0 <= j < st.post.len() ==> st.vis.contains(#[trigger] st.post[j]))) ==> (
            r.post.no_duplicates() && (forall|j: int|
                0 <= j < r.post.len() ==> r.vis.contains(#[trigger] r.post[j])))
        }),
    decreases v, 1int, 0int,
{
    let r = dfs_node(g, v, st);
    lemma_dfs_node_bounds(g, v, st);
    if st.vis.contains(v) {
    } else {
        let st1 = DfsState {
            vis: st.vis.insert(v),
            post: st.post,
            disc: st.disc.push(v),
            edges: st.edges,
        };
        assert(node_wf(g, v as int));
        let r2 = dfs_kids(g, g[v as int].prev, v, st1);
        assert(forall|k: int|
            0 <= k < g[v as int].prev.len() ==> g[v as int].prev.contains(
                #[trigger] g[v as int].prev[k],
            ));
        lemma_dfs_kids_bounds(g, g[v as int].prev, v, st1);
        lemma_dfs_kids_sets(g, g[v as int].prev, v, st1);
        assert(st1.disc[st.disc.len() as int] == v);
        assert(r.disc[st.disc.len() as int] == v);
        assert(reach_node(g, v).contains(v));
        let np = st.post.len() as int;
        let nd = st.disc.len() as int;
        assert forall|x: usize|
            #[trigger] appears_from(r.post, np, x) <==> appears_from(r.disc, nd, x) by {
            lemma_appears_split(r2.post, r.post, np, x);
            assert(appears_from(r.post, r2.post.len() as int, x) <==> x == v) by {
                if x == v {
                    assert(r.post[r2.post.len() as int] == v);
                }
            }
            lemma_appears_split(st1.disc, r2.disc, nd, x);
            assert(appears_from(st1.disc, nd, x) <==> x == v) by {
                if x == v {
                    assert(st1.disc[nd] == v);
                }
            }
        }
        assert(reach_kids(g, g[v as int].prev, v).subset_of(reach_node(g, v))) by {
            assert forall|x: usize|
                reach_kids(g, g[v as int].prev, v).contains(x) implies reach_node(
                g,
                v,
            ).contains(x) by {}
        }
    }
}

/// The operand-walk form of [`lemma_dfs_node_sets`].
pub proof fn lemma_dfs_kids_sets(g: Seq<NodeV>, kids: Seq<usize>, bound: usize, st: DfsState)
    requires
        graph_wf(g),
        bound < g.len(),
        forall|k: int| 0 <= k < kids.len() ==> (#[trigger] kids[k]) < bound,
        forall|k: int| 0 <= k < kids.len() ==> g[bound as int].prev.contains(#[trigger] kids[k]),
    ensures
        ({
            let r = dfs_kids(g, kids, bound, st);
            &&& forall|x: usize|
                #[trigger] r.vis.contains(x) <==> st.vis.contains(x) || appears_from(
                    r.disc,
                    st.disc.len() as int,
                    x,
                )
            &&& forall|j: int|
                st.disc.len() <= j < r.disc.len() ==> !st.vis.contains(#[trigger] r.disc[j])
                    && reach_kids(g, kids, bound).contains(r.disc[j])
            &&& forall|x: usize|
                #[trigger] appears_from(r.post, st.post.len() as int, x) <==> appears_from(
                    r.disc,
                    st.disc.len() as int,
                    x,
                )
            &&& (st.disc.no_duplicates() && (forall|j: int|
                0 <= j < st.disc.len() ==> st.vis.contains(#[trigger] st.disc[j]))) ==> (
            r.disc.no_duplicates() && (forall|j: int|
                0 <= j < r.disc.len() ==> r.vis.contains(#[trigger] r.disc[j])))
            &&& (st.post.no_duplicates() && (forall|j: int|
                0 <= j < st.post.len() ==> st.vis.contains(#[trigger] st.post[j]))) ==> (
            r.post.no_duplicates() && (forall|j: int|
                0 <= j < r.post.len() ==> r.vis.contains(#[trigger] r.post[j])))
        }),
    decreases bound, 0int, kids.len(),
{
    if kids.len() == 0 {
    } else {
        let c = kids[0];
        let ste = DfsState {
            vis: st.vis,
            post: st.post,
            disc: st.disc,
            edges: st.edges.push((c, bound)),
        };
        let st2 = dfs_node(g, c, ste);
        lemma_dfs_node_bounds(g, c, ste);
        lemma_dfs_node_sets(g, c, ste);
        assert(forall|k: int|
            0 <= k < kids.drop_first().len() ==> (#[trigger] kids.drop_first()[k]) < bound);
        assert(forall|k: int|
            0 <= k < kids.drop_first().len() ==> g[bound as int].prev.contains(
                #[trigger] kids.drop_first()[k],
            ));
        lemma_dfs_kids_bounds(g, kids.drop_first(), bound, st2);
        lemma_dfs_kids_sets(g, kids.drop_first(), bound, st2);
        assert(reach_node(g, c).subset_of(reach_kids(g, kids, bound))) by {
            assert forall|x: usize| reach_node(g, c).contains(x) implies reach_kids(
                g,
                kids,
                bound,
            ).contains(x) by {}
        }
        assert(reach_kids(g, kids.drop_first(), bound).subset_of(reach_kids(g, kids, bound))) by {
            assert forall|x: usize|
                reach_kids(g, kids.drop_first(), bound).contains(x) implies reach_kids(
                g,
                kids,
                bound,
            ).contains(x) by {}
        }
        let r = dfs_kids(g, kids, bound, st);
        let np = st.post.len() as int;
        let nd = st.disc.len() as int;
        assert forall|x: usize|
            #[trigger] appears_from(r.post, np, x) <==> appears_from(r.disc, nd, x) by {
            lemma_appears_split(st2.post, r.post, np, x);
            lemma_appears_split(st2.disc, r.disc, nd, x);
        }
    }
}

/// The multiset of `(operand, consumer)` pairs of one consumer's operand
/// list.
pub open spec fn pairs_of(kids: Seq<usize>, consumer: usize) -> Multiset<(usize, usize)>
    decreases kids.len(),
{
    if kids.len() == 0 {
        Multiset::empty()
    } else {
        Multiset::empty().insert((kids[0], consumer)).add(pairs_of(kids.drop_first(), consumer))
    }
}

/// The multiset of operand edges of the listed consumers: one pair per
/// stored operand slot of each node in `ids`.
pub open spec fn edges_of_nodes(g: Seq<NodeV>, ids: Seq<usize>) -> Multiset<(usize, usize)>
    decreases ids.len(),
{
    if ids.len() == 0 {
        Multiset::empty()
    } else {
        pairs_of(g[ids[0] as int].prev, ids[0]).add(edges_of_nodes(g, ids.drop_first()))
    }
}

/// Edge multisets of listed consumers add up under concatenation.
pub proof fn lemma_edges_of_nodes_concat(g: Seq<NodeV>, a: Seq<usize>, b: Seq<usize>)
    ensures
        edges_of_nodes(g, a + b) == edges_of_nodes(g, a).add(edges_of_nodes(g, b)),
    decreases a.len(),
{
    if a.len() == 0 {
        assert(a + b =~= b);
        assert(edges_of_nodes(g, a).add(edges_of_nodes(g, b)) =~= edges_of_nodes(g, b));
    } else {
        assert((a + b).len() > 0);
        assert((a + b)[0] == a[0]);
        assert((a + b).drop_first() =~= a.drop_first() + b);
        lemma_edges_of_nodes_concat(g, a.drop_first(), b);
        assert(edges_of_nodes(g, a + b) =~= edges_of_nodes(g, a).add(edges_of_nodes(g, b)));
    }
}

/// A depth-first visit records, beyond what was already there, exactly
/// one edge per operand slot of each newly discovered node.
pub proof fn lemma_dfs_node_edges(g: Seq<NodeV>, v: usize, st: DfsState)
    requires
        graph_wf(g),
        v < g.len(),
    ensures
        ({
            let r = dfs_node(g, v, st);
            r.edges.to_multiset() == st.edges.to_multiset().add(
                edges_of_nodes(g, r.disc.subrange(st.disc.len() as int, r.disc.len() as int)),
            )
        }),
    decreases v, 1int, 0int,
{
    broadcast use vstd::seq_lib::group_to_multiset_ensures;

    let r = dfs_node(g, v, st);
    lemma_dfs_node_bounds(g, v, st);
    if st.vis.contains(v) {
        assert(r.disc.subrange(st.disc.len() as int, r.disc.len() as int) =~= Seq::<
            usize,
        >::empty());
        assert(st.edges.to_multiset().add(edges_of_nodes(g, Seq::empty())) =~= st.edges.to_multiset());
    } else {
        let st1 = DfsState {
            vis: st.vis.insert(v),
            post: st.post,
            disc: st.disc.push(v),
            edges: st.edges,
        };
        assert(node_wf(g, v as int));
        let kids = g[v as int].prev;
        let r2 = dfs_kids(g, kids, v, st1);
        assert(forall|k: int| 0 <= k < kids.len() ==> (#[trigger] kids[k]) < v);
        assert(forall|k: int|
            0 <= k < kids.len() ==> g[v as int].prev.contains(#[trigger] kids[k]));
        lemma_dfs_kids_bounds(g, kids, v, st1);
        lemma_dfs_kids_edges(g, kids, v, st1);
        let kidsnew = r2.disc.subrange(st1.disc.len() as int, r2.disc.len() as int);
        let newdisc = r.disc.subrange(st.disc.len() as int, r.disc.len() as int);
        assert(newdisc =~= seq![v] + kidsnew) by {
            assert(r.disc[st.disc.len() as int] == st1.disc[st.disc.len() as int]);
        }
        lemma_edges_of_nodes_concat(g, seq![v], kidsnew);
        assert(seq![v].drop_first() =~= Seq::<usize>::empty());
        assert(edges_of_nodes(g, seq![v]) =~= pairs_of(kids, v)) by {
            assert(edges_of_nodes(g, Seq::empty()) =~= Multiset::<(usize, usize)>::empty());
            assert(pairs_of(kids, v).add(Multiset::empty()) =~= pairs_of(kids, v));
        }
        assert(r.edges.to_multiset() =~= st.edges.to_multiset().add(edges_of_nodes(g, newdisc)));
    }
}

/// The operand-walk form of [`lemma_dfs_node_edges`]: it records one edge
/// per slot of `kids` itself, plus the edges of what it discovers below.
pub proof fn lemma_dfs_kids_edges(g: Seq<NodeV>, kids: Seq<usize>, bound: usize, st: DfsState)
    requires
        graph_wf(g),
        bound < g.len(),
        forall|k: int| 0 <= k < kids.len() ==> (#[trigger] kids[k]) < bound,
        forall|k: int| 0 <= k < kids.len() ==> g[bound as int].prev.contains(#[trigger] kids[k]),
    ensures
        ({
            let r = dfs_kids(g, kids, bound, st);
            r.edges.to_multiset() == st.edges.to_multiset().add(pairs_of(kids, bound)).add(
                edges_of_nodes(g, r.disc.subrange(st.disc.len() as int, r.disc.len() as int)),
            )
        }),
    decreases bound, 0int, kids.len(),
{
    broadcast use vstd::seq_lib::group_to_multiset_ensures;

    let r = dfs_kids(g, kids, bound, st);
    if kids.len() == 0 {
        assert(r.disc.subrange(st.disc.len() as int, r.disc.len() as int) =~= Seq::<
            usize,
        >::empty());
        assert(st.edges.to_multiset().add(pairs_of(kids, bound)).add(
            edges_of_nodes(g, Seq::empty()),
        ) =~= st.edges.to_multiset());
    } else {
        let c = kids[0];
        let ste = DfsState {
            vis: st.vis,
            post: st.post,
            disc: st.disc,
            edges: st.edges.push((c, bound)),
        };
        let st2 = dfs_node(g, c, ste);
        lemma_dfs_node_bounds(g, c, ste);
        lemma_dfs_node_edges(g, c, ste);
        assert(forall|k: int|
            0 <= k < kids.drop_first().len() ==> (#[trigger] kids.drop_first()[k]) < bound);
        assert(forall|k: int|
            0 <= k < kids.drop_first().len() ==> g[bound as int].prev.contains(
                #[trigger] kids.drop_first()[k],
            ));
        lemma_dfs_kids_bounds(g, kids.drop_first(), bound, st2);
        lemma_dfs_kids_edges(g, kids.drop_first(), bound, st2);
        let nodenew = st2.disc.subrange(ste.disc.len() as int, st2.disc.len() as int);
        let restnew = r.disc.subrange(st2.disc.len() as int, r.disc.len() as int);
        let newdisc = r.disc.subrange(st.disc.len() as int, r.disc.len() as int);
        assert(newdisc =~= nodenew + restnew);
        lemma_edges_of_nodes_concat(g, nodenew, restnew);
        assert(ste.edges.to_multiset() =~= st.edges.to_multiset().insert((c, bound)));
        assert(r.edges.to_multiset() =~= st.edges.to_multiset().add(pairs_of(kids, bound)).add(
            edges_of_nodes(g, newdisc),
        ));
    }
}

/// Every edge a depth-first visit records names a consumer that the
/// visit leaves visited.
pub proof fn lemma_dfs_node_edge_consumers(g: Seq<NodeV>, v: usize, st: DfsState)
    requires
        graph_wf(g),
        v < g.len(),
    ensures
        ({
            let r = dfs_node(g, v, st);
            &&& st.vis.subset_of(r.vis)
            &&& r.edges.len() >= st.edges.len()
            &&& forall|j: int| 0 <= j < st.edges.len() ==> r.edges[j] == st.edges[j]
            &&& forall|j: int|
                st.edges.len() <= j < r.edges.len() ==> r.vis.contains((#[trigger] r.edges[j]).1)
        }),
    decreases v, 1int, 0int,
{
    let r = dfs_node(g, v, st);
    if st.vis.contains(v) {
    } else {
        let st1 = DfsState {
            vis: st.vis.insert(v),
            post: st.post,
            disc: st.disc.push(v),
            edges: st.edges,
        };
        assert(node_wf(g, v as int));
        assert(forall|k: int|
            0 <= k < g[v as int].prev.len() ==> (#[trigger] g[v as int].prev[k]) < v);
        lemma_dfs_kids_edge_consumers(g, g[v as int].prev, v, st1);
    }
}

/// The operand-walk form of [`lemma_dfs_node_edge_consumers`].
pub proof fn lemma_dfs_kids_edge_consumers(
    g: Seq<NodeV>,
    kids: Seq<usize>,
    bound: usize,
    st: DfsState,
)
    requires
        graph_wf(g),
        bound < g.len(),
        st.vis.contains(bound),
        forall|k: int| 0 <= k < kids.len() ==> (#[trigger] kids[k]) < bound,
    ensures
        ({
            let r = dfs_kids(g, kids, bound, st);
            &&& st.vis.subset_of(r.vis)
            &&& r.edges.len() >= st.edges.len()
            &&& forall|j: int| 0 <= j < st.edges.len() ==> r.edges[j] == st.edges[j]
            &&& forall|j: int|
                st.edges.len() <= j < r.edges.len() ==> r.vis.contains((#[trigger] r.edges[j]).1)
        }),
    decreases bound, 0int, kids.len(),
{
    if kids.len() == 0 {
    } else {
        let c = kids[0];
        let ste = DfsState {
            vis: st.vis,
            post: st.post,
            disc: st.disc,
            edges: st.edges.push((c, bound)),
        };
        let st2 = if c < bound {
            dfs_node(g, c, ste)
        } else {
            ste
        };
        lemma_dfs_node_edge_consumers(g, c, ste);
        assert(forall|k: int|
            0 <= k < kids.drop_first().len() ==> (#[trigger] kids.drop_first()[k]) < bound);
        lemma_dfs_kids_edge_consumers(g, kids.drop_first(), bound, st2);
        let r = dfs_kids(g, kids, bound, st);
        assert forall|j: int|
            st.edges.len() <= j < r.edges.len() implies r.vis.contains(
            (#[trigger] r.edges[j]).1,
        ) by {
            if j == st.edges.len() {
                assert(r.edges[j] == (c, bound));
                assert(st2.vis.contains(bound));
            } else if j < st2.edges.len() {
                assert(st2.vis.contains(st2.edges[j].1));
                assert(r.edges[j] == st2.edges[j]);
            }
        }
    }
}

/// Every node of `s` outside `path` has all its operands inside `s`.
pub open spec fn closed_except(g: Seq<NodeV>, s: Set<usize>, path: Set<usize>) -> bool {
    forall|x: usize|
        #[trigger] s.contains(x) && !path.contains(x) && x < g.len() ==> forall|k: int|
            0 <= k < g[x as int].prev.len() ==> s.contains(#[trigger] g[x as int].prev[k])
}

/// A finished depth-first visit leaves the visited set closed under the
/// operand relation, except for the nodes still on the walk's own path:
/// once `v`'s operand walk is done every operand of `v` is visited, so
/// `v` moves from "on the path" to "closed".
pub proof fn lemma_dfs_node_closed(g: Seq<NodeV>, v: usize, st: DfsState, path: Set<usize>)
    requires
        graph_wf(g),
        v < g.len(),
        closed_except(g, st.vis, path),
    ensures
        closed_except(g, dfs_node(g, v, st).vis, path),
        dfs_node(g, v, st).vis.contains(v),
        st.vis.subset_of(dfs_node(g, v, st).vis),
    decreases v, 1int, 0int,
{
    let r = dfs_node(g, v, st);
    lemma_dfs_node_bounds(g, v, st);
    if st.vis.contains(v) {
    } else {
        let st1 = DfsState {
            vis: st.vis.insert(v),
            post: st.post,
            disc: st.disc.push(v),
            edges: st.edges,
        };
        assert(node_wf(g, v as int));
        assert(closed_except(g, st1.vis, path.insert(v)));
        assert(forall|k: int|
            0 <= k < g[v as int].prev.len() ==> g[v as int].prev.contains(
                #[trigger] g[v as int].prev[k],
            ));
        lemma_dfs_kids_closed(g, g[v as int].prev, v, st1, path.insert(v));
        let r2 = dfs_kids(g, g[v as int].prev, v, st1);
        assert forall|x: usize|
            #[trigger] r.vis.contains(x) && !path.contains(x) && x < g.len() implies forall|k: int|
            0 <= k < g[x as int].prev.len() ==> r.vis.contains(
                #[trigger] g[x as int].prev[k],
            ) by {
            if x == v {
                assert(forall|k: int|
                    0 <= k < g[v as int].prev.len() ==> r2.vis.contains(
                        #[trigger] g[v as int].prev[k],
                    ));
            } else {
                assert(!path.insert(v).contains(x));
            }
        }
    }
}

/// The operand-walk form of [`lemma_dfs_node_closed`]: it also leaves
/// every walked operand visited.
pub proof fn lemma_dfs_kids_closed(
    g: Seq<NodeV>,
    kids: Seq<usize>,
    bound: usize,
    st: DfsState,
    path: Set<usize>,
)
    requires
        graph_wf(g),
        bound < g.len(),
        forall|k: int| 0 <= k < kids.len() ==> (#[trigger] kids[k]) < bound,
        forall|k: int| 0 <= k < kids.len() ==> g[bound as int].prev.contains(#[trigger] kids[k]),
        closed_except(g, st.vis, path),
    ensures
        closed_except(g, dfs_kids(g, kids, bound, st).vis, path),
        st.vis.subset_of(dfs_kids(g, kids, bound, st).vis),
        forall|k: int|
            0 <= k < kids.len() ==> dfs_kids(g, kids, bound, st).vis.contains(#[trigger] kids[k]),
    decreases bound, 0int, kids.len(),
{
    if kids.len() == 0 {
    } else {
        let c = kids[0];
        let ste = DfsState {
            vis: st.vis,
            post: st.post,
            disc: st.disc,
            edges: st.edges.push((c, bound)),
        };
        lemma_dfs_node_closed(g, c, ste, path);
        let st2 = dfs_node(g, c, ste);
        assert(forall|k: int|
            0 <= k < kids.drop_first().len() ==> (#[trigger] kids.drop_first()[k]) < bound);
        assert(forall|k: int|
            0 <= k < kids.drop_first().len() ==> g[bound as int].prev.contains(
                #[trigger] kids.drop_first()[k],
            ));
        lemma_dfs_kids_bounds(g, kids.drop_first(), bound, st2);
        lemma_dfs_kids_closed(g, kids.drop_first(), bound, st2, path);
        assert forall|k: int|
            0 <= k < kids.len() implies dfs_kids(g, kids, bound, st).vis.contains(
            #[trigger] kids[k],
        ) by {
            if k == 0 {
                assert(st2.vis.contains(c));
            } else {
                assert(kids.drop_first()[k - 1] == kids[k]);
            }
        }
    }
}

/// Anything reachable from a member of a closed set stays inside the set.
pub proof fn lemma_closed_reach(g: Seq<NodeV>, v: usize, s: Set<usize>)
    requires
        graph_wf(g),
        v < g.len(),
        s.contains(v),
        closed_except(g, s, Set::empty()),
    ensures
        reach_node(g, v).subset_of(s),
    decreases v, 1int, 0int,
{
    assert(node_wf(g, v as int));
    assert(forall|k: int|
        0 <= k < g[v as int].prev.len() ==> s.contains(#[trigger] g[v as int].prev[k]));
    lemma_closed_reach_kids(g, g[v as int].prev, v, s);
}

/// The operand form of [`lemma_closed_reach`].
pub proof fn lemma_closed_reach_kids(g: Seq<NodeV>, kids: Seq<usize>, bound: usize, s: Set<usize>)
    requires
        graph_wf(g),
        bound < g.len(),
        forall|k: int| 0 <= k < kids.len() ==> (#[trigger] kids[k]) < bound,
        forall|k: int| 0 <= k < kids.len() ==> s.contains(#[trigger] kids[k]),
        closed_except(g, s, Set::empty()),
    ensures
        reach_kids(g, kids, bound).subset_of(s),
    decreases bound, 0int, kids.len(),
{
    if kids.len() == 0 {
    } else {
        lemma_closed_reach(g, kids[0], s);
        lemma_closed_reach_kids(g, kids.drop_first(), bound, s);
    }
}

/// Enumeration completeness. The enumeration of the subgraph under
/// `root` lists exactly the reachable nodes, each once, and its edge list
/// carries exactly one `(operand, consumer)` pair per stored operand slot
/// of each reachable node — so a reader can rebuild the graph, with the
/// stored operand multiplicity, from the enumeration alone. The gradient
/// pass's order enjoys the same completeness: every reachable node's
/// rule runs exactly once.
pub proof fn lemma_enumeration_complete(g: Seq<NodeV>, root: usize)
    requires
        graph_wf(g),
        root < g.len(),
    ensures
        trace_node_ids(g, root).no_duplicates(),
        forall|x: usize|
            #[trigger] trace_node_ids(g, root).contains(x) <==> reach_node(g, root).contains(x),
        trace_edges(g, root).to_multiset() == edges_of_nodes(g, trace_node_ids(g, root)),
        trace_edges(g, root).len() == edges_of_nodes(g, trace_node_ids(g, root)).len(),
        topo_order(g, root).no_duplicates(),
        forall|x: usize|
            #[trigger] topo_order(g, root).contains(x) <==> reach_node(g, root).contains(x),
{
    broadcast use vstd::seq_lib::group_to_multiset_ensures;

    let st = dfs_init();
    let r = dfs_node(g, root, st);
    lemma_dfs_node_bounds(g, root, st);
    lemma_dfs_node_sets(g, root, st);
    lemma_dfs_node_closed(g, root, st, Set::empty());
    lemma_closed_reach(g, root, r.vis);
    lemma_dfs_node_edges(g, root, st);
    assert(forall|x: usize| #[trigger] r.disc.contains(x) <==> appears_from(r.disc, 0, x));
    assert(forall|x: usize| #[trigger] r.post.contains(x) <==> appears_from(r.post, 0, x));
    assert forall|x: usize| #[trigger] r.disc.contains(x) <==> reach_node(g, root).contains(
        x,
    ) by {
        if reach_node(g, root).contains(x) {
            assert(r.vis.contains(x));
        }
        if r.disc.contains(x) {
            assert(appears_from(r.disc, 0, x));
            let j = choose|j: int| 0 <= j < r.disc.len() && #[trigger] r.disc[j] == x;
            assert(reach_node(g, root).contains(r.disc[j]));
        }
    }
    assert(r.disc.subrange(0, r.disc.len() as int) =~= r.disc);
    assert(r.edges.to_multiset() =~= edges_of_nodes(g, r.disc)) by {
        assert(st.edges.to_multiset() =~= Multiset::<(usize, usize)>::empty());
        assert(Multiset::<(usize, usize)>::empty().add(edges_of_nodes(g, r.disc)) =~= edges_of_nodes(
            g,
            r.disc,
        ));
    }
}

/// A pass of backward rules that never names a node among its operand
/// slots leaves that node's gradient alone.
pub proof fn lemma_apply_rules_rev_avoid(g: Seq<NodeV>, order: Seq<usize>, i: usize)
    requires
        graph_wf(g),
        i < g.len(),
        forall|j: int|
            0 <= j < order.len() ==> (#[trigger] order[j]) < g.len() && !g[order[j] as int].prev.contains(i),
    ensures
        apply_rules_rev(g, order)[i as int].grad == g[i as int].grad,
    decreases order.len(),
{
    if order.len() == 0 {
    } else {
        let v = order.last();
        let g1 = apply_rule(g, v);
        lemma_apply_rule_frame(g, v);
        assert forall|j: int|
            0 <= j < order.drop_last().len() implies (#[trigger] order.drop_last()[j]) < g1.len()
            && !g1[order.drop_last()[j] as int].prev.contains(i) by {
            assert(order[j] == order.drop_last()[j]);
            assert(g1[order[j] as int].prev == g[order[j] as int].prev);
        }
        lemma_apply_rules_rev_avoid(g1, order.drop_last(), i);
    }
}

/// Differentiation from `root` leaves the gradient accumulator of every
/// node outside the reachable subgraph exactly as it was: the pass seeds
/// only the root and feeds only operands of reachable nodes, all of them
/// reachable themselves.
pub proof fn lemma_backward_untouched_gradient(g: Seq<NodeV>, root: usize, i: usize)
    requires
        graph_wf(g),
        root < g.len(),
        i < g.len(),
        !reach_node(g, root).contains(i),
    ensures
        backward_model(g, root)[i as int].grad == g[i as int].grad,
{
    let st = dfs_init();
    let r = dfs_node(g, root, st);
    let order = topo_order(g, root);
    lemma_dfs_node_bounds(g, root, st);
    lemma_dfs_node_sets(g, root, st);
    lemma_dfs_node_closed(g, root, st, Set::empty());
    assert(reach_node(g, root).contains(root));
    assert(i != root);
    let g1 = set_grad(g, root as int, F64_ONE_BITS);
    crate::value::lemma_set_grad_wf(g, root as int, F64_ONE_BITS);
    assert(g1[i as int].grad == g[i as int].grad);
    assert forall|j: int|
        0 <= j < order.len() implies (#[trigger] order[j]) < g1.len()
        && !g1[order[j] as int].prev.contains(i) by {
        let v = order[j];
        assert(r.vis.contains(v)) by {
            assert(r.post[j] == v);
        }
        assert(v < g.len());
        if g1[v as int].prev.contains(i) {
            let k = choose|k: int| 0 <= k < g1[v as int].prev.len() && g1[v as int].prev[k] == i;
            assert(g[v as int].prev[k] == i);
            assert(r.vis.contains(i)) by {
                assert(closed_except(g, r.vis, Set::empty()));
                assert(r.vis.contains(g[v as int].prev[k]));
            }
            assert(appears_from(r.disc, 0, i));
            let jj = choose|jj: int| 0 <= jj < r.disc.len() && #[trigger] r.disc[jj] == i;
            assert(reach_node(g, root).contains(r.disc[jj]));
        }
    }
    lemma_apply_rules_rev_avoid(g1, order, i);
}

/// One entry of the flattened graph enumeration: everything an external
/// renderer needs to draw a node, keyed by the node's arena index.
pub struct DataValue {
    pub id: usize,
    pub uuid: u128,
    pub data: u64,
    pub grad: u64,
    pub label: String,
    pub op: Option<String>,
}

impl DataValue {
    /// A record with the given fields.
    pub fn new(id: usize, uuid: u128, data: u64, grad: u64, label: String, op: Option<String>) -> (
        d: DataValue)
        ensures
            d.id == id,
            d.uuid == uuid,
            d.data == data,
            d.grad == grad,
            d.label == label,
            d.op == op,
    {
        DataValue { id, uuid, data, grad, label, op }
    }
}

/// `d` reports node `i` of `g` faithfully: identity, scalar fields, label
/// and the operation symbol (`None` on a leaf).
pub open spec fn dv_matches(g: Seq<NodeV>, d: DataValue, i: usize) -> bool {
    &&& d.id == i
    &&& i < g.len()
    &&& d.uuid == g[i as int].uuid
    &&& d.data == g[i as int].data
    &&& d.grad == g[i as int].grad
    &&& d.label@ == g[i as int].label
    &&& (d.op is None <==> g[i as int].op is Leaf)
    &&& (d.op matches Some(s) ==> s@ == crate::value::op_sym(g[i as int].op))
}

/// The records `dvs` report exactly the nodes `ids`, in order.
pub open spec fn data_values_match(g: Seq<NodeV>, dvs: Seq<DataValue>, ids: Seq<usize>) -> bool {
    &&& dvs.len() == ids.len()
    &&& forall|j: int| 0 <= j < dvs.len() ==> dv_matches(g, #[trigger] dvs[j], ids[j])
}

/// Discovery-order depth-first walk from `v`, recording one enumeration
/// entry per first-discovered node and one edge per operand slot met;
/// mirrors [`dfs_node`] exactly.
pub(crate) fn trace_walk(
    nodes: &Vec<InternalValue>,
    v: usize,
    visited: &mut Vec<bool>,
    out_nodes: &mut Vec<DataValue>,
    out_edges: &mut Vec<(usize, usize)>,
    Ghost(st): Ghost<DfsState>,
)
    requires
        graph_wf(nodes_view(nodes@)),
        v < nodes@.len(),
        old(visited)@.len() == nodes@.len(),
        st.vis == vis_set(old(visited)@),
        data_values_match(nodes_view(nodes@), old(out_nodes)@, st.disc),
        st.edges == old(out_edges)@,
    ensures
        final(visited)@.len() == nodes@.len(),
        vis_set(final(visited)@) == dfs_node(nodes_view(nodes@), v, st).vis,
        data_values_match(
            nodes_view(nodes@),
            final(out_nodes)@,
            dfs_node(nodes_view(nodes@), v, st).disc,
        ),
        final(out_edges)@ == dfs_node(nodes_view(nodes@), v, st).edges,
    decreases v,
{
    let ghost g = nodes_view(nodes@);
    proof {
        assert(g.len() == nodes@.len());
    }
    if visited[v] {
        proof {
            assert(st.vis.contains(v));
        }
    } else {
        proof {
            assert(!st.vis.contains(v));
            assert(g[v as int] == nodes@[v as int]@);
        }
        visited.set(v, true);
        let d = DataValue::new(
            v,
            nodes[v].uuid,
            nodes[v].data,
            nodes[v].grad,
            nodes[v].label.clone(),
            crate::value::op_string(nodes[v].op),
        );
        out_nodes.push(d);
        let ghost st1 = DfsState {
            vis: st.vis.insert(v),
            post: st.post,
            disc: st.disc.push(v),
            edges: st.edges,
        };
        proof {
            assert(vis_set(visited@) =~= st1.vis);
            assert(node_wf(g, v as int));
            assert(g[v as int].prev == nodes@[v as int].prev@);
            assert(dv_matches(g, d, v));
        }
        let ghost kids = g[v as int].prev;
        let nk = nodes[v].prev.len();
        let ghost mut stc = st1;
        let mut k: usize = 0;
        proof {
            assert(kids.skip(0) =~= kids);
        }
        while k < nk
            invariant
                graph_wf(g),
                g == nodes_view(nodes@),
                g.len() == nodes@.len(),
                v < g.len(),
                node_wf(g, v as int),
                kids == g[v as int].prev,
                kids == nodes@[v as int].prev@,
                nk == kids.len(),
                k <= nk,
                visited@.len() == g.len(),
                stc.vis == vis_set(visited@),
                data_values_match(g, out_nodes@, stc.disc),
                stc.edges == out_edges@,
                dfs_kids(g, kids.skip(k as int), v, stc) == dfs_kids(g, kids, v, st1),
            decreases nk - k,
        {
            let c = nodes[v].prev[k];
            proof {
                assert(kids[k as int] == c);
                assert(kids[k as int] < v);
            }
            out_edges.push((c, v));
            let ghost ste = DfsState {
                vis: stc.vis,
                post: stc.post,
                disc: stc.disc,
                edges: stc.edges.push((c, v)),
            };
            trace_walk(nodes, c, visited, out_nodes, out_edges, Ghost(ste));
            proof {
                let sk = kids.skip(k as int);
                assert(sk.len() > 0);
                assert(sk[0] == c);
                assert(sk.drop_first() =~= kids.skip(k as int + 1));
                stc = dfs_node(g, c, ste);
            }
            k = k + 1;
        }
        proof {
            assert(kids.skip(nk as int) =~= Seq::<usize>::empty());
            assert(stc == dfs_kids(g, kids, v, st1));
        }
    }
}

impl Value {
    /// Flatten the subgraph reachable from this node for an external
    /// renderer: one entry per reachable node, in discovery order, keyed
    /// by arena index, and one `(operand, consumer)` edge per stored
    /// operand slot. A binary node whose two operand slots were one node
    /// stores that operand once, so such a pair yields one edge; its
    /// entry's aliasing is recoverable from the graph, and gradients and
    /// values are reported as they stand.
    pub fn trace(&self, g: &Tape) -> (r: (Vec<DataValue>, Vec<(usize, usize)>))
        requires
            g.wf(),
            self.id < g@.len(),
        ensures
            data_values_match(g@, r.0@, trace_node_ids(g@, self.id)),
            r.1@ == trace_edges(g@, self.id),
    {
        proof {
            assert(g@.len() == g.nodes@.len());
        }
        let n = g.nodes.len();
        let mut visited = vec_false(n);
        let mut out_nodes: Vec<DataValue> = Vec::new();
        let mut out_edges: Vec<(usize, usize)> = Vec::new();
        proof {
            assert(vis_set(visited@) =~= Set::<usize>::empty());
            assert(dfs_init().vis =~= Set::<usize>::empty());
        }
        trace_walk(&g.nodes, self.id, &mut visited, &mut out_nodes, &mut out_edges, Ghost(dfs_init()));
        (out_nodes, out_edges)
    }
}

/// Run one node's backward rule on the arena; mirrors [`apply_rule`].
pub(crate) fn apply_rule_exec(g: &mut Tape, v: usize)
    requires
        old(g).wf(),
        v < old(g)@.len(),
    ensures
        final(g)@ == apply_rule(old(g)@, v),
        final(g).wf(),
        final(g)@.len() == old(g)@.len(),
{
    proof {
        assert(g@.len() == g.nodes@.len());
        assert(node_wf(g@, v as int));
    }
    let og = g.nodes[v].grad;
    let dv = g.nodes[v].data;
    let alias = g.nodes[v].alias;
    let op = g.nodes[v].op;
    match op {
        Op::Leaf => {},
        Op::Tanh => {
            let p = g.nodes[v].prev[0];
            let d = mul_bits_exec(sub_bits_exec(F64_ONE_BITS, mul_bits_exec(dv, dv)), og);
            let gp = g.nodes[p].grad;
            set_grad_exec(g, p, add_bits_exec(gp, d));
        },
        Op::Add => {
            if alias {
                let p = g.nodes[v].prev[0];
                let gp = g.nodes[p].grad;
                set_grad_exec(g, p, add_bits_exec(gp, mul_bits_exec(F64_TWO_BITS, og)));
            } else {
                let l = g.nodes[v].prev[0];
                let r = g.nodes[v].prev[1];
                let gl = g.nodes[l].grad;
                set_grad_exec(g, l, add_bits_exec(gl, og));
                proof {
                    assert(g@.len() == g.nodes@.len());
                }
                let gr = g.nodes[r].grad;
                set_grad_exec(g, r, add_bits_exec(gr, og));
            }
        },
        Op::Sub => {
            if !alias {
                let l = g.nodes[v].prev[0];
                let r = g.nodes[v].prev[1];
                let gl = g.nodes[l].grad;
                set_grad_exec(g, l, add_bits_exec(gl, og));
                proof {
                    assert(g@.len() == g.nodes@.len());
                }
                let gr = g.nodes[r].grad;
                set_grad_exec(g, r, sub_bits_exec(gr, og));
            }
        },
        Op::Mul => {
            if alias {
                let p = g.nodes[v].prev[0];
                let dp = g.nodes[p].data;
                let gp = g.nodes[p].grad;
                set_grad_exec(g, p, add_bits_exec(gp, mul_bits_exec(mul_bits_exec(F64_TWO_BITS, dp), og)));
            } else {
                let l = g.nodes[v].prev[0];
                let r = g.nodes[v].prev[1];
                let dl = g.nodes[l].data;
                let dr = g.nodes[r].data;
                let gl = g.nodes[l].grad;
                set_grad_exec(g, l, add_bits_exec(gl, mul_bits_exec(dr, og)));
                proof {
                    assert(g@.len() == g.nodes@.len());
                }
                let gr = g.nodes[r].grad;
                set_grad_exec(g, r, add_bits_exec(gr, mul_bits_exec(dl, og)));
            }
        },
    }
}

impl Value {
    /// Differentiate the graph at this node: set this node's gradient to
    /// 1.0 and propagate gradients to every reachable node, invoking each
    /// reachable node's backward rule exactly once, consumers before
    /// operands. Gradients accumulate into whatever the accumulators
    /// already hold; nothing is reset here, and no forward value changes.
    pub fn backward(&self, g: &mut Tape)
        requires
            old(g).wf(),
            self.id < old(g)@.len(),
        ensures
            final(g)@ == backward_model(old(g)@, self.id),
            final(g).wf(),
    {
        let root = self.id;
        proof {
            assert(g@.len() == g.nodes@.len());
        }
        let n = g.nodes.len();
        let mut visited = vec_false(n);
        let mut topo: Vec<usize> = Vec::new();
        proof {
            assert(vis_set(visited@) =~= Set::<usize>::empty());
            assert(dfs_init().vis =~= Set::<usize>::empty());
        }
        build_topo(&g.nodes, root, &mut visited, &mut topo, Ghost(dfs_init()));
        let ghost g0 = g@;
        let ghost order = topo_order(g0, root);
        proof {
            assert(topo@ == order);
            lemma_dfs_node_bounds(g0, root, dfs_init());
        }
        set_grad_exec(g, root, F64_ONE_BITS);
        let mut k = topo.len();
        proof {
            assert(order.take(k as int) =~= order);
        }
        while k > 0
            invariant
                k <= order.len(),
                topo@ == order,
                g.wf(),
                forall|j: int| 0 <= j < order.len() ==> (#[trigger] order[j]) < g@.len(),
                apply_rules_rev(g@, order.take(k as int)) == backward_model(g0, root),
            decreases k,
        {
            k = k - 1;
            let v = topo[k];
            proof {
                assert(order.take(k as int + 1).last() == order[k as int]);
                assert(order.take(k as int + 1).drop_last() =~= order.take(k as int));
            }
            apply_rule_exec(g, v);
        }
        proof {
            assert(order.take(0) =~= Seq::<usize>::empty());
        }
    }
}

} // verus!
