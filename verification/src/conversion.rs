//! From the arena of the builder to the exported form: the nodes that the
//! root reaches, numbered in the order in which the walk finds them, and
//! the edges between them.

use vstd::prelude::*;
use crate::components::{split, split_places};
use crate::dependency::{node_wf, DynNodeView, DynPDGNode};
use crate::grouping::{group_leaders, leader, lemma_leader};
use crate::loops::{find_self_dependencies, self_dependencies};
use crate::merging::{
    between_parts, clocked_of, first_occurrences, lemma_between_parts, lemma_first_occurrences,
    lemma_occurrences_once, merge_edges, merge_vertices, merged_vertices, outgoing_edges,
    part_map, part_of, with_source_clock,
};
use crate::pruning::{
    edges_tidy, lemma_renumbered, listing, no_loops, renumber_edges, renumbered, repeated_marks,
};
use crate::redirect::{
    adjacency, edges_within, is_probe, probe_flags, redirect_index_edges, redirected,
};
use crate::slicing::{keep_marked, marked_items, remapping};
use crate::pdg_spec::{
    exported_node, ExportNodeView, ExportablePDG, ExportablePDGEdge, ExportablePDGNode,
    PDGSpecEdgeKind, PDGSpecNode,
};

verus! {

/// A walk of the arena in progress.
pub struct Walk {
    /// For every node of the arena its number, once the walk has found it.
    pub index: Seq<Option<u32>>,
    /// The nodes found so far, by number.
    pub order: Seq<usize>,
    /// The nodes found whose dependences are still to be walked.
    pub stack: Seq<usize>,
    /// The edges of the nodes that were walked.
    pub edges: Seq<ExportablePDGEdge>,
}

/// A walk while the dependences of one node are followed.
pub struct Visit {
    pub walk: Walk,
    /// The edges of the node at hand, each once.
    pub mine: Seq<ExportablePDGEdge>,
}

/// How many nodes the walk has not found.
pub open spec fn unseen(index: Seq<Option<u32>>) -> nat
    decreases index.len(),
{
    if index.len() == 0 {
        0
    } else {
        unseen(index.drop_last()) + (if index.last() is None {
            1nat
        } else {
            0nat
        })
    }
}

/// The walk before its first step: the root has number zero and waits on the stack.
pub open spec fn start_walk(n: nat, root: usize) -> Walk {
    Walk {
        index: Seq::new(n, |i: int| None::<u32>).update(root as int, Some(0u32)),
        order: seq![root],
        stack: seq![root],
        edges: seq![],
    }
}

/// The visit after one dependence: a node that is new to the walk gets the
/// next number and goes on the stack; the edge carries the bit that `bits`
/// holds for the node it arrives at, and is kept unless the node at hand
/// has the same edge already.
pub open spec fn visit_dep(v: Visit, from: u32, bits: Seq<bool>, dep: (usize, PDGSpecEdgeKind))
    -> Visit {
    let w = v.walk;
    let (walk, to) = match w.index[dep.0 as int] {
        Some(i) => (w, i),
        None => (
            Walk {
                index: w.index.update(dep.0 as int, Some(w.order.len() as u32)),
                order: w.order.push(dep.0),
                stack: w.stack.push(dep.0),
                ..w
            },
            w.order.len() as u32,
        ),
    };
    let e = ExportablePDGEdge { from, to, kind: dep.1, clocked: bits[dep.0 as int] };
    Visit {
        walk,
        mine: if v.mine.contains(e) {
            v.mine
        } else {
            v.mine.push(e)
        },
    }
}

/// The visit after the first `upto` dependences.
pub open spec fn visit_deps(
    v: Visit,
    from: u32,
    bits: Seq<bool>,
    deps: Seq<(usize, PDGSpecEdgeKind)>,
    upto: int,
) -> Visit
    decreases upto,
{
    if upto <= 0 {
        v
    } else {
        visit_dep(visit_deps(v, from, bits, deps, upto - 1), from, bits, deps[upto - 1])
    }
}

/// For every node of the arena the clocked bit of its statement.
pub open spec fn node_bits(nodes: Seq<DynNodeView>, clocked: Seq<bool>) -> Seq<bool> {
    Seq::new(nodes.len(), |i: int| clocked[nodes[i].inner as int])
}

/// The walk after the node on top of the stack is taken off and its
/// dependences are followed. Every edge carries the clocked bit of its
/// provider: the statement of the node that it arrives at.
pub open spec fn walk_step(nodes: Seq<DynNodeView>, clocked: Seq<bool>, w: Walk) -> Walk {
    let node = w.stack.last();
    let from = w.index[node as int]->0;
    let v = visit_deps(
        Visit { walk: Walk { stack: w.stack.drop_last(), ..w }, mine: seq![] },
        from,
        node_bits(nodes, clocked),
        nodes[node as int].dependencies,
        nodes[node as int].dependencies.len() as int,
    );
    Walk { edges: v.walk.edges + v.mine, ..v.walk }
}

/// What a walk needs to go on: every node has an entry, the numbers given
/// are those of `order`, and what waits on the stack is a node.
pub open spec fn walk_wf(nodes: Seq<DynNodeView>, w: Walk) -> bool {
    &&& w.index.len() == nodes.len()
    &&& nodes.len() <= u32::MAX
    &&& w.order.len() + unseen(w.index) == nodes.len()
    &&& forall|k: int|
        0 <= k < w.order.len() ==> (#[trigger] w.order[k]) < nodes.len() && w.index[w.order[k] as int]
            == Some(k as u32)
    &&& forall|i: int|
        0 <= i < nodes.len() ==> (#[trigger] w.index[i] matches Some(x) ==> x < w.order.len()
            && w.order[x as int] == i)
    &&& forall|i: int, j: int|
        0 <= i < nodes.len() && 0 <= j < nodes[i].dependencies.len() ==> (
        #[trigger] nodes[i].dependencies[j]).0 < nodes.len()
    &&& forall|k: int|
        0 <= k < w.stack.len() ==> (#[trigger] w.stack[k]) < nodes.len() && w.index[w.stack[k] as int]
            is Some
}

/// A node that gets a number leaves the unseen.
pub proof fn lemma_unseen_update(index: Seq<Option<u32>>, i: int, number: u32)
    requires
        0 <= i < index.len(),
        index[i] is None,
    ensures
        unseen(index.update(i, Some(number))) + 1 == unseen(index),
    decreases index.len(),
{
    let after = index.update(i, Some(number));
    if i == index.len() - 1 {
        assert(after.drop_last() =~= index.drop_last());
    } else {
        assert(after.drop_last() =~= index.drop_last().update(i, Some(number)));
        lemma_unseen_update(index.drop_last(), i, number);
    }
}

/// Following dependences keeps the walk well formed; every node that it
/// finds leaves the unseen and joins the stack.
pub proof fn lemma_visit_deps(
    nodes: Seq<DynNodeView>,
    v: Visit,
    from: u32,
    bits: Seq<bool>,
    deps: Seq<(usize, PDGSpecEdgeKind)>,
    upto: int,
)
    requires
        walk_wf(nodes, v.walk),
        0 <= upto <= deps.len(),
        forall|j: int| 0 <= j < deps.len() ==> (#[trigger] deps[j]).0 < nodes.len(),
    ensures
        walk_wf(nodes, visit_deps(v, from, bits, deps, upto).walk),
        visit_deps(v, from, bits, deps, upto).walk.edges == v.walk.edges,
        unseen(visit_deps(v, from, bits, deps, upto).walk.index) + visit_deps(
            v,
            from,
            bits,
            deps,
            upto,
        ).walk.stack.len() == unseen(v.walk.index) + v.walk.stack.len(),
        visit_deps(v, from, bits, deps, upto).walk.stack.len() >= v.walk.stack.len(),
    decreases upto,
{
    if upto > 0 {
        lemma_visit_deps(nodes, v, from, bits, deps, upto - 1);
        let before = visit_deps(v, from, bits, deps, upto - 1);
        let dep = deps[upto - 1];
        let after = visit_dep(before, from, bits, dep);
        if before.walk.index[dep.0 as int] is None {
            lemma_unseen_update(before.walk.index, dep.0 as int, before.walk.order.len() as u32);
            assert forall|k: int| 0 <= k < after.walk.order.len() implies (
            #[trigger] after.walk.order[k]) < nodes.len() && after.walk.index[after.walk.order[k] as int]
                == Some(k as u32) by {
                if k < before.walk.order.len() {
                    assert(after.walk.order[k] == before.walk.order[k]);
                }
            }
            assert forall|k: int| 0 <= k < after.walk.stack.len() implies (
            #[trigger] after.walk.stack[k]) < nodes.len() && after.walk.index[after.walk.stack[k] as int]
                is Some by {
                if k < before.walk.stack.len() {
                    assert(after.walk.stack[k] == before.walk.stack[k]);
                }
            }
        }
    }
}

/// Whether exported edge `e` stands for a dependence of the arena: the
/// node numbered `e.from` depends on the node numbered `e.to`, in the kind
/// of the edge.
pub open spec fn edge_sound(nodes: Seq<DynNodeView>, order: Seq<usize>, e: ExportablePDGEdge)
    -> bool {
    &&& e.from < order.len()
    &&& e.to < order.len()
    &&& exists|j: int|
        0 <= j < nodes[order[e.from as int] as int].dependencies.len() && (
        #[trigger] nodes[order[e.from as int] as int].dependencies[j]) == (
            order[e.to as int],
            e.kind,
        )
}

/// Every edge of `edges` stands for a dependence of the arena.
pub open spec fn edges_sound(
    nodes: Seq<DynNodeView>,
    order: Seq<usize>,
    edges: Seq<ExportablePDGEdge>,
) -> bool {
    forall|k: int| 0 <= k < edges.len() ==> edge_sound(nodes, order, #[trigger] edges[k])
}

/// The numbers that `before` gave are those of `after`.
pub open spec fn order_extends(before: Seq<usize>, after: Seq<usize>) -> bool {
    &&& before.len() <= after.len()
    &&& forall|k: int| 0 <= k < before.len() ==> #[trigger] after[k] == before[k]
}

/// Edges that stand for dependences still do so when more nodes are numbered.
pub proof fn lemma_edges_sound_extend(
    nodes: Seq<DynNodeView>,
    before: Seq<usize>,
    after: Seq<usize>,
    edges: Seq<ExportablePDGEdge>,
)
    requires
        edges_sound(nodes, before, edges),
        order_extends(before, after),
    ensures
        edges_sound(nodes, after, edges),
{
    assert forall|k: int| 0 <= k < edges.len() implies edge_sound(
        nodes,
        after,
        #[trigger] edges[k],
    ) by {
        let e = edges[k];
        assert(edge_sound(nodes, before, e));
        let j = choose|j: int|
            0 <= j < nodes[before[e.from as int] as int].dependencies.len() && (
            #[trigger] nodes[before[e.from as int] as int].dependencies[j]) == (
                before[e.to as int],
                e.kind,
            );
        assert(after[e.from as int] == before[e.from as int]);
        assert(after[e.to as int] == before[e.to as int]);
        assert(nodes[after[e.from as int] as int].dependencies[j] == (after[e.to as int], e.kind));
    }
}

/// The edges that a visit collects stand for dependences of the arena.
pub proof fn lemma_visit_deps_sound(
    nodes: Seq<DynNodeView>,
    v: Visit,
    from: u32,
    bits: Seq<bool>,
    upto: int,
)
    requires
        walk_wf(nodes, v.walk),
        from < v.walk.order.len(),
        edges_sound(nodes, v.walk.order, v.mine),
        0 <= upto <= nodes[v.walk.order[from as int] as int].dependencies.len(),
    ensures
        ({
            let deps = nodes[v.walk.order[from as int] as int].dependencies;
            let after = visit_deps(v, from, bits, deps, upto);
            &&& order_extends(v.walk.order, after.walk.order)
            &&& edges_sound(nodes, after.walk.order, after.mine)
            &&& walk_wf(nodes, after.walk)
        }),
    decreases upto,
{
    let node = v.walk.order[from as int];
    let deps = nodes[node as int].dependencies;
    assert forall|j: int| 0 <= j < deps.len() implies (#[trigger] deps[j]).0 < nodes.len() by {
        assert(nodes[node as int].dependencies[j].0 < nodes.len());
    }
    if upto > 0 {
        lemma_visit_deps_sound(nodes, v, from, bits, upto - 1);
        lemma_visit_deps(nodes, v, from, bits, deps, upto - 1);
        lemma_visit_deps(nodes, v, from, bits, deps, upto);
        let before = visit_deps(v, from, bits, deps, upto - 1);
        let dep = deps[upto - 1];
        let after = visit_dep(before, from, bits, dep);
        assert(order_extends(before.walk.order, after.walk.order));
        lemma_edges_sound_extend(nodes, before.walk.order, after.walk.order, before.mine);
        let to = match before.walk.index[dep.0 as int] {
            Some(i) => i,
            None => before.walk.order.len() as u32,
        };
        let e = ExportablePDGEdge { from, to, kind: dep.1, clocked: bits[dep.0 as int] };
        assert(after.walk.order[to as int] == dep.0);
        assert(after.walk.order[from as int] == node);
        assert(nodes[after.walk.order[e.from as int] as int].dependencies[upto - 1] == (
            after.walk.order[e.to as int],
            e.kind,
        ));
        assert(edge_sound(nodes, after.walk.order, e));
        assert forall|k: int| 0 <= k < after.mine.len() implies edge_sound(
            nodes,
            after.walk.order,
            #[trigger] after.mine[k],
        ) by {
            if k < before.mine.len() {
                assert(after.mine[k] == before.mine[k]);
            }
        }
    }
}

/// A step of the walk keeps it well formed and its edges sound.
pub proof fn lemma_walk_step_sound(nodes: Seq<DynNodeView>, clocked: Seq<bool>, w: Walk)
    requires
        walk_wf(nodes, w),
        w.stack.len() > 0,
        edges_sound(nodes, w.order, w.edges),
    ensures
        walk_wf(nodes, walk_step(nodes, clocked, w)),
        order_extends(w.order, walk_step(nodes, clocked, w).order),
        edges_sound(nodes, walk_step(nodes, clocked, w).order, walk_step(nodes, clocked, w).edges),
{
    let node = w.stack.last();
    let from = w.index[node as int]->0;
    let popped = Walk { stack: w.stack.drop_last(), ..w };
    assert(walk_wf(nodes, popped));
    let first = Visit { walk: popped, mine: seq![] };
    let deps = nodes[node as int].dependencies;
    assert(popped.order[from as int] == node);
    lemma_visit_deps_sound(
        nodes,
        first,
        from,
        node_bits(nodes, clocked),
        deps.len() as int,
    );
    assert forall|j: int| 0 <= j < deps.len() implies (#[trigger] deps[j]).0 < nodes.len() by {
        assert(nodes[node as int].dependencies[j].0 < nodes.len());
    }
    lemma_visit_deps(
        nodes,
        first,
        from,
        node_bits(nodes, clocked),
        deps,
        deps.len() as int,
    );
    let v = visit_deps(first, from, node_bits(nodes, clocked), deps, deps.len() as int);
    let after = walk_step(nodes, clocked, w);
    lemma_edges_sound_extend(nodes, w.order, after.order, w.edges);
    assert forall|k: int| 0 <= k < after.edges.len() implies edge_sound(
        nodes,
        after.order,
        #[trigger] after.edges[k],
    ) by {
        if k < w.edges.len() {
            assert(after.edges[k] == w.edges[k]);
        } else {
            assert(after.edges[k] == v.mine[k - w.edges.len()]);
        }
    }
}

/// The edges of a finished walk stand for dependences of the arena, and
/// its numbers are those that were given on the way.
pub proof fn lemma_walk_sound(nodes: Seq<DynNodeView>, clocked: Seq<bool>, w: Walk)
    requires
        walk_wf(nodes, w),
        edges_sound(nodes, w.order, w.edges),
    ensures
        walk_wf(nodes, walk(nodes, clocked, w)),
        order_extends(w.order, walk(nodes, clocked, w).order),
        edges_sound(nodes, walk(nodes, clocked, w).order, walk(nodes, clocked, w).edges),
    decreases unseen(w.index), w.stack.len(),
{
    if w.stack.len() > 0 {
        let node = w.stack.last();
        let popped = Walk { stack: w.stack.drop_last(), ..w };
        assert(walk_wf(nodes, popped));
        assert forall|j: int|
            0 <= j < nodes[node as int].dependencies.len() implies (
        #[trigger] nodes[node as int].dependencies[j]).0 < nodes.len() by {}
        lemma_visit_deps(
            nodes,
            Visit { walk: popped, mine: seq![] },
            w.index[node as int]->0,
            node_bits(nodes, clocked),
            nodes[node as int].dependencies,
            nodes[node as int].dependencies.len() as int,
        );
        lemma_walk_step_sound(nodes, clocked, w);
        lemma_walk_sound(nodes, clocked, walk_step(nodes, clocked, w));
    }
}

/// The walk before its first step is well formed.
pub proof fn lemma_start_walk(nodes: Seq<DynNodeView>, root: usize)
    requires
        root < nodes.len(),
        nodes.len() <= u32::MAX,
        forall|i: int, j: int|
            0 <= i < nodes.len() && 0 <= j < nodes[i].dependencies.len() ==> (
            #[trigger] nodes[i].dependencies[j]).0 < nodes.len(),
    ensures
        walk_wf(nodes, start_walk(nodes.len(), root)),
        edges_sound(nodes, start_walk(nodes.len(), root).order, start_walk(nodes.len(), root).edges),
{
    let blank = Seq::new(nodes.len(), |i: int| None::<u32>);
    lemma_unseen_blank(blank);
    lemma_unseen_update(blank, root as int, 0);
}

/// Before the walk every node is unseen.
pub proof fn lemma_unseen_blank(index: Seq<Option<u32>>)
    requires
        forall|i: int| 0 <= i < index.len() ==> #[trigger] index[i] is None,
    ensures
        unseen(index) == index.len(),
    decreases index.len(),
{
    if index.len() > 0 {
        lemma_unseen_blank(index.drop_last());
    }
}

/// The walk at its end: steps are taken until nothing waits on the stack.
pub open spec fn walk(nodes: Seq<DynNodeView>, clocked: Seq<bool>, w: Walk) -> Walk
    decreases unseen(w.index), w.stack.len(),
    when walk_wf(nodes, w)
{
    if w.stack.len() == 0 {
        w
    } else {
        proof {
            let node = w.stack.last();
            let popped = Walk { stack: w.stack.drop_last(), ..w };
            assert(walk_wf(nodes, popped));
            lemma_visit_deps(
                nodes,
                Visit { walk: popped, mine: seq![] },
                w.index[node as int]->0,
                node_bits(nodes, clocked),
                nodes[node as int].dependencies,
                nodes[node as int].dependencies.len() as int,
            );
        }
        walk(nodes, clocked, walk_step(nodes, clocked, w))
    }
}

/// Every edge of `edges` carries the clocked bit of its provider: the
/// statement of the node that the edge arrives at.
pub open spec fn bits_sound(
    nodes: Seq<DynNodeView>,
    clocked: Seq<bool>,
    order: Seq<usize>,
    edges: Seq<ExportablePDGEdge>,
) -> bool {
    forall|k: int|
        0 <= k < edges.len() ==> (#[trigger] edges[k]).to < order.len() && edges[k].clocked
            == clocked[nodes[order[edges[k].to as int] as int].inner as int]
}

/// Following dependences gives every edge the bit of its provider.
pub proof fn lemma_visit_deps_bits(
    nodes: Seq<DynNodeView>,
    clocked: Seq<bool>,
    v: Visit,
    from: u32,
    upto: int,
)
    requires
        walk_wf(nodes, v.walk),
        from < v.walk.order.len(),
        edges_sound(nodes, v.walk.order, v.mine),
        bits_sound(nodes, clocked, v.walk.order, v.mine),
        0 <= upto <= nodes[v.walk.order[from as int] as int].dependencies.len(),
    ensures
        ({
            let deps = nodes[v.walk.order[from as int] as int].dependencies;
            let after = visit_deps(v, from, node_bits(nodes, clocked), deps, upto);
            bits_sound(nodes, clocked, after.walk.order, after.mine)
        }),
    decreases upto,
{
    let bits = node_bits(nodes, clocked);
    let node = v.walk.order[from as int];
    let deps = nodes[node as int].dependencies;
    assert forall|j: int| 0 <= j < deps.len() implies (#[trigger] deps[j]).0 < nodes.len() by {
        assert(nodes[node as int].dependencies[j].0 < nodes.len());
    }
    if upto > 0 {
        lemma_visit_deps_bits(nodes, clocked, v, from, upto - 1);
        lemma_visit_deps_sound(nodes, v, from, bits, upto - 1);
        lemma_visit_deps_sound(nodes, v, from, bits, upto);
        lemma_visit_deps(nodes, v, from, bits, deps, upto - 1);
        let before = visit_deps(v, from, bits, deps, upto - 1);
        let dep = deps[upto - 1];
        let after = visit_dep(before, from, bits, dep);
        let to = match before.walk.index[dep.0 as int] {
            Some(i) => i,
            None => before.walk.order.len() as u32,
        };
        assert(after.walk.order[to as int] == dep.0);
        assert forall|k: int| 0 <= k < after.mine.len() implies (#[trigger] after.mine[k]).to
            < after.walk.order.len() && after.mine[k].clocked
            == clocked[nodes[after.walk.order[after.mine[k].to as int] as int].inner as int] by {
            if k < before.mine.len() {
                assert(after.mine[k] == before.mine[k]);
                assert(after.walk.order[before.mine[k].to as int]
                    == before.walk.order[before.mine[k].to as int]);
            }
        }
    }
}

/// A walk gives every edge the bit of its provider.
pub proof fn lemma_walk_bits(nodes: Seq<DynNodeView>, clocked: Seq<bool>, w: Walk)
    requires
        walk_wf(nodes, w),
        edges_sound(nodes, w.order, w.edges),
        bits_sound(nodes, clocked, w.order, w.edges),
    ensures
        bits_sound(nodes, clocked, walk(nodes, clocked, w).order, walk(nodes, clocked, w).edges),
    decreases unseen(w.index), w.stack.len(),
{
    if w.stack.len() > 0 {
        let node = w.stack.last();
        let from = w.index[node as int]->0;
        let popped = Walk { stack: w.stack.drop_last(), ..w };
        assert(walk_wf(nodes, popped));
        let deps = nodes[node as int].dependencies;
        assert forall|j: int| 0 <= j < deps.len() implies (#[trigger] deps[j]).0 < nodes.len() by {
            assert(nodes[node as int].dependencies[j].0 < nodes.len());
        }
        let first = Visit { walk: popped, mine: seq![] };
        assert(popped.order[from as int] == node);
        lemma_visit_deps(nodes, first, from, node_bits(nodes, clocked), deps, deps.len() as int);
        lemma_visit_deps_sound(nodes, first, from, node_bits(nodes, clocked), deps.len() as int);
        lemma_visit_deps_bits(nodes, clocked, first, from, deps.len() as int);
        lemma_walk_step_sound(nodes, clocked, w);
        let v = visit_deps(first, from, node_bits(nodes, clocked), deps, deps.len() as int);
        let after = walk_step(nodes, clocked, w);
        assert forall|k: int| 0 <= k < after.edges.len() implies (#[trigger] after.edges[k]).to
            < after.order.len() && after.edges[k].clocked
            == clocked[nodes[after.order[after.edges[k].to as int] as int].inner as int] by {
            if k < w.edges.len() {
                assert(after.edges[k] == w.edges[k]);
                assert(after.order[w.edges[k].to as int] == w.order[w.edges[k].to as int]);
            } else {
                assert(after.edges[k] == v.mine[k - w.edges.len()]);
            }
        }
        lemma_walk_bits(nodes, clocked, after);
    }
}

/// No entry stands twice in the list.
pub open spec fn distinct<T>(s: Seq<T>) -> bool {
    forall|i: int, j: int| 0 <= i < j < s.len() ==> s[i] != s[j]
}

/// No node waits twice, no edge is kept twice, and no edge leaves a
/// node that still waits.
pub open spec fn walk_apart(w: Walk) -> bool {
    &&& distinct(w.stack)
    &&& distinct(w.edges)
    &&& forall|k: int, q: int|
        0 <= k < w.edges.len() && 0 <= q < w.stack.len() ==> w.index[(#[trigger] w.stack[q]) as int]
            != Some((#[trigger] w.edges[k]).from)
}

/// Following dependences keeps the waiting nodes and the edges of the
/// node at hand apart; what joins the stack was not found before.
pub proof fn lemma_visit_deps_apart(
    nodes: Seq<DynNodeView>,
    v: Visit,
    from: u32,
    bits: Seq<bool>,
    deps: Seq<(usize, PDGSpecEdgeKind)>,
    upto: int,
)
    requires
        walk_wf(nodes, v.walk),
        0 <= upto <= deps.len(),
        forall|j: int| 0 <= j < deps.len() ==> (#[trigger] deps[j]).0 < nodes.len(),
        distinct(v.walk.stack),
        distinct(v.mine),
        forall|k: int| 0 <= k < v.mine.len() ==> (#[trigger] v.mine[k]).from == from,
    ensures
        ({
            let after = visit_deps(v, from, bits, deps, upto);
            &&& walk_wf(nodes, after.walk)
            &&& distinct(after.walk.stack)
            &&& distinct(after.mine)
            &&& forall|k: int| 0 <= k < after.mine.len() ==> (#[trigger] after.mine[k]).from == from
            &&& after.walk.stack.len() >= v.walk.stack.len()
            &&& forall|q: int|
                0 <= q < v.walk.stack.len() ==> #[trigger] after.walk.stack[q] == v.walk.stack[q]
            &&& forall|q: int|
                v.walk.stack.len() <= q < after.walk.stack.len() ==> v.walk.index[(
                #[trigger] after.walk.stack[q]) as int] is None
            &&& forall|i: int|
                0 <= i < nodes.len() && v.walk.index[i] is Some ==> #[trigger] after.walk.index[i]
                    == v.walk.index[i]
            &&& forall|i: int|
                0 <= i < nodes.len() && v.walk.index[i] is None ==> (
                #[trigger] after.walk.index[i] matches Some(x) ==> x >= v.walk.order.len())
        }),
    decreases upto,
{
    lemma_visit_deps(nodes, v, from, bits, deps, upto);
    if upto > 0 {
        lemma_visit_deps_apart(nodes, v, from, bits, deps, upto - 1);
        lemma_visit_deps(nodes, v, from, bits, deps, upto - 1);
        let before = visit_deps(v, from, bits, deps, upto - 1);
        let dep = deps[upto - 1];
        let after = visit_dep(before, from, bits, dep);
        assert forall|i: int, j: int| 0 <= i < j < after.walk.stack.len() implies after.walk.stack[i]
            != after.walk.stack[j] by {
            if j < before.walk.stack.len() {
                assert(after.walk.stack[i] == before.walk.stack[i]);
                assert(after.walk.stack[j] == before.walk.stack[j]);
            } else {
                assert(after.walk.stack[i] == before.walk.stack[i]);
                assert(before.walk.index[before.walk.stack[i] as int] is Some);
            }
        }
        assert forall|i: int, j: int| 0 <= i < j < after.mine.len() implies after.mine[i]
            != after.mine[j] by {
            if j < before.mine.len() {
                assert(after.mine[i] == before.mine[i]);
                assert(after.mine[j] == before.mine[j]);
            } else {
                assert(after.mine[i] == before.mine[i]);
                assert(before.mine.contains(before.mine[i]));
            }
        }
        assert forall|k: int| 0 <= k < after.mine.len() implies (#[trigger] after.mine[k]).from
            == from by {
            if k < before.mine.len() {
                assert(after.mine[k] == before.mine[k]);
            }
        }
        assert forall|q: int| 0 <= q < v.walk.stack.len() implies #[trigger] after.walk.stack[q]
            == v.walk.stack[q] by {
            assert(before.walk.stack[q] == v.walk.stack[q]);
        }
        assert forall|q: int| v.walk.stack.len() <= q < after.walk.stack.len() implies v.walk.index[(
        #[trigger] after.walk.stack[q]) as int] is None by {
            if q < before.walk.stack.len() {
                assert(after.walk.stack[q] == before.walk.stack[q]);
            } else {
                if v.walk.index[dep.0 as int] is Some {
                    assert(before.walk.index[dep.0 as int] == v.walk.index[dep.0 as int]);
                }
            }
        }
        assert forall|i: int| 0 <= i < nodes.len() && v.walk.index[i] is None implies (
        #[trigger] after.walk.index[i] matches Some(x) ==> x >= v.walk.order.len()) by {
            assert(before.walk.index[i] matches Some(x) ==> x >= v.walk.order.len());
            lemma_visit_deps_grows(nodes, v, from, bits, deps, upto - 1);
        }
    }
}

/// Following dependences gives no number back.
pub proof fn lemma_visit_deps_grows(
    nodes: Seq<DynNodeView>,
    v: Visit,
    from: u32,
    bits: Seq<bool>,
    deps: Seq<(usize, PDGSpecEdgeKind)>,
    upto: int,
)
    requires
        0 <= upto <= deps.len(),
    ensures
        visit_deps(v, from, bits, deps, upto).walk.order.len() >= v.walk.order.len(),
    decreases upto,
{
    if upto > 0 {
        lemma_visit_deps_grows(nodes, v, from, bits, deps, upto - 1);
    }
}

/// A step of the walk keeps its nodes and edges apart.
pub proof fn lemma_walk_step_apart(nodes: Seq<DynNodeView>, clocked: Seq<bool>, w: Walk)
    requires
        walk_wf(nodes, w),
        w.stack.len() > 0,
        walk_apart(w),
        edges_sound(nodes, w.order, w.edges),
    ensures
        walk_apart(walk_step(nodes, clocked, w)),
{
    let node = w.stack.last();
    let from = w.index[node as int]->0;
    let popped = Walk { stack: w.stack.drop_last(), ..w };
    assert(walk_wf(nodes, popped));
    let first = Visit { walk: popped, mine: seq![] };
    let deps = nodes[node as int].dependencies;
    let bit = node_bits(nodes, clocked);
    assert forall|j: int| 0 <= j < deps.len() implies (#[trigger] deps[j]).0 < nodes.len() by {
        assert(nodes[node as int].dependencies[j].0 < nodes.len());
    }
    assert(distinct(popped.stack)) by {
        assert forall|i: int, j: int| 0 <= i < j < popped.stack.len() implies popped.stack[i]
            != popped.stack[j] by {
            assert(popped.stack[i] == w.stack[i] && popped.stack[j] == w.stack[j]);
        }
    }
    lemma_visit_deps_apart(nodes, first, from, bit, deps, deps.len() as int);
    lemma_visit_deps(nodes, first, from, bit, deps, deps.len() as int);
    let v = visit_deps(first, from, bit, deps, deps.len() as int);
    let after = walk_step(nodes, clocked, w);
    assert(after.stack == v.walk.stack);
    assert(after.index == v.walk.index);
    assert(w.order[from as int] == node);
    assert forall|i: int, j: int| 0 <= i < j < after.edges.len() implies after.edges[i]
        != after.edges[j] by {
        if j < w.edges.len() {
            assert(after.edges[i] == w.edges[i] && after.edges[j] == w.edges[j]);
        } else if i < w.edges.len() {
            assert(after.edges[i] == w.edges[i]);
            assert(after.edges[j] == v.mine[j - w.edges.len()]);
            assert(w.index[w.stack[w.stack.len() - 1] as int] != Some(w.edges[i].from));
        } else {
            assert(after.edges[i] == v.mine[i - w.edges.len()]);
            assert(after.edges[j] == v.mine[j - w.edges.len()]);
        }
    }
    assert forall|k: int, q: int|
        0 <= k < after.edges.len() && 0 <= q < after.stack.len() implies after.index[(
    #[trigger] after.stack[q]) as int] != Some((#[trigger] after.edges[k]).from) by {
        let x = after.stack[q];
        let e = after.edges[k];
        if q < popped.stack.len() {
            assert(x == popped.stack[q]);
            assert(x == w.stack[q]);
            assert(w.index[x as int] is Some);
            assert(after.index[x as int] == w.index[x as int]);
            if k < w.edges.len() {
                assert(e == w.edges[k]);
            } else {
                assert(e == v.mine[k - w.edges.len()]);
                assert(e.from == from);
                if w.index[x as int] == Some(from) {
                    assert(w.order[from as int] == x);
                    assert(w.stack[q] != w.stack[w.stack.len() - 1]);
                }
            }
        } else {
            assert(popped.index[x as int] is None);
            assert(after.index[x as int] matches Some(y) ==> y >= w.order.len());
            if k < w.edges.len() {
                assert(e == w.edges[k]);
                assert(edge_sound(nodes, w.order, w.edges[k]));
            } else {
                assert(e == v.mine[k - w.edges.len()]);
                assert(e.from == from);
                assert(from < w.order.len());
            }
        }
    }
}

/// A walk keeps its nodes and edges apart to its end.
pub proof fn lemma_walk_apart(nodes: Seq<DynNodeView>, clocked: Seq<bool>, w: Walk)
    requires
        walk_wf(nodes, w),
        walk_apart(w),
        edges_sound(nodes, w.order, w.edges),
    ensures
        walk_apart(walk(nodes, clocked, w)),
    decreases unseen(w.index), w.stack.len(),
{
    if w.stack.len() > 0 {
        let node = w.stack.last();
        let popped = Walk { stack: w.stack.drop_last(), ..w };
        assert(walk_wf(nodes, popped));
        assert forall|j: int|
            0 <= j < nodes[node as int].dependencies.len() implies (
        #[trigger] nodes[node as int].dependencies[j]).0 < nodes.len() by {}
        lemma_visit_deps(
            nodes,
            Visit { walk: popped, mine: seq![] },
            w.index[node as int]->0,
            node_bits(nodes, clocked),
            nodes[node as int].dependencies,
            nodes[node as int].dependencies.len() as int,
        );
        lemma_walk_step_sound(nodes, clocked, w);
        lemma_walk_step_apart(nodes, clocked, w);
        lemma_walk_apart(nodes, clocked, walk_step(nodes, clocked, w));
    }
}

/// The edge that stands for a dependence of the node numbered `from`.
pub open spec fn edge_of(
    index: Seq<Option<u32>>,
    bits: Seq<bool>,
    from: u32,
    dep: (usize, PDGSpecEdgeKind),
) -> ExportablePDGEdge {
    ExportablePDGEdge {
        from,
        to: index[dep.0 as int]->0,
        kind: dep.1,
        clocked: bits[dep.0 as int],
    }
}

/// Every node that the walk has found and that waits no more has an
/// edge for each of its dependences, to a node that the walk has found.
pub open spec fn walk_complete(nodes: Seq<DynNodeView>, bits: Seq<bool>, w: Walk) -> bool {
    forall|i: int, j: int|
        0 <= i < nodes.len() && w.index[i] is Some && !w.stack.contains(i as usize) && 0 <= j
            < nodes[i].dependencies.len() ==> w.index[(#[trigger] nodes[i].dependencies[j]).0 as int]
            is Some && w.edges.contains(
            edge_of(w.index, bits, w.index[i]->0, nodes[i].dependencies[j]),
        )
}

/// Following dependences finds the provider of each and keeps an edge
/// for it; the numbers given stay, and what is newly found waits.
pub proof fn lemma_visit_deps_complete(
    nodes: Seq<DynNodeView>,
    v: Visit,
    from: u32,
    bits: Seq<bool>,
    deps: Seq<(usize, PDGSpecEdgeKind)>,
    upto: int,
)
    requires
        walk_wf(nodes, v.walk),
        0 <= upto <= deps.len(),
        forall|j: int| 0 <= j < deps.len() ==> (#[trigger] deps[j]).0 < nodes.len(),
    ensures
        ({
            let after = visit_deps(v, from, bits, deps, upto);
            &&& forall|j: int|
                0 <= j < upto ==> after.walk.index[(#[trigger] deps[j]).0 as int] is Some
                    && after.mine.contains(edge_of(after.walk.index, bits, from, deps[j]))
            &&& forall|i: int|
                0 <= i < nodes.len() && v.walk.index[i] is Some ==> #[trigger] after.walk.index[i]
                    == v.walk.index[i]
            &&& forall|i: int|
                0 <= i < nodes.len() && v.walk.index[i] is None && (
                #[trigger] after.walk.index[i]) is Some ==> after.walk.stack.contains(i as usize)
            &&& forall|q: int|
                0 <= q < v.walk.stack.len() ==> q < after.walk.stack.len()
                    && #[trigger] after.walk.stack[q] == v.walk.stack[q]
            &&& after.walk.index.len() == nodes.len()
        }),
    decreases upto,
{
    if upto > 0 {
        lemma_visit_deps_complete(nodes, v, from, bits, deps, upto - 1);
        lemma_visit_deps(nodes, v, from, bits, deps, upto - 1);
        let before = visit_deps(v, from, bits, deps, upto - 1);
        let dep = deps[upto - 1];
        let after = visit_dep(before, from, bits, dep);
        assert forall|j: int| 0 <= j < upto implies after.walk.index[(#[trigger] deps[j]).0 as int]
            is Some && after.mine.contains(edge_of(after.walk.index, bits, from, deps[j])) by {
            if j < upto - 1 {
                assert(before.walk.index[deps[j].0 as int] is Some);
                let e = edge_of(before.walk.index, bits, from, deps[j]);
                assert(before.mine.contains(e));
                let k = choose|k: int| 0 <= k < before.mine.len() && before.mine[k] == e;
                assert(after.mine[k] == e);
                assert(edge_of(after.walk.index, bits, from, deps[j]) == e);
            } else {
                let e = edge_of(after.walk.index, bits, from, dep);
                if !before.mine.contains(e) {
                    assert(after.mine[before.mine.len() as int] == e);
                } else {
                    let k = choose|k: int| 0 <= k < before.mine.len() && before.mine[k] == e;
                    assert(after.mine[k] == e);
                }
            }
        }
        assert forall|i: int|
            0 <= i < nodes.len() && v.walk.index[i] is None && (#[trigger] after.walk.index[i])
                is Some implies after.walk.stack.contains(i as usize) by {
            if before.walk.index[i] is Some {
                assert(before.walk.stack.contains(i as usize));
                let q = choose|q: int| 0 <= q < before.walk.stack.len() && before.walk.stack[q] == i as usize;
                assert(after.walk.stack[q] == i as usize);
            } else {
                assert(after.walk.stack[after.walk.stack.len() - 1] == i as usize);
            }
        }
        assert forall|q: int| 0 <= q < v.walk.stack.len() implies q < after.walk.stack.len()
            && #[trigger] after.walk.stack[q] == v.walk.stack[q] by {
            assert(before.walk.stack[q] == v.walk.stack[q]);
        }
    }
}

/// A step of the walk keeps it complete.
pub proof fn lemma_walk_step_complete(nodes: Seq<DynNodeView>, clocked: Seq<bool>, w: Walk)
    requires
        walk_wf(nodes, w),
        w.stack.len() > 0,
        distinct(w.stack),
        walk_complete(nodes, node_bits(nodes, clocked), w),
    ensures
        walk_complete(nodes, node_bits(nodes, clocked), walk_step(nodes, clocked, w)),
{
    let bits = node_bits(nodes, clocked);
    let node = w.stack.last();
    let from = w.index[node as int]->0;
    let popped = Walk { stack: w.stack.drop_last(), ..w };
    assert(walk_wf(nodes, popped));
    let first = Visit { walk: popped, mine: seq![] };
    let deps = nodes[node as int].dependencies;
    assert forall|j: int| 0 <= j < deps.len() implies (#[trigger] deps[j]).0 < nodes.len() by {
        assert(nodes[node as int].dependencies[j].0 < nodes.len());
    }
    lemma_visit_deps_complete(nodes, first, from, bits, deps, deps.len() as int);
    lemma_visit_deps(nodes, first, from, bits, deps, deps.len() as int);
    let v = visit_deps(first, from, bits, deps, deps.len() as int);
    let after = walk_step(nodes, clocked, w);
    assert(after.edges == w.edges + v.mine);
    assert(after.stack == v.walk.stack);
    assert(after.index == v.walk.index);
    assert forall|i: int, j: int|
        0 <= i < nodes.len() && after.index[i] is Some && !after.stack.contains(i as usize) && 0 <= j
            < nodes[i].dependencies.len() implies after.index[(
    #[trigger] nodes[i].dependencies[j]).0 as int] is Some && after.edges.contains(
        edge_of(after.index, bits, after.index[i]->0, nodes[i].dependencies[j]),
    ) by {
        let dep = nodes[i].dependencies[j];
        if i == node {
            let e = edge_of(v.walk.index, bits, from, deps[j]);
            assert(v.mine.contains(e));
            let k = choose|k: int| 0 <= k < v.mine.len() && v.mine[k] == e;
            assert(after.edges[w.edges.len() + k] == e);
            assert(after.index[i] == w.index[i]);
        } else {
            if w.index[i] is None {
                assert(popped.index[i] is None);
                assert(after.stack.contains(i as usize));
            }
            assert(w.index[i] is Some);
            if w.stack.contains(i as usize) {
                let q = choose|q: int| 0 <= q < w.stack.len() && w.stack[q] == i as usize;
                assert(q < w.stack.len() - 1);
                assert(popped.stack[q] == i as usize);
                assert(after.stack[q] == i as usize);
            }
            assert(w.index[dep.0 as int] is Some);
            let e = edge_of(w.index, bits, w.index[i]->0, dep);
            assert(w.edges.contains(e));
            let k = choose|k: int| 0 <= k < w.edges.len() && w.edges[k] == e;
            assert(after.edges[k] == e);
            assert(after.index[dep.0 as int] == w.index[dep.0 as int]);
            assert(after.index[i] == w.index[i]);
        }
    }
}

/// A walk is complete at its end: every node that it has found has an
/// edge for each of its dependences.
pub proof fn lemma_walk_complete(nodes: Seq<DynNodeView>, clocked: Seq<bool>, w: Walk)
    requires
        walk_wf(nodes, w),
        walk_apart(w),
        edges_sound(nodes, w.order, w.edges),
        walk_complete(nodes, node_bits(nodes, clocked), w),
    ensures
        walk_complete(nodes, node_bits(nodes, clocked), walk(nodes, clocked, w)),
        walk(nodes, clocked, w).stack.len() == 0,
    decreases unseen(w.index), w.stack.len(),
{
    if w.stack.len() > 0 {
        let node = w.stack.last();
        let popped = Walk { stack: w.stack.drop_last(), ..w };
        assert(walk_wf(nodes, popped));
        assert forall|j: int|
            0 <= j < nodes[node as int].dependencies.len() implies (
        #[trigger] nodes[node as int].dependencies[j]).0 < nodes.len() by {}
        lemma_visit_deps(
            nodes,
            Visit { walk: popped, mine: seq![] },
            w.index[node as int]->0,
            node_bits(nodes, clocked),
            nodes[node as int].dependencies,
            nodes[node as int].dependencies.len() as int,
        );
        lemma_walk_step_sound(nodes, clocked, w);
        lemma_walk_step_apart(nodes, clocked, w);
        lemma_walk_step_complete(nodes, clocked, w);
        lemma_walk_complete(nodes, clocked, walk_step(nodes, clocked, w));
    }
}

/// What a walk from `root` exports: the root first, no node twice,
/// every edge for a dependence between exported nodes, with the clocked
/// bit of its provider, no edge twice, and for every dependence of an
/// exported node an edge to its provider, which is exported too.
pub proof fn lemma_export_once(nodes: Seq<DynNodeView>, clocked: Seq<bool>, root: usize)
    requires
        root < nodes.len(),
        nodes.len() <= u32::MAX,
        forall|i: int, j: int|
            0 <= i < nodes.len() && 0 <= j < nodes[i].dependencies.len() ==> (
            #[trigger] nodes[i].dependencies[j]).0 < nodes.len(),
    ensures
        ({
            let w = walk(nodes, clocked, start_walk(nodes.len(), root));
            &&& w.order.len() >= 1
            &&& w.order[0] == root
            &&& forall|j: int, k: int| 0 <= j < k < w.order.len() ==> w.order[j] != w.order[k]
            &&& edges_sound(nodes, w.order, w.edges)
            &&& bits_sound(nodes, clocked, w.order, w.edges)
            &&& distinct(w.edges)
            &&& forall|i: int, j: int|
                0 <= i < w.order.len() && 0 <= j < nodes[w.order[i] as int].dependencies.len()
                    ==> w.index[(#[trigger] nodes[w.order[i] as int].dependencies[j]).0 as int]
                    is Some && w.edges.contains(
                    edge_of(
                        w.index,
                        node_bits(nodes, clocked),
                        i as u32,
                        nodes[w.order[i] as int].dependencies[j],
                    ),
                )
        }),
{
    let start = start_walk(nodes.len(), root);
    lemma_start_walk(nodes, root);
    lemma_walk_sound(nodes, clocked, start);
    lemma_walk_bits(nodes, clocked, start);
    lemma_walk_apart(nodes, clocked, start);
    assert(walk_complete(nodes, node_bits(nodes, clocked), start)) by {
        assert(start.stack[0] == root);
        assert forall|i: int| 0 <= i < nodes.len() && start.index[i] is Some implies start.stack.contains(
            i as usize,
        ) by {
            assert(i == root);
        }
    }
    lemma_walk_complete(nodes, clocked, start);
    let w = walk(nodes, clocked, start);
    assert(w.order[0] == start.order[0]);
    assert forall|j: int, k: int| 0 <= j < k < w.order.len() implies w.order[j] != w.order[k] by {
        assert(w.index[w.order[j] as int] == Some(j as u32));
        assert(w.index[w.order[k] as int] == Some(k as u32));
    }
    assert forall|i: int, j: int|
        0 <= i < w.order.len() && 0 <= j < nodes[w.order[i] as int].dependencies.len() implies w.index[(
    #[trigger] nodes[w.order[i] as int].dependencies[j]).0 as int] is Some && w.edges.contains(
        edge_of(w.index, node_bits(nodes, clocked), i as u32, nodes[w.order[i] as int].dependencies[j]),
    ) by {
        let x = w.order[i] as int;
        assert(w.index[x] == Some(i as u32));
        assert(!w.stack.contains(x as usize));
    }
}

/// The clocked bit of every statement.
pub open spec fn clocked_bits(vertices: Seq<PDGSpecNode>) -> Seq<bool> {
    Seq::new(vertices.len(), |v: int| vertices[v].clocked)
}

/// The exported vertices of the nodes `order`.
pub open spec fn exported_vertices(
    nodes: Seq<DynNodeView>,
    vertices: Seq<PDGSpecNode>,
    order: Seq<usize>,
) -> Seq<ExportNodeView> {
    Seq::new(
        order.len(),
        |i: int|
            exported_node(
                vertices[nodes[order[i] as int].inner as int].deep_view(),
                nodes[order[i] as int].timestamp,
            ),
    )
}

/// Every node is a statement of the design, and its dependences are nodes of the arena.
pub open spec fn arena_wf(nodes: Seq<DynNodeView>, n: int) -> bool {
    forall|i: int| 0 <= i < nodes.len() ==> node_wf(#[trigger] nodes[i], n, nodes.len() as int)
}

fn has_edge(mine: &Vec<ExportablePDGEdge>, e: ExportablePDGEdge) -> (r: bool)
    ensures
        r == mine@.contains(e),
{
    let mut i: usize = 0;
    while i < mine.len()
        invariant
            i <= mine.len(),
            forall|k: int| 0 <= k < i ==> mine[k] != e,
        decreases mine.len() - i,
    {
        if mine[i] == e {
            return true;
        }
        i = i + 1;
    }
    false
}

/// Exports the part of the arena `nodes` that `root` reaches. The walk
/// goes depth first from the root; every node that it finds is exported
/// once, numbered in the order of finding, with the fields of its
/// statement in `vertices` and its own time stamp. Every dependence
/// becomes an edge with the clocked bit of its provider, the statement of
/// the node that the edge arrives at, and no node has the same edge twice.
pub fn dpdg_make_exportable(nodes: &Vec<DynPDGNode>, root: usize, vertices: &Vec<PDGSpecNode>) -> (pdg:
    ExportablePDG)
    requires
        root < nodes.len(),
        nodes.len() <= u32::MAX,
        arena_wf(nodes.deep_view(), vertices.len() as int),
    ensures
        pdg.edges@ == walk(
            nodes.deep_view(),
            clocked_bits(vertices@),
            start_walk(nodes.len() as nat, root),
        ).edges,
        pdg.vertices.deep_view() == exported_vertices(
            nodes.deep_view(),
            vertices@,
            walk(
                nodes.deep_view(),
                clocked_bits(vertices@),
                start_walk(nodes.len() as nat, root),
            ).order,
        ),
        pdg.vertices.len() >= 1,
        edges_within(pdg.edges@, pdg.vertices.len() as int),
        forall|k: int|
            0 <= k < pdg.edges.len() ==> (#[trigger] pdg.edges[k]).clocked
                == pdg.vertices[pdg.edges[k].to as int].clocked,
        forall|i: int, j: int| 0 <= i < j < pdg.edges.len() ==> pdg.edges[i] != pdg.edges[j],
        ({
            let order = walk(
                nodes.deep_view(),
                clocked_bits(vertices@),
                start_walk(nodes.len() as nat, root),
            ).order;
            &&& order.len() == pdg.vertices.len()
            &&& order[0] == root
            &&& forall|i: int, j: int| 0 <= i < j < order.len() ==> order[i] != order[j]
            &&& forall|i: int, j: int|
                0 <= i < order.len() && 0 <= j < nodes[order[i] as int].dependencies.len()
                    ==> exists|k: int|
                    0 <= k < pdg.edges.len() && (#[trigger] pdg.edges[k]).from == i
                        && pdg.edges[k].kind == (
                    #[trigger] nodes[order[i] as int].dependencies[j]).1
                        && order[pdg.edges[k].to as int]
                        == nodes[order[i] as int].dependencies[j].0
        }),
{
    let ghost nv = nodes.deep_view();
    let ghost clocked = clocked_bits(vertices@);
    let ghost start = start_walk(nodes.len() as nat, root);
    let mut index: Vec<Option<u32>> = Vec::new();
    let mut i: usize = 0;
    while i < nodes.len()
        invariant
            i <= nodes.len(),
            index.len() == i,
            forall|k: int| 0 <= k < i ==> #[trigger] index[k] is None,
            unseen(index@) == i,
        decreases nodes.len() - i,
    {
        let ghost before = index@;
        index.push(None);
        assert(index@.drop_last() =~= before);
        i = i + 1;
    }
    proof {
        assert(index@ =~= Seq::new(nodes.len() as nat, |i: int| None::<u32>));
        lemma_unseen_update(index@, root as int, 0);
    }
    index.set(root, Some(0));
    let mut order: Vec<usize> = Vec::new();
    order.push(root);
    let mut stack: Vec<usize> = Vec::new();
    stack.push(root);
    let mut edges: Vec<ExportablePDGEdge> = Vec::new();
    assert(order@ =~= start.order && stack@ =~= start.stack && index@ =~= start.index);
    proof {
        assert forall|i: int, j: int|
            0 <= i < nv.len() && 0 <= j < nv[i].dependencies.len() implies (
            #[trigger] nv[i].dependencies[j]).0 < nv.len() by {
            assert(node_wf(nv[i], vertices.len() as int, nv.len() as int));
        }
    }
    while stack.len() > 0
        invariant
            nv == nodes.deep_view(),
            clocked == clocked_bits(vertices@),
            arena_wf(nv, vertices.len() as int),
            walk_wf(nv, Walk { index: index@, order: order@, stack: stack@, edges: edges@ }),
            walk(nv, clocked, start) == walk(
                nv,
                clocked,
                Walk { index: index@, order: order@, stack: stack@, edges: edges@ },
            ),
        decreases unseen(index@), stack.len(),
    {
        let ghost w = Walk { index: index@, order: order@, stack: stack@, edges: edges@ };
        let node = stack.pop().unwrap();
        assert(node == w.stack.last());
        assert(stack@ =~= w.stack.drop_last());
        let ghost popped = Walk { stack: w.stack.drop_last(), ..w };
        assert(walk_wf(nv, popped));
        let from = match index[node] {
            Some(number) => number,
            None => 0,
        };
        assert(nv[node as int] == nodes[node as int].deep_view());
        assert(node_wf(nv[node as int], vertices.len() as int, nv.len() as int));
        let deps = &nodes[node].dependencies;
        let ghost bits = node_bits(nv, clocked);
        let mut mine: Vec<ExportablePDGEdge> = Vec::new();
        let ghost first = Visit { walk: popped, mine: seq![] };
        let mut k: usize = 0;
        while k < deps.len()
            invariant
                k <= deps.len(),
                nv == nodes.deep_view(),
                clocked == clocked_bits(vertices@),
                bits == node_bits(nv, clocked),
                arena_wf(nv, vertices.len() as int),
                nodes.len() <= u32::MAX,
                node < nodes.len(),
                deps == &nodes[node as int].dependencies,
                walk_wf(nv, popped),
                first == (Visit { walk: popped, mine: seq![] }),
                forall|j: int| 0 <= j < deps.len() ==> (#[trigger] deps[j]).0 < nv.len(),
                (Visit {
                    walk: Walk { index: index@, order: order@, stack: stack@, edges: edges@ },
                    mine: mine@,
                }) == visit_deps(first, from, bits, deps@, k as int),
            decreases deps.len() - k,
        {
            let (p, kind) = deps[k];
            proof {
                lemma_visit_deps(nv, first, from, bits, deps@, k as int);
                assert(nv[p as int] == nodes[p as int].deep_view());
                assert(node_wf(nv[p as int], vertices.len() as int, nv.len() as int));
            }
            let bit = vertices[nodes[p].inner as usize].clocked;
            let to = match index[p] {
                Some(number) => number,
                None => {
                    proof {
                        lemma_unseen_update(index@, p as int, order.len() as u32);
                    }
                    let number = order.len() as u32;
                    index.set(p, Some(number));
                    order.push(p);
                    stack.push(p);
                    number
                },
            };
            let e = ExportablePDGEdge { from, to, kind, clocked: bit };
            if !has_edge(&mine, e) {
                mine.push(e);
            }
            k = k + 1;
        }
        proof {
            lemma_visit_deps(nv, first, from, bits, deps@, deps.len() as int);
        }
        edges.append(&mut mine);
        proof {
            let after = Walk { index: index@, order: order@, stack: stack@, edges: edges@ };
            assert(after == walk_step(nv, clocked, w));
        }
    }
    let ghost end = Walk { index: index@, order: order@, stack: stack@, edges: edges@ };
    assert(walk(nv, clocked, end) == end);
    let mut exported: Vec<ExportablePDGNode> = Vec::new();
    let mut j: usize = 0;
    while j < order.len()
        invariant
            j <= order.len(),
            exported.len() == j,
            nv == nodes.deep_view(),
            arena_wf(nv, vertices.len() as int),
            forall|k: int| 0 <= k < order.len() ==> (#[trigger] order[k]) < nodes.len(),
            forall|k: int|
                0 <= k < j ==> (#[trigger] exported[k]).deep_view() == exported_node(
                    vertices[nv[order[k] as int].inner as int].deep_view(),
                    nv[order[k] as int].timestamp,
                ),
        decreases order.len() - j,
    {
        let node = &nodes[order[j]];
        assert(nv[order[j as int] as int] == node.deep_view());
        assert(node_wf(nv[order[j as int] as int], vertices.len() as int, nv.len() as int));
        exported.push(ExportablePDGNode::from_node(&vertices[node.inner as usize], node.timestamp));
        j = j + 1;
    }
    assert(exported.deep_view() =~= exported_vertices(nv, vertices@, order@));
    proof {
        lemma_export_once(nv, clocked, root);
        assert forall|i: int, j: int|
            0 <= i < order.len() && 0 <= j < nodes[order[i] as int].dependencies.len() implies exists|
            k: int,
        |
            0 <= k < edges.len() && (#[trigger] edges[k]).from == i && edges[k].kind == (
            #[trigger] nodes[order[i] as int].dependencies[j]).1 && order[edges[k].to as int]
                == nodes[order[i] as int].dependencies[j].0 by {
            let x = order[i] as int;
            assert(nv[x] == nodes[x].deep_view());
            let dep = nv[x].dependencies[j];
            assert(dep == nodes[x].dependencies[j]);
            let e = edge_of(index@, node_bits(nv, clocked), i as u32, dep);
            assert(edges@.contains(e));
            let k = choose|k: int| 0 <= k < edges.len() && edges[k] == e;
            assert(edges[k].from == i);
        }
        assert forall|k: int| 0 <= k < edges.len() implies (#[trigger] edges[k]).from
            < exported.len() && edges[k].to < exported.len() && edges[k].clocked
            == exported[edges[k].to as int].clocked by {
            assert(edge_sound(nv, order@, edges[k]));
            let to = edges[k].to as int;
            assert(exported[to].deep_view() == exported.deep_view()[to]);
            assert(node_wf(nv[order[to] as int], vertices.len() as int, nv.len() as int));
            assert(vertices@[nv[order[to] as int].inner as int].deep_view().clocked
                == vertices[nv[order[to] as int].inner as int].clocked);
        }
    }
    ExportablePDG { vertices: exported, edges }
}

/// A graph in source form, as a mathematical value.
pub struct SourceGraph {
    pub vertices: Seq<ExportNodeView>,
    pub edges: Seq<ExportablePDGEdge>,
}

/// The leader of every vertex.
pub open spec fn leaders_of(vertices: Seq<ExportablePDGNode>) -> Seq<usize> {
    Seq::new(vertices.len(), |v: int| leader(vertices, v) as usize)
}

/// For every vertex whether it stands for a probe.
pub open spec fn probes_of(vertices: Seq<ExportablePDGNode>) -> Seq<bool> {
    Seq::new(vertices.len(), |v: int| is_probe(vertices[v]))
}

/// The source form of a graph. Index edges are redirected past the
/// probes. The vertices of one file, line and group time are split into
/// the parts that hang together, and every part becomes one vertex. The
/// edges between parts are kept, each once, with the clocked bit of the
/// part that it leaves; for a static graph the dependences of parts on
/// themselves are added. At last the generated vertices that repeat an
/// earlier one are taken out.
pub open spec fn source_form(
    vertices: Seq<ExportablePDGNode>,
    edges: Seq<ExportablePDGEdge>,
    verbose_name: bool,
    is_dpdg: bool,
) -> SourceGraph {
    let n = vertices.len();
    let new_edges = redirected(vertices, edges, edges.len() as int);
    let groups = split(new_edges, leaders_of(vertices), probes_of(vertices), n as int).groups;
    let map = part_map(groups, n, groups.len() as int);
    let between = between_parts(new_edges, map, new_edges.len() as int);
    let outgoing = if is_dpdg {
        between
    } else {
        between + self_dependencies(new_edges, map, groups, groups.len() as int)
    };
    let verts = merged_vertices(vertices, groups, verbose_name);
    let merged = first_occurrences(
        with_source_clock(outgoing, clocked_of(verts)),
        outgoing.len() as int,
    );
    let kept = listing(verts, merged, verts.len() as int).kept;
    SourceGraph {
        vertices: marked_items(verts, kept, verts.len() as int),
        edges: renumbered(merged, remapping(kept), merged.len() as int),
    }
}

/// Taking the marked entries of a list of vertices commutes with taking their values.
pub proof fn lemma_marked_views(items: Seq<ExportablePDGNode>, views: Seq<ExportNodeView>, marks: Seq<bool>, upto: int)
    requires
        0 <= upto <= items.len(),
        views.len() == items.len(),
        forall|i: int| 0 <= i < items.len() ==> #[trigger] views[i] == items[i].deep_view(),
    ensures
        marked_items(views, marks, upto).len() == marked_items(items, marks, upto).len(),
        forall|j: int|
            0 <= j < marked_items(items, marks, upto).len() ==> #[trigger] marked_items(
                views,
                marks,
                upto,
            )[j] == marked_items(items, marks, upto)[j].deep_view(),
    decreases upto,
{
    if upto > 0 {
        lemma_marked_views(items, views, marks, upto - 1);
    }
}

/// Brings a graph into source form: the vertices of one source statement
/// become one vertex. The edges of the result join vertices of the
/// result, each carries the clocked bit of the vertex that it leaves, and
/// none stands twice; the source form of a dynamic graph holds no edge from
/// a vertex to itself.
pub fn pdg_convert_to_source(pdg: ExportablePDG, verbose_name: bool, is_dpdg: bool) -> (r:
    ExportablePDG)
    requires
        edges_within(pdg.edges@, pdg.vertices.len() as int),
        pdg.vertices.len() < u32::MAX,
    ensures
        r.vertices.deep_view() == source_form(
            pdg.vertices@,
            pdg.edges@,
            verbose_name,
            is_dpdg,
        ).vertices,
        r.edges@ == source_form(pdg.vertices@, pdg.edges@, verbose_name, is_dpdg).edges,
        edges_tidy(r.vertices.deep_view(), r.edges@),
        is_dpdg ==> no_loops(r.edges@),
{
    let n = pdg.vertices.len();
    let ghost vs = pdg.vertices@;
    let leaders = group_leaders(&pdg.vertices);
    proof {
        assert forall|v: int| 0 <= v < n implies (#[trigger] leaders[v]) < n by {
            lemma_leader(vs, v, 0);
        }
        assert(leaders@ =~= leaders_of(vs));
    }
    let probes = probe_flags(&pdg.vertices);
    assert(probes@ =~= probes_of(vs));
    let leaving = adjacency(&pdg.edges, n, true);
    let new_edges = redirect_index_edges(&pdg.vertices, &pdg.edges, &probes, &leaving);
    let from_new = adjacency(&new_edges, n, true);
    let to_new = adjacency(&new_edges, n, false);
    let groups = split_places(&new_edges, &leaders, &probes, &from_new, &to_new);
    let ghost gs = Seq::new(groups.len() as nat, |g: int| groups[g]@);
    let map = part_of(&groups, n);
    let mut outgoing = outgoing_edges(&new_edges, &map, groups.len());
    if !is_dpdg {
        let mut own = find_self_dependencies(&new_edges, &map, &groups);
        let ghost between = outgoing@;
        let ghost added = own@;
        outgoing.append(&mut own);
        proof {
            assert forall|q: int| 0 <= q < outgoing@.len() implies (#[trigger] outgoing@[q]).from
                < groups.len() && outgoing@[q].to < groups.len() by {
                if q < between.len() {
                    assert(outgoing@[q] == between[q]);
                } else {
                    assert(outgoing@[q] == added[q - between.len()]);
                }
            }
        }
    }
    let new_verts = merge_vertices(&pdg.vertices, &groups, verbose_name);
    assert(new_verts.len() == groups.len()) by {
        assert(new_verts.deep_view().len() == groups.len());
    }
    let merged = merge_edges(&outgoing, &new_verts);
    proof {
        let shown = new_verts.deep_view();
        let fixed = with_source_clock(outgoing@, clocked_of(shown));
        lemma_occurrences_once(fixed, outgoing.len() as int);
        if is_dpdg {
            lemma_between_parts(new_edges@, map@, new_edges.len() as int);
        }
        assert forall|k: int| 0 <= k < merged.len() implies (#[trigger] merged[k]).clocked
            == shown[merged[k].from as int].clocked && (is_dpdg ==> merged[k].from
            != merged[k].to) by {
            lemma_first_occurrences(fixed, outgoing.len() as int, merged[k]);
            assert(merged@.contains(merged[k]));
            let j = choose|j: int| 0 <= j < outgoing.len() && fixed[j] == merged[k];
            assert(fixed[j].from == outgoing[j].from && fixed[j].to == outgoing[j].to);
        }
        assert(edges_tidy(shown, merged@));
    }
    let leaving_merged = adjacency(&merged, new_verts.len(), true);
    let kept = repeated_marks(&new_verts, &merged, &leaving_merged);
    let remapped = renumber_edges(&merged, &kept);
    let ghost verts = new_verts.deep_view();
    let ghost items = new_verts@;
    let pruned = keep_marked(new_verts, &kept);
    proof {
        lemma_marked_views(items, verts, kept@, items.len() as int);
        assert(pruned.deep_view() =~= marked_items(verts, kept@, verts.len() as int));
        lemma_renumbered(verts, merged@, kept@, merged.len() as int);
    }
    ExportablePDG { vertices: pruned, edges: remapped }
}

} // verus!
