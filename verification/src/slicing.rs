//! The static slicer: the part of a static graph that a statement depends on.

use vstd::prelude::*;
use vstd::string::*;
use crate::errors::Error;
use crate::pdg_spec::{CFGSpecStatement, PDGSpec, PDGSpecEdge, PDGSpecNode, PDGSpecNodeKind};
use crate::text::same_text;

verus! {

/// A vertex with the vertices that it depends on, by their positions, and
/// a mark for the walk that slices the graph.
#[derive(Debug)]
pub struct LinkedPDGNode {
    pub _file: String,
    pub _line: u32,
    pub name: String,
    pub _kind: PDGSpecNodeKind,
    pub connections: Vec<usize>,
    pub visited: bool,
}

/// Every edge of the graph joins two of its vertices.
pub open spec fn edges_closed(edges: Seq<PDGSpecEdge>, n: int) -> bool {
    forall|k: int| 0 <= k < edges.len() ==> (#[trigger] edges[k]).from < n && edges[k].to < n
}

/// The targets of the edges among the first `upto` that leave vertex `v`, in order.
pub open spec fn successors(edges: Seq<PDGSpecEdge>, v: int, upto: int) -> Seq<usize>
    decreases upto,
{
    if upto <= 0 {
        seq![]
    } else {
        let rest = successors(edges, v, upto - 1);
        if edges[upto - 1].from == v {
            rest.push(edges[upto - 1].to as usize)
        } else {
            rest
        }
    }
}

/// The connections of every node.
pub open spec fn connections_of(nodes: Seq<LinkedPDGNode>) -> Seq<Seq<usize>> {
    Seq::new(nodes.len(), |i: int| nodes[i].connections@)
}

/// The marks of every node.
pub open spec fn marks_of(nodes: Seq<LinkedPDGNode>) -> Seq<bool> {
    Seq::new(nodes.len(), |i: int| nodes[i].visited)
}

/// Every connection leads to a node.
pub open spec fn connections_closed(conns: Seq<Seq<usize>>) -> bool {
    forall|i: int, j: int|
        0 <= i < conns.len() && 0 <= j < conns[i].len() ==> (#[trigger] conns[i][j]) < conns.len()
}

/// A walk along connections: each node of `path` is connected to the next.
pub open spec fn is_path(conns: Seq<Seq<usize>>, path: Seq<usize>) -> bool {
    &&& path.len() >= 1
    &&& forall|k: int| 0 <= k < path.len() ==> (#[trigger] path[k]) < conns.len()
    &&& forall|k: int|
        0 <= k < path.len() - 1 ==> conns[path[k] as int].contains(#[trigger] path[k + 1])
}

/// Whether connections lead from `from` to `to`, in any number of steps.
pub open spec fn reachable(conns: Seq<Seq<usize>>, from: usize, to: usize) -> bool {
    exists|path: Seq<usize>| is_path(conns, path) && path[0] == from && path.last() == to
}

/// The positions among the first `upto` that carry no mark, ascending.
pub open spec fn unmarked(marks: Seq<bool>, upto: int) -> Seq<usize>
    decreases upto,
{
    if upto <= 0 {
        seq![]
    } else if marks[upto - 1] {
        unmarked(marks, upto - 1)
    } else {
        unmarked(marks, upto - 1).push((upto - 1) as usize)
    }
}

/// The new position of every marked position once the unmarked ones are
/// taken out; an unmarked position has none.
pub open spec fn remapping(marks: Seq<bool>) -> Seq<Option<u32>> {
    Seq::new(
        marks.len(),
        |i: int|
            if marks[i] {
                Some((i - unmarked(marks, i).len()) as u32)
            } else {
                None
            },
    )
}

/// How many positions carry no mark.
pub open spec fn count_unmarked(marks: Seq<bool>) -> nat
    decreases marks.len(),
{
    if marks.len() == 0 {
        0
    } else {
        count_unmarked(marks.drop_last()) + (if marks.last() {
            0nat
        } else {
            1nat
        })
    }
}

/// A vertex that gets a mark leaves the unmarked.
pub proof fn lemma_mark(marks: Seq<bool>, i: int)
    requires
        0 <= i < marks.len(),
        !marks[i],
    ensures
        count_unmarked(marks.update(i, true)) + 1 == count_unmarked(marks),
    decreases marks.len(),
{
    let after = marks.update(i, true);
    if i == marks.len() - 1 {
        assert(after.drop_last() =~= marks.drop_last());
    } else {
        assert(after.drop_last() =~= marks.drop_last().update(i, true));
        lemma_mark(marks.drop_last(), i);
    }
}

/// No more vertices are unmarked than there are.
pub proof fn lemma_unmarked_len(marks: Seq<bool>, upto: int)
    requires
        0 <= upto <= marks.len(),
    ensures
        unmarked(marks, upto).len() <= upto,
    decreases upto,
{
    if upto > 0 {
        lemma_unmarked_len(marks, upto - 1);
    }
}

/// A path can be extended by a connection of its last node.
pub proof fn lemma_reach_step(conns: Seq<Seq<usize>>, from: usize, mid: usize, to: usize)
    requires
        reachable(conns, from, mid),
        mid < conns.len(),
        to < conns.len(),
        conns[mid as int].contains(to),
    ensures
        reachable(conns, from, to),
{
    let path = choose|path: Seq<usize>| is_path(conns, path) && path[0] == from && path.last() == mid;
    let longer = path.push(to);
    assert forall|k: int| 0 <= k < longer.len() - 1 implies conns[longer[k] as int].contains(
        #[trigger] longer[k + 1],
    ) by {
        if k < path.len() - 1 {
            assert(longer[k] == path[k] && longer[k + 1] == path[k + 1]);
        }
    }
    assert(is_path(conns, longer) && longer[0] == from && longer.last() == to);
}

/// A set of marks that holds the start and is closed under connections holds all that the start reaches.
pub proof fn lemma_closed_holds_reachable(
    conns: Seq<Seq<usize>>,
    marks: Seq<bool>,
    from: usize,
    path: Seq<usize>,
    upto: int,
)
    requires
        marks.len() == conns.len(),
        is_path(conns, path),
        path[0] == from,
        marks[from as int],
        forall|v: int, w: usize|
            0 <= v < conns.len() && marks[v] && #[trigger] conns[v].contains(w) && w < conns.len()
                ==> marks[w as int],
        0 <= upto < path.len(),
    ensures
        marks[path[upto] as int],
    decreases upto,
{
    if upto > 0 {
        lemma_closed_holds_reachable(conns, marks, from, path, upto - 1);
        assert(conns[path[upto - 1] as int].contains(path[upto - 1 + 1]));
    }
}

/// Links a graph: for every vertex a node with the vertices that it
/// depends on, in the order of the edge list, and without a mark.
pub fn link_pdg(pdg: &PDGSpec) -> (nodes: Vec<LinkedPDGNode>)
    requires
        edges_closed(pdg.edges@, pdg.vertices.len() as int),
    ensures
        nodes.len() == pdg.vertices.len(),
        forall|i: int|
            0 <= i < nodes.len() ==> {
                &&& (#[trigger] nodes[i])._file@ == pdg.vertices[i].file@
                &&& nodes[i]._line == pdg.vertices[i].line
                &&& nodes[i].name@ == pdg.vertices[i].name@
                &&& nodes[i]._kind == pdg.vertices[i].kind
                &&& !nodes[i].visited
                &&& nodes[i].connections@ == successors(pdg.edges@, i, pdg.edges.len() as int)
            },
        connections_closed(connections_of(nodes@)),
{
    let n = pdg.vertices.len();
    let mut nodes: Vec<LinkedPDGNode> = Vec::new();
    let mut i: usize = 0;
    while i < n
        invariant
            i <= n,
            n == pdg.vertices.len(),
            nodes.len() == i,
            forall|k: int|
                0 <= k < i ==> {
                    &&& (#[trigger] nodes[k])._file@ == pdg.vertices[k].file@
                    &&& nodes[k]._line == pdg.vertices[k].line
                    &&& nodes[k].name@ == pdg.vertices[k].name@
                    &&& nodes[k]._kind == pdg.vertices[k].kind
                    &&& !nodes[k].visited
                    &&& nodes[k].connections@ == Seq::<usize>::empty()
                },
        decreases n - i,
    {
        let v = &pdg.vertices[i];
        nodes.push(
            LinkedPDGNode {
                _file: v.file.clone(),
                _line: v.line,
                name: v.name.clone(),
                _kind: v.kind,
                connections: Vec::new(),
                visited: false,
            },
        );
        i = i + 1;
    }
    let mut k: usize = 0;
    while k < pdg.edges.len()
        invariant
            k <= pdg.edges.len(),
            n == pdg.vertices.len(),
            nodes.len() == n,
            edges_closed(pdg.edges@, n as int),
            forall|i: int|
                0 <= i < n ==> {
                    &&& (#[trigger] nodes[i])._file@ == pdg.vertices[i].file@
                    &&& nodes[i]._line == pdg.vertices[i].line
                    &&& nodes[i].name@ == pdg.vertices[i].name@
                    &&& nodes[i]._kind == pdg.vertices[i].kind
                    &&& !nodes[i].visited
                    &&& nodes[i].connections@ == successors(pdg.edges@, i, k as int)
                },
            forall|i: int, j: int|
                0 <= i < n && 0 <= j < nodes[i].connections.len() ==> (
                #[trigger] nodes[i].connections[j]) < n,
        decreases pdg.edges.len() - k,
    {
        let edge = &pdg.edges[k];
        assert(edge.from < n && edge.to < n);
        nodes[edge.from as usize].connections.push(edge.to as usize);
        k = k + 1;
    }
    assert(connections_closed(connections_of(nodes@)));
    nodes
}

/// Marks every node that the criterion depends on, itself included, and
/// returns the positions of the nodes that are left without a mark,
/// ascending, and for every position the place that it takes once those
/// are removed.
pub fn get_edge_replacement_mapping(linkable_nodes: &mut Vec<LinkedPDGNode>, criterion_idx: usize)
    -> (r: (Vec<usize>, Vec<Option<u32>>))
    requires
        criterion_idx < old(linkable_nodes).len(),
        old(linkable_nodes).len() <= u32::MAX,
        connections_closed(connections_of(old(linkable_nodes)@)),
        forall|i: int| 0 <= i < old(linkable_nodes).len() ==> !(#[trigger] old(linkable_nodes)[i]).visited,
    ensures
        final(linkable_nodes).len() == old(linkable_nodes).len(),
        forall|i: int|
            0 <= i < old(linkable_nodes).len() ==> {
                &&& (#[trigger] final(linkable_nodes)[i])._file == old(linkable_nodes)[i]._file
                &&& final(linkable_nodes)[i]._line == old(linkable_nodes)[i]._line
                &&& final(linkable_nodes)[i].name == old(linkable_nodes)[i].name
                &&& final(linkable_nodes)[i]._kind == old(linkable_nodes)[i]._kind
                &&& final(linkable_nodes)[i].connections == old(linkable_nodes)[i].connections
                &&& final(linkable_nodes)[i].visited == reachable(
                    connections_of(old(linkable_nodes)@),
                    criterion_idx,
                    i as usize,
                )
            },
        r.0@ == unmarked(marks_of(final(linkable_nodes)@), old(linkable_nodes).len() as int),
        r.1@ == remapping(marks_of(final(linkable_nodes)@)),
{
    let ghost conns = connections_of(linkable_nodes@);
    let n = linkable_nodes.len();
    let mut traversal_stack: Vec<usize> = Vec::new();
    traversal_stack.push(criterion_idx);
    proof {
        let start = seq![criterion_idx];
        assert(is_path(conns, start) && start[0] == criterion_idx && start.last()
            == criterion_idx);
    }
    while traversal_stack.len() > 0
        invariant
            n == linkable_nodes.len(),
            n == old(linkable_nodes).len(),
            criterion_idx < n,
            conns == connections_of(old(linkable_nodes)@),
            conns == connections_of(linkable_nodes@),
            connections_closed(conns),
            forall|i: int|
                0 <= i < n ==> {
                    &&& (#[trigger] linkable_nodes[i])._file == old(linkable_nodes)[i]._file
                    &&& linkable_nodes[i]._line == old(linkable_nodes)[i]._line
                    &&& linkable_nodes[i].name == old(linkable_nodes)[i].name
                    &&& linkable_nodes[i]._kind == old(linkable_nodes)[i]._kind
                    &&& linkable_nodes[i].connections == old(linkable_nodes)[i].connections
                },
            forall|k: int|
                0 <= k < traversal_stack.len() ==> (#[trigger] traversal_stack[k]) < n && reachable(
                    conns,
                    criterion_idx,
                    traversal_stack[k],
                ),
            forall|i: int|
                0 <= i < n && (#[trigger] linkable_nodes[i]).visited ==> reachable(
                    conns,
                    criterion_idx,
                    i as usize,
                ),
            forall|v: int, w: usize|
                0 <= v < n && linkable_nodes[v].visited && #[trigger] conns[v].contains(w) && w < n
                    ==> linkable_nodes[w as int].visited || traversal_stack@.contains(w),
            linkable_nodes[criterion_idx as int].visited || traversal_stack@.contains(criterion_idx),
        decreases count_unmarked(marks_of(linkable_nodes@)), traversal_stack.len(),
    {
        let ghost stack_before = traversal_stack@;
        let ghost marks_before = marks_of(linkable_nodes@);
        let node = traversal_stack.pop().unwrap();
        assert(stack_before.last() == node);
        assert forall|w: usize| stack_before.contains(w) implies traversal_stack@.contains(w) || w
            == node by {
            let k = choose|k: int| 0 <= k < stack_before.len() && stack_before[k] == w;
            if k < stack_before.len() - 1 {
                assert(traversal_stack@[k] == w);
            }
        }
        if !linkable_nodes[node].visited {
            linkable_nodes[node].visited = true;
            proof {
                assert(marks_of(linkable_nodes@) =~= marks_before.update(node as int, true));
                lemma_mark(marks_before, node as int);
                assert(connections_of(linkable_nodes@) =~= conns);
            }
            let mut j: usize = 0;
            let ghost stack_mid = traversal_stack@;
            while j < linkable_nodes[node].connections.len()
                invariant
                    n == linkable_nodes.len(),
                    node < n,
                    criterion_idx < n,
                    conns == connections_of(linkable_nodes@),
                    connections_closed(conns),
                    linkable_nodes[node as int].visited,
                    marks_of(linkable_nodes@) == marks_before.update(node as int, true),
                    reachable(conns, criterion_idx, node),
                    j <= linkable_nodes[node as int].connections.len(),
                    forall|i: int|
                        0 <= i < n ==> {
                            &&& (#[trigger] linkable_nodes[i])._file == old(linkable_nodes)[i]._file
                            &&& linkable_nodes[i]._line == old(linkable_nodes)[i]._line
                            &&& linkable_nodes[i].name == old(linkable_nodes)[i].name
                            &&& linkable_nodes[i]._kind == old(linkable_nodes)[i]._kind
                            &&& linkable_nodes[i].connections == old(
                                linkable_nodes,
                            )[i].connections
                        },
                    forall|k: int|
                        0 <= k < traversal_stack.len() ==> (#[trigger] traversal_stack[k]) < n
                            && reachable(conns, criterion_idx, traversal_stack[k]),
                    forall|w: usize| stack_mid.contains(w) ==> traversal_stack@.contains(w),
                    forall|k: int|
                        0 <= k < j ==> linkable_nodes[(#[trigger] conns[node as int][k]) as int].visited
                            || traversal_stack@.contains(conns[node as int][k]),
                decreases linkable_nodes[node as int].connections.len() - j,
            {
                let el = linkable_nodes[node].connections[j];
                assert(conns[node as int][j as int] == el);
                assert(el < n);
                let ghost before = traversal_stack@;
                if !linkable_nodes[el].visited {
                    proof {
                        assert(conns[node as int].contains(el));
                        lemma_reach_step(conns, criterion_idx, node, el);
                    }
                    traversal_stack.push(el);
                    assert(traversal_stack@[before.len() as int] == el);
                    assert forall|w: usize| before.contains(w) implies traversal_stack@.contains(
                        w,
                    ) by {
                        let k = choose|k: int| 0 <= k < before.len() && before[k] == w;
                        assert(traversal_stack@[k] == w);
                    }
                }
                j = j + 1;
            }
            proof {
                assert forall|v: int, w: usize|
                    0 <= v < n && linkable_nodes[v].visited && #[trigger] conns[v].contains(w) && w
                        < n implies linkable_nodes[w as int].visited || traversal_stack@.contains(
                    w,
                ) by {
                    if v == node {
                        let k = choose|k: int|
                            0 <= k < conns[v].len() && conns[v][k] == w;
                        assert(linkable_nodes[conns[node as int][k] as int].visited
                            || traversal_stack@.contains(conns[node as int][k]));
                    } else {
                        assert(marks_before[v]);
                        if !marks_before[w as int] {
                            assert(stack_before.contains(w));
                        }
                    }
                }
            }
        }
    }
    proof {
        let marks = marks_of(linkable_nodes@);
        assert forall|i: int| 0 <= i < n implies (#[trigger] linkable_nodes[i]).visited == reachable(
            conns,
            criterion_idx,
            i as usize,
        ) by {
            if reachable(conns, criterion_idx, i as usize) {
                let path = choose|path: Seq<usize>|
                    is_path(conns, path) && path[0] == criterion_idx && path.last() == i as usize;
                assert forall|v: int, w: usize|
                    0 <= v < conns.len() && marks[v] && #[trigger] conns[v].contains(w) && w
                        < conns.len() implies marks[w as int] by {
                    assert(linkable_nodes[v].visited);
                    assert(!traversal_stack@.contains(w));
                }
                lemma_closed_holds_reachable(conns, marks, criterion_idx, path, path.len() - 1);
            }
        }
    }
    let mut removed_indices: Vec<usize> = Vec::new();
    let mut idx_remap: Vec<Option<u32>> = Vec::new();
    let mut idx_counter: u32 = 0;
    let mut i: usize = 0;
    let ghost marks = marks_of(linkable_nodes@);
    while i < n
        invariant
            i <= n,
            n == linkable_nodes.len(),
            n <= u32::MAX,
            marks == marks_of(linkable_nodes@),
            removed_indices@ == unmarked(marks, i as int),
            idx_remap.len() == i,
            idx_counter == i - unmarked(marks, i as int).len(),
            forall|k: int| 0 <= k < i ==> #[trigger] idx_remap[k] == remapping(marks)[k],
        decreases n - i,
    {
        proof {
            lemma_unmarked_len(marks, i as int);
        }
        if linkable_nodes[i].visited {
            idx_remap.push(Some(idx_counter));
            idx_counter = idx_counter + 1;
        } else {
            removed_indices.push(i);
            idx_remap.push(None);
        }
        i = i + 1;
    }
    assert(idx_remap@ =~= remapping(marks));
    (removed_indices, idx_remap)
}

/// The position of the first node called `stmt`.
pub fn find_valid_statement(nodes: &Vec<LinkedPDGNode>, stmt: &str) -> (r: Result<usize, Error>)
    ensures
        match r {
            Ok(idx) => {
                &&& idx < nodes.len()
                &&& nodes[idx as int].name@ == stmt@
                &&& forall|k: int| 0 <= k < idx ==> nodes[k].name@ != stmt@
            },
            Err(e) => {
                &&& forall|k: int| 0 <= k < nodes.len() ==> nodes[k].name@ != stmt@
                &&& e matches Error::StatementLookupError(text)
                &&& text@ == stmt@
            },
        },
{
    let mut i: usize = 0;
    while i < nodes.len()
        invariant
            i <= nodes.len(),
            forall|k: int| 0 <= k < i ==> nodes[k].name@ != stmt@,
        decreases nodes.len() - i,
    {
        if same_text(nodes[i].name.as_str(), stmt) {
            return Ok(i);
        }
        i = i + 1;
    }
    Err(Error::StatementLookupError(stmt.to_owned()))
}

/// Mathematical value of a [`CFGSpecStatement`].
pub struct CfgView {
    pub stmt_ref: u32,
    pub pred_stmt_ref: Option<u32>,
    pub true_branch: Option<Seq<CfgView>>,
    pub false_branch: Option<Seq<CfgView>>,
}

/// The value of a node of the control-flow forest.
pub open spec fn cfg_view(node: &CFGSpecStatement) -> CfgView
    decreases node, 0int,
{
    CfgView {
        stmt_ref: node.stmt_ref,
        pred_stmt_ref: node.pred_stmt_ref,
        true_branch: match &node.true_branch {
            Some(b) => Some(cfg_views(b, b.len() as int)),
            None => None,
        },
        false_branch: match &node.false_branch {
            Some(b) => Some(cfg_views(b, b.len() as int)),
            None => None,
        },
    }
}

/// The values of the first `upto` nodes of a list.
pub open spec fn cfg_views(nodes: &Vec<CFGSpecStatement>, upto: int) -> Seq<CfgView>
    decreases nodes, upto,
{
    if upto <= 0 || upto > nodes.len() {
        seq![]
    } else {
        cfg_views(nodes, upto - 1).push(cfg_view(&nodes[upto - 1]))
    }
}

/// What is left of a node once the statements `remove` are taken out. A
/// removed statement goes with everything below it. A fork that stays
/// keeps its predicate and has its branches reduced; a plain statement
/// that stays keeps what it holds. Whatever stays is renumbered by `remap`.
pub open spec fn reduced_node(
    node: &CFGSpecStatement,
    remove: Seq<usize>,
    remap: Seq<Option<u32>>,
) -> Option<CfgView>
    decreases node, 0int,
{
    if remove.contains(node.stmt_ref as usize) {
        None
    } else {
        match node.pred_stmt_ref {
            Some(pred) => Some(
                CfgView {
                    stmt_ref: remap[node.stmt_ref as int]->0,
                    pred_stmt_ref: Some(pred),
                    true_branch: match &node.true_branch {
                        Some(b) => Some(reduced(b, b.len() as int, remove, remap)),
                        None => None,
                    },
                    false_branch: match &node.false_branch {
                        Some(b) => Some(reduced(b, b.len() as int, remove, remap)),
                        None => None,
                    },
                },
            ),
            None => match remap[node.stmt_ref as int] {
                Some(number) => Some(CfgView { stmt_ref: number, ..cfg_view(node) }),
                None => None,
            },
        }
    }
}

/// What is left of the first `upto` nodes of a list.
pub open spec fn reduced(
    nodes: &Vec<CFGSpecStatement>,
    upto: int,
    remove: Seq<usize>,
    remap: Seq<Option<u32>>,
) -> Seq<CfgView>
    decreases nodes, upto,
{
    if upto <= 0 || upto > nodes.len() {
        seq![]
    } else {
        let rest = reduced(nodes, upto - 1, remove, remap);
        match reduced_node(&nodes[upto - 1], remove, remap) {
            Some(kept) => rest.push(kept),
            None => rest,
        }
    }
}

/// The predicates of the forks that are taken out of a node, in the order
/// of the walk. What lies below a removed fork is not looked at.
pub open spec fn dropped_node(node: &CFGSpecStatement, remove: Seq<usize>) -> Seq<usize>
    decreases node, 0int,
{
    match node.pred_stmt_ref {
        Some(pred) => if remove.contains(node.stmt_ref as usize) {
            seq![pred as usize]
        } else {
            (match &node.true_branch {
                Some(b) => dropped(b, b.len() as int, remove),
                None => seq![],
            }) + (match &node.false_branch {
                Some(b) => dropped(b, b.len() as int, remove),
                None => seq![],
            })
        },
        None => seq![],
    }
}

/// The predicates of the forks that are taken out of the first `upto` nodes.
pub open spec fn dropped(nodes: &Vec<CFGSpecStatement>, upto: int, remove: Seq<usize>) -> Seq<
    usize,
>
    decreases nodes, upto,
{
    if upto <= 0 || upto > nodes.len() {
        seq![]
    } else {
        dropped(nodes, upto - 1, remove) + dropped_node(&nodes[upto - 1], remove)
    }
}

/// Every statement that the walk of a node meets has a place in `remap`,
/// and every fork that stays has a new number.
pub open spec fn node_fits(node: &CFGSpecStatement, remove: Seq<usize>, remap: Seq<Option<u32>>)
    -> bool
    decreases node, 0int,
{
    remove.contains(node.stmt_ref as usize) || (node.stmt_ref < remap.len() && match node.pred_stmt_ref {
        Some(_) => {
            &&& remap[node.stmt_ref as int] is Some
            &&& match &node.true_branch {
                Some(b) => list_fits(b, b.len() as int, remove, remap),
                None => true,
            }
            &&& match &node.false_branch {
                Some(b) => list_fits(b, b.len() as int, remove, remap),
                None => true,
            }
        },
        None => true,
    })
}

/// Every one of the first `upto` nodes fits.
pub open spec fn list_fits(
    nodes: &Vec<CFGSpecStatement>,
    upto: int,
    remove: Seq<usize>,
    remap: Seq<Option<u32>>,
) -> bool
    decreases nodes, upto,
{
    if upto <= 0 || upto > nodes.len() {
        true
    } else {
        list_fits(nodes, upto - 1, remove, remap) && node_fits(&nodes[upto - 1], remove, remap)
    }
}

fn is_removed(remove_idx: &Vec<usize>, stmt: usize) -> (r: bool)
    ensures
        r == remove_idx@.contains(stmt),
{
    let mut i: usize = 0;
    while i < remove_idx.len()
        invariant
            i <= remove_idx.len(),
            forall|k: int| 0 <= k < i ==> remove_idx[k] != stmt,
        decreases remove_idx.len() - i,
    {
        if remove_idx[i] == stmt {
            return true;
        }
        i = i + 1;
    }
    false
}

/// A copy of a list of nodes of the control-flow forest.
pub fn clone_cfg_list(nodes: &Vec<CFGSpecStatement>) -> (r: Vec<CFGSpecStatement>)
    ensures
        cfg_views(&r, r.len() as int) == cfg_views(nodes, nodes.len() as int),
    decreases nodes, 1int,
{
    let mut r: Vec<CFGSpecStatement> = Vec::new();
    let mut i: usize = 0;
    while i < nodes.len()
        invariant
            i <= nodes.len(),
            r.len() == i,
            cfg_views(&r, i as int) == cfg_views(nodes, i as int),
        decreases nodes.len() - i,
    {
        let ghost before = r;
        let copy = clone_cfg(&nodes[i]);
        r.push(copy);
        proof {
            lemma_views_prefix(&before, &r, i as int);
        }
        i = i + 1;
    }
    r
}

/// The values of a prefix depend on the prefix alone.
pub proof fn lemma_views_prefix(a: &Vec<CFGSpecStatement>, b: &Vec<CFGSpecStatement>, upto: int)
    requires
        0 <= upto <= a.len(),
        upto <= b.len(),
        forall|k: int| 0 <= k < upto ==> a[k] == b[k],
    ensures
        cfg_views(a, upto) == cfg_views(b, upto),
    decreases upto,
{
    if upto > 0 {
        lemma_views_prefix(a, b, upto - 1);
    }
}

/// A copy of a node of the control-flow forest.
pub fn clone_cfg(node: &CFGSpecStatement) -> (r: CFGSpecStatement)
    ensures
        cfg_view(&r) == cfg_view(node),
    decreases node, 0int,
{
    let true_branch = match &node.true_branch {
        Some(b) => Some(clone_cfg_list(b)),
        None => None,
    };
    let false_branch = match &node.false_branch {
        Some(b) => Some(clone_cfg_list(b)),
        None => None,
    };
    CFGSpecStatement {
        stmt_ref: node.stmt_ref,
        pred_stmt_ref: node.pred_stmt_ref,
        true_branch,
        false_branch,
    }
}

/// Takes the statements `remove_idx` out of a list of the control-flow
/// forest and renumbers what stays; the predicates of the forks that go
/// are added to `removed_predicates`.
pub fn remove_cfg_statements(
    cfg: &Vec<CFGSpecStatement>,
    remove_idx: &Vec<usize>,
    idx_remap: &Vec<Option<u32>>,
    removed_predicates: &mut Vec<usize>,
) -> (r: Vec<CFGSpecStatement>)
    requires
        list_fits(cfg, cfg.len() as int, remove_idx@, idx_remap@),
    ensures
        cfg_views(&r, r.len() as int) == reduced(cfg, cfg.len() as int, remove_idx@, idx_remap@),
        final(removed_predicates)@ == old(removed_predicates)@ + dropped(
            cfg,
            cfg.len() as int,
            remove_idx@,
        ),
    decreases cfg,
{
    let mut r: Vec<CFGSpecStatement> = Vec::new();
    let mut i: usize = 0;
    assert(removed_predicates@ + Seq::<usize>::empty() =~= removed_predicates@);
    while i < cfg.len()
        invariant
            i <= cfg.len(),
            list_fits(cfg, cfg.len() as int, remove_idx@, idx_remap@),
            cfg_views(&r, r.len() as int) == reduced(cfg, i as int, remove_idx@, idx_remap@),
            removed_predicates@ == old(removed_predicates)@ + dropped(cfg, i as int, remove_idx@),
        decreases cfg.len() - i,
    {
        let s = &cfg[i];
        proof {
            lemma_list_fits(cfg, cfg.len() as int, i as int, remove_idx@, idx_remap@);
        }
        let ghost before = r;
        let ghost gone = removed_predicates@;
        let ghost so_far = dropped(cfg, i as int, remove_idx@);
        let should_keep = !is_removed(remove_idx, s.stmt_ref as usize);
        let kept: Option<CFGSpecStatement> = match s.pred_stmt_ref {
            Some(pred_stmt) => {
                if should_keep {
                    let new_true_branch = match &s.true_branch {
                        Some(b) => Some(
                            remove_cfg_statements(b, remove_idx, idx_remap, removed_predicates),
                        ),
                        None => None,
                    };
                    let ghost middle = removed_predicates@;
                    let new_false_branch = match &s.false_branch {
                        Some(b) => Some(
                            remove_cfg_statements(b, remove_idx, idx_remap, removed_predicates),
                        ),
                        None => None,
                    };
                    let new_stmt_ref = match idx_remap[s.stmt_ref as usize] {
                        Some(number) => number,
                        None => 0,
                    };
                    proof {
                        let first = match &s.true_branch {
                            Some(b) => dropped(b, b.len() as int, remove_idx@),
                            None => seq![],
                        };
                        let second = match &s.false_branch {
                            Some(b) => dropped(b, b.len() as int, remove_idx@),
                            None => seq![],
                        };
                        assert(middle =~= gone + first);
                        assert(removed_predicates@ =~= gone + (first + second));
                    }
                    Some(
                        CFGSpecStatement {
                            stmt_ref: new_stmt_ref,
                            pred_stmt_ref: Some(pred_stmt),
                            true_branch: new_true_branch,
                            false_branch: new_false_branch,
                        },
                    )
                } else {
                    removed_predicates.push(pred_stmt as usize);
                    assert(removed_predicates@ =~= gone + seq![pred_stmt as usize]);
                    None
                }
            },
            None => {
                assert(removed_predicates@ =~= gone + Seq::<usize>::empty());
                if should_keep {
                    match idx_remap[s.stmt_ref as usize] {
                        Some(number) => {
                            let copy = clone_cfg(s);
                            Some(
                                CFGSpecStatement {
                                    stmt_ref: number,
                                    pred_stmt_ref: copy.pred_stmt_ref,
                                    true_branch: copy.true_branch,
                                    false_branch: copy.false_branch,
                                },
                            )
                        },
                        None => None,
                    }
                } else {
                    None
                }
            },
        };
        proof {
            assert(removed_predicates@ =~= old(removed_predicates)@ + (so_far + dropped_node(
                s,
                remove_idx@,
            )));
        }
        match kept {
            Some(node) => {
                assert(Some(cfg_view(&node)) == reduced_node(s, remove_idx@, idx_remap@));
                r.push(node);
                proof {
                    lemma_views_prefix(&before, &r, before.len() as int);
                }
            },
            None => {},
        }
        i = i + 1;
    }
    r
}

/// A list that fits up to `upto` fits at every node below `upto`.
pub proof fn lemma_list_fits(
    nodes: &Vec<CFGSpecStatement>,
    upto: int,
    i: int,
    remove: Seq<usize>,
    remap: Seq<Option<u32>>,
)
    requires
        0 <= i < upto <= nodes.len(),
        list_fits(nodes, upto, remove, remap),
    ensures
        node_fits(&nodes[i], remove, remap),
    decreases upto,
{
    if i < upto - 1 {
        lemma_list_fits(nodes, upto - 1, i, remove, remap);
    }
}

/// `s` with `x` put before the first entry that is not greater.
pub open spec fn insert_descending(s: Seq<usize>, x: usize) -> Seq<usize>
    decreases s.len(),
{
    if s.len() == 0 {
        seq![x]
    } else if x >= s[0] {
        seq![x] + s
    } else {
        seq![s[0]] + insert_descending(s.drop_first(), x)
    }
}

/// The entries of `s` from the greatest to the least.
pub open spec fn descending(s: Seq<usize>) -> Seq<usize>
    decreases s.len(),
{
    if s.len() == 0 {
        seq![]
    } else {
        insert_descending(descending(s.drop_last()), s.last())
    }
}

/// Whether no entry of `s` is followed by a greater one.
pub open spec fn is_descending(s: Seq<usize>) -> bool {
    forall|a: int, b: int| 0 <= a < b < s.len() ==> s[a] >= s[b]
}

/// Inserting into a descending list keeps it descending and adds the entry once.
pub proof fn lemma_insert_descending(s: Seq<usize>, x: usize)
    requires
        is_descending(s),
    ensures
        is_descending(insert_descending(s, x)),
        insert_descending(s, x).len() == s.len() + 1,
        insert_descending(s, x).to_multiset() == s.to_multiset().insert(x),
    decreases s.len(),
{
    broadcast use vstd::seq_lib::group_to_multiset_ensures;

    let r = insert_descending(s, x);
    if s.len() == 0 {
        assert(r =~= Seq::<usize>::empty().push(x));
    } else if x >= s[0] {
        assert(r =~= s.insert(0, x));
        vstd::seq_lib::to_multiset_insert(s, 0, x);
    } else {
        let tail = s.drop_first();
        assert(is_descending(tail)) by {
            assert forall|a: int, b: int| 0 <= a < b < tail.len() implies tail[a] >= tail[b] by {
                assert(tail[a] == s[a + 1] && tail[b] == s[b + 1]);
            }
        }
        lemma_insert_descending(tail, x);
        let inner = insert_descending(tail, x);
        assert(r =~= inner.insert(0, s[0]));
        vstd::seq_lib::to_multiset_insert(inner, 0, s[0]);
        assert(s =~= tail.insert(0, s[0]));
        vstd::seq_lib::to_multiset_insert(tail, 0, s[0]);
        assert(r.to_multiset() =~= s.to_multiset().insert(x));
        assert forall|a: int, b: int| 0 <= a < b < r.len() implies r[a] >= r[b] by {
            if a == 0 {
                // Every entry of `inner` is `x` or an entry of `tail`.
                assert(inner.to_multiset().count(r[b]) > 0) by {
                    assert(inner[b - 1] == r[b]);
                    assert(inner.contains(r[b]));
                }
                if r[b] != x {
                    assert(tail.to_multiset().count(r[b]) > 0);
                    assert(tail.contains(r[b]));
                    let k = choose|k: int| 0 <= k < tail.len() && tail[k] == r[b];
                    assert(s[0] >= s[k + 1]);
                }
            } else {
                assert(r[a] == inner[a - 1] && r[b] == inner[b - 1]);
            }
        }
    }
}

/// What `descending` gives holds the entries of `s`, each as often as `s`
/// does, and none before a greater one.
pub proof fn lemma_descending(s: Seq<usize>)
    ensures
        is_descending(descending(s)),
        descending(s).len() == s.len(),
        descending(s).to_multiset() == s.to_multiset(),
    decreases s.len(),
{
    broadcast use vstd::seq_lib::group_to_multiset_ensures;

    if s.len() > 0 {
        lemma_descending(s.drop_last());
        lemma_insert_descending(descending(s.drop_last()), s.last());
        assert(s =~= s.drop_last().push(s.last()));
        assert(s.to_multiset() =~= s.drop_last().to_multiset().insert(s.last()));
    }
}

/// Places `x` into a list that runs from the greatest to the least.
fn insert_sorted(v: &mut Vec<usize>, x: usize)
    ensures
        final(v)@ == insert_descending(old(v)@, x),
{
    let mut i: usize = 0;
    let ghost start = v@;
    proof {
        assert(start.skip(0) =~= start);
        assert(start.take(0) + insert_descending(start, x) =~= insert_descending(start, x));
    }
    while i < v.len() && x < v[i]
        invariant
            i <= v.len(),
            v@ == start,
            insert_descending(start, x) == start.take(i as int) + insert_descending(
                start.skip(i as int),
                x,
            ),
        decreases v.len() - i,
    {
        proof {
            let rest = start.skip(i as int);
            assert(rest[0] == start[i as int]);
            assert(rest.drop_first() =~= start.skip(i + 1));
            assert(start.take(i + 1) =~= start.take(i as int) + seq![start[i as int]]);
            assert(start.take(i as int) + (seq![rest[0]] + insert_descending(
                rest.drop_first(),
                x,
            )) =~= start.take(i + 1) + insert_descending(start.skip(i + 1), x));
        }
        i = i + 1;
    }
    v.insert(i, x);
    proof {
        let rest = start.skip(i as int);
        if rest.len() > 0 {
            assert(rest[0] == start[i as int]);
        }
        assert(v@ =~= start.take(i as int) + (seq![x] + rest));
        assert(insert_descending(rest, x) =~= seq![x] + rest);
    }
}

/// The entries of `v` from the greatest to the least.
pub fn sort_descending(v: &Vec<usize>) -> (r: Vec<usize>)
    ensures
        r@ == descending(v@),
{
    let mut r: Vec<usize> = Vec::new();
    let mut i: usize = 0;
    assert(v@.take(0) =~= Seq::<usize>::empty());
    while i < v.len()
        invariant
            i <= v.len(),
            r@ == descending(v@.take(i as int)),
        decreases v.len() - i,
    {
        assert(v@.take(i + 1).drop_last() =~= v@.take(i as int));
        assert(v@.take(i + 1).last() == v[i as int]);
        insert_sorted(&mut r, v[i]);
        i = i + 1;
    }
    assert(v@.take(i as int) =~= v@);
    r
}

/// `items` after the positions `idx` are taken out one after the other,
/// each position counted in what is left by then.
pub open spec fn drop_all<T>(items: Seq<T>, idx: Seq<usize>) -> Seq<T>
    decreases idx.len(),
{
    if idx.len() == 0 {
        items
    } else {
        drop_all(items.remove(idx[0] as int), idx.drop_first())
    }
}

/// Whether each of the positions `idx` exists when its turn comes.
pub open spec fn removal_fits(len: int, idx: Seq<usize>) -> bool
    decreases idx.len(),
{
    idx.len() == 0 || (idx[0] < len && removal_fits(len - 1, idx.drop_first()))
}

/// Tests whether each of the positions `idx` exists when its turn comes.
pub fn check_removal(len: usize, idx: &Vec<usize>) -> (r: bool)
    ensures
        r == removal_fits(len as int, idx@),
{
    let mut k: usize = 0;
    assert(idx@.skip(0) =~= idx@);
    while k < idx.len()
        invariant
            k <= idx.len(),
            k <= len,
            removal_fits(len as int, idx@) == removal_fits(len - k, idx@.skip(k as int)),
        decreases idx.len() - k,
    {
        assert(idx@.skip(k as int)[0] == idx[k as int]);
        assert(idx@.skip(k as int).drop_first() =~= idx@.skip(k + 1));
        if idx[k] >= len - k {
            return false;
        }
        k = k + 1;
    }
    true
}

/// Reduces the control flow of a graph to the statements that stay: the
/// statements `removed_indices` go, with the predicates of the forks among
/// them, and what stays is renumbered by `idx_remap`. Vertices and edges
/// are left as they are. The predicates are taken out from the highest
/// position down, each position counted in the list as it is by then.
pub fn reduce_cfg(pdg: PDGSpec, removed_indices: &Vec<usize>, idx_remap: &Vec<Option<u32>>) -> (r:
    PDGSpec)
    requires
        list_fits(&pdg.cfg, pdg.cfg.len() as int, removed_indices@, idx_remap@),
        removal_fits(
            pdg.predicates.len() as int,
            descending(dropped(&pdg.cfg, pdg.cfg.len() as int, removed_indices@)),
        ),
    ensures
        r.vertices == pdg.vertices,
        r.edges == pdg.edges,
        cfg_views(&r.cfg, r.cfg.len() as int) == reduced(
            &pdg.cfg,
            pdg.cfg.len() as int,
            removed_indices@,
            idx_remap@,
        ),
        r.predicates@ == drop_all(
            pdg.predicates@,
            descending(dropped(&pdg.cfg, pdg.cfg.len() as int, removed_indices@)),
        ),
{
    let mut removed_predicates_idx: Vec<usize> = Vec::new();
    let reduced_cfg = remove_cfg_statements(
        &pdg.cfg,
        removed_indices,
        idx_remap,
        &mut removed_predicates_idx,
    );
    assert(removed_predicates_idx@ =~= dropped(&pdg.cfg, pdg.cfg.len() as int, removed_indices@));
    let order = sort_descending(&removed_predicates_idx);
    let PDGSpec { vertices, edges, predicates, cfg } = pdg;
    let mut new_preds = predicates;
    let mut k: usize = 0;
    assert(order@.skip(0) =~= order@);
    while k < order.len()
        invariant
            k <= order.len(),
            removal_fits(new_preds.len() as int, order@.skip(k as int)),
            drop_all(predicates@, order@) == drop_all(new_preds@, order@.skip(k as int)),
        decreases order.len() - k,
    {
        assert(order@.skip(k as int)[0] == order[k as int]);
        assert(order@.skip(k as int).drop_first() =~= order@.skip(k + 1));
        new_preds.remove(order[k]);
        k = k + 1;
    }
    PDGSpec { vertices, edges, predicates: new_preds, cfg: reduced_cfg }
}

/// The entries among the first `upto` of `items` that carry a mark, in order.
pub open spec fn marked_items<T>(items: Seq<T>, marks: Seq<bool>, upto: int) -> Seq<T>
    decreases upto,
{
    if upto <= 0 {
        seq![]
    } else if marks[upto - 1] {
        marked_items(items, marks, upto - 1).push(items[upto - 1])
    } else {
        marked_items(items, marks, upto - 1)
    }
}

/// Keeps the entries of `items` that carry a mark.
pub fn keep_marked<T>(items: Vec<T>, marks: &Vec<bool>) -> (r: Vec<T>)
    requires
        marks.len() == items.len(),
    ensures
        r@ == marked_items(items@, marks@, items.len() as int),
{
    let ghost all = items@;
    let n = items.len();
    let mut items = items;
    let mut turned: Vec<T> = Vec::new();
    while items.len() > 0
        invariant
            n == all.len(),
            items.len() + turned.len() == n,
            items@ == all.take(items.len() as int),
            forall|j: int| 0 <= j < turned.len() ==> #[trigger] turned[j] == all[n - 1 - j],
        decreases items.len(),
    {
        let x = items.pop().unwrap();
        turned.push(x);
    }
    let mut r: Vec<T> = Vec::new();
    while turned.len() > 0
        invariant
            n == all.len(),
            marks.len() == n,
            turned.len() <= n,
            forall|j: int| 0 <= j < turned.len() ==> #[trigger] turned[j] == all[n - 1 - j],
            r@ == marked_items(all, marks@, n - turned.len()),
        decreases turned.len(),
    {
        let k = n - turned.len();
        let x = turned.pop().unwrap();
        if marks[k] {
            r.push(x);
        }
    }
    r
}

/// The edges among the first `upto` both of whose ends stay, with their ends renumbered.
pub open spec fn remapped_edges(edges: Seq<PDGSpecEdge>, remap: Seq<Option<u32>>, upto: int) -> Seq<
    crate::pdg_spec::EdgeView,
>
    decreases upto,
{
    if upto <= 0 {
        seq![]
    } else {
        let rest = remapped_edges(edges, remap, upto - 1);
        let e = edges[upto - 1];
        match (remap[e.from as int], remap[e.to as int]) {
            (Some(from), Some(to)) => rest.push(
                crate::pdg_spec::EdgeView { from, to, ..e.deep_view() },
            ),
            _ => rest,
        }
    }
}

/// Keeps the edges both of whose ends stay, and renumbers their ends.
pub fn remap_edges(edges: Vec<PDGSpecEdge>, remap: &Vec<Option<u32>>) -> (r: Vec<PDGSpecEdge>)
    requires
        edges_closed(edges@, remap.len() as int),
    ensures
        r.deep_view() == remapped_edges(edges@, remap@, edges.len() as int),
{
    let ghost all = edges@;
    let n = edges.len();
    let mut edges = edges;
    let mut turned: Vec<PDGSpecEdge> = Vec::new();
    while edges.len() > 0
        invariant
            n == all.len(),
            edges.len() + turned.len() == n,
            edges@ == all.take(edges.len() as int),
            forall|j: int| 0 <= j < turned.len() ==> #[trigger] turned[j] == all[n - 1 - j],
        decreases edges.len(),
    {
        let x = edges.pop().unwrap();
        turned.push(x);
    }
    let mut r: Vec<PDGSpecEdge> = Vec::new();
    assert(r.deep_view() =~= remapped_edges(all, remap@, 0));
    while turned.len() > 0
        invariant
            n == all.len(),
            edges_closed(all, remap.len() as int),
            turned.len() <= n,
            forall|j: int| 0 <= j < turned.len() ==> #[trigger] turned[j] == all[n - 1 - j],
            r.deep_view() == remapped_edges(all, remap@, n - turned.len()),
        decreases turned.len(),
    {
        let ghost k = n - turned.len();
        let ghost before = r.deep_view();
        let e = turned.pop().unwrap();
        assert(e == all[k]);
        match (remap[e.from as usize], remap[e.to as usize]) {
            (Some(from), Some(to)) => {
                let PDGSpecEdge { from: _, to: _, kind, clocked, condition } = e;
                r.push(PDGSpecEdge { from, to, kind, clocked, condition });
                assert(r.deep_view() =~= before.push(
                    crate::pdg_spec::EdgeView { from, to, ..all[k].deep_view() },
                ));
            },
            _ => {},
        }
    }
    r
}

/// Tests whether every edge joins two vertices of a graph of `n` vertices.
pub fn check_edges_closed(edges: &Vec<PDGSpecEdge>, n: usize) -> (r: bool)
    ensures
        r == edges_closed(edges@, n as int),
{
    let mut k: usize = 0;
    while k < edges.len()
        invariant
            k <= edges.len(),
            forall|j: int| 0 <= j < k ==> (#[trigger] edges[j]).from < n && edges[j].to < n,
        decreases edges.len() - k,
    {
        if edges[k].from as usize >= n || edges[k].to as usize >= n {
            return false;
        }
        k = k + 1;
    }
    true
}

/// Tests whether a list of the control-flow forest fits a renumbering.
pub fn check_fits(
    cfg: &Vec<CFGSpecStatement>,
    remove_idx: &Vec<usize>,
    idx_remap: &Vec<Option<u32>>,
) -> (r: bool)
    ensures
        r == list_fits(cfg, cfg.len() as int, remove_idx@, idx_remap@),
    decreases cfg,
{
    let mut i: usize = 0;
    while i < cfg.len()
        invariant
            i <= cfg.len(),
            list_fits(cfg, i as int, remove_idx@, idx_remap@),
        ensures
            i == cfg.len(),
            list_fits(cfg, cfg.len() as int, remove_idx@, idx_remap@),
        decreases cfg.len() - i,
    {
        let s = &cfg[i];
        let mut ok = true;
        if !is_removed(remove_idx, s.stmt_ref as usize) {
            if (s.stmt_ref as usize) >= idx_remap.len() {
                ok = false;
            } else if s.pred_stmt_ref.is_some() {
                if idx_remap[s.stmt_ref as usize].is_none() {
                    ok = false;
                }
                if ok {
                    match &s.true_branch {
                        Some(b) => {
                            if !check_fits(b, remove_idx, idx_remap) {
                                ok = false;
                            }
                        },
                        None => {},
                    }
                }
                if ok {
                    match &s.false_branch {
                        Some(b) => {
                            if !check_fits(b, remove_idx, idx_remap) {
                                ok = false;
                            }
                        },
                        None => {},
                    }
                }
            }
        }
        assert(ok == node_fits(s, remove_idx@, idx_remap@));
        if !ok {
            proof {
                lemma_fits_prefix(cfg, cfg.len() as int, i + 1, remove_idx@, idx_remap@);
            }
            return false;
        }
        i = i + 1;
    }
    true
}

/// A list that fits up to `upto` fits up to any point before.
pub proof fn lemma_fits_prefix(
    nodes: &Vec<CFGSpecStatement>,
    upto: int,
    shorter: int,
    remove: Seq<usize>,
    remap: Seq<Option<u32>>,
)
    requires
        0 <= shorter <= upto <= nodes.len(),
    ensures
        list_fits(nodes, upto, remove, remap) ==> list_fits(nodes, shorter, remove, remap),
    decreases upto,
{
    if shorter < upto {
        lemma_fits_prefix(nodes, upto - 1, shorter, remove, remap);
    }
}

/// The connections that the edges of a graph give its vertices.
pub open spec fn graph_connections(edges: Seq<PDGSpecEdge>, n: int) -> Seq<Seq<usize>> {
    Seq::new(n as nat, |v: int| successors(edges, v, edges.len() as int))
}

/// The vertices that the vertex `from` depends on, itself included.
pub open spec fn slice_marks(edges: Seq<PDGSpecEdge>, n: int, from: usize) -> Seq<bool> {
    Seq::new(n as nat, |i: int| reachable(graph_connections(edges, n), from, i as usize))
}

/// The position of the first vertex called `name`.
pub open spec fn first_named(vertices: Seq<PDGSpecNode>, name: Seq<char>, start: int) -> Option<
    int,
>
    decreases vertices.len() - start,
{
    if start < 0 || start >= vertices.len() {
        None
    } else if vertices[start].name@ == name {
        Some(start)
    } else {
        first_named(vertices, name, start + 1)
    }
}

/// The first vertex called `name` is the one before which no vertex has that name.
pub proof fn lemma_first_named_is(vertices: Seq<PDGSpecNode>, name: Seq<char>, start: int, i: int)
    requires
        0 <= start <= i <= vertices.len(),
        forall|k: int| start <= k < i ==> vertices[k].name@ != name,
        i < vertices.len() ==> vertices[i].name@ == name,
    ensures
        first_named(vertices, name, start) == (if i < vertices.len() {
            Some(i)
        } else {
            None
        }),
    decreases i - start,
{
    if start < i {
        lemma_first_named_is(vertices, name, start + 1, i);
    }
}

/// Whether the graph can be sliced from vertex `from`: the control flow
/// fits the renumbering, and every predicate that goes exists when its
/// turn comes.
pub open spec fn sliceable(pdg: PDGSpec, from: usize) -> bool {
    let n = pdg.vertices.len() as int;
    let marks = slice_marks(pdg.edges@, n, from);
    let removed = unmarked(marks, n);
    &&& list_fits(&pdg.cfg, pdg.cfg.len() as int, removed, remapping(marks))
    &&& removal_fits(
        pdg.predicates.len() as int,
        descending(dropped(&pdg.cfg, pdg.cfg.len() as int, removed)),
    )
}

/// Slices a graph: what stays is the first statement called `criterion`
/// with everything that it depends on. The vertices that stay keep their
/// order, the edges between them are renumbered, and the control flow is
/// reduced to them. A graph whose edges or control flow name what it does
/// not hold is refused, and so is a criterion that names no statement.
pub fn pdg_slice(pdg: PDGSpec, criterion: &str) -> (r: Result<PDGSpec, Error>)
    ensures
        match r {
            Ok(sliced) => {
                let n = pdg.vertices.len() as int;
                &&& edges_closed(pdg.edges@, n)
                &&& n <= u32::MAX
                &&& first_named(pdg.vertices@, criterion@, 0) matches Some(first)
                &&& sliceable(pdg, first as usize)
                &&& {
                    let from = first as usize;
                    let marks = slice_marks(pdg.edges@, n, from);
                    let removed = unmarked(marks, n);
                    &&& sliced.vertices@ == marked_items(pdg.vertices@, marks, n)
                    &&& sliced.edges.deep_view() == remapped_edges(
                        pdg.edges@,
                        remapping(marks),
                        pdg.edges.len() as int,
                    )
                    &&& cfg_views(&sliced.cfg, sliced.cfg.len() as int) == reduced(
                        &pdg.cfg,
                        pdg.cfg.len() as int,
                        removed,
                        remapping(marks),
                    )
                    &&& sliced.predicates@ == drop_all(
                        pdg.predicates@,
                        descending(dropped(&pdg.cfg, pdg.cfg.len() as int, removed)),
                    )
                }
            },
            Err(Error::StatementLookupError(text)) => {
                &&& edges_closed(pdg.edges@, pdg.vertices.len() as int)
                &&& pdg.vertices.len() <= u32::MAX
                &&& first_named(pdg.vertices@, criterion@, 0) is None
                &&& text@ == criterion@
            },
            Err(Error::MalformedPDG) => {
                ||| !edges_closed(pdg.edges@, pdg.vertices.len() as int)
                ||| pdg.vertices.len() > u32::MAX
                ||| (first_named(pdg.vertices@, criterion@, 0) matches Some(from) && !sliceable(
                    pdg,
                    from as usize,
                ))
            },
            Err(_) => false,
        },
{
    let n = pdg.vertices.len();
    if n > u32::MAX as usize || !check_edges_closed(&pdg.edges, n) {
        return Err(Error::MalformedPDG);
    }
    let mut linkable_nodes = link_pdg(&pdg);
    let ghost conns = graph_connections(pdg.edges@, n as int);
    assert(connections_of(linkable_nodes@) =~= conns);
    let stmt_idx = match find_valid_statement(&linkable_nodes, criterion) {
        Ok(idx) => idx,
        Err(e) => {
            proof {
                assert forall|k: int| 0 <= k < n implies pdg.vertices@[k].name@ != criterion@ by {
                    assert(linkable_nodes[k].name@ == pdg.vertices[k].name@);
                }
                lemma_first_named_is(pdg.vertices@, criterion@, 0, n as int);
            }
            return Err(e);
        },
    };
    proof {
        assert forall|k: int| 0 <= k < stmt_idx implies pdg.vertices@[k].name@ != criterion@ by {
            assert(linkable_nodes[k].name@ == pdg.vertices[k].name@);
        }
        assert(linkable_nodes[stmt_idx as int].name@ == pdg.vertices[stmt_idx as int].name@);
        lemma_first_named_is(pdg.vertices@, criterion@, 0, stmt_idx as int);
    }
    let (removed_indices, idx_remap) = get_edge_replacement_mapping(&mut linkable_nodes, stmt_idx);
    let ghost marks = slice_marks(pdg.edges@, n as int, stmt_idx);
    assert(marks_of(linkable_nodes@) =~= marks);
    let mut kept: Vec<bool> = Vec::new();
    let mut i: usize = 0;
    while i < n
        invariant
            i <= n,
            n == linkable_nodes.len(),
            kept.len() == i,
            forall|k: int| 0 <= k < i ==> #[trigger] kept[k] == linkable_nodes[k].visited,
        decreases n - i,
    {
        kept.push(linkable_nodes[i].visited);
        i = i + 1;
    }
    assert(kept@ =~= marks);
    if !check_fits(&pdg.cfg, &removed_indices, &idx_remap) {
        return Err(Error::MalformedPDG);
    }
    let mut gone: Vec<usize> = Vec::new();
    let _ = remove_cfg_statements(&pdg.cfg, &removed_indices, &idx_remap, &mut gone);
    assert(gone@ =~= dropped(&pdg.cfg, pdg.cfg.len() as int, removed_indices@));
    let order = sort_descending(&gone);
    if !check_removal(pdg.predicates.len(), &order) {
        return Err(Error::MalformedPDG);
    }
    let PDGSpec { vertices, edges, predicates, cfg } = pdg;
    let new_vertices = keep_marked(vertices, &kept);
    let new_edges = remap_edges(edges, &idx_remap);
    let new_pdg = reduce_cfg(
        PDGSpec { vertices: new_vertices, edges: new_edges, predicates, cfg },
        &removed_indices,
        &idx_remap,
    );
    Ok(new_pdg)
}

} // verus!
