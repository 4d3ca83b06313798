//! The static graph prepared for the builder: symbols and probes resolved
//! to numbers, and every vertex with the edges that leave it.

use vstd::prelude::*;
use vstd::string::*;
use crate::classes::{class_of, classes};
use crate::errors::Error;
use crate::pdg_spec::{
    PDGSpec, PDGSpecCondition, PDGSpecEdge, PDGSpecEdgeKind, PDGSpecNode, PDGSpecNodeKind,
};
use crate::reader::{probe_key_list, probe_keys};
use crate::interning::{find_indexed, index_texts, TextIndex};
use crate::text::{first_equal, representative};
use crate::trace::Probe;

verus! {

/// One comparison of a condition: the slot of the probe, if the trace has
/// such a probe, and the value that it must hold.
#[derive(Clone, Copy, Debug)]
pub struct Guard {
    pub slot: Option<usize>,
    pub value: u64,
}

/// An edge that leaves a vertex.
#[derive(Debug)]
pub struct LinkedEdge {
    pub to: u32,
    pub kind: PDGSpecEdgeKind,
    pub guards: Vec<Guard>,
}

/// A vertex with what the builder reads of it.
#[derive(Debug)]
pub struct LinkedNode {
    pub kind: PDGSpecNodeKind,
    pub clocked: bool,
    pub assign_delay: u32,
    /// The symbol that the vertex assigns: the first vertex that assigns the same name.
    pub symbol: Option<usize>,
    /// The vertex under which control-flow activations are recorded: the
    /// first vertex that equals this one in every field.
    pub class: usize,
    pub guards: Vec<Guard>,
    /// The edges that leave the vertex, in the order of the graph's edge list.
    pub dependencies: Vec<LinkedEdge>,
}

/// Mathematical value of a [`LinkedEdge`].
pub struct LinkedEdgeView {
    pub to: u32,
    pub kind: PDGSpecEdgeKind,
    pub guards: Seq<Guard>,
}

/// Mathematical value of a [`LinkedNode`].
pub struct LinkedNodeView {
    pub kind: PDGSpecNodeKind,
    pub clocked: bool,
    pub assign_delay: u32,
    pub symbol: Option<usize>,
    pub class: usize,
    pub guards: Seq<Guard>,
    pub dependencies: Seq<LinkedEdgeView>,
}

impl DeepView for LinkedEdge {
    type V = LinkedEdgeView;

    open spec fn deep_view(&self) -> LinkedEdgeView {
        LinkedEdgeView { to: self.to, kind: self.kind, guards: self.guards@ }
    }
}

impl DeepView for LinkedNode {
    type V = LinkedNodeView;

    open spec fn deep_view(&self) -> LinkedNodeView {
        LinkedNodeView {
            kind: self.kind,
            clocked: self.clocked,
            assign_delay: self.assign_delay,
            symbol: self.symbol,
            class: self.class,
            guards: self.guards@,
            dependencies: self.dependencies.deep_view(),
        }
    }
}

/// The names that the vertices assign, as keys.
pub open spec fn symbol_keys(vertices: Seq<PDGSpecNode>) -> Seq<Option<Seq<char>>> {
    Seq::new(vertices.len(), |v: int| vertices[v].assigns_to.deep_view())
}

/// The symbol of vertex `v`: the first vertex that assigns the same name.
pub open spec fn symbol_of(vertices: Seq<PDGSpecNode>, v: int) -> Option<usize> {
    match representative(symbol_keys(vertices), v) {
        Some(r) => Some(r as usize),
        None => None,
    }
}

/// The slot of the probe called `name` among `keys`.
pub open spec fn slot_in(keys: Seq<Option<Seq<char>>>, name: Seq<char>) -> Option<usize> {
    match first_equal(keys, name, 0) {
        Some(j) => Some(j as usize),
        None => None,
    }
}

/// How many comparisons a condition makes: names and values are paired.
pub open spec fn condition_len(c: PDGSpecCondition) -> nat {
    if c.probe_name.len() <= c.probe_value.len() {
        c.probe_name.len() as nat
    } else {
        c.probe_value.len() as nat
    }
}

/// The comparisons of a condition with their probes resolved; no condition
/// makes no comparison.
pub open spec fn resolve_condition(
    cond: Option<PDGSpecCondition>,
    keys: Seq<Option<Seq<char>>>,
) -> Seq<Guard> {
    match cond {
        Some(c) => Seq::new(
            condition_len(c),
            |i: int| Guard { slot: slot_in(keys, c.probe_name[i]@), value: c.probe_value[i] },
        ),
        None => seq![],
    }
}

/// The resolved form of one edge.
pub open spec fn linked_edge(e: PDGSpecEdge, keys: Seq<Option<Seq<char>>>) -> LinkedEdgeView {
    LinkedEdgeView { to: e.to, kind: e.kind, guards: resolve_condition(e.condition, keys) }
}

/// The edges among the first `upto` that leave vertex `v`, in order.
pub open spec fn edges_from(
    edges: Seq<PDGSpecEdge>,
    keys: Seq<Option<Seq<char>>>,
    v: int,
    upto: int,
) -> Seq<LinkedEdgeView>
    decreases upto,
{
    if upto <= 0 {
        seq![]
    } else {
        let rest = edges_from(edges, keys, v, upto - 1);
        if edges[upto - 1].from == v {
            rest.push(linked_edge(edges[upto - 1], keys))
        } else {
            rest
        }
    }
}

/// The resolved form of vertex `v`.
pub open spec fn linked_vertex(
    vertices: Seq<PDGSpecNode>,
    edges: Seq<PDGSpecEdge>,
    keys: Seq<Option<Seq<char>>>,
    v: int,
) -> LinkedNodeView {
    LinkedNodeView {
        kind: vertices[v].kind,
        clocked: vertices[v].clocked,
        assign_delay: vertices[v].assign_delay,
        symbol: symbol_of(vertices, v),
        class: class_of(vertices, v) as usize,
        guards: resolve_condition(vertices[v].condition, keys),
        dependencies: edges_from(edges, keys, v, edges.len() as int),
    }
}

/// The resolved form of a whole graph.
pub open spec fn linked_graph(
    vertices: Seq<PDGSpecNode>,
    edges: Seq<PDGSpecEdge>,
    keys: Seq<Option<Seq<char>>>,
) -> Seq<LinkedNodeView> {
    Seq::new(vertices.len(), |v: int| linked_vertex(vertices, edges, keys, v))
}

/// Every edge joins two vertices of the graph.
pub open spec fn edges_in_range(edges: Seq<PDGSpecEdge>, n: int) -> bool {
    forall|k: int| 0 <= k < edges.len() ==> (#[trigger] edges[k]).from < n && edges[k].to < n
}

/// Resolves the comparisons of a condition against the probes `keys`.
pub fn resolve_guards(
    cond: &Option<PDGSpecCondition>,
    keys: &Vec<Option<String>>,
    index: &TextIndex,
) -> (guards: Vec<Guard>)
    requires
        index.holds(keys.deep_view(), keys.len() as int),
    ensures
        guards@ == resolve_condition(*cond, keys.deep_view()),
{
    let mut guards: Vec<Guard> = Vec::new();
    match cond {
        Some(c) => {
            let n = if c.probe_name.len() <= c.probe_value.len() {
                c.probe_name.len()
            } else {
                c.probe_value.len()
            };
            let mut i: usize = 0;
            while i < n
                invariant
                    i <= n,
                    n == condition_len(*c),
                    index.holds(keys.deep_view(), keys.len() as int),
                    guards.len() == i,
                    forall|k: int|
                        0 <= k < i ==> #[trigger] guards[k] == (Guard {
                            slot: slot_in(keys.deep_view(), c.probe_name[k]@),
                            value: c.probe_value[k],
                        }),
                decreases n - i,
            {
                let slot = find_indexed(index, keys, c.probe_name[i].as_str());
                guards.push(Guard { slot, value: c.probe_value[i] });
                i = i + 1;
            }
            assert(guards@ =~= resolve_condition(*cond, keys.deep_view()));
        },
        None => {},
    }
    guards
}

/// Prepares a static graph for the builder, against the probes of a trace.
/// A graph with an edge from one of its vertices to a vertex that it does
/// not hold is refused.
pub fn link(pdg: &PDGSpec, probes: &Vec<Probe>) -> (r: Result<Vec<LinkedNode>, Error>)
    ensures
        match r {
            Ok(linked) => {
                &&& edges_in_range(pdg.edges@, pdg.vertices.len() as int)
                &&& linked.deep_view() == linked_graph(
                    pdg.vertices@,
                    pdg.edges@,
                    probe_keys(probes.deep_view()),
                )
            },
            Err(e) => e is MalformedPDG && !edges_in_range(pdg.edges@, pdg.vertices.len() as int),
        },
{
    let keys = probe_key_list(probes);
    let (index, _) = index_texts(&keys);
    let n = pdg.vertices.len();
    let ghost pk = keys.deep_view();

    let mut names: Vec<Option<String>> = Vec::new();
    let mut i: usize = 0;
    while i < n
        invariant
            i <= n,
            n == pdg.vertices.len(),
            names.len() == i,
            forall|k: int|
                0 <= k < i ==> (#[trigger] names[k]).deep_view()
                    == pdg.vertices[k].assigns_to.deep_view(),
        decreases n - i,
    {
        let name = match &pdg.vertices[i].assigns_to {
            Some(s) => Some(s.clone()),
            None => None,
        };
        names.push(name);
        i = i + 1;
    }
    assert(names.deep_view() =~= symbol_keys(pdg.vertices@));
    let (_, reps) = index_texts(&names);
    let class = classes(&pdg.vertices);

    let mut linked: Vec<LinkedNode> = Vec::new();
    let mut v: usize = 0;
    while v < n
        invariant
            v <= n,
            n == pdg.vertices.len(),
            linked.len() == v,
            reps.len() == n,
            class.len() == n,
            forall|k: int| 0 <= k < n ==> #[trigger] class[k] == class_of(pdg.vertices@, k),
            names.deep_view() == symbol_keys(pdg.vertices@),
            pk == keys.deep_view(),
            index.holds(pk, keys.len() as int),
            forall|k: int|
                0 <= k < n ==> (#[trigger] reps[k] matches Some(r) ==> representative(
                    names.deep_view(),
                    k,
                ) == Some(r as int)),
            forall|k: int|
                0 <= k < n ==> (#[trigger] reps[k] is None ==> representative(
                    names.deep_view(),
                    k,
                ) is None),
            forall|k: int|
                0 <= k < v ==> (#[trigger] linked[k]).deep_view() == (LinkedNodeView {
                    dependencies: seq![],
                    ..linked_vertex(pdg.vertices@, pdg.edges@, pk, k)
                }),
        decreases n - v,
    {
        let vertex = &pdg.vertices[v];
        let node = LinkedNode {
            kind: vertex.kind,
            clocked: vertex.clocked,
            assign_delay: vertex.assign_delay,
            symbol: reps[v],
            class: class[v],
            guards: resolve_guards(&vertex.condition, &keys, &index),
            dependencies: Vec::new(),
        };
        assert(node.dependencies.deep_view() =~= seq![]);
        linked.push(node);
        v = v + 1;
    }

    let mut k: usize = 0;
    while k < pdg.edges.len()
        invariant
            k <= pdg.edges.len(),
            n == pdg.vertices.len(),
            linked.len() == n,
            pk == keys.deep_view(),
            index.holds(pk, keys.len() as int),
            forall|j: int| 0 <= j < k ==> (#[trigger] pdg.edges[j]).from < n && pdg.edges[j].to < n,
            forall|w: int|
                0 <= w < n ==> (#[trigger] linked[w]).deep_view() == (LinkedNodeView {
                    dependencies: edges_from(pdg.edges@, pk, w, k as int),
                    ..linked_vertex(pdg.vertices@, pdg.edges@, pk, w)
                }),
        decreases pdg.edges.len() - k,
    {
        let edge = &pdg.edges[k];
        if (edge.from as usize) >= n || (edge.to as usize) >= n {
            return Err(Error::MalformedPDG);
        }
        let ghost before = linked[edge.from as int].dependencies.deep_view();
        let entry = LinkedEdge {
            to: edge.to,
            kind: edge.kind,
            guards: resolve_guards(&edge.condition, &keys, &index),
        };
        linked[edge.from as usize].dependencies.push(entry);
        assert(linked[edge.from as int].dependencies.deep_view() =~= before.push(
            linked_edge(*edge, pk),
        ));
        k = k + 1;
    }
    assert(linked.deep_view() =~= linked_graph(pdg.vertices@, pdg.edges@, pk));
    Ok(linked)
}

} // verus!
