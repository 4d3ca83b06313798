//! An exported graph as it is shown while some of its groups are
//! collapsed: every vertex inside a collapsed group is replaced by the
//! vertex of the outermost collapsed group around it.

use vstd::prelude::*;
use vstd::string::*;
use crate::classes::{same_signal, same_symbol, same_texts};
use crate::hierarchy::{
    get_highest_hier_node, hierarchy_wf, highest, stamps, HierarchyView, NodeHierarchy,
};
use crate::merging::{
    clone_vertex, first_occurrences, lemma_first_occurrences, lemma_occurrences_once,
    unique_edges,
};
use crate::pdg_spec::{ExportNodeView, ExportablePDG, ExportablePDGEdge, ExportablePDGNode};
use crate::redirect::{adjacency, edges_within, incident};
use crate::text::same_text;
use crate::times::{
    lemma_time_listed, lemma_time_positions, lemma_time_prefix, stamps_of, time_positions,
    TimeIndex,
};

verus! {

/// What is shown for one end of an edge: the vertex, the number under
/// which it is drawn, and the group of the end if a group is shown for it.
pub struct End {
    pub node: ExportNodeView,
    pub id: usize,
    pub group: Option<usize>,
}

/// What is shown for vertex `v`: the vertex of the outermost collapsed
/// group around it, under the number of the group that the vertex stands
/// in; the vertex itself, under its position, if no group around it is
/// collapsed or it stands in no group.
pub open spec fn shown_end(vertices: Seq<ExportNodeView>, h: HierarchyView, v: int) -> End {
    match h.lookup[v] {
        Some(g) => match highest(h.groups, g as int) {
            Some(top) => End {
                node: h.groups[top].pdg_node,
                id: h.groups[g as int].group_id,
                group: Some(g),
            },
            None => End { node: vertices[v], id: v as usize, group: None },
        },
        None => End { node: vertices[v], id: v as usize, group: None },
    }
}

/// The graph that is shown, as far as the edges are gone through.
pub struct Regrouping {
    pub nodes: Seq<ExportNodeView>,
    pub ids: Seq<usize>,
    pub groups: Seq<Option<usize>>,
    pub edges: Seq<ExportablePDGEdge>,
}

/// The first position at or after `from` at which `nodes` holds the vertex `node`.
pub open spec fn place_of(nodes: Seq<ExportNodeView>, node: ExportNodeView, from: int) -> Option<
    int,
>
    decreases nodes.len() - from,
{
    if from < 0 || from >= nodes.len() {
        None
    } else if nodes[from] == node {
        Some(from)
    } else {
        place_of(nodes, node, from + 1)
    }
}

/// The place found for a vertex holds it, and no place before it does; where none is
/// found, no place holds it.
pub proof fn lemma_place_of(nodes: Seq<ExportNodeView>, node: ExportNodeView, from: int)
    requires
        0 <= from <= nodes.len(),
    ensures
        match place_of(nodes, node, from) {
            Some(i) => from <= i < nodes.len() && nodes[i] == node && forall|k: int|
                from <= k < i ==> nodes[k] != node,
            None => forall|k: int| from <= k < nodes.len() ==> nodes[k] != node,
        },
    decreases nodes.len() - from,
{
    if from < nodes.len() && nodes[from] != node {
        lemma_place_of(nodes, node, from + 1);
    }
}

/// The graph with the end `e` entered, and the position of the end in
/// it: a vertex that the graph holds already is not entered again.
pub open spec fn with_end(r: Regrouping, e: End) -> (Regrouping, int) {
    match place_of(r.nodes, e.node, 0) {
        Some(i) => (r, i),
        None => (
            Regrouping {
                nodes: r.nodes.push(e.node),
                ids: r.ids.push(e.id),
                groups: r.groups.push(e.group),
                ..r
            },
            r.nodes.len() as int,
        ),
    }
}

/// The graph with an edge entered: its ends are entered, and the edge
/// between them unless both ends are shown as one vertex.
pub open spec fn regroup_edge(
    r: Regrouping,
    vertices: Seq<ExportNodeView>,
    h: HierarchyView,
    edge: ExportablePDGEdge,
) -> Regrouping {
    let (r1, from) = with_end(r, shown_end(vertices, h, edge.from as int));
    let (r2, to) = with_end(r1, shown_end(vertices, h, edge.to as int));
    if from == to {
        r2
    } else {
        Regrouping {
            edges: r2.edges.push(ExportablePDGEdge { from: from as u32, to: to as u32, ..edge }),
            ..r2
        }
    }
}

/// The graph with the first `upto` edges entered.
pub open spec fn regrouped(
    vertices: Seq<ExportNodeView>,
    edges: Seq<ExportablePDGEdge>,
    h: HierarchyView,
    upto: int,
) -> Regrouping
    decreases upto,
{
    if upto <= 0 {
        Regrouping { nodes: seq![], ids: seq![], groups: seq![], edges: seq![] }
    } else {
        regroup_edge(regrouped(vertices, edges, h, upto - 1), vertices, h, edges[upto - 1])
    }
}

/// What is shown holds no vertex twice, a number and maybe a group for
/// every vertex, and only edges between two different vertices of it.
pub open spec fn regrouping_ok(r: Regrouping) -> bool {
    &&& r.ids.len() == r.nodes.len()
    &&& r.groups.len() == r.nodes.len()
    &&& forall|i: int, j: int| 0 <= i < j < r.nodes.len() ==> r.nodes[i] != r.nodes[j]
    &&& forall|k: int|
        0 <= k < r.edges.len() ==> (#[trigger] r.edges[k]).from < r.nodes.len() && r.edges[k].to
            < r.nodes.len() && r.edges[k].from != r.edges[k].to
}

proof fn lemma_with_end(r: Regrouping, e: End)
    requires
        regrouping_ok(r),
        r.nodes.len() < u32::MAX,
    ensures
        regrouping_ok(with_end(r, e).0),
        0 <= with_end(r, e).1 < with_end(r, e).0.nodes.len(),
        with_end(r, e).0.nodes[with_end(r, e).1] == e.node,
        with_end(r, e).0.nodes.len() <= r.nodes.len() + 1,
        forall|i: int| 0 <= i < r.nodes.len() ==> with_end(r, e).0.nodes[i] == r.nodes[i],
{
    lemma_place_of(r.nodes, e.node, 0);
    let after = with_end(r, e).0;
    if place_of(r.nodes, e.node, 0) is None {
        assert forall|i: int, j: int| 0 <= i < j < after.nodes.len() implies after.nodes[i]
            != after.nodes[j] by {
            if j < r.nodes.len() {
                assert(after.nodes[i] == r.nodes[i] && after.nodes[j] == r.nodes[j]);
            } else {
                assert(after.nodes[i] == r.nodes[i]);
            }
        }
    }
}

/// Equal vertices are shown as one, and every edge that is shown joins
/// two different vertices. The graph that is made of it holds no vertex
/// and no edge twice.
pub proof fn lemma_regrouped(
    vertices: Seq<ExportNodeView>,
    edges: Seq<ExportablePDGEdge>,
    h: HierarchyView,
    upto: int,
)
    requires
        0 <= upto <= edges.len(),
        2 * edges.len() <= u32::MAX,
    ensures
        regrouping_ok(regrouped(vertices, edges, h, upto)),
        regrouped(vertices, edges, h, upto).nodes.len() <= 2 * upto,
        ({
            let shown = regrouped(vertices, edges, h, upto);
            let kept = first_occurrences(shown.edges, shown.edges.len() as int);
            forall|i: int, j: int| 0 <= i < j < kept.len() ==> kept[i] != kept[j]
        }),
    decreases upto,
{
    if upto > 0 {
        lemma_regrouped(vertices, edges, h, upto - 1);
        let r = regrouped(vertices, edges, h, upto - 1);
        let edge = edges[upto - 1];
        let from_end = shown_end(vertices, h, edge.from as int);
        lemma_with_end(r, from_end);
        let (r1, from) = with_end(r, from_end);
        let to_end = shown_end(vertices, h, edge.to as int);
        lemma_with_end(r1, to_end);
        let (r2, to) = with_end(r1, to_end);
        let after = regrouped(vertices, edges, h, upto);
        assert forall|k: int| 0 <= k < after.edges.len() implies (#[trigger] after.edges[k]).from
            < after.nodes.len() && after.edges[k].to < after.nodes.len() && after.edges[k].from
            != after.edges[k].to by {
            if k < r.edges.len() {
                assert(after.edges[k] == r.edges[k]);
            }
        }
    }
    let shown = regrouped(vertices, edges, h, upto);
    lemma_occurrences_once(shown.edges, shown.edges.len() as int);
}

/// Tests whether two vertices are equal in every field.
pub fn same_vertex(a: &ExportablePDGNode, b: &ExportablePDGNode) -> (r: bool)
    ensures
        r == (a.deep_view() == b.deep_view()),
{
    a.timestamp == b.timestamp && a.line == b.line && a.char == b.char && a.kind == b.kind
        && a.clocked == b.clocked && a.is_chisel_assignment == b.is_chisel_assignment && same_text(
        a.name.as_str(),
        b.name.as_str(),
    ) && same_text(a.file.as_str(), b.file.as_str()) && same_signal(
        &a.related_signal,
        &b.related_signal,
    ) && same_symbol(&a.sim_data, &b.sim_data) && same_texts(&a.instance_path, &b.instance_path)
}

/// The graph that is shown while it is made.
struct Regrouped {
    nodes: Vec<ExportablePDGNode>,
    ids: Vec<usize>,
    groups: Vec<Option<usize>>,
    edges: Vec<ExportablePDGEdge>,
    index: TimeIndex,
}

impl Regrouped {
    spec fn shape(&self) -> Regrouping {
        Regrouping {
            nodes: self.nodes.deep_view(),
            ids: self.ids@,
            groups: self.groups@,
            edges: self.edges@,
        }
    }

    spec fn wf(&self) -> bool {
        &&& self.ids.len() == self.nodes.len()
        &&& self.groups.len() == self.nodes.len()
        &&& self.index.holds(stamps(self.nodes.deep_view()), self.nodes.len() as int)
        &&& edges_within(self.edges@, self.nodes.len() as int)
    }

    fn find(&self, node: &ExportablePDGNode) -> (r: Option<usize>)
        requires
            self.wf(),
        ensures
            match r {
                Some(i) => i < self.nodes.len() && place_of(
                    self.nodes.deep_view(),
                    node.deep_view(),
                    0,
                ) == Some(i as int),
                None => place_of(self.nodes.deep_view(), node.deep_view(), 0) is None,
            },
    {
        let ghost ns = self.nodes.deep_view();
        let ghost ts = stamps(ns);
        let ghost x = node.deep_view();
        let ghost len = ns.len() as int;
        let t = node.timestamp;
        proof {
            lemma_place_of(ns, x, 0);
            lemma_time_positions(ts, t, len);
        }
        match self.index.at(t, Ghost(ts), Ghost(len)) {
            None => {
                proof {
                    assert forall|k: int| 0 <= k < len implies ns[k] != x by {
                        if ns[k] == x {
                            lemma_time_listed(ts, len, k);
                        }
                    }
                }
                None
            },
            Some(list) => {
                let mut j: usize = 0;
                while j < list.len()
                    invariant
                        j <= list.len(),
                        ns == self.nodes.deep_view(),
                        x == node.deep_view(),
                        len == ns.len(),
                        len == self.nodes.len(),
                        ts == stamps(ns),
                        t == x.timestamp,
                        list@ == time_positions(ts, t, len),
                        forall|q: int|
                            0 <= q < list.len() ==> (#[trigger] list[q]) < len && ts[list[q] as int]
                                == t,
                        forall|p: int, q: int| 0 <= p < q < list.len() ==> list[p] < list[q],
                        forall|q: int| 0 <= q < j ==> ns[list[q] as int] != x,
                        match place_of(ns, x, 0) {
                            Some(i) => 0 <= i < len && ns[i] == x && forall|k: int|
                                0 <= k < i ==> ns[k] != x,
                            None => forall|k: int| 0 <= k < len ==> ns[k] != x,
                        },
                    decreases list.len() - j,
                {
                    let i = list[j];
                    assert(ns[i as int] == self.nodes[i as int].deep_view());
                    if same_vertex(&self.nodes[i], node) {
                        proof {
                            assert forall|k: int| 0 <= k < i implies ns[k] != x by {
                                if ns[k] == x {
                                    lemma_time_listed(ts, len, k);
                                    let q = choose|q: int|
                                        0 <= q < list.len() && list[q] == k as usize;
                                    if q >= j {
                                        if q > j {
                                            assert(list[j as int] < list[q]);
                                        }
                                    }
                                }
                            }
                        }
                        return Some(i);
                    }
                    j = j + 1;
                }
                proof {
                    assert forall|k: int| 0 <= k < len implies ns[k] != x by {
                        if ns[k] == x {
                            lemma_time_listed(ts, len, k);
                            let q = choose|q: int| 0 <= q < list.len() && list[q] == k as usize;
                            assert(ns[list[q] as int] != x);
                        }
                    }
                }
                None
            },
        }
    }

    /// Enters an end and gives its position.
    fn enter_end(&mut self, node: ExportablePDGNode, id: usize, group: Option<usize>) -> (i: usize)
        requires
            old(self).wf(),
        ensures
            final(self).wf(),
            (final(self).shape(), i as int) == with_end(
                old(self).shape(),
                End { node: node.deep_view(), id, group },
            ),
            i < final(self).nodes.len(),
            final(self).nodes.len() <= old(self).nodes.len() + 1,
            final(self).nodes.len() >= old(self).nodes.len(),
            final(self).edges == old(self).edges,
    {
        match self.find(&node) {
            Some(i) => i,
            None => {
                let ghost before = self.nodes.deep_view();
                let ghost x = node.deep_view();
                let i = self.nodes.len();
                let t = node.timestamp;
                self.nodes.push(node);
                self.ids.push(id);
                self.groups.push(group);
                let ghost after = self.nodes.deep_view();
                proof {
                    assert(after =~= before.push(x));
                    assert forall|u: i64|
                        time_positions(stamps(after), u, i as int) == #[trigger] time_positions(
                            stamps(before),
                            u,
                            i as int,
                        ) by {
                        lemma_time_prefix(stamps(after), stamps(before), u, i as int);
                    }
                    assert forall|u: i64| #[trigger]
                        self.index.index@.contains_key(u) implies self.index.lists[self.index.index@[u] as int]@
                        == time_positions(stamps(after), u, i as int) && time_positions(
                        stamps(after),
                        u,
                        i as int,
                    ).len() > 0 by {
                        assert(self.index.lists[self.index.index@[u] as int]@ == time_positions(
                            stamps(before),
                            u,
                            i as int,
                        ));
                    }
                    assert forall|u: i64| !self.index.index@.contains_key(u) implies (
                    #[trigger] time_positions(stamps(after), u, i as int)).len() == 0 by {
                        assert(time_positions(stamps(before), u, i as int).len() == 0);
                    }
                    assert(self.index.holds(stamps(after), i as int));
                }
                self.index.enter(t, i, Ghost(stamps(after)));
                i
            },
        }
    }
}

/// The graph that is shown while some groups are collapsed, with what a viewer keeps beside it.
#[derive(Debug)]
pub struct HierarchicalGraph {
    pub dpdg: ExportablePDG,
    /// For every vertex the group of the end that it was entered for, if a group is shown for it.
    pub group_ids: Vec<Option<usize>>,
    /// For every vertex the number under which it is drawn.
    pub original_ids: Vec<usize>,
    /// The vertices by their time stamps.
    pub time_to_nodes: TimeIndex,
    /// For every vertex the edges that leave it.
    pub dep_to_edges: Vec<Vec<usize>>,
    /// For every vertex the edges that arrive at it.
    pub prov_to_edges: Vec<Vec<usize>>,
}

/// Every group that is named is one of `n` groups.
pub open spec fn groups_below(groups: Seq<Option<usize>>, n: int) -> bool {
    forall|i: int| 0 <= i < groups.len() ==> ((#[trigger] groups[i]) matches Some(g) ==> g < n)
}

impl HierarchicalGraph {
    /// The graph is what is shown for the graph of `vertices` and `edges` under the groups `h`.
    pub open spec fn shows(
        &self,
        vertices: Seq<ExportNodeView>,
        edges: Seq<ExportablePDGEdge>,
        h: HierarchyView,
    ) -> bool {
        let shown = regrouped(vertices, edges, h, edges.len() as int);
        &&& self.dpdg.vertices.deep_view() == shown.nodes
        &&& self.dpdg.edges@ == first_occurrences(shown.edges, shown.edges.len() as int)
        &&& self.original_ids@ == shown.ids
        &&& self.group_ids@ == shown.groups
    }

    /// The tables of the graph fit the graph.
    pub open spec fn wf(&self) -> bool {
        let n = self.dpdg.vertices.len();
        &&& edges_within(self.dpdg.edges@, n as int)
        &&& self.group_ids.len() == n
        &&& self.original_ids.len() == n
        &&& self.time_to_nodes.holds(stamps_of(self.dpdg.vertices@), n as int)
        &&& self.dep_to_edges.len() == n
        &&& self.prov_to_edges.len() == n
        &&& forall|v: int|
            0 <= v < n ==> (#[trigger] self.dep_to_edges[v])@ == incident(
                self.dpdg.edges@,
                v,
                self.dpdg.edges.len() as int,
                true,
            )
        &&& forall|v: int|
            0 <= v < n ==> (#[trigger] self.prov_to_edges[v])@ == incident(
                self.dpdg.edges@,
                v,
                self.dpdg.edges.len() as int,
                false,
            )
    }
}

fn end_for(dpdg: &ExportablePDG, h: &NodeHierarchy, v: usize) -> (r: (
    ExportablePDGNode,
    usize,
    Option<usize>,
))
    requires
        v < dpdg.vertices.len(),
        hierarchy_wf(h.deep_view(), dpdg.vertices.len() as int),
    ensures
        (End { node: r.0.deep_view(), id: r.1, group: r.2 }) == shown_end(
            dpdg.vertices.deep_view(),
            h.deep_view(),
            v as int,
        ),
{
    assert(dpdg.vertices.deep_view()[v as int] == dpdg.vertices[v as int].deep_view());
    assert(h.deep_view().lookup[v as int] == h.lookup[v as int]);
    match h.lookup[v] {
        Some(g) => {
            assert(h.groups.deep_view()[g as int] == h.groups[g as int].deep_view());
            match get_highest_hier_node(h, g) {
                Some(node) => (node, h.groups[g].group_id, Some(g)),
                None => (clone_vertex(&dpdg.vertices[v]), v, None),
            }
        },
        None => (clone_vertex(&dpdg.vertices[v]), v, None),
    }
}

/// The graph that is shown for a graph and its groups. Every edge is
/// gone through in order: its ends are replaced by what is shown for
/// them, equal vertices are entered once, and an edge between two
/// vertices is kept once, unless both its ends are shown as one vertex.
pub fn rebuild_hier_graph(dpdg: &ExportablePDG, h: &NodeHierarchy) -> (g: HierarchicalGraph)
    requires
        edges_within(dpdg.edges@, dpdg.vertices.len() as int),
        hierarchy_wf(h.deep_view(), dpdg.vertices.len() as int),
        2 * dpdg.edges.len() <= u32::MAX,
    ensures
        g.wf(),
        g.shows(dpdg.vertices.deep_view(), dpdg.edges@, h.deep_view()),
        groups_below(g.group_ids@, h.groups.len() as int),
{
    let ghost vs = dpdg.vertices.deep_view();
    let ghost hv = h.deep_view();
    let mut r = Regrouped {
        nodes: Vec::new(),
        ids: Vec::new(),
        groups: Vec::new(),
        edges: Vec::new(),
        index: TimeIndex::new(),
    };
    proof {
        let start = regrouped(vs, dpdg.edges@, hv, 0);
        assert(r.shape().nodes =~= start.nodes);
        assert(r.shape().ids =~= start.ids);
        assert(r.shape().groups =~= start.groups);
        assert(r.shape().edges =~= start.edges);
    }
    let mut k: usize = 0;
    while k < dpdg.edges.len()
        invariant
            k <= dpdg.edges.len(),
            2 * dpdg.edges.len() <= u32::MAX,
            vs == dpdg.vertices.deep_view(),
            hv == h.deep_view(),
            edges_within(dpdg.edges@, dpdg.vertices.len() as int),
            hierarchy_wf(hv, dpdg.vertices.len() as int),
            r.wf(),
            r.nodes.len() <= 2 * k,
            r.shape() == regrouped(vs, dpdg.edges@, hv, k as int),
            groups_below(r.groups@, h.groups.len() as int),
        decreases dpdg.edges.len() - k,
    {
        let edge = dpdg.edges[k];
        let ghost g0 = r.groups@;
        let (from_node, from_id, from_group) = end_for(dpdg, h, edge.from as usize);
        let from = r.enter_end(from_node, from_id, from_group);
        let ghost g1 = r.groups@;
        let (to_node, to_id, to_group) = end_for(dpdg, h, edge.to as usize);
        let to = r.enter_end(to_node, to_id, to_group);
        proof {
            assert(g1 == g0 || g1 == g0.push(from_group));
            assert(r.groups@ == g1 || r.groups@ == g1.push(to_group));
            assert(hv.lookup[edge.from as int] == h.lookup[edge.from as int]);
            assert(hv.lookup[edge.to as int] == h.lookup[edge.to as int]);
            assert forall|i: int| 0 <= i < r.groups.len() implies ((#[trigger] r.groups[i]) matches Some(
                g,
            ) ==> g < h.groups.len()) by {
                if i < g0.len() {
                    assert(r.groups[i] == g0[i]);
                }
            }
        }
        if from != to {
            let ghost before = r.edges@;
            r.edges.push(
                ExportablePDGEdge {
                    from: from as u32,
                    to: to as u32,
                    kind: edge.kind,
                    clocked: edge.clocked,
                },
            );
            proof {
                assert forall|j: int| 0 <= j < r.edges.len() implies (#[trigger] r.edges[j]).from
                    < r.nodes.len() && r.edges[j].to < r.nodes.len() by {
                    if j < before.len() {
                        assert(r.edges[j] == before[j]);
                    }
                }
            }
        }
        k = k + 1;
    }
    let Regrouped { nodes, ids, groups, edges: raw, index } = r;
    let edges = unique_edges(&raw);
    proof {
        assert forall|j: int| 0 <= j < edges.len() implies (#[trigger] edges[j]).from < nodes.len()
            && edges[j].to < nodes.len() by {
            lemma_first_occurrences(raw@, raw.len() as int, edges[j]);
            assert(edges@.contains(edges[j]));
        }
        assert(stamps_of(nodes@) =~= stamps(nodes.deep_view()));
    }
    let dep_to_edges = adjacency(&edges, nodes.len(), true);
    let prov_to_edges = adjacency(&edges, nodes.len(), false);
    HierarchicalGraph {
        dpdg: ExportablePDG { vertices: nodes, edges },
        group_ids: groups,
        original_ids: ids,
        time_to_nodes: index,
        dep_to_edges,
        prov_to_edges,
    }
}

} // verus!
