//! What a viewer shows of an exported graph: colours and shapes, the
//! signals around a vertex, and the part of the graph that is in view.

use vstd::prelude::*;
use vstd::string::*;
use crate::hierarchy::{
    build_node_hierarchy, hierarchy_of, hierarchy_wf, toggle_module, toggle_target, toggled,
    NodeHierarchy,
};
use crate::interning::index_texts;
use crate::merging::{first_occurrences, lemma_first_occurrences};
use crate::pdg_spec::{
    ExportNodeView, ExportablePDG, ExportablePDGEdge, ExportablePDGNode, PDGSpecEdgeKind,
    PDGSpecNodeKind,
};
use crate::redirect::{adjacency, edges_within, incident, lemma_incident};
use crate::regroup::{groups_below, rebuild_hier_graph, HierarchicalGraph};
use crate::times::{index_times, stamps_of, TimeIndex};
use crate::slicing::{
    connections_closed, count_unmarked, is_path, lemma_closed_holds_reachable, lemma_mark,
    lemma_reach_step, reachable,
};
use crate::text::{has_prefix, lemma_representative, representative, same_text, starts_with};
use crate::translation::{
    decimal, decimal_text, interpret_tywaves_value, reading, type_part, value_part,
    TranslationStrategy,
};

verus! {

/// The colour of a vertex.
#[derive(Clone, Copy, Debug, PartialEq, Eq, Structural)]
pub enum NodeColour {
    Yellow,
    Green,
    Blue,
    Red,
}

/// The shape of a vertex.
#[derive(Clone, Copy, Debug, PartialEq, Eq, Structural)]
pub enum NodeShape {
    Ellipse,
    Box,
    Diamond,
}

/// The colour of an edge.
#[derive(Clone, Copy, Debug, PartialEq, Eq, Structural)]
pub enum EdgeColour {
    Blue,
    Red,
    Purple,
}

impl NodeColour {
    /// The colour of a statement of a kind.
    pub fn from_kind(value: PDGSpecNodeKind) -> (c: NodeColour)
        ensures
            c == match value {
                PDGSpecNodeKind::Connection => NodeColour::Blue,
                PDGSpecNodeKind::ControlFlow => NodeColour::Red,
                PDGSpecNodeKind::IO => NodeColour::Green,
                PDGSpecNodeKind::DataDefinition => NodeColour::Blue,
                PDGSpecNodeKind::Definition => NodeColour::Yellow,
            },
    {
        match value {
            PDGSpecNodeKind::Connection => NodeColour::Blue,
            PDGSpecNodeKind::ControlFlow => NodeColour::Red,
            PDGSpecNodeKind::IO => NodeColour::Green,
            PDGSpecNodeKind::DataDefinition => NodeColour::Blue,
            PDGSpecNodeKind::Definition => NodeColour::Yellow,
        }
    }

    /// The colour as a text of hexadecimal digits.
    pub open spec fn hex(self) -> Seq<char> {
        match self {
            NodeColour::Blue => "#97C2FC"@,
            NodeColour::Red => "#FB7E81"@,
            NodeColour::Green => "#7BE141"@,
            NodeColour::Yellow => "#FFFF00"@,
        }
    }

    /// The colour as a text of hexadecimal digits.
    pub fn to_hex(&self) -> (s: String)
        ensures
            s@ == self.hex(),
    {
        match self {
            NodeColour::Blue => "#97C2FC".to_owned(),
            NodeColour::Red => "#FB7E81".to_owned(),
            NodeColour::Green => "#7BE141".to_owned(),
            NodeColour::Yellow => "#FFFF00".to_owned(),
        }
    }
}

impl NodeShape {
    /// The shape of a statement of a kind.
    pub fn from_kind(value: PDGSpecNodeKind) -> (s: NodeShape)
        ensures
            s == match value {
                PDGSpecNodeKind::Connection => NodeShape::Ellipse,
                PDGSpecNodeKind::ControlFlow => NodeShape::Diamond,
                _ => NodeShape::Box,
            },
    {
        match value {
            PDGSpecNodeKind::Connection => NodeShape::Ellipse,
            PDGSpecNodeKind::ControlFlow => NodeShape::Diamond,
            _ => NodeShape::Box,
        }
    }
}

impl EdgeColour {
    /// The colour of a dependence of a kind.
    pub fn from_kind(value: PDGSpecEdgeKind) -> (c: EdgeColour)
        ensures
            c == match value {
                PDGSpecEdgeKind::Data => EdgeColour::Blue,
                PDGSpecEdgeKind::Conditional => EdgeColour::Red,
                PDGSpecEdgeKind::Index => EdgeColour::Purple,
                PDGSpecEdgeKind::Declaration => EdgeColour::Blue,
            },
    {
        match value {
            PDGSpecEdgeKind::Data => EdgeColour::Blue,
            PDGSpecEdgeKind::Conditional => EdgeColour::Red,
            PDGSpecEdgeKind::Index => EdgeColour::Purple,
            PDGSpecEdgeKind::Declaration => EdgeColour::Blue,
        }
    }

    /// The colour as a text of hexadecimal digits.
    pub open spec fn hex(self) -> Seq<char> {
        match self {
            EdgeColour::Blue => "#97C2FC"@,
            EdgeColour::Red => "#FB7E81"@,
            EdgeColour::Purple => "#bc2dcc"@,
        }
    }

    /// The colour as a text of hexadecimal digits.
    pub fn to_hex(&self) -> (s: String)
        ensures
            s@ == self.hex(),
    {
        match self {
            EdgeColour::Blue => "#97C2FC".to_owned(),
            EdgeColour::Red => "#FB7E81".to_owned(),
            EdgeColour::Purple => "#bc2dcc".to_owned(),
        }
    }
}

/// A signal at the end of a dependence, as a tooltip shows it.
#[derive(Debug)]
pub struct ViewerSignal {
    pub name: String,
    pub value: String,
    pub connection_type: String,
}

/// Mathematical value of a [`ViewerSignal`].
pub struct SignalView {
    pub name: Seq<char>,
    pub value: Seq<char>,
    pub connection_type: Seq<char>,
}

impl DeepView for ViewerSignal {
    type V = SignalView;

    open spec fn deep_view(&self) -> SignalView {
        SignalView {
            name: self.name@,
            value: self.value@,
            connection_type: self.connection_type@,
        }
    }
}

/// The name under which the signal of a vertex is shown: its path, with
/// the field in brackets if it has one; nothing without a signal.
pub open spec fn signal_name(v: ExportNodeView) -> Seq<char> {
    match v.related_signal {
        Some(s) => if s.field_path.len() == 0 {
            s.signal_path
        } else {
            s.signal_path + " ["@ + s.field_path + "]"@
        },
        None => ""@,
    }
}

/// The value of a vertex as it is shown: read by its type; nothing without a value.
pub open spec fn shown_value(v: ExportNodeView) -> Seq<char> {
    match v.sim_data {
        Some(d) => reading(value_part(d), type_part(d), TranslationStrategy::Auto),
        None => ""@,
    }
}

/// The word for a kind of dependence.
pub open spec fn connection_word(kind: PDGSpecEdgeKind) -> Seq<char> {
    match kind {
        PDGSpecEdgeKind::Conditional => "controlflow"@,
        PDGSpecEdgeKind::Data => "data"@,
        PDGSpecEdgeKind::Index => "index"@,
        PDGSpecEdgeKind::Declaration => ""@,
    }
}

/// The signal at one end of edge `e`: at its target if `incoming`, else at its source.
pub open spec fn signal_at(
    vertices: Seq<ExportNodeView>,
    edges: Seq<ExportablePDGEdge>,
    e: usize,
    incoming: bool,
) -> SignalView {
    let edge = edges[e as int];
    let end = if incoming {
        vertices[edge.to as int]
    } else {
        vertices[edge.from as int]
    };
    SignalView {
        name: signal_name(end),
        value: shown_value(end),
        connection_type: connection_word(edge.kind),
    }
}

/// The signals at the ends of the edges `list`.
pub open spec fn signals_at(
    vertices: Seq<ExportNodeView>,
    edges: Seq<ExportablePDGEdge>,
    list: Seq<usize>,
    incoming: bool,
) -> Seq<SignalView> {
    Seq::new(list.len(), |j: int| signal_at(vertices, edges, list[j], incoming))
}

fn same_signal(a: &ViewerSignal, b: &ViewerSignal) -> (r: bool)
    ensures
        r == (a.deep_view() == b.deep_view()),
{
    same_text(a.name.as_str(), b.name.as_str()) && same_text(a.value.as_str(), b.value.as_str())
        && same_text(a.connection_type.as_str(), b.connection_type.as_str())
}

/// The signals at the ends of the dependences `edges` of a graph, each once.
pub fn get_viewer_signals(dpdg: &ExportablePDG, edges: &Vec<usize>, incoming: bool) -> (r: Vec<
    ViewerSignal,
>)
    requires
        edges_within(dpdg.edges@, dpdg.vertices.len() as int),
        forall|j: int| 0 <= j < edges.len() ==> (#[trigger] edges[j]) < dpdg.edges.len(),
    ensures
        r.deep_view() == first_occurrences(
            signals_at(dpdg.vertices.deep_view(), dpdg.edges@, edges@, incoming),
            edges.len() as int,
        ),
{
    let ghost all = signals_at(dpdg.vertices.deep_view(), dpdg.edges@, edges@, incoming);
    let mut r: Vec<ViewerSignal> = Vec::new();
    let mut j: usize = 0;
    assert(r.deep_view() =~= first_occurrences(all, 0));
    while j < edges.len()
        invariant
            j <= edges.len(),
            edges_within(dpdg.edges@, dpdg.vertices.len() as int),
            forall|k: int| 0 <= k < edges.len() ==> (#[trigger] edges[k]) < dpdg.edges.len(),
            all == signals_at(dpdg.vertices.deep_view(), dpdg.edges@, edges@, incoming),
            r.deep_view() == first_occurrences(all, j as int),
        decreases edges.len() - j,
    {
        let edge = dpdg.edges[edges[j]];
        let destination = if incoming {
            &dpdg.vertices[edge.to as usize]
        } else {
            &dpdg.vertices[edge.from as usize]
        };
        assert(destination.deep_view() == if incoming {
            dpdg.vertices.deep_view()[edge.to as int]
        } else {
            dpdg.vertices.deep_view()[edge.from as int]
        });
        let name = match &destination.related_signal {
            Some(signal) => {
                if signal.field_path.as_str().unicode_len() == 0 {
                    signal.signal_path.clone()
                } else {
                    signal.signal_path.clone().concat(" [").concat(
                        signal.field_path.as_str(),
                    ).concat("]")
                }
            },
            None => "".to_owned(),
        };
        let value = match &destination.sim_data {
            Some(d) => interpret_tywaves_value(d, TranslationStrategy::Auto).value,
            None => "".to_owned(),
        };
        let connection_type = match edge.kind {
            PDGSpecEdgeKind::Conditional => "controlflow".to_owned(),
            PDGSpecEdgeKind::Data => "data".to_owned(),
            PDGSpecEdgeKind::Index => "index".to_owned(),
            PDGSpecEdgeKind::Declaration => "".to_owned(),
        };
        let signal = ViewerSignal { name, value, connection_type };
        assert(signal.deep_view() == all[j as int]);
        let ghost before = r.deep_view();
        let mut known = false;
        let mut q: usize = 0;
        while q < r.len()
            invariant_except_break
                !known,
            invariant
                q <= r.len(),
                before == r.deep_view(),
                forall|k: int| 0 <= k < q ==> before[k] != signal.deep_view(),
            ensures
                known == before.contains(signal.deep_view()),
            decreases r.len() - q,
        {
            assert(before[q as int] == r[q as int].deep_view());
            if same_signal(&r[q], &signal) {
                known = true;
                break ;
            }
            q = q + 1;
        }
        if !known {
            r.push(signal);
            assert(r.deep_view() =~= before.push(all[j as int]));
        }
        j = j + 1;
    }
    r
}

/// The targets of the first `upto` edges of `list`.
pub open spec fn targets(edges: Seq<ExportablePDGEdge>, list: Seq<usize>) -> Seq<usize> {
    Seq::new(list.len(), |j: int| edges[list[j] as int].to as usize)
}

/// For every one of `n` vertices the vertices that it depends on.
pub open spec fn dependence_lists(edges: Seq<ExportablePDGEdge>, n: int) -> Seq<Seq<usize>> {
    Seq::new(n as nat, |v: int| targets(edges, incident(edges, v, edges.len() as int, true)))
}

/// For every vertex whether connections lead to it from `from`.
pub fn reach(conns: &Vec<Vec<usize>>, from: usize) -> (marks: Vec<bool>)
    requires
        from < conns.len(),
        connections_closed(Seq::new(conns.len() as nat, |v: int| conns[v]@)),
    ensures
        marks.len() == conns.len(),
        forall|i: int|
            0 <= i < conns.len() ==> #[trigger] marks[i] == reachable(
                Seq::new(conns.len() as nat, |v: int| conns[v]@),
                from,
                i as usize,
            ),
{
    let ghost cs = Seq::new(conns.len() as nat, |v: int| conns[v]@);
    let n = conns.len();
    let mut marks: Vec<bool> = Vec::new();
    let mut v: usize = 0;
    while v < n
        invariant
            v <= n,
            marks.len() == v,
            forall|u: int| 0 <= u < v ==> !(#[trigger] marks[u]),
        decreases n - v,
    {
        marks.push(false);
        v = v + 1;
    }
    let mut stack: Vec<usize> = Vec::new();
    stack.push(from);
    proof {
        let start = seq![from];
        assert(is_path(cs, start) && start[0] == from && start.last() == from);
    }
    while stack.len() > 0
        invariant
            n == conns.len(),
            from < n,
            marks.len() == n,
            cs == Seq::new(conns.len() as nat, |v: int| conns[v]@),
            connections_closed(cs),
            forall|k: int|
                0 <= k < stack.len() ==> (#[trigger] stack[k]) < n && reachable(cs, from, stack[k]),
            forall|i: int| 0 <= i < n && #[trigger] marks[i] ==> reachable(cs, from, i as usize),
            forall|v: int, w: usize|
                0 <= v < n && marks[v] && #[trigger] cs[v].contains(w) && w < n ==> marks[w as int]
                    || stack@.contains(w),
            marks[from as int] || stack@.contains(from),
        decreases count_unmarked(marks@), stack.len(),
    {
        let ghost stack_before = stack@;
        let ghost marks_before = marks@;
        let node = stack.pop().unwrap();
        assert(stack_before.last() == node);
        assert forall|w: usize| stack_before.contains(w) implies stack@.contains(w) || w
            == node by {
            let k = choose|k: int| 0 <= k < stack_before.len() && stack_before[k] == w;
            if k < stack_before.len() - 1 {
                assert(stack@[k] == w);
            }
        }
        if !marks[node] {
            marks.set(node, true);
            proof {
                lemma_mark(marks_before, node as int);
            }
            let list = &conns[node];
            assert(cs[node as int] == list@);
            let ghost stack_mid = stack@;
            let mut j: usize = 0;
            while j < list.len()
                invariant
                    j <= list.len(),
                    n == conns.len(),
                    node < n,
                    from < n,
                    marks.len() == n,
                    marks_before.len() == n,
                    cs.len() == n,
                    list@ == cs[node as int],
                    connections_closed(cs),
                    marks@ == marks_before.update(node as int, true),
                    reachable(cs, from, node),
                    forall|k: int|
                        0 <= k < stack.len() ==> (#[trigger] stack[k]) < n && reachable(
                            cs,
                            from,
                            stack[k],
                        ),
                    forall|w: usize| stack_mid.contains(w) ==> stack@.contains(w),
                    forall|k: int|
                        0 <= k < j ==> marks[(#[trigger] list[k]) as int] || stack@.contains(list[k]),
                decreases list.len() - j,
            {
                let el = list[j];
                assert(cs[node as int][j as int] == el);
                assert(el < n);
                let ghost before = stack@;
                if !marks[el] {
                    proof {
                        assert(cs[node as int].contains(el));
                        lemma_reach_step(cs, from, node, el);
                    }
                    stack.push(el);
                    assert(stack@[before.len() as int] == el);
                    assert forall|w: usize| before.contains(w) implies stack@.contains(w) by {
                        let k = choose|k: int| 0 <= k < before.len() && before[k] == w;
                        assert(stack@[k] == w);
                    }
                }
                j = j + 1;
            }
            proof {
                assert forall|v: int, w: usize|
                    0 <= v < n && marks[v] && #[trigger] cs[v].contains(w) && w
                        < n implies marks[w as int] || stack@.contains(w) by {
                    if v == node {
                        let k = choose|k: int| 0 <= k < cs[v].len() && cs[v][k] == w;
                        assert(marks[list[k] as int] || stack@.contains(list[k]));
                    } else {
                        assert(marks_before[v]);
                        if !marks_before[w as int] {
                            assert(stack_before.contains(w));
                        }
                    }
                }
            }
        }
    }
    proof {
        assert forall|i: int| 0 <= i < n implies #[trigger] marks[i] == reachable(
            cs,
            from,
            i as usize,
        ) by {
            if reachable(cs, from, i as usize) {
                let path = choose|path: Seq<usize>|
                    is_path(cs, path) && path[0] == from && path.last() == i as usize;
                assert forall|v: int, w: usize|
                    0 <= v < cs.len() && marks@[v] && #[trigger] cs[v].contains(w) && w
                        < cs.len() implies marks@[w as int] by {
                    assert(!stack@.contains(w));
                }
                lemma_closed_holds_reachable(cs, marks@, from, path, path.len() - 1);
            }
        }
    }
    marks
}

/// A file of the source, by its lines.
#[derive(Debug)]
pub struct SourceFile {
    pub name: String,
    pub lines: Vec<String>,
}

/// Mathematical value of a [`SourceFile`].
pub struct SourceFileView {
    pub name: Seq<char>,
    pub lines: Seq<Seq<char>>,
}

impl DeepView for SourceFile {
    type V = SourceFileView;

    open spec fn deep_view(&self) -> SourceFileView {
        SourceFileView { name: self.name@, lines: self.lines.deep_view() }
    }
}

/// An exported graph with what a viewer keeps beside it.
#[derive(Debug)]
pub struct ViewableGraph {
    pub dpdg: ExportablePDG,
    /// For every vertex whether it is shown.
    pub shown_ids: Vec<bool>,
    /// The vertices by their time stamps.
    pub time_to_nodes: TimeIndex,
    /// For every vertex the edges that leave it.
    pub dep_to_edges: Vec<Vec<usize>>,
    /// For every vertex the edges that arrive at it.
    pub prov_to_edges: Vec<Vec<usize>>,
    /// The latest time stamp of the graph; zero if none lies above.
    pub n_timestamps: u64,
    /// The files of the source that could be read.
    pub source_files: Vec<SourceFile>,
    /// Whether the vertices are shown in groups.
    pub should_group_nodes: bool,
    /// The groups of the vertices, if they are shown in groups.
    pub node_hierarchy: Option<NodeHierarchy>,
    /// The graph as it is shown under the groups.
    pub current_hier_dpdg: Option<HierarchicalGraph>,
}

/// The latest of the first `upto` time stamps, and zero if none lies above.
pub open spec fn latest(vertices: Seq<ExportablePDGNode>, upto: int) -> int
    decreases upto,
{
    if upto <= 0 {
        0
    } else {
        let rest = latest(vertices, upto - 1);
        if vertices[upto - 1].timestamp > rest {
            vertices[upto - 1].timestamp as int
        } else {
            rest
        }
    }
}

impl ViewableGraph {
    /// The tables of the graph fit the graph, and what is shown under the
    /// groups is what the groups give.
    pub open spec fn wf(&self) -> bool {
        let n = self.dpdg.vertices.len();
        &&& edges_within(self.dpdg.edges@, n as int)
        &&& self.shown_ids.len() == n
        &&& self.dep_to_edges.len() == n
        &&& self.prov_to_edges.len() == n
        &&& forall|v: int|
            0 <= v < n ==> (#[trigger] self.dep_to_edges[v])@ == incident(
                self.dpdg.edges@,
                v,
                self.dpdg.edges.len() as int,
                true,
            )
        &&& forall|v: int|
            0 <= v < n ==> (#[trigger] self.prov_to_edges[v])@ == incident(
                self.dpdg.edges@,
                v,
                self.dpdg.edges.len() as int,
                false,
            )
        &&& self.n_timestamps == latest(self.dpdg.vertices@, n as int)
        &&& self.time_to_nodes.holds(stamps_of(self.dpdg.vertices@), n as int)
        &&& (self.node_hierarchy matches Some(h) ==> hierarchy_wf(h.deep_view(), n as int) && 2
            * self.dpdg.edges.len() <= u32::MAX)
        &&& (self.current_hier_dpdg matches Some(g) ==> self.node_hierarchy matches Some(h)
            && g.wf() && g.shows(self.dpdg.vertices.deep_view(), self.dpdg.edges@, h.deep_view())
            && groups_below(g.group_ids@, h.groups.len() as int))
    }

    /// A graph for viewing: every vertex is shown. If the vertices are to
    /// be shown in groups, the groups are made, all but the outermost
    /// collapsed, and with them the graph that is shown under them.
    pub fn new(dpdg: ExportablePDG, source_files: Vec<SourceFile>, group_nodes: bool) -> (graph:
        ViewableGraph)
        requires
            edges_within(dpdg.edges@, dpdg.vertices.len() as int),
            group_nodes ==> 2 * dpdg.edges.len() <= u32::MAX,
        ensures
            graph.wf(),
            graph.dpdg == dpdg,
            graph.source_files == source_files,
            graph.should_group_nodes == group_nodes,
            forall|v: int| 0 <= v < dpdg.vertices.len() ==> #[trigger] graph.shown_ids[v],
            group_nodes ==> graph.current_hier_dpdg is Some && graph.node_hierarchy.deep_view()
                == Some(hierarchy_of(dpdg.vertices.deep_view())),
            !group_nodes ==> graph.current_hier_dpdg is None && graph.node_hierarchy is None,
    {
        let n = dpdg.vertices.len();
        let dep_to_edges = adjacency(&dpdg.edges, n, true);
        let prov_to_edges = adjacency(&dpdg.edges, n, false);
        let time_to_nodes = index_times(&dpdg.vertices);
        let mut shown_ids: Vec<bool> = Vec::new();
        let mut n_timestamps: u64 = 0;
        let mut v: usize = 0;
        while v < n
            invariant
                v <= n,
                n == dpdg.vertices.len(),
                shown_ids.len() == v,
                forall|u: int| 0 <= u < v ==> #[trigger] shown_ids[u],
                n_timestamps == latest(dpdg.vertices@, v as int),
            decreases n - v,
        {
            shown_ids.push(true);
            let t = dpdg.vertices[v].timestamp;
            if t > 0 && t as u64 > n_timestamps {
                n_timestamps = t as u64;
            }
            v = v + 1;
        }
        let (node_hierarchy, current_hier_dpdg) = if group_nodes {
            let h = build_node_hierarchy(&dpdg);
            let g = rebuild_hier_graph(&dpdg, &h);
            (Some(h), Some(g))
        } else {
            (None, None)
        };
        ViewableGraph {
            dpdg,
            shown_ids,
            time_to_nodes,
            dep_to_edges,
            prov_to_edges,
            n_timestamps,
            source_files,
            should_group_nodes: group_nodes,
            node_hierarchy,
            current_hier_dpdg,
        }
    }

    /// Expands or collapses the group that a path names at a time, and
    /// makes the graph that is shown under the groups anew. Nothing
    /// changes if the vertices are not shown in groups or there is no such
    /// group.
    pub fn toggle_module(&mut self, instance_path: &Vec<String>, timestamp: i64)
        requires
            old(self).wf(),
        ensures
            final(self).wf(),
            *final(self) == (ViewableGraph {
                node_hierarchy: final(self).node_hierarchy,
                current_hier_dpdg: final(self).current_hier_dpdg,
                ..*old(self)
            }),
            match old(self).node_hierarchy {
                Some(h) => match toggle_target(h.deep_view(), instance_path.deep_view(), timestamp) {
                    Some(g) => final(self).node_hierarchy.deep_view() == Some(
                        toggled(h.deep_view(), g),
                    ) && final(self).current_hier_dpdg is Some,
                    None => final(self).node_hierarchy.deep_view() == Some(h.deep_view())
                        && final(self).current_hier_dpdg == old(self).current_hier_dpdg,
                },
                None => final(self).node_hierarchy is None && final(self).current_hier_dpdg == old(
                    self,
                ).current_hier_dpdg,
            },
    {
        let mut taken: Option<NodeHierarchy> = None;
        std::mem::swap(&mut self.node_hierarchy, &mut taken);
        match taken {
            Some(mut h) => {
                if toggle_module(&mut h, instance_path, timestamp) {
                    let g = rebuild_hier_graph(&self.dpdg, &h);
                    self.current_hier_dpdg = Some(g);
                }
                self.node_hierarchy = Some(h);
            },
            None => {},
        }
    }

    /// The latest time stamp of the graph.
    pub fn get_n_timeslots(&self) -> (n: u64)
        ensures
            n == self.n_timestamps,
    {
        self.n_timestamps
    }

    /// Shows every vertex again.
    pub fn reset_head(&mut self)
        requires
            old(self).wf(),
        ensures
            final(self).wf(),
            *final(self) == (ViewableGraph { shown_ids: final(self).shown_ids, ..*old(self) }),
            forall|v: int| 0 <= v < final(self).shown_ids.len() ==> #[trigger] final(self).shown_ids[v],
    {
        let mut v: usize = 0;
        while v < self.shown_ids.len()
            invariant
                v <= self.shown_ids.len(),
                self.wf(),
                *self == (ViewableGraph { shown_ids: self.shown_ids, ..*old(self) }),
                forall|u: int| 0 <= u < v ==> #[trigger] self.shown_ids[u],
            decreases self.shown_ids.len() - v,
        {
            self.shown_ids.set(v, true);
            v = v + 1;
        }
    }

    /// Shows vertex `id` and what it depends on, and nothing else. A
    /// number that names no vertex changes nothing.
    pub fn set_new_head(&mut self, id: usize)
        requires
            old(self).wf(),
        ensures
            final(self).wf(),
            *final(self) == (ViewableGraph { shown_ids: final(self).shown_ids, ..*old(self) }),
            id >= old(self).dpdg.vertices.len() ==> final(self).shown_ids == old(self).shown_ids,
            id < old(self).dpdg.vertices.len() ==> forall|i: int|
                0 <= i < final(self).shown_ids.len() ==> #[trigger] final(self).shown_ids[i]
                    == reachable(
                    dependence_lists(
                        old(self).dpdg.edges@,
                        old(self).dpdg.vertices.len() as int,
                    ),
                    id,
                    i as usize,
                ),
    {
        let n = self.dpdg.vertices.len();
        if id >= n {
            return ;
        }
        let ghost es = self.dpdg.edges@;
        let mut conns: Vec<Vec<usize>> = Vec::new();
        let mut v: usize = 0;
        while v < n
            invariant
                v <= n,
                n == self.dpdg.vertices.len(),
                self.wf(),
                self == old(self),
                es == self.dpdg.edges@,
                conns.len() == v,
                forall|u: int|
                    0 <= u < v ==> (#[trigger] conns[u])@ == targets(
                        es,
                        incident(es, u, es.len() as int, true),
                    ),
                forall|u: int, j: int|
                    0 <= u < v && 0 <= j < conns[u].len() ==> (#[trigger] conns[u][j]) < n,
            decreases n - v,
        {
            let list = &self.dep_to_edges[v];
            proof {
                lemma_incident(es, v as int, es.len() as int, true);
            }
            let mut to: Vec<usize> = Vec::new();
            let mut j: usize = 0;
            while j < list.len()
                invariant
                    j <= list.len(),
                    n == self.dpdg.vertices.len(),
                    es == self.dpdg.edges@,
                    edges_within(es, n as int),
                    forall|k: int| 0 <= k < list.len() ==> (#[trigger] list[k]) < es.len(),
                    to.len() == j,
                    forall|k: int| 0 <= k < j ==> #[trigger] to[k] == es[list[k] as int].to as usize,
                    forall|k: int| 0 <= k < j ==> (#[trigger] to[k]) < n,
                decreases list.len() - j,
            {
                let e = self.dpdg.edges[list[j]];
                to.push(e.to as usize);
                j = j + 1;
            }
            assert(to@ =~= targets(es, list@));
            conns.push(to);
            v = v + 1;
        }
        proof {
            assert(Seq::new(conns.len() as nat, |v: int| conns[v]@) =~= dependence_lists(
                es,
                n as int,
            ));
            assert(connections_closed(dependence_lists(es, n as int))) by {
                assert forall|i: int, j: int|
                    0 <= i < n && 0 <= j < dependence_lists(es, n as int)[i].len() implies (
                #[trigger] dependence_lists(es, n as int)[i][j]) < n by {
                    assert(conns[i][j] < n);
                }
            }
        }
        self.shown_ids = reach(&conns, id);
    }
}

/// What the graph of a session is built from.
#[derive(Debug)]
pub struct PDGConfig {
    pub criterion: crate::dependency::CriterionType,
    pub pdg_path: String,
    pub vcd_path: String,
    pub hgldd_path: String,
    pub top_module: String,
    pub extra_scopes: Vec<String>,
    pub max_timesteps: Option<u64>,
    pub data_only: bool,
    pub group_nodes: bool,
    pub fir_repr: bool,
}

/// The state of a viewing session.
#[derive(Debug)]
pub struct AppState {
    pub pdg_config: Option<PDGConfig>,
    pub graph: Option<ViewableGraph>,
}

impl AppState {
    /// A session without configuration and without graph.
    pub fn new() -> (state: Self)
        ensures
            state.pdg_config is None,
            state.graph is None,
    {
        AppState { pdg_config: None, graph: None }
    }
}

/// The names of the files of vertices.
pub open spec fn file_names(vertices: Seq<ExportNodeView>) -> Seq<Seq<char>> {
    Seq::new(vertices.len(), |v: int| vertices[v].file)
}

/// The files that the vertices of a graph stand in, each once, in the
/// order in which the vertices name them.
pub fn source_paths(dpdg: &ExportablePDG) -> (r: Vec<String>)
    ensures
        r.deep_view() == first_occurrences(
            file_names(dpdg.vertices.deep_view()),
            dpdg.vertices.len() as int,
        ),
{
    let ghost names = file_names(dpdg.vertices.deep_view());
    let n = dpdg.vertices.len();
    let mut keys: Vec<Option<String>> = Vec::new();
    let mut i: usize = 0;
    while i < n
        invariant
            i <= n,
            n == dpdg.vertices.len(),
            names == file_names(dpdg.vertices.deep_view()),
            keys.len() == i,
            forall|k: int| 0 <= k < i ==> (#[trigger] keys[k]).deep_view() == Some(names[k]),
        decreases n - i,
    {
        assert(dpdg.vertices.deep_view()[i as int] == dpdg.vertices[i as int].deep_view());
        keys.push(Some(dpdg.vertices[i].file.clone()));
        i = i + 1;
    }
    let ghost ks = keys.deep_view();
    assert forall|k: int| 0 <= k < n implies ks[k] == Some(names[k]) by {
        assert(ks[k] == keys[k].deep_view());
    }
    let (_, reps) = index_texts(&keys);
    let mut r: Vec<String> = Vec::new();
    assert(r.deep_view() =~= first_occurrences(names, 0));
    let mut v: usize = 0;
    while v < n
        invariant
            v <= n,
            n == dpdg.vertices.len(),
            n == names.len(),
            names == file_names(dpdg.vertices.deep_view()),
            ks == keys.deep_view(),
            ks.len() == n,
            forall|k: int| 0 <= k < n ==> ks[k] == Some(names[k]),
            reps.len() == n,
            forall|k: int|
                0 <= k < n ==> (#[trigger] reps[k] matches Some(x) ==> representative(ks, k)
                    == Some(x as int)),
            forall|k: int| 0 <= k < n ==> (#[trigger] reps[k] is None ==> representative(ks, k) is None),
            r.deep_view() == first_occurrences(names, v as int),
        decreases n - v,
    {
        let ghost before = r.deep_view();
        proof {
            lemma_representative(ks, v as int, v as int);
            lemma_first_occurrences(names, v as int, names[v as int]);
        }
        let first = match reps[v] {
            Some(x) => x == v,
            None => false,
        };
        if first {
            proof {
                if before.contains(names[v as int]) {
                    let k = choose|k: int| 0 <= k < v && names[k] == names[v as int];
                    lemma_representative(ks, k, v as int);
                    lemma_representative(ks, k, k);
                }
            }
            assert(dpdg.vertices.deep_view()[v as int] == dpdg.vertices[v as int].deep_view());
            r.push(dpdg.vertices[v].file.clone());
            assert(r.deep_view() =~= before.push(names[v as int]));
        } else {
            proof {
                let x = representative(ks, v as int)->0;
                assert(names[x] == names[v as int]);
            }
        }
        v = v + 1;
    }
    r
}

/// The path under which a file of the source is read: a path that
/// begins with `home` lacks the stroke in front of it.
pub open spec fn path_to_read(path: Seq<char>) -> Seq<char> {
    if has_prefix(path, "home"@) {
        "/"@ + path
    } else {
        path
    }
}

/// Gives the path under which a file of the source is read.
pub fn read_path(path: &str) -> (r: String)
    ensures
        r@ == path_to_read(path@),
{
    proof {
        reveal_strlit("/");
    }
    if starts_with(path, "home") {
        "/".to_owned().concat(path)
    } else {
        path.to_owned()
    }
}

/// The vertices, each one time step later.
pub open spec fn advanced(vertices: Seq<ExportNodeView>) -> Seq<ExportNodeView> {
    Seq::new(
        vertices.len(),
        |v: int| ExportNodeView { timestamp: (vertices[v].timestamp + 1) as i64, ..vertices[v] },
    )
}

/// Moves every vertex of a graph one time step on, so that the first cycle has the time one.
pub fn advance_times(pdg: &mut ExportablePDG)
    requires
        forall|v: int|
            0 <= v < old(pdg).vertices.len() ==> (#[trigger] old(pdg).vertices[v]).timestamp
                < i64::MAX,
    ensures
        final(pdg).vertices.deep_view() == advanced(old(pdg).vertices.deep_view()),
        final(pdg).edges == old(pdg).edges,
{
    let ghost before = pdg.vertices.deep_view();
    let n = pdg.vertices.len();
    let mut v: usize = 0;
    while v < n
        invariant
            v <= n,
            n == pdg.vertices.len(),
            n == old(pdg).vertices.len(),
            before == old(pdg).vertices.deep_view(),
            pdg.edges == old(pdg).edges,
            forall|u: int|
                0 <= u < n ==> (#[trigger] old(pdg).vertices[u]).timestamp < i64::MAX,
            forall|u: int|
                0 <= u < v ==> (#[trigger] pdg.vertices[u]).deep_view() == advanced(before)[u],
            forall|u: int| v <= u < n ==> (#[trigger] pdg.vertices[u]) == old(pdg).vertices[u],
        decreases n - v,
    {
        let t = pdg.vertices[v].timestamp;
        assert(before[v as int] == old(pdg).vertices[v as int].deep_view());
        pdg.vertices[v].timestamp = t + 1;
        v = v + 1;
    }
    assert(pdg.vertices.deep_view() =~= advanced(before));
}

/// The place of vertex `id` in the source as an editor takes it: the
/// file, a colon and the line. A number that names no vertex has no place.
pub open spec fn place_text(vertices: Seq<ExportNodeView>, id: int) -> Option<Seq<char>> {
    if 0 <= id < vertices.len() {
        Some(vertices[id].file + ":"@ + decimal(vertices[id].line as nat))
    } else {
        None
    }
}

/// Gives the place of a vertex in the source as an editor takes it.
pub fn goto_argument(graph: &ViewableGraph, id: usize) -> (r: Option<String>)
    ensures
        r.deep_view() == place_text(graph.dpdg.vertices.deep_view(), id as int),
{
    if id >= graph.dpdg.vertices.len() {
        return None;
    }
    let node = &graph.dpdg.vertices[id];
    assert(graph.dpdg.vertices.deep_view()[id as int] == node.deep_view());
    proof {
        reveal_strlit(":");
    }
    let line = decimal_text(node.line as u128);
    Some(node.file.clone().concat(":").concat(line.as_str()))
}

/// The page that a viewer shows while the graph is built.
pub fn get_initial_route() -> (r: String)
    ensures
        r@ == "/loading_screen"@,
{
    "/loading_screen".to_owned()
}

} // verus!
