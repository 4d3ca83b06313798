//! The part of a graph between two times as a viewer draws it: a vertex
//! for every shown vertex of these times, an edge for every dependence
//! of such a vertex, and a stand-in beside the vertex for every provider
//! that lies more than three time steps away.

use vstd::prelude::*;
use vstd::string::*;
use crate::hierarchy::{hierarchy_wf, stamps, HierarchyView, NodeHierarchy};
use crate::merging::first_occurrences;
use crate::pdg_spec::{
    ExportNodeView, ExportablePDG, ExportablePDGEdge, ExportablePDGNode, PDGSpecEdgeKind,
    PDGSpecNodeKind,
};
use crate::redirect::{edges_within, incident, lemma_incident};
use crate::regroup::{groups_below, HierarchicalGraph};
use crate::text::{clone_strings, same_text};
use crate::times::{lemma_time_positions, stamps_of, time_positions, TimeIndex};
use crate::translation::{
    decimal, decimal_text, interpret_tywaves_value, reading, type_part, value_part,
    TranslationStrategy,
};
use crate::viewer::{
    get_viewer_signals, signals_at, EdgeColour, NodeColour, NodeShape, SignalView, SourceFile,
    SourceFileView, ViewableGraph, ViewerSignal,
};

verus! {

/// A vertex as it is drawn.
#[derive(Debug)]
pub struct ViewerNode {
    pub id: u64,
    pub label: String,
    /// The name of the column of the vertex: the distance of its time from the latest.
    pub group: String,
    pub instance_path: Vec<String>,
    pub timestamp: u64,
    /// Whether the vertex stands in for a provider that lies far away.
    pub long_distance: bool,
    pub color: NodeColour,
    pub shape: NodeShape,
    /// The line of the source that the vertex stands for, if it could be read.
    pub code: Option<String>,
    pub incoming: Vec<ViewerSignal>,
    pub outgoing: Vec<ViewerSignal>,
    pub file: String,
    pub line: u32,
}

/// Mathematical value of a [`ViewerNode`].
pub struct ViewerNodeView {
    pub id: u64,
    pub label: Seq<char>,
    pub group: Seq<char>,
    pub instance_path: Seq<Seq<char>>,
    pub timestamp: u64,
    pub long_distance: bool,
    pub color: NodeColour,
    pub shape: NodeShape,
    pub code: Option<Seq<char>>,
    pub incoming: Seq<SignalView>,
    pub outgoing: Seq<SignalView>,
    pub file: Seq<char>,
    pub line: u32,
}

impl DeepView for ViewerNode {
    type V = ViewerNodeView;

    open spec fn deep_view(&self) -> ViewerNodeView {
        ViewerNodeView {
            id: self.id,
            label: self.label@,
            group: self.group@,
            instance_path: self.instance_path.deep_view(),
            timestamp: self.timestamp,
            long_distance: self.long_distance,
            color: self.color,
            shape: self.shape,
            code: self.code.deep_view(),
            incoming: self.incoming.deep_view(),
            outgoing: self.outgoing.deep_view(),
            file: self.file@,
            line: self.line,
        }
    }
}

/// An edge as it is drawn.
#[derive(Debug)]
pub struct ViewerEdge {
    pub from: u64,
    pub to: u64,
    pub arrows: String,
    pub color: EdgeColour,
    pub dotted: bool,
    pub label: String,
}

/// Mathematical value of a [`ViewerEdge`].
pub struct ViewerEdgeView {
    pub from: u64,
    pub to: u64,
    pub arrows: Seq<char>,
    pub color: EdgeColour,
    pub dotted: bool,
    pub label: Seq<char>,
}

impl DeepView for ViewerEdge {
    type V = ViewerEdgeView;

    open spec fn deep_view(&self) -> ViewerEdgeView {
        ViewerEdgeView {
            from: self.from,
            to: self.to,
            arrows: self.arrows@,
            color: self.color,
            dotted: self.dotted,
            label: self.label@,
        }
    }
}

/// What is drawn.
#[derive(Debug)]
pub struct ViewerGraph {
    pub vertices: Vec<ViewerNode>,
    pub edges: Vec<ViewerEdge>,
}

/// Mathematical value of a [`ViewerGraph`].
pub struct ViewerGraphView {
    pub vertices: Seq<ViewerNodeView>,
    pub edges: Seq<ViewerEdgeView>,
}

impl DeepView for ViewerGraph {
    type V = ViewerGraphView;

    open spec fn deep_view(&self) -> ViewerGraphView {
        ViewerGraphView { vertices: self.vertices.deep_view(), edges: self.edges.deep_view() }
    }
}

/// What a drawing is made of.
pub struct Drawing {
    pub vertices: Seq<ExportNodeView>,
    pub edges: Seq<ExportablePDGEdge>,
    /// For every vertex the number under which it is drawn.
    pub ids: Seq<usize>,
    /// For every vertex whether it is drawn.
    pub visible: Seq<bool>,
    /// Whether the vertices are shown in groups.
    pub grouped: bool,
    /// The number of vertices of the whole graph.
    pub total: usize,
    /// The latest time of the whole graph.
    pub latest: u64,
    pub files: Seq<SourceFileView>,
}

/// The colour of a statement of a kind.
pub open spec fn node_colour(kind: PDGSpecNodeKind) -> NodeColour {
    match kind {
        PDGSpecNodeKind::Connection => NodeColour::Blue,
        PDGSpecNodeKind::ControlFlow => NodeColour::Red,
        PDGSpecNodeKind::IO => NodeColour::Green,
        PDGSpecNodeKind::DataDefinition => NodeColour::Blue,
        PDGSpecNodeKind::Definition => NodeColour::Yellow,
    }
}

/// The shape of a statement of a kind.
pub open spec fn node_shape(kind: PDGSpecNodeKind) -> NodeShape {
    match kind {
        PDGSpecNodeKind::Connection => NodeShape::Ellipse,
        PDGSpecNodeKind::ControlFlow => NodeShape::Diamond,
        _ => NodeShape::Box,
    }
}

/// The colour of a dependence of a kind.
pub open spec fn edge_colour(kind: PDGSpecEdgeKind) -> EdgeColour {
    match kind {
        PDGSpecEdgeKind::Data => EdgeColour::Blue,
        PDGSpecEdgeKind::Conditional => EdgeColour::Red,
        PDGSpecEdgeKind::Index => EdgeColour::Purple,
        PDGSpecEdgeKind::Declaration => EdgeColour::Blue,
    }
}

/// Line `line` of the first file at or after position `from` that has
/// the name `file`; lines are counted from one.
pub open spec fn code_from(files: Seq<SourceFileView>, file: Seq<char>, line: u32, from: int)
    -> Option<Seq<char>>
    decreases files.len() - from,
{
    if from < 0 || from >= files.len() {
        None
    } else if files[from].name == file {
        if 1 <= line <= files[from].lines.len() {
            Some(files[from].lines[line - 1])
        } else {
            None
        }
    } else {
        code_from(files, file, line, from + 1)
    }
}

/// The name of the column of the time `t`: the letter `t` and the
/// distance from the latest time, which wraps around below zero.
pub open spec fn time_label(latest: u64, t: u64) -> Seq<char> {
    "t"@ + decimal(latest.wrapping_sub(t) as nat)
}

/// The signals at the targets of the edges that leave vertex `v`, or
/// that arrive at it, each once.
pub open spec fn signals_of(d: Drawing, v: int, leaving: bool) -> Seq<SignalView> {
    let list = incident(d.edges, v, d.edges.len() as int, leaving);
    first_occurrences(signals_at(d.vertices, d.edges, list, true), list.len() as int)
}

/// Vertex `v` as it is drawn in the column of the time `t`.
pub open spec fn drawn_node(d: Drawing, v: int, t: u64) -> ViewerNodeView {
    let node = d.vertices[v];
    ViewerNodeView {
        id: d.ids[v] as u64,
        label: node.name,
        group: time_label(d.latest, t),
        instance_path: node.instance_path,
        timestamp: t,
        long_distance: false,
        color: node_colour(node.kind),
        shape: node_shape(node.kind),
        code: code_from(d.files, node.file, node.line, 0),
        incoming: signals_of(d, v, true),
        outgoing: signals_of(d, v, false),
        file: node.file,
        line: node.line,
    }
}

/// Whether two times lie more than three steps apart.
pub open spec fn far_apart(a: i64, b: i64) -> bool {
    a - b > 3 || b - a > 3
}

/// The number of the stand-in for the provider of an edge: made of the
/// numbers of both ends and the size of the graph, wrapping around at
/// the end of the type.
pub open spec fn far_id(d: Drawing, e: ExportablePDGEdge) -> u64 {
    let from = d.ids[e.from as int] as u64;
    let to = d.ids[e.to as int] as u64;
    if d.grouped {
        to.wrapping_mul(0x1_0000_0000).wrapping_add(10u64.wrapping_mul(d.total as u64)).wrapping_add(
            from,
        )
    } else {
        to.wrapping_add(d.total as u64).wrapping_add(from)
    }
}

/// What is written on an edge: the type and the value of its provider, if it has a value.
pub open spec fn edge_label(provider: ExportNodeView) -> Seq<char> {
    match provider.sim_data {
        Some(data) => (match type_part(data) {
            Some(t) => t,
            None => ""@,
        }) + " "@ + reading(value_part(data), type_part(data), TranslationStrategy::Auto),
        None => ""@,
    }
}

/// Whether the provider of the edge `e` that leaves vertex `v` lies far from it.
pub open spec fn is_far(d: Drawing, v: int, e: ExportablePDGEdge) -> bool {
    far_apart(d.vertices[v].timestamp, d.vertices[e.to as int].timestamp)
}

/// The edge `e` that leaves vertex `v` as it is drawn: to its provider,
/// or to the stand-in if the provider lies far away.
pub open spec fn drawn_edge(d: Drawing, v: int, e: ExportablePDGEdge) -> ViewerEdgeView {
    ViewerEdgeView {
        from: d.ids[e.from as int] as u64,
        to: if is_far(d, v, e) {
            far_id(d, e)
        } else {
            d.ids[e.to as int] as u64
        },
        arrows: "to"@,
        color: edge_colour(e.kind),
        dotted: e.clocked,
        label: edge_label(d.vertices[e.to as int]),
    }
}

/// The stand-in for the provider of the edge `e` that leaves vertex
/// `v`: it looks like the provider and stands at the place of `v`.
pub open spec fn far_node(d: Drawing, v: int, e: ExportablePDGEdge, t: u64) -> ViewerNodeView {
    let node = d.vertices[v];
    let provider = d.vertices[e.to as int];
    ViewerNodeView {
        id: far_id(d, e),
        label: provider.name,
        group: time_label(d.latest, t),
        instance_path: provider.instance_path,
        timestamp: t,
        long_distance: true,
        color: node_colour(provider.kind),
        shape: node_shape(provider.kind),
        code: code_from(d.files, provider.file, provider.line, 0),
        incoming: signals_of(d, e.to as int, true),
        outgoing: signals_of(d, e.to as int, false),
        file: node.file,
        line: node.line,
    }
}

/// The stand-ins for the first `upto` edges that leave vertex `v`.
pub open spec fn far_nodes(d: Drawing, v: int, t: u64, upto: int) -> Seq<ViewerNodeView>
    decreases upto,
{
    let list = incident(d.edges, v, d.edges.len() as int, true);
    if upto <= 0 {
        seq![]
    } else {
        let rest = far_nodes(d, v, t, upto - 1);
        let e = d.edges[list[upto - 1] as int];
        if is_far(d, v, e) {
            rest.push(far_node(d, v, e, t))
        } else {
            rest
        }
    }
}

/// The first `upto` edges that leave vertex `v` as they are drawn.
pub open spec fn drawn_edges(d: Drawing, v: int, upto: int) -> Seq<ViewerEdgeView> {
    let list = incident(d.edges, v, d.edges.len() as int, true);
    Seq::new(upto as nat, |j: int| drawn_edge(d, v, d.edges[list[j] as int]))
}

/// The drawing with vertex `v` in the column of the time `t`: nothing
/// is added for a vertex that is not drawn; else the vertex, the
/// stand-ins for its far providers, and its edges.
pub open spec fn draw_vertex(acc: ViewerGraphView, d: Drawing, v: int, t: u64) -> ViewerGraphView {
    let count = incident(d.edges, v, d.edges.len() as int, true).len() as int;
    if d.visible[v] {
        ViewerGraphView {
            vertices: acc.vertices.push(drawn_node(d, v, t)) + far_nodes(d, v, t, count),
            edges: acc.edges + drawn_edges(d, v, count),
        }
    } else {
        acc
    }
}

/// The vertices of the time `t`, ascending.
pub open spec fn members_at(d: Drawing, t: u64) -> Seq<usize> {
    time_positions(stamps(d.vertices), t as i64, d.vertices.len() as int)
}

/// The drawing with the first `upto` vertices of the time `t`.
pub open spec fn draw_time(acc: ViewerGraphView, d: Drawing, t: u64, upto: int) -> ViewerGraphView
    decreases upto,
{
    if upto <= 0 {
        acc
    } else {
        draw_vertex(draw_time(acc, d, t, upto - 1), d, members_at(d, t)[upto - 1] as int, t)
    }
}

/// The drawing of `count` times from `begin` on.
pub open spec fn draw_times(d: Drawing, begin: u64, count: int) -> ViewerGraphView
    decreases count,
{
    if count <= 0 {
        ViewerGraphView { vertices: seq![], edges: seq![] }
    } else {
        let t = (begin + count - 1) as u64;
        draw_time(draw_times(d, begin, count - 1), d, t, members_at(d, t).len() as int)
    }
}

/// The drawing of the times from `begin` to `end`.
pub open spec fn drawing(d: Drawing, begin: u64, end: u64) -> ViewerGraphView {
    draw_times(d, begin, end - begin + 1)
}

/// Finds a line of a file of the source.
pub fn code_line(files: &Vec<SourceFile>, file: &str, line: u32) -> (r: Option<String>)
    ensures
        r.deep_view() == code_from(files.deep_view(), file@, line, 0),
{
    let ghost fs = files.deep_view();
    let mut k: usize = 0;
    while k < files.len()
        invariant
            k <= files.len(),
            fs == files.deep_view(),
            code_from(fs, file@, line, 0) == code_from(fs, file@, line, k as int),
        decreases files.len() - k,
    {
        assert(fs[k as int] == files[k as int].deep_view());
        if same_text(files[k].name.as_str(), file) {
            let lines = &files[k].lines;
            if line >= 1 && line as u64 <= lines.len() as u64 {
                assert(lines.deep_view()[line - 1] == lines[line - 1]@);
                return Some(lines[(line - 1) as usize].clone());
            }
            return None;
        }
        k = k + 1;
    }
    None
}

fn time_text(latest: u64, t: u64) -> (r: String)
    ensures
        r@ == time_label(latest, t),
{
    proof {
        reveal_strlit("t");
    }
    let number = decimal_text(latest.wrapping_sub(t) as u128);
    "t".to_owned().concat(number.as_str())
}

fn label_of(provider: &ExportablePDGNode) -> (r: String)
    ensures
        r@ == edge_label(provider.deep_view()),
{
    proof {
        reveal_strlit("");
        reveal_strlit(" ");
    }
    match &provider.sim_data {
        Some(data) => {
            let read = interpret_tywaves_value(data, TranslationStrategy::Auto);
            let tpe = match read.tpe {
                Some(t) => t,
                None => "".to_owned(),
            };
            tpe.concat(" ").concat(read.value.as_str())
        },
        None => "".to_owned(),
    }
}

fn far(a: i64, b: i64) -> (r: bool)
    ensures
        r == far_apart(a, b),
{
    let d: i128 = a as i128 - b as i128;
    d > 3 || d < -3
}

/// What a drawing is made of, as the viewer holds it.
struct Canvas<'a> {
    dpdg: &'a ExportablePDG,
    dep: &'a Vec<Vec<usize>>,
    prov: &'a Vec<Vec<usize>>,
    times: &'a TimeIndex,
    ids: &'a Vec<usize>,
    visible: &'a Vec<bool>,
    grouped: bool,
    total: usize,
    latest: u64,
    files: &'a Vec<SourceFile>,
}

impl<'a> Canvas<'a> {
    spec fn shape(&self) -> Drawing {
        Drawing {
            vertices: self.dpdg.vertices.deep_view(),
            edges: self.dpdg.edges@,
            ids: self.ids@,
            visible: self.visible@,
            grouped: self.grouped,
            total: self.total,
            latest: self.latest,
            files: self.files.deep_view(),
        }
    }

    spec fn wf(&self) -> bool {
        let n = self.dpdg.vertices.len();
        &&& edges_within(self.dpdg.edges@, n as int)
        &&& self.ids.len() == n
        &&& self.visible.len() == n
        &&& self.dep.len() == n
        &&& self.prov.len() == n
        &&& self.times.holds(stamps_of(self.dpdg.vertices@), n as int)
        &&& forall|v: int|
            0 <= v < n ==> (#[trigger] self.dep[v])@ == incident(
                self.dpdg.edges@,
                v,
                self.dpdg.edges.len() as int,
                true,
            )
        &&& forall|v: int|
            0 <= v < n ==> (#[trigger] self.prov[v])@ == incident(
                self.dpdg.edges@,
                v,
                self.dpdg.edges.len() as int,
                false,
            )
    }

    fn signals(&self, v: usize, leaving: bool) -> (r: Vec<ViewerSignal>)
        requires
            self.wf(),
            v < self.dpdg.vertices.len(),
        ensures
            r.deep_view() == signals_of(self.shape(), v as int, leaving),
    {
        proof {
            lemma_incident(self.dpdg.edges@, v as int, self.dpdg.edges.len() as int, leaving);
        }
        if leaving {
            get_viewer_signals(self.dpdg, &self.dep[v], true)
        } else {
            get_viewer_signals(self.dpdg, &self.prov[v], true)
        }
    }

    fn far_number(&self, e: ExportablePDGEdge) -> (r: u64)
        requires
            self.wf(),
            e.from < self.dpdg.vertices.len(),
            e.to < self.dpdg.vertices.len(),
        ensures
            r == far_id(self.shape(), e),
    {
        let from = self.ids[e.from as usize] as u64;
        let to = self.ids[e.to as usize] as u64;
        if self.grouped {
            to.wrapping_mul(0x1_0000_0000).wrapping_add(
                10u64.wrapping_mul(self.total as u64),
            ).wrapping_add(from)
        } else {
            to.wrapping_add(self.total as u64).wrapping_add(from)
        }
    }

    fn node(&self, v: usize, t: u64) -> (r: ViewerNode)
        requires
            self.wf(),
            v < self.dpdg.vertices.len(),
        ensures
            r.deep_view() == drawn_node(self.shape(), v as int, t),
    {
        let node = &self.dpdg.vertices[v];
        assert(self.dpdg.vertices.deep_view()[v as int] == node.deep_view());
        ViewerNode {
            id: self.ids[v] as u64,
            label: node.name.clone(),
            group: time_text(self.latest, t),
            instance_path: clone_strings(&node.instance_path),
            timestamp: t,
            long_distance: false,
            color: NodeColour::from_kind(node.kind),
            shape: NodeShape::from_kind(node.kind),
            code: code_line(self.files, node.file.as_str(), node.line),
            incoming: self.signals(v, true),
            outgoing: self.signals(v, false),
            file: node.file.clone(),
            line: node.line,
        }
    }

    fn stand_in(&self, v: usize, e: ExportablePDGEdge, t: u64) -> (r: ViewerNode)
        requires
            self.wf(),
            v < self.dpdg.vertices.len(),
            e.from < self.dpdg.vertices.len(),
            e.to < self.dpdg.vertices.len(),
        ensures
            r.deep_view() == far_node(self.shape(), v as int, e, t),
    {
        let node = &self.dpdg.vertices[v];
        let provider = &self.dpdg.vertices[e.to as usize];
        assert(self.dpdg.vertices.deep_view()[v as int] == node.deep_view());
        assert(self.dpdg.vertices.deep_view()[e.to as int] == provider.deep_view());
        ViewerNode {
            id: self.far_number(e),
            label: provider.name.clone(),
            group: time_text(self.latest, t),
            instance_path: clone_strings(&provider.instance_path),
            timestamp: t,
            long_distance: true,
            color: NodeColour::from_kind(provider.kind),
            shape: NodeShape::from_kind(provider.kind),
            code: code_line(self.files, provider.file.as_str(), provider.line),
            incoming: self.signals(e.to as usize, true),
            outgoing: self.signals(e.to as usize, false),
            file: node.file.clone(),
            line: node.line,
        }
    }

    fn edge(&self, v: usize, e: ExportablePDGEdge) -> (r: ViewerEdge)
        requires
            self.wf(),
            v < self.dpdg.vertices.len(),
            e.from < self.dpdg.vertices.len(),
            e.to < self.dpdg.vertices.len(),
        ensures
            r.deep_view() == drawn_edge(self.shape(), v as int, e),
    {
        let node = &self.dpdg.vertices[v];
        let provider = &self.dpdg.vertices[e.to as usize];
        assert(self.dpdg.vertices.deep_view()[v as int] == node.deep_view());
        assert(self.dpdg.vertices.deep_view()[e.to as int] == provider.deep_view());
        proof {
            reveal_strlit("to");
        }
        let to = if far(node.timestamp, provider.timestamp) {
            self.far_number(e)
        } else {
            self.ids[e.to as usize] as u64
        };
        ViewerEdge {
            from: self.ids[e.from as usize] as u64,
            to,
            arrows: "to".to_owned(),
            color: EdgeColour::from_kind(e.kind),
            dotted: e.clocked,
            label: label_of(provider),
        }
    }

    fn draw_one(&self, out: &mut ViewerGraph, v: usize, t: u64)
        requires
            self.wf(),
            v < self.dpdg.vertices.len(),
        ensures
            final(out).deep_view() == draw_vertex(old(out).deep_view(), self.shape(), v as int, t),
    {
        if !self.visible[v] {
            return ;
        }
        let ghost d = self.shape();
        let ghost acc = out.deep_view();
        let ghost first = acc.vertices.push(drawn_node(d, v as int, t));
        let list = &self.dep[v];
        proof {
            lemma_incident(self.dpdg.edges@, v as int, self.dpdg.edges.len() as int, true);
        }
        let node = self.node(v, t);
        out.vertices.push(node);
        assert(out.vertices.deep_view() =~= first + far_nodes(d, v as int, t, 0));
        assert(out.edges.deep_view() =~= acc.edges + drawn_edges(d, v as int, 0));
        let mut j: usize = 0;
        while j < list.len()
            invariant
                j <= list.len(),
                self.wf(),
                v < self.dpdg.vertices.len(),
                d == self.shape(),
                list@ == incident(d.edges, v as int, d.edges.len() as int, true),
                forall|k: int| 0 <= k < list.len() ==> (#[trigger] list[k]) < self.dpdg.edges.len(),
                out.vertices.deep_view() == first + far_nodes(d, v as int, t, j as int),
                out.edges.deep_view() == acc.edges + drawn_edges(d, v as int, j as int),
            decreases list.len() - j,
        {
            let e = self.dpdg.edges[list[j]];
            let ghost nodes = out.vertices.deep_view();
            let ghost edges = out.edges.deep_view();
            assert(self.dpdg.vertices.deep_view()[v as int] == self.dpdg.vertices[v as int].deep_view());
            assert(self.dpdg.vertices.deep_view()[e.to as int]
                == self.dpdg.vertices[e.to as int].deep_view());
            if far(self.dpdg.vertices[v].timestamp, self.dpdg.vertices[e.to as usize].timestamp) {
                let stand_in = self.stand_in(v, e, t);
                out.vertices.push(stand_in);
                assert(out.vertices.deep_view() =~= nodes.push(far_node(d, v as int, e, t)));
            }
            let edge = self.edge(v, e);
            out.edges.push(edge);
            proof {
                assert(out.edges.deep_view() =~= edges.push(drawn_edge(d, v as int, e)));
                assert(out.vertices.deep_view() =~= first + far_nodes(d, v as int, t, j + 1));
                assert(out.edges.deep_view() =~= acc.edges + drawn_edges(d, v as int, j + 1));
            }
            j = j + 1;
        }
    }

    fn draw(&self, begin: u64, end: u64) -> (out: ViewerGraph)
        requires
            self.wf(),
        ensures
            out.deep_view() == drawing(self.shape(), begin, end),
    {
        let ghost d = self.shape();
        let n = self.dpdg.vertices.len();
        let mut out = ViewerGraph { vertices: Vec::new(), edges: Vec::new() };
        proof {
            let none = draw_times(d, begin, 0);
            assert(out.deep_view().vertices =~= none.vertices);
            assert(out.deep_view().edges =~= none.edges);
            assert(stamps_of(self.dpdg.vertices@) =~= stamps(d.vertices));
        }
        if begin > end {
            return out;
        }
        let empty: Vec<usize> = Vec::new();
        let mut t = begin;
        loop
            invariant_except_break
                begin <= t <= end,
                out.deep_view() == draw_times(d, begin, t - begin),
            invariant
                self.wf(),
                d == self.shape(),
                n == self.dpdg.vertices.len(),
                empty.len() == 0,
                stamps_of(self.dpdg.vertices@) == stamps(d.vertices),
            ensures
                out.deep_view() == draw_times(d, begin, end - begin + 1),
            decreases end - t,
        {
            let ghost start = out.deep_view();
            let members: &Vec<usize> = match self.times.at(
                t as i64,
                Ghost(stamps_of(self.dpdg.vertices@)),
                Ghost(n as int),
            ) {
                Some(list) => list,
                None => &empty,
            };
            proof {
                lemma_time_positions(stamps(d.vertices), t as i64, n as int);
                assert(members@ =~= members_at(d, t));
            }
            let mut j: usize = 0;
            while j < members.len()
                invariant
                    j <= members.len(),
                    self.wf(),
                    d == self.shape(),
                    n == self.dpdg.vertices.len(),
                    members@ == members_at(d, t),
                    forall|k: int| 0 <= k < members.len() ==> (#[trigger] members[k]) < n,
                    out.deep_view() == draw_time(start, d, t, j as int),
                decreases members.len() - j,
            {
                self.draw_one(&mut out, members[j], t);
                j = j + 1;
            }
            assert((begin + (t - begin + 1) - 1) as u64 == t);
            if t == end {
                break ;
            }
            t = t + 1;
        }
        out
    }
}

/// The numbers from zero to `n`, each at its own position.
pub open spec fn own_ids(n: int) -> Seq<usize> {
    Seq::new(n as nat, |v: int| v as usize)
}

/// What is drawn of a graph whose vertices are shown one by one: the
/// shown vertices, each under its position.
pub open spec fn plain_drawing(graph: ViewableGraph) -> Drawing {
    Drawing {
        vertices: graph.dpdg.vertices.deep_view(),
        edges: graph.dpdg.edges@,
        ids: own_ids(graph.dpdg.vertices.len() as int),
        visible: graph.shown_ids@,
        grouped: false,
        total: graph.dpdg.vertices.len(),
        latest: graph.n_timestamps,
        files: graph.source_files.deep_view(),
    }
}

/// Whether one of the vertices `members` is shown.
pub open spec fn any_shown(shown: Seq<bool>, members: Seq<usize>) -> bool {
    exists|j: int| 0 <= j < members.len() && shown[#[trigger] members[j] as int]
}

/// Whether vertex `v` of the graph under the groups is drawn: it is
/// shown itself or stands for a group, and if a group was entered with
/// it, a vertex of that group is shown.
pub open spec fn group_visible(
    shown: Seq<bool>,
    g: HierarchicalGraph,
    h: HierarchyView,
    v: int,
) -> bool {
    let id = g.original_ids[v];
    &&& (id < shown.len() && shown[id as int]) || g.dpdg.vertices[v].kind
        == PDGSpecNodeKind::Definition
    &&& (g.group_ids[v] matches Some(group) ==> any_shown(
        shown,
        h.groups[group as int].node_indices,
    ))
}

/// What is drawn of a graph whose vertices are shown in groups: the
/// graph under the groups, each vertex under the number that it was
/// entered with.
pub open spec fn grouped_drawing(graph: ViewableGraph, g: HierarchicalGraph, h: NodeHierarchy)
    -> Drawing {
    Drawing {
        vertices: g.dpdg.vertices.deep_view(),
        edges: g.dpdg.edges@,
        ids: g.original_ids@,
        visible: Seq::new(
            g.dpdg.vertices.len() as nat,
            |v: int| group_visible(graph.shown_ids@, g, h.deep_view(), v),
        ),
        grouped: true,
        total: graph.dpdg.vertices.len(),
        latest: graph.n_timestamps,
        files: graph.source_files.deep_view(),
    }
}

/// What is drawn of a graph: nothing if its vertices are to be shown in
/// groups and the groups are not made.
pub open spec fn canvas_of(graph: ViewableGraph) -> Option<Drawing> {
    if graph.should_group_nodes {
        match (graph.current_hier_dpdg, graph.node_hierarchy) {
            (Some(g), Some(h)) => Some(grouped_drawing(graph, g, h)),
            _ => None,
        }
    } else {
        Some(plain_drawing(graph))
    }
}

fn group_marks(shown: &Vec<bool>, g: &HierarchicalGraph, h: &NodeHierarchy) -> (r: Vec<bool>)
    requires
        g.wf(),
        hierarchy_wf(h.deep_view(), shown.len() as int),
        groups_below(g.group_ids@, h.groups.len() as int),
    ensures
        r.len() == g.dpdg.vertices.len(),
        forall|v: int|
            0 <= v < r.len() ==> #[trigger] r[v] == group_visible(shown@, *g, h.deep_view(), v),
{
    let ghost hv = h.deep_view();
    let n = g.dpdg.vertices.len();
    let mut r: Vec<bool> = Vec::new();
    let mut v: usize = 0;
    while v < n
        invariant
            v <= n,
            n == g.dpdg.vertices.len(),
            g.wf(),
            hv == h.deep_view(),
            hierarchy_wf(hv, shown.len() as int),
            groups_below(g.group_ids@, h.groups.len() as int),
            r.len() == v,
            forall|u: int| 0 <= u < v ==> #[trigger] r[u] == group_visible(shown@, *g, hv, u),
        decreases n - v,
    {
        let id = g.original_ids[v];
        let mut drawn = (id < shown.len() && shown[id]) || g.dpdg.vertices[v].kind
            == PDGSpecNodeKind::Definition;
        if drawn {
            match g.group_ids[v] {
                Some(group) => {
                    let members = &h.groups[group].node_indices;
                    assert(hv.groups[group as int] == h.groups[group as int].deep_view());
                    assert(members@ == hv.groups[group as int].node_indices);
                    let mut found = false;
                    let mut j: usize = 0;
                    while j < members.len()
                        invariant_except_break
                            !found,
                        invariant
                            j <= members.len(),
                            forall|k: int|
                                0 <= k < members.len() ==> (#[trigger] members[k]) < shown.len(),
                            forall|k: int| 0 <= k < j ==> !shown[#[trigger] members[k] as int],
                        ensures
                            found == any_shown(shown@, members@),
                        decreases members.len() - j,
                    {
                        if shown[members[j]] {
                            found = true;
                            break ;
                        }
                        j = j + 1;
                    }
                    drawn = found;
                },
                None => {},
            }
        }
        r.push(drawn);
        v = v + 1;
    }
    r
}

/// Draws the part of a graph between two times, both included. A vertex
/// that is not shown is left out with its edges. If the vertices are
/// shown in groups, the graph under the groups is drawn, and of it the
/// vertices that are shown or stand for a group with a shown vertex.
/// Nothing is drawn if the groups are asked for and not made.
pub fn get_partial_graph(graph: &ViewableGraph, range_begin: u64, range_end: u64) -> (r: Option<
    ViewerGraph,
>)
    requires
        graph.wf(),
    ensures
        r.deep_view() == match canvas_of(*graph) {
            Some(d) => Some(drawing(d, range_begin, range_end)),
            None => None,
        },
{
    let n = graph.dpdg.vertices.len();
    if !graph.should_group_nodes {
        let mut ids: Vec<usize> = Vec::new();
        let mut v: usize = 0;
        while v < n
            invariant
                v <= n,
                ids.len() == v,
                forall|u: int| 0 <= u < v ==> #[trigger] ids[u] == u,
            decreases n - v,
        {
            ids.push(v);
            v = v + 1;
        }
        assert(ids@ =~= own_ids(n as int));
        let canvas = Canvas {
            dpdg: &graph.dpdg,
            dep: &graph.dep_to_edges,
            prov: &graph.prov_to_edges,
            times: &graph.time_to_nodes,
            ids: &ids,
            visible: &graph.shown_ids,
            grouped: false,
            total: n,
            latest: graph.n_timestamps,
            files: &graph.source_files,
        };
        assert(canvas.shape() == plain_drawing(*graph));
        Some(canvas.draw(range_begin, range_end))
    } else {
        match (&graph.current_hier_dpdg, &graph.node_hierarchy) {
            (Some(g), Some(h)) => {
                let visible = group_marks(&graph.shown_ids, g, h);
                assert(visible@ =~= grouped_drawing(*graph, *g, *h).visible);
                let canvas = Canvas {
                    dpdg: &g.dpdg,
                    dep: &g.dep_to_edges,
                    prov: &g.prov_to_edges,
                    times: &g.time_to_nodes,
                    ids: &g.original_ids,
                    visible: &visible,
                    grouped: true,
                    total: n,
                    latest: graph.n_timestamps,
                    files: &graph.source_files,
                };
                assert(canvas.shape() == grouped_drawing(*graph, *g, *h));
                Some(canvas.draw(range_begin, range_end))
            },
            _ => None,
        }
    }
}

} // verus!
