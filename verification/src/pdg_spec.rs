//! The static program dependence graph and the exported graph, as data.

use vstd::prelude::*;
use vstd::string::*;

verus! {

/// What kind of statement a vertex of the static graph stands for.
#[derive(Clone, Copy, Debug, PartialEq, Eq, Hash, Structural)]
pub enum PDGSpecNodeKind {
    Definition,
    DataDefinition,
    IO,
    Connection,
    ControlFlow,
}

/// What kind of dependence an edge stands for.
#[derive(Clone, Copy, Debug, PartialEq, Eq, Hash, Structural)]
pub enum PDGSpecEdgeKind {
    Data,
    Conditional,
    Declaration,
    Index,
}

/// The signal of the design that a vertex reads or writes, and the field inside it.
#[derive(Debug, PartialEq, Eq, Hash)]
pub struct PDGSpecRelatedSignal {
    pub signal_path: String,
    pub field_path: String,
}

/// A conjunction of probe comparisons: every `probe_name[i]` must currently
/// hold `probe_value[i]`.
#[derive(Debug, PartialEq, Eq, Hash)]
pub struct PDGSpecCondition {
    pub probe_name: Vec<String>,
    pub probe_value: Vec<u64>,
}

/// A vertex of the static graph: one statement of the design.
#[derive(Debug, PartialEq, Eq, Hash)]
pub struct PDGSpecNode {
    pub file: String,
    pub line: u32,
    pub char: u32,
    pub name: String,
    pub kind: PDGSpecNodeKind,
    pub clocked: bool,
    pub related_signal: Option<PDGSpecRelatedSignal>,
    pub assigns_to: Option<String>,
    pub is_chisel_statement: bool,
    pub condition: Option<PDGSpecCondition>,
    pub assign_delay: u32,
}

/// An edge of the static graph: `from` depends on `to`.
#[derive(Debug, PartialEq, Eq, Hash)]
pub struct PDGSpecEdge {
    pub from: u32,
    pub to: u32,
    pub kind: PDGSpecEdgeKind,
    pub clocked: bool,
    pub condition: Option<PDGSpecCondition>,
}

/// A node of the control-flow forest: a statement, and for a fork the
/// predicate that selects one of the two branches.
#[derive(Debug)]
pub struct CFGSpecStatement {
    pub stmt_ref: u32,
    pub pred_stmt_ref: Option<u32>,
    pub true_branch: Option<Vec<CFGSpecStatement>>,
    pub false_branch: Option<Vec<CFGSpecStatement>>,
}

/// The static program dependence graph of a design.
#[derive(Debug)]
pub struct PDGSpec {
    pub vertices: Vec<PDGSpecNode>,
    pub edges: Vec<PDGSpecEdge>,
    pub predicates: Vec<PDGSpecNode>,
    pub cfg: Vec<CFGSpecStatement>,
}

/// Mathematical value of a [`PDGSpecRelatedSignal`].
pub struct RelatedSignalView {
    pub signal_path: Seq<char>,
    pub field_path: Seq<char>,
}

/// Mathematical value of a [`PDGSpecCondition`].
pub struct ConditionView {
    pub probe_name: Seq<Seq<char>>,
    pub probe_value: Seq<u64>,
}

/// Mathematical value of a [`PDGSpecNode`].
pub struct NodeView {
    pub file: Seq<char>,
    pub line: u32,
    pub char: u32,
    pub name: Seq<char>,
    pub kind: PDGSpecNodeKind,
    pub clocked: bool,
    pub related_signal: Option<RelatedSignalView>,
    pub assigns_to: Option<Seq<char>>,
    pub is_chisel_statement: bool,
    pub condition: Option<ConditionView>,
    pub assign_delay: u32,
}

/// Mathematical value of a [`PDGSpecEdge`].
pub struct EdgeView {
    pub from: u32,
    pub to: u32,
    pub kind: PDGSpecEdgeKind,
    pub clocked: bool,
    pub condition: Option<ConditionView>,
}

impl DeepView for PDGSpecRelatedSignal {
    type V = RelatedSignalView;

    open spec fn deep_view(&self) -> RelatedSignalView {
        RelatedSignalView { signal_path: self.signal_path@, field_path: self.field_path@ }
    }
}

impl DeepView for PDGSpecCondition {
    type V = ConditionView;

    open spec fn deep_view(&self) -> ConditionView {
        ConditionView {
            probe_name: self.probe_name.deep_view(),
            probe_value: self.probe_value@,
        }
    }
}

impl DeepView for PDGSpecNode {
    type V = NodeView;

    open spec fn deep_view(&self) -> NodeView {
        NodeView {
            file: self.file@,
            line: self.line,
            char: self.char,
            name: self.name@,
            kind: self.kind,
            clocked: self.clocked,
            related_signal: self.related_signal.deep_view(),
            assigns_to: self.assigns_to.deep_view(),
            is_chisel_statement: self.is_chisel_statement,
            condition: self.condition.deep_view(),
            assign_delay: self.assign_delay,
        }
    }
}

impl DeepView for PDGSpecEdge {
    type V = EdgeView;

    open spec fn deep_view(&self) -> EdgeView {
        EdgeView {
            from: self.from,
            to: self.to,
            kind: self.kind,
            clocked: self.clocked,
            condition: self.condition.deep_view(),
        }
    }
}

impl PDGSpec {
    /// The graph without vertices, edges, predicates or control flow.
    pub fn _empty() -> (pdg: Self)
        ensures
            pdg.vertices@.len() == 0,
            pdg.edges@.len() == 0,
            pdg.predicates@.len() == 0,
            pdg.cfg@.len() == 0,
    {
        PDGSpec { vertices: Vec::new(), edges: Vec::new(), predicates: Vec::new(), cfg: Vec::new() }
    }
}

/// A vertex of an exported graph: a statement with the time of its
/// activation and, once injected, the value that it had.
#[derive(Debug)]
pub struct ExportablePDGNode {
    pub file: String,
    pub line: u32,
    pub char: u32,
    pub name: String,
    pub kind: PDGSpecNodeKind,
    pub clocked: bool,
    pub related_signal: Option<PDGSpecRelatedSignal>,
    pub sim_data: Option<String>,
    pub timestamp: i64,
    pub is_chisel_assignment: bool,
    /// The instances of the design that lead to the statement, outermost first.
    pub instance_path: Vec<String>,
}

/// An edge of an exported graph, between positions of its vertex list.
#[derive(Clone, Copy, Debug, PartialEq, Eq, Hash, Structural)]
pub struct ExportablePDGEdge {
    pub from: u32,
    pub to: u32,
    pub kind: PDGSpecEdgeKind,
    pub clocked: bool,
}

/// A graph in the form in which it is stored and exchanged: a list of
/// vertices and a list of edges between them.
#[derive(Debug)]
pub struct ExportablePDG {
    pub vertices: Vec<ExportablePDGNode>,
    pub edges: Vec<ExportablePDGEdge>,
}

/// A statement of a slice, by its place in the source.
#[derive(Debug, PartialEq, Eq, Hash)]
pub struct ExportableSliceStatement {
    pub file: String,
    pub line: u32,
    pub char: u32,
}

/// A slice: the statements that a criterion depends on.
#[derive(Debug)]
pub struct ExportableSlice {
    pub statements: Vec<ExportableSliceStatement>,
}

/// Mathematical value of an [`ExportablePDGNode`].
pub struct ExportNodeView {
    pub file: Seq<char>,
    pub line: u32,
    pub char: u32,
    pub name: Seq<char>,
    pub kind: PDGSpecNodeKind,
    pub clocked: bool,
    pub related_signal: Option<RelatedSignalView>,
    pub sim_data: Option<Seq<char>>,
    pub timestamp: i64,
    pub is_chisel_assignment: bool,
    pub instance_path: Seq<Seq<char>>,
}

impl DeepView for ExportablePDGNode {
    type V = ExportNodeView;

    open spec fn deep_view(&self) -> ExportNodeView {
        ExportNodeView {
            file: self.file@,
            line: self.line,
            char: self.char,
            name: self.name@,
            kind: self.kind,
            clocked: self.clocked,
            related_signal: self.related_signal.deep_view(),
            sim_data: self.sim_data.deep_view(),
            timestamp: self.timestamp,
            is_chisel_assignment: self.is_chisel_assignment,
            instance_path: self.instance_path.deep_view(),
        }
    }
}

/// The exported form of a statement that was active at `timestamp`: the
/// fields of the statement, no simulation value and no instance path.
pub open spec fn exported_node(v: NodeView, timestamp: i64) -> ExportNodeView {
    ExportNodeView {
        file: v.file,
        line: v.line,
        char: v.char,
        name: v.name,
        kind: v.kind,
        clocked: v.clocked,
        related_signal: v.related_signal,
        sim_data: None,
        timestamp,
        is_chisel_assignment: v.is_chisel_statement,
        instance_path: seq![],
    }
}

impl ExportablePDG {
    /// The graph without vertices and edges.
    pub fn empty() -> (pdg: Self)
        ensures
            pdg.vertices@.len() == 0,
            pdg.edges@.len() == 0,
    {
        ExportablePDG { vertices: Vec::new(), edges: Vec::new() }
    }
}

impl ExportablePDGNode {
    /// The exported form of the statement `value`, active at `timestamp`.
    pub fn from_node(value: &PDGSpecNode, timestamp: i64) -> (node: Self)
        ensures
            node.deep_view() == exported_node(value.deep_view(), timestamp),
    {
        let related_signal = match &value.related_signal {
            Some(r) => Some(
                PDGSpecRelatedSignal {
                    signal_path: r.signal_path.clone(),
                    field_path: r.field_path.clone(),
                },
            ),
            None => None,
        };
        let node = ExportablePDGNode {
            file: value.file.clone(),
            line: value.line,
            char: value.char,
            name: value.name.clone(),
            kind: value.kind,
            clocked: value.clocked,
            related_signal,
            sim_data: None,
            timestamp,
            is_chisel_assignment: value.is_chisel_statement,
            instance_path: Vec::new(),
        };
        assert(node.instance_path.deep_view() =~= seq![]);
        node
    }
}

impl ExportablePDGEdge {
    /// The exported form of an edge of the static graph: its condition is left behind.
    pub fn from_edge(value: &PDGSpecEdge) -> (edge: Self)
        ensures
            edge == (ExportablePDGEdge {
                from: value.from,
                to: value.to,
                kind: value.kind,
                clocked: value.clocked,
            }),
    {
        ExportablePDGEdge {
            from: value.from,
            to: value.to,
            kind: value.kind,
            clocked: value.clocked,
        }
    }
}

impl ExportableSliceStatement {
    /// The place of a statement in the source.
    pub fn from_node(value: &PDGSpecNode) -> (stmt: Self)
        ensures
            stmt.file@ == value.file@,
            stmt.line == value.line,
            stmt.char == value.char,
    {
        ExportableSliceStatement { file: value.file.clone(), line: value.line, char: value.char }
    }
}

impl From<PDGSpecEdge> for ExportablePDGEdge {
    /// The exported form of an edge of a static graph.
    fn from(value: PDGSpecEdge) -> (edge: Self) {
        ExportablePDGEdge {
            from: value.from,
            to: value.to,
            kind: value.kind,
            clocked: value.clocked,
        }
    }
}

impl vstd::std_specs::convert::FromSpecImpl<PDGSpecEdge> for ExportablePDGEdge {
    open spec fn obeys_from_spec() -> bool {
        true
    }

    open spec fn from_spec(value: PDGSpecEdge) -> Self {
        ExportablePDGEdge {
            from: value.from,
            to: value.to,
            kind: value.kind,
            clocked: value.clocked,
        }
    }
}

impl From<PDGSpecNode> for ExportableSliceStatement {
    /// The place of a statement of a static graph.
    fn from(value: PDGSpecNode) -> (stmt: Self) {
        ExportableSliceStatement { file: value.file, line: value.line, char: value.char }
    }
}

impl vstd::std_specs::convert::FromSpecImpl<PDGSpecNode> for ExportableSliceStatement {
    open spec fn obeys_from_spec() -> bool {
        true
    }

    open spec fn from_spec(value: PDGSpecNode) -> Self {
        ExportableSliceStatement { file: value.file, line: value.line, char: value.char }
    }
}

impl From<ExportablePDGNode> for ExportableSliceStatement {
    /// The place of a vertex of an exported graph.
    fn from(value: ExportablePDGNode) -> (stmt: Self) {
        ExportableSliceStatement { file: value.file, line: value.line, char: value.char }
    }
}

impl vstd::std_specs::convert::FromSpecImpl<ExportablePDGNode> for ExportableSliceStatement {
    open spec fn obeys_from_spec() -> bool {
        true
    }

    open spec fn from_spec(value: ExportablePDGNode) -> Self {
        ExportableSliceStatement { file: value.file, line: value.line, char: value.char }
    }
}

/// The exported form of the edges of a static graph.
pub open spec fn exported_edges(edges: Seq<PDGSpecEdge>) -> Seq<ExportablePDGEdge> {
    Seq::new(
        edges.len(),
        |k: int|
            ExportablePDGEdge {
                from: edges[k].from,
                to: edges[k].to,
                kind: edges[k].kind,
                clocked: edges[k].clocked,
            },
    )
}

impl ExportablePDG {
    /// The exported form of a static graph: every statement at time
    /// zero, every edge without its condition.
    pub fn from_pdg(value: &PDGSpec) -> (pdg: Self)
        ensures
            pdg.vertices.deep_view() == Seq::new(
                value.vertices.len() as nat,
                |v: int| exported_node(value.vertices[v].deep_view(), 0),
            ),
            pdg.edges@ == exported_edges(value.edges@),
    {
        let mut vertices: Vec<ExportablePDGNode> = Vec::new();
        let mut v: usize = 0;
        while v < value.vertices.len()
            invariant
                v <= value.vertices.len(),
                vertices.len() == v,
                forall|u: int|
                    0 <= u < v ==> (#[trigger] vertices[u]).deep_view() == exported_node(
                        value.vertices[u].deep_view(),
                        0,
                    ),
            decreases value.vertices.len() - v,
        {
            vertices.push(ExportablePDGNode::from_node(&value.vertices[v], 0));
            v = v + 1;
        }
        let mut edges: Vec<ExportablePDGEdge> = Vec::new();
        let mut k: usize = 0;
        while k < value.edges.len()
            invariant
                k <= value.edges.len(),
                edges.len() == k,
                forall|j: int| 0 <= j < k ==> #[trigger] edges[j] == exported_edges(value.edges@)[j],
            decreases value.edges.len() - k,
        {
            edges.push(ExportablePDGEdge::from_edge(&value.edges[k]));
            k = k + 1;
        }
        assert(vertices.deep_view() =~= Seq::new(
            value.vertices.len() as nat,
            |v: int| exported_node(value.vertices[v].deep_view(), 0),
        ));
        assert(edges@ =~= exported_edges(value.edges@));
        ExportablePDG { vertices, edges }
    }
}

} // verus!
