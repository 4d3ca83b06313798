use chiseltrace_rs::conversion::dpdg_make_exportable;
use chiseltrace_rs::errors::Error;
use chiseltrace_rs::graphbuilder::{CriterionType, DynPDGNode, GraphBuilder, GraphProcessingType};
use chiseltrace_rs::pdg_spec::{
    CFGSpecStatement, ExportablePDG, PDGSpec, PDGSpecCondition, PDGSpecEdge, PDGSpecEdgeKind,
    PDGSpecNode, PDGSpecNodeKind,
};
use chiseltrace_rs::trace::{Header, LogicValue, Scope, ScopeItem, TraceCommand, Var};

const CLOCK: u64 = 0;
const RESET: u64 = 1;

fn vertex(name: &str, kind: PDGSpecNodeKind, clocked: bool, assigns_to: Option<&str>) -> PDGSpecNode {
    PDGSpecNode {
        file: "Design.scala".to_string(),
        line: 1,
        char: 0,
        name: name.to_string(),
        kind,
        clocked,
        related_signal: None,
        assigns_to: assigns_to.map(|s| s.to_string()),
        is_chisel_statement: true,
        condition: None,
        assign_delay: 0,
    }
}

fn edge(from: u32, to: u32, kind: PDGSpecEdgeKind) -> PDGSpecEdge {
    PDGSpecEdge { from, to, kind, clocked: false, condition: None }
}

fn stmt(stmt_ref: u32) -> CFGSpecStatement {
    CFGSpecStatement { stmt_ref, pred_stmt_ref: None, true_branch: None, false_branch: None }
}

fn var(reference: &str, code: u64) -> ScopeItem {
    ScopeItem::Var(Var { reference: reference.to_string(), code })
}

/// A header with the scope `dut` that holds the clock, the reset and `extra`.
fn header(extra: Vec<ScopeItem>) -> Header {
    let mut items = vec![var("clock", CLOCK), var("reset", RESET)];
    items.extend(extra);
    Header { items: vec![ScopeItem::Scope(Scope { identifier: "dut".to_string(), items })] }
}

fn scopes() -> Vec<String> {
    vec!["dut".to_string()]
}

/// One clock period: the falling edge with the changes that settle on it, then the rising edge.
fn period(time: u64, settle: Vec<TraceCommand>) -> Vec<TraceCommand> {
    let mut out = vec![
        TraceCommand::Timestamp(time),
        TraceCommand::ChangeScalar(CLOCK, LogicValue::V0),
    ];
    out.extend(settle);
    out.push(TraceCommand::Timestamp(time + 1));
    out.push(TraceCommand::ChangeScalar(CLOCK, LogicValue::V1));
    out
}

fn export(builder: &GraphBuilder, root: usize) -> ExportablePDG {
    dpdg_make_exportable(&builder.dependency_state.nodes, root, &builder.pdg.vertices)
}

#[test]
fn pure_combinational_chain() {
    let pdg = PDGSpec {
        vertices: vec![
            vertex("a", PDGSpecNodeKind::IO, false, Some("a")),
            vertex("b", PDGSpecNodeKind::Connection, false, Some("b")),
            vertex("c", PDGSpecNodeKind::Connection, false, Some("c")),
        ],
        edges: vec![edge(1, 0, PDGSpecEdgeKind::Data), edge(2, 1, PDGSpecEdgeKind::Data)],
        predicates: vec![],
        cfg: vec![stmt(0), stmt(1), stmt(2)],
    };
    let mut commands = period(0, vec![TraceCommand::ChangeScalar(RESET, LogicValue::V1)]);
    commands.push(TraceCommand::Timestamp(2));
    let mut builder = GraphBuilder::new(header(vec![]), scopes(), pdg).unwrap();
    let root = builder
        .process(
            &commands,
            &CriterionType::Signal("c".to_string()),
            None,
            GraphProcessingType::Normal,
        )
        .unwrap();
    let exported = export(&builder, root);
    assert_eq!(exported.vertices.len(), 3);
    assert_eq!(exported.edges.len(), 2);
    assert!(exported.edges.iter().all(|e| e.kind == PDGSpecEdgeKind::Data));
    assert!(exported.vertices.iter().all(|v| v.timestamp == 0));
    assert_eq!(exported.vertices[0].name, "c");
    assert_eq!(exported.vertices[1].name, "b");
    assert_eq!(exported.vertices[2].name, "a");
}

#[test]
fn criterion_not_found() {
    let pdg = PDGSpec {
        vertices: vec![vertex("a", PDGSpecNodeKind::IO, false, Some("a"))],
        edges: vec![],
        predicates: vec![],
        cfg: vec![stmt(0)],
    };
    let mut commands = period(0, vec![]);
    commands.push(TraceCommand::Timestamp(2));
    let mut builder = GraphBuilder::new(header(vec![]), scopes(), pdg).unwrap();
    let r = builder.process(
        &commands,
        &CriterionType::Signal("z".to_string()),
        None,
        GraphProcessingType::Normal,
    );
    match r {
        Err(Error::StatementLookupError(text)) => assert_eq!(text, "Criterion not found in DPDG"),
        other => panic!("unexpected outcome: {:?}", other),
    }
}

fn run(
    pdg: PDGSpec,
    extra: Vec<ScopeItem>,
    commands: &Vec<TraceCommand>,
    criterion: CriterionType,
    mode: GraphProcessingType,
) -> (GraphBuilder, Result<usize, Error>) {
    let mut builder = GraphBuilder::new(header(extra), scopes(), pdg).unwrap();
    let r = builder.process(commands, &criterion, None, mode);
    (builder, r)
}

/// The node of statement `inner` that was made in cycle `cycle`.
fn node_of(builder: &GraphBuilder, inner: u32, cycle: i64) -> (usize, &DynPDGNode) {
    let found: Vec<(usize, &DynPDGNode)> = builder
        .dependency_state
        .nodes
        .iter()
        .enumerate()
        .filter(|(_, n)| n.inner == inner && n.cycle == cycle)
        .collect();
    assert_eq!(found.len(), 1);
    found[0]
}

fn register_design() -> PDGSpec {
    PDGSpec {
        vertices: vec![
            vertex("w", PDGSpecNodeKind::Connection, false, Some("w")),
            vertex("q", PDGSpecNodeKind::Connection, true, Some("q")),
            vertex("q_def", PDGSpecNodeKind::DataDefinition, true, Some("q")),
        ],
        edges: vec![edge(0, 1, PDGSpecEdgeKind::Data), edge(1, 0, PDGSpecEdgeKind::Data)],
        predicates: vec![],
        cfg: vec![stmt(2), stmt(0), stmt(1)],
    }
}

fn register_trace() -> Vec<TraceCommand> {
    let mut commands = period(0, vec![TraceCommand::ChangeScalar(RESET, LogicValue::V1)]);
    commands.extend(period(2, vec![TraceCommand::ChangeScalar(RESET, LogicValue::V0)]));
    commands.extend(period(4, vec![]));
    commands.extend(period(6, vec![]));
    commands
}

#[test]
fn register_update_ordering() {
    let (builder, r) = run(
        register_design(),
        vec![],
        &register_trace(),
        CriterionType::Signal("w".to_string()),
        GraphProcessingType::Normal,
    );
    let root = r.unwrap();
    assert_eq!(builder.reader.current_time, 4);

    let (q_def0, q_def_node) = node_of(&builder, 2, 0);
    assert_eq!(q_def_node.timestamp, -1);
    let (_, w0) = node_of(&builder, 0, 0);
    assert_eq!(w0.timestamp, 0);
    assert_eq!(w0.dependencies, vec![(q_def0, PDGSpecEdgeKind::Data)]);

    for tau in 1..=3i64 {
        let (w_idx, w) = node_of(&builder, 0, tau);
        let (_, q) = node_of(&builder, 1, tau);
        let (q_before, q_prev) = node_of(&builder, 1, tau - 1);
        assert_eq!(w.timestamp, tau - 1);
        assert_eq!(q_prev.timestamp, tau - 1);
        assert_eq!(w.dependencies, vec![(q_before, PDGSpecEdgeKind::Data)]);
        assert_eq!(q.timestamp, tau);
        assert_eq!(q.dependencies, vec![(w_idx, PDGSpecEdgeKind::Data)]);
        // A register declaration outside reset provides nothing.
        let (_, decl) = node_of(&builder, 2, tau);
        assert_eq!(decl.timestamp, tau);
    }

    let (last_w, _) = node_of(&builder, 0, 3);
    assert_eq!(root, last_w);
    let exported = export(&builder, root);
    let stamps: Vec<i64> = exported.vertices.iter().map(|v| v.timestamp).collect();
    assert_eq!(stamps, vec![2, 2, 1, 1, 0, 0, 0, -1]);
    assert_eq!(exported.edges.len(), 7);
    for (i, e) in exported.edges.iter().enumerate() {
        assert_eq!((e.from, e.to), (i as u32, i as u32 + 1));
        assert_eq!(e.kind, PDGSpecEdgeKind::Data);
        // The clocked bit is that of the provider, the statement that the edge arrives at.
        assert_eq!(e.clocked, exported.vertices[i + 1].clocked);
    }
}

const SEL: u64 = 2;

fn guarded(name: &str, value: u64) -> PDGSpecNode {
    let mut v = vertex(name, PDGSpecNodeKind::Connection, false, Some("x"));
    v.condition =
        Some(PDGSpecCondition { probe_name: vec!["probe_sel".to_string()], probe_value: vec![value] });
    v
}

fn guarded_design() -> PDGSpec {
    PDGSpec {
        vertices: vec![
            vertex("when_sel", PDGSpecNodeKind::ControlFlow, false, None),
            guarded("branch_a", 0),
            guarded("branch_b", 1),
            vertex("consumer", PDGSpecNodeKind::Connection, false, Some("y")),
        ],
        edges: vec![
            edge(1, 0, PDGSpecEdgeKind::Conditional),
            edge(2, 0, PDGSpecEdgeKind::Conditional),
            edge(3, 1, PDGSpecEdgeKind::Data),
            edge(3, 2, PDGSpecEdgeKind::Data),
        ],
        predicates: vec![],
        cfg: vec![stmt(0), stmt(1), stmt(2), stmt(3)],
    }
}

fn sel(bits: Vec<LogicValue>) -> TraceCommand {
    TraceCommand::ChangeVector(SEL, bits)
}

fn guarded_trace() -> Vec<TraceCommand> {
    let mut commands = period(0, vec![sel(vec![LogicValue::V0])]);
    commands.extend(period(2, vec![]));
    commands.extend(period(4, vec![sel(vec![LogicValue::V0, LogicValue::V1])]));
    commands
}

#[test]
fn guarded_condition() {
    let (builder, r) = run(
        guarded_design(),
        vec![var("probe_sel", SEL)],
        &guarded_trace(),
        CriterionType::Statement("consumer".to_string()),
        GraphProcessingType::Normal,
    );
    let root = r.unwrap();
    let (a1, _) = node_of(&builder, 1, 1);
    let (b2, _) = node_of(&builder, 2, 2);
    let (_, consumer1) = node_of(&builder, 3, 1);
    let (c2, consumer2) = node_of(&builder, 3, 2);
    assert_eq!(consumer1.dependencies, vec![(a1, PDGSpecEdgeKind::Data)]);
    assert_eq!(consumer2.dependencies, vec![(b2, PDGSpecEdgeKind::Data)]);
    assert_eq!(root, c2);

    let (cf2, _) = node_of(&builder, 0, 2);
    let (_, branch_b) = node_of(&builder, 2, 2);
    assert_eq!(branch_b.dependencies, vec![(cf2, PDGSpecEdgeKind::Conditional)]);

    let exported = export(&builder, root);
    let names: Vec<&str> = exported.vertices.iter().map(|v| v.name.as_str()).collect();
    assert_eq!(names, vec!["consumer", "branch_b", "when_sel"]);
    assert_eq!(exported.edges.len(), 2);
}

#[test]
fn data_only_mode() {
    let (normal, r) = run(
        guarded_design(),
        vec![var("probe_sel", SEL)],
        &guarded_trace(),
        CriterionType::Statement("consumer".to_string()),
        GraphProcessingType::Normal,
    );
    let normal_graph = export(&normal, r.unwrap());
    let (data_only, r) = run(
        guarded_design(),
        vec![var("probe_sel", SEL)],
        &guarded_trace(),
        CriterionType::Statement("consumer".to_string()),
        GraphProcessingType::DataOnly,
    );
    let root = r.unwrap();
    let graph = export(&data_only, root);
    assert!(graph.edges.iter().all(|e| e.kind == PDGSpecEdgeKind::Data));
    assert_eq!(graph.edges.len(), 1);
    assert_eq!(graph.vertices[0].name, "consumer");
    assert_eq!(graph.vertices[0].timestamp, normal_graph.vertices[0].timestamp);
    assert!(graph.vertices.len() < normal_graph.vertices.len());
    assert!(graph.edges.len() < normal_graph.edges.len());
    // Every edge of the smaller graph is an edge of the larger one, by the names of its ends.
    for e in &graph.edges {
        let from = &graph.vertices[e.from as usize].name;
        let to = &graph.vertices[e.to as usize].name;
        assert!(normal_graph.edges.iter().any(|f| {
            f.kind == e.kind
                && &normal_graph.vertices[f.from as usize].name == from
                && &normal_graph.vertices[f.to as usize].name == to
        }));
    }
    // No node of the arena holds a dependence that is not a data dependence.
    for node in &data_only.dependency_state.nodes {
        assert!(node.dependencies.iter().all(|(_, k)| *k == PDGSpecEdgeKind::Data));
    }
}

const WEN: u64 = 3;

fn memory_design() -> PDGSpec {
    let mut mem_w = vertex("mem_w", PDGSpecNodeKind::Connection, true, Some("mem"));
    mem_w.assign_delay = 1;
    PDGSpec {
        vertices: vec![
            vertex("addr", PDGSpecNodeKind::Connection, false, Some("addr")),
            vertex("mem_init", PDGSpecNodeKind::DataDefinition, true, Some("mem")),
            vertex("when_wen", PDGSpecNodeKind::ControlFlow, false, None),
            mem_w,
            vertex("reader", PDGSpecNodeKind::Connection, false, Some("r")),
        ],
        edges: vec![
            edge(3, 0, PDGSpecEdgeKind::Index),
            edge(4, 3, PDGSpecEdgeKind::Data),
        ],
        predicates: vec![vertex("wen", PDGSpecNodeKind::Definition, false, None)],
        cfg: vec![
            stmt(0),
            stmt(1),
            CFGSpecStatement {
                stmt_ref: 2,
                pred_stmt_ref: Some(0),
                true_branch: Some(vec![stmt(3)]),
                false_branch: None,
            },
            stmt(4),
        ],
    }
}

fn wen(v: LogicValue) -> TraceCommand {
    TraceCommand::ChangeScalar(WEN, v)
}

#[test]
fn delayed_memory_write() {
    let mut commands = period(0, vec![]);
    commands.extend(period(2, vec![]));
    commands.extend(period(4, vec![wen(LogicValue::V1)]));
    commands.extend(period(6, vec![wen(LogicValue::V0)]));
    commands.extend(period(8, vec![]));
    let (builder, r) = run(
        memory_design(),
        vec![var("wen", WEN)],
        &commands,
        CriterionType::Statement("reader".to_string()),
        GraphProcessingType::Normal,
    );
    r.unwrap();
    let state = &builder.dependency_state;

    // The write is activated in cycle 2 alone, and its node is made one cycle later.
    assert!(state.nodes.iter().all(|n| !(n.inner == 3 && n.cycle != 3)));
    let (write, write_node) = node_of(&builder, 3, 3);
    assert_eq!(write_node.timestamp, 3);
    let keys: Vec<i64> = state.snapshots.keys().copied().collect();
    assert_eq!(keys, vec![2]);
    assert!(state.delayed.is_empty());

    // Its index is the address of cycle 2, as the snapshot holds it.
    let (addr2, _) = node_of(&builder, 0, 2);
    let (addr3, _) = node_of(&builder, 0, 3);
    assert_eq!(state.snapshots[&2].table[0], Some(addr2));
    assert_eq!(write_node.dependencies, vec![(addr2, PDGSpecEdgeKind::Index)]);
    assert!(addr2 != addr3);

    // The reader of cycle 3 still sees the memory as it was before the write.
    let (init0, init_node) = node_of(&builder, 1, 0);
    assert_eq!(init_node.timestamp, -1);
    let (_, reader3) = node_of(&builder, 4, 3);
    assert_eq!(reader3.dependencies, vec![(init0, PDGSpecEdgeKind::Data)]);
    // From the next cycle on, the write is what a reader sees.
    let (_, reader4) = node_of(&builder, 4, 4);
    assert_eq!(reader4.dependencies, vec![(write, PDGSpecEdgeKind::Data)]);
}
