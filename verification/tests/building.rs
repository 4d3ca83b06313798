use std::collections::HashMap;

use chiseltrace_rs::activation::PredicateState;
use chiseltrace_rs::conversion::dpdg_make_exportable;
use chiseltrace_rs::errors::Error;
use chiseltrace_rs::graphbuilder::{CriterionType, DynPDGNode, GraphBuilder, GraphProcessingType};
use chiseltrace_rs::pdg_spec::{
    CFGSpecStatement, PDGSpec, PDGSpecCondition, PDGSpecEdge, PDGSpecEdgeKind, PDGSpecNode,
    PDGSpecNodeKind,
};
use chiseltrace_rs::trace::{
    Header, LogicValue, Scope, ScopeItem, TraceCommand, ValueChange, Var,
};

const CLOCK: u64 = 0;
const RESET: u64 = 1;

fn vertex(name: &str, kind: PDGSpecNodeKind, clocked: bool, assigns_to: Option<&str>) -> PDGSpecNode {
    PDGSpecNode {
        file: "Design.scala".to_string(),
        line: 1,
        char: 0,
        name: name.to_string(),
        kind,
        clocked,
        related_signal: None,
        assigns_to: assigns_to.map(|s| s.to_string()),
        is_chisel_statement: true,
        condition: None,
        assign_delay: 0,
    }
}

fn edge(from: u32, to: u32, kind: PDGSpecEdgeKind) -> PDGSpecEdge {
    PDGSpecEdge { from, to, kind, clocked: false, condition: None }
}

fn stmt(stmt_ref: u32) -> CFGSpecStatement {
    CFGSpecStatement { stmt_ref, pred_stmt_ref: None, true_branch: None, false_branch: None }
}

fn fork(stmt_ref: u32, pred: u32, t: Option<Vec<CFGSpecStatement>>, f: Option<Vec<CFGSpecStatement>>)
    -> CFGSpecStatement {
    CFGSpecStatement { stmt_ref, pred_stmt_ref: Some(pred), true_branch: t, false_branch: f }
}

fn var(reference: &str, code: u64) -> ScopeItem {
    ScopeItem::Var(Var { reference: reference.to_string(), code })
}

fn header(extra: Vec<ScopeItem>) -> Header {
    let mut items = vec![var("clock", CLOCK), var("reset", RESET)];
    items.extend(extra);
    Header { items: vec![ScopeItem::Scope(Scope { identifier: "dut".to_string(), items })] }
}

fn scopes() -> Vec<String> {
    vec!["dut".to_string()]
}

fn period(time: u64, settle: Vec<TraceCommand>) -> Vec<TraceCommand> {
    let mut out = vec![
        TraceCommand::Timestamp(time),
        TraceCommand::ChangeScalar(CLOCK, LogicValue::V0),
    ];
    out.extend(settle);
    out.push(TraceCommand::Timestamp(time + 1));
    out.push(TraceCommand::ChangeScalar(CLOCK, LogicValue::V1));
    out
}

fn periods(n: u64) -> Vec<TraceCommand> {
    let mut commands = Vec::new();
    for p in 0..n {
        commands.extend(period(2 * p, vec![]));
    }
    commands
}

fn node_of(builder: &GraphBuilder, inner: u32, cycle: i64) -> (usize, &DynPDGNode) {
    let found: Vec<(usize, &DynPDGNode)> = builder
        .dependency_state
        .nodes
        .iter()
        .enumerate()
        .filter(|(_, n)| n.inner == inner && n.cycle == cycle)
        .collect();
    assert_eq!(found.len(), 1);
    found[0]
}

fn walk(cfg: &Vec<CFGSpecStatement>, ids: Vec<u64>, asserted: &[u64], changes: Vec<ValueChange>)
    -> Vec<u32> {
    let mut values = HashMap::new();
    for id in &ids {
        values.insert(*id, asserted.contains(id));
    }
    let mut state = PredicateState { pred_values: values, pred_idx_to_id: ids };
    state.get_activated_statements(cfg, &changes)
}

fn nested() -> Vec<CFGSpecStatement> {
    vec![
        stmt(0),
        fork(
            1,
            0,
            Some(vec![stmt(2), fork(3, 1, Some(vec![stmt(4)]), Some(vec![stmt(5), stmt(6)]))]),
            Some(vec![stmt(7)]),
        ),
        fork(8, 1, None, Some(vec![stmt(9)])),
        stmt(10),
    ]
}

#[test]
fn the_walk_visits_statements_in_forward_order() {
    assert_eq!(walk(&nested(), vec![20, 21], &[], vec![]), vec![0, 1, 7, 8, 9, 10]);
    assert_eq!(walk(&nested(), vec![20, 21], &[20], vec![]), vec![0, 1, 2, 3, 5, 6, 8, 9, 10]);
    assert_eq!(walk(&nested(), vec![20, 21], &[20, 21], vec![]), vec![0, 1, 2, 3, 4, 8, 10]);
    assert_eq!(walk(&nested(), vec![20, 21], &[21], vec![]), vec![0, 1, 7, 8, 10]);
    assert_eq!(walk(&vec![], vec![], &[], vec![]), Vec::<u32>::new());
}

#[test]
fn changes_move_the_predicates_before_the_walk() {
    let up = |id| ValueChange { id, value: LogicValue::V1 };
    let down = |id, value| ValueChange { id, value };
    assert_eq!(
        walk(&nested(), vec![20, 21], &[], vec![up(20), up(33)]),
        vec![0, 1, 2, 3, 5, 6, 8, 9, 10]
    );
    // The last change of a signal counts, and only the level one asserts.
    assert_eq!(
        walk(&nested(), vec![20, 21], &[21], vec![up(20), down(20, LogicValue::X), down(21, LogicValue::Z)]),
        vec![0, 1, 7, 8, 9, 10]
    );
}

#[test]
fn an_unknown_predicate_is_not_asserted() {
    // Predicate 1 has no signal in the list; predicate 0 has a signal without a value.
    let mut state = PredicateState { pred_values: HashMap::new(), pred_idx_to_id: vec![20] };
    assert_eq!(state.get_activated_statements(&nested(), &vec![]), vec![0, 1, 7, 8, 9, 10]);
}

fn chain() -> PDGSpec {
    PDGSpec {
        vertices: vec![
            vertex("a", PDGSpecNodeKind::IO, false, Some("a")),
            vertex("b", PDGSpecNodeKind::Connection, false, Some("b")),
        ],
        edges: vec![edge(1, 0, PDGSpecEdgeKind::Data)],
        predicates: vec![],
        cfg: vec![stmt(0), stmt(1)],
    }
}

#[test]
fn the_budget_ends_the_run() {
    let commands = periods(6);
    let cycles = |max: Option<i64>| {
        let mut builder = GraphBuilder::new(header(vec![]), scopes(), chain()).unwrap();
        let criterion = CriterionType::Signal("b".to_string());
        builder.process(&commands, &criterion, max, GraphProcessingType::Normal).unwrap();
        builder.reader.current_time
    };
    // A cycle is taken while twice the number of cycles read does not exceed the budget.
    assert_eq!(cycles(None), 6);
    assert_eq!(cycles(Some(0)), 1);
    assert_eq!(cycles(Some(1)), 1);
    assert_eq!(cycles(Some(2)), 2);
    assert_eq!(cycles(Some(7)), 4);
    assert_eq!(cycles(Some(100)), 6);
}

#[test]
fn a_budget_below_zero_builds_nothing() {
    let mut builder = GraphBuilder::new(header(vec![]), scopes(), chain()).unwrap();
    let criterion = CriterionType::Signal("b".to_string());
    match builder.process(&periods(3), &criterion, Some(-1), GraphProcessingType::Normal) {
        Err(Error::StatementLookupError(_)) => {}
        other => panic!("unexpected outcome: {:?}", other),
    }
    assert!(builder.dependency_state.nodes.is_empty());
    assert_eq!(builder.reader.current_time, 0);
}

#[test]
fn a_statement_criterion_selects_the_last_activation() {
    let mut builder = GraphBuilder::new(header(vec![]), scopes(), chain()).unwrap();
    let criterion = CriterionType::Statement("a".to_string());
    let root =
        builder.process(&periods(3), &criterion, None, GraphProcessingType::Normal).unwrap();
    let (last, _) = node_of(&builder, 0, 2);
    assert_eq!(root, last);
    let mut builder = GraphBuilder::new(header(vec![]), scopes(), chain()).unwrap();
    let criterion = CriterionType::Statement("zz".to_string());
    match builder.process(&periods(3), &criterion, None, GraphProcessingType::Normal) {
        Err(Error::StatementLookupError(text)) => assert_eq!(text, "Criterion not found in DPDG"),
        other => panic!("unexpected outcome: {:?}", other),
    }
}

#[test]
fn a_trace_without_clock_or_reset_is_refused() {
    let no_reset = Header {
        items: vec![ScopeItem::Scope(Scope {
            identifier: "dut".to_string(),
            items: vec![var("clock", CLOCK)],
        })],
    };
    match GraphBuilder::new(no_reset, scopes(), chain()) {
        Err(Error::ClockNotFoundError) => {}
        other => panic!("unexpected outcome: {:?}", other.map(|_| ())),
    }
    match GraphBuilder::new(header(vec![]), vec!["top".to_string()], chain()) {
        Err(Error::ClockNotFoundError) => {}
        other => panic!("unexpected outcome: {:?}", other.map(|_| ())),
    }
}

#[test]
fn a_graph_with_an_edge_that_leaves_it_is_refused() {
    let mut pdg = chain();
    pdg.edges.push(edge(0, 7, PDGSpecEdgeKind::Data));
    match GraphBuilder::new(header(vec![]), scopes(), pdg) {
        Err(Error::MalformedPDG) => {}
        other => panic!("unexpected outcome: {:?}", other.map(|_| ())),
    }
    // So is an edge that leaves no vertex of the graph, wherever it arrives.
    for (from, to) in [(9, 7), (9, 0), (2, 1)] {
        let mut pdg = chain();
        pdg.edges.push(edge(from, to, PDGSpecEdgeKind::Data));
        match GraphBuilder::new(header(vec![]), scopes(), pdg) {
            Err(Error::MalformedPDG) => {}
            other => panic!("unexpected outcome: {:?}", other.map(|_| ())),
        }
    }
}

#[test]
fn an_exported_edge_carries_the_clocked_bit_of_its_provider() {
    use_bits(false, true);
    use_bits(true, false);
}

fn use_bits(consumer: bool, provider: bool) {
    let vertices = vec![
        vertex("c", PDGSpecNodeKind::Connection, consumer, Some("c")),
        vertex("p", PDGSpecNodeKind::Connection, provider, Some("p")),
    ];
    let nodes = vec![
        DynPDGNode {
            inner: 0,
            timestamp: 1,
            dependencies: vec![(1, PDGSpecEdgeKind::Data)],
            cycle: 1,
        },
        DynPDGNode { inner: 1, timestamp: 0, dependencies: vec![], cycle: 0 },
    ];
    let exported = dpdg_make_exportable(&nodes, 0, &vertices);
    assert_eq!(exported.vertices.len(), 2);
    assert_eq!(exported.vertices[0].clocked, consumer);
    assert_eq!(exported.vertices[1].clocked, provider);
    assert_eq!(exported.edges.len(), 1);
    let e = exported.edges[0];
    assert_eq!((e.from, e.to, e.kind), (0, 1, PDGSpecEdgeKind::Data));
    assert_eq!(e.clocked, provider);
}

#[test]
fn a_control_flow_with_a_statement_outside_the_graph_is_refused() {
    let mut pdg = chain();
    pdg.cfg.push(stmt(5));
    let mut builder = GraphBuilder::new(header(vec![]), scopes(), pdg).unwrap();
    let criterion = CriterionType::Signal("b".to_string());
    match builder.process(&periods(2), &criterion, None, GraphProcessingType::Normal) {
        Err(Error::MalformedPDG) => {}
        other => panic!("unexpected outcome: {:?}", other),
    }
}

#[test]
fn a_predicate_without_signal_is_refused() {
    let mut pdg = chain();
    pdg.predicates = vec![
        vertex("alu.sel", PDGSpecNodeKind::Definition, false, None),
        vertex("alu.missing", PDGSpecNodeKind::Definition, false, None),
    ];
    let alu = ScopeItem::Scope(Scope { identifier: "alu".to_string(), items: vec![var("sel", 5)] });
    let mut builder = GraphBuilder::new(header(vec![alu]), scopes(), pdg).unwrap();
    let criterion = CriterionType::Signal("b".to_string());
    match builder.process(&periods(2), &criterion, None, GraphProcessingType::Normal) {
        Err(Error::VariableNotFoundError(path)) => assert_eq!(path, "dut.alu.missing"),
        other => panic!("unexpected outcome: {:?}", other),
    }
}

fn declared() -> PDGSpec {
    PDGSpec {
        vertices: vec![
            vertex("wire_def", PDGSpecNodeKind::Definition, false, None),
            vertex("use", PDGSpecNodeKind::Connection, false, Some("u")),
        ],
        edges: vec![
            edge(1, 0, PDGSpecEdgeKind::Declaration),
            edge(1, 0, PDGSpecEdgeKind::Declaration),
        ],
        predicates: vec![],
        cfg: vec![stmt(1)],
    }
}

#[test]
fn declarations_are_nodes_of_their_own_in_the_full_mode() {
    let criterion = CriterionType::Signal("u".to_string());
    let mut builder = GraphBuilder::new(header(vec![]), scopes(), declared()).unwrap();
    let root = builder.process(&periods(2), &criterion, None, GraphProcessingType::Full).unwrap();
    let nodes = &builder.dependency_state.nodes;
    // Each declaration edge gives a node of its own, one time step before the cycle.
    assert_eq!(nodes.len(), 6);
    let user = &nodes[root];
    assert_eq!((user.inner, user.cycle, user.timestamp), (1, 1, 0));
    assert_eq!(user.dependencies.len(), 2);
    for (p, kind) in &user.dependencies {
        assert_eq!(*kind, PDGSpecEdgeKind::Declaration);
        assert_eq!((nodes[*p].inner, nodes[*p].cycle, nodes[*p].timestamp), (0, 1, 0));
        assert!(nodes[*p].dependencies.is_empty());
    }
    assert!(user.dependencies[0].0 != user.dependencies[1].0);
    let exported = dpdg_make_exportable(nodes, root, &builder.pdg.vertices);
    assert_eq!(exported.vertices.len(), 3);
    assert_eq!(exported.edges.len(), 2);

    let mut builder = GraphBuilder::new(header(vec![]), scopes(), declared()).unwrap();
    let root = builder.process(&periods(2), &criterion, None, GraphProcessingType::Normal).unwrap();
    assert_eq!(builder.dependency_state.nodes.len(), 2);
    assert!(builder.dependency_state.nodes[root].dependencies.is_empty());
}

#[test]
fn equal_dependences_are_exported_once() {
    let pdg = PDGSpec {
        vertices: vec![
            vertex("when", PDGSpecNodeKind::ControlFlow, false, None),
            vertex("x", PDGSpecNodeKind::Connection, false, Some("x")),
        ],
        edges: vec![
            edge(1, 0, PDGSpecEdgeKind::Conditional),
            edge(1, 0, PDGSpecEdgeKind::Conditional),
        ],
        predicates: vec![],
        cfg: vec![stmt(0), stmt(1)],
    };
    let mut builder = GraphBuilder::new(header(vec![]), scopes(), pdg).unwrap();
    let criterion = CriterionType::Signal("x".to_string());
    let root = builder.process(&periods(1), &criterion, None, GraphProcessingType::Normal).unwrap();
    assert_eq!(builder.dependency_state.nodes[root].dependencies.len(), 2);
    let exported = dpdg_make_exportable(
        &builder.dependency_state.nodes,
        root,
        &builder.pdg.vertices,
    );
    assert_eq!(exported.vertices.len(), 2);
    assert_eq!(exported.edges.len(), 1);
}

#[test]
fn a_condition_on_an_unknown_probe_fails() {
    let mut guarded = vertex("x", PDGSpecNodeKind::Connection, false, Some("x"));
    guarded.condition = Some(PDGSpecCondition {
        probe_name: vec!["probe_none".to_string()],
        probe_value: vec![0],
    });
    let mut reader = vertex("y", PDGSpecNodeKind::Connection, false, Some("y"));
    reader.condition = Some(PDGSpecCondition {
        // A name without a value makes no comparison.
        probe_name: vec!["probe_none".to_string()],
        probe_value: vec![],
    });
    let pdg = PDGSpec {
        vertices: vec![guarded, reader],
        edges: vec![edge(1, 0, PDGSpecEdgeKind::Data)],
        predicates: vec![],
        cfg: vec![stmt(0), stmt(1)],
    };
    let mut builder = GraphBuilder::new(header(vec![]), scopes(), pdg).unwrap();
    let criterion = CriterionType::Signal("y".to_string());
    let root = builder.process(&periods(2), &criterion, None, GraphProcessingType::Normal).unwrap();
    // The guarded statement is activated but provides nothing.
    assert_eq!(builder.dependency_state.nodes.len(), 4);
    assert!(builder.dependency_state.nodes[root].dependencies.is_empty());
    assert_eq!(builder.dependency_state.live[0], None);
}

fn register_design() -> PDGSpec {
    PDGSpec {
        vertices: vec![
            vertex("w", PDGSpecNodeKind::Connection, false, Some("w")),
            vertex("q", PDGSpecNodeKind::Connection, true, Some("q")),
            vertex("q_def", PDGSpecNodeKind::DataDefinition, true, Some("q")),
            vertex("when", PDGSpecNodeKind::ControlFlow, false, None),
            vertex("idx", PDGSpecNodeKind::Connection, false, Some("w")),
        ],
        edges: vec![
            edge(0, 1, PDGSpecEdgeKind::Data),
            edge(0, 2, PDGSpecEdgeKind::Data),
            edge(1, 0, PDGSpecEdgeKind::Data),
            edge(1, 4, PDGSpecEdgeKind::Index),
            edge(1, 3, PDGSpecEdgeKind::Conditional),
            edge(4, 3, PDGSpecEdgeKind::Conditional),
            edge(4, 1, PDGSpecEdgeKind::Index),
        ],
        predicates: vec![],
        cfg: vec![stmt(2), stmt(3), stmt(0), stmt(4), stmt(1)],
    }
}

fn built() -> (GraphBuilder, usize) {
    built_with(true)
}

fn built_with(reset_at_end: bool) -> (GraphBuilder, usize) {
    let mut commands = period(0, vec![TraceCommand::ChangeScalar(RESET, LogicValue::V1)]);
    commands.extend(period(2, vec![TraceCommand::ChangeScalar(RESET, LogicValue::V0)]));
    commands.extend(periods(4));
    if reset_at_end {
        commands.extend(period(20, vec![TraceCommand::ChangeScalar(RESET, LogicValue::V1)]));
    }
    let mut builder = GraphBuilder::new(header(vec![]), scopes(), register_design()).unwrap();
    let criterion = CriterionType::Signal("w".to_string());
    let root = builder.process(&commands, &criterion, None, GraphProcessingType::Normal).unwrap();
    (builder, root)
}

#[test]
fn providers_are_never_later_than_their_consumers() {
    let (builder, _) = built();
    let nodes = &builder.dependency_state.nodes;
    let vertices = &builder.pdg.vertices;
    let mut edges = 0;
    for d in nodes {
        for (p, kind) in &d.dependencies {
            let p = &nodes[*p];
            edges += 1;
            assert!(p.cycle <= d.cycle);
            assert!(p.timestamp <= d.timestamp);
            let clocked = vertices[d.inner as usize].clocked;
            let early = clocked && d.timestamp == d.cycle - 1;
            if clocked && !early && *kind == PDGSpecEdgeKind::Data {
                let same = d.cycle == 0 && !vertices[p.inner as usize].clocked;
                assert_eq!(p.timestamp < d.timestamp, !same);
            }
        }
    }
    assert!(edges > 20);
}

#[test]
fn no_node_has_two_providers_of_one_symbol() {
    let (builder, _) = built();
    let nodes = &builder.dependency_state.nodes;
    let vertices = &builder.pdg.vertices;
    let lookup = |k: &PDGSpecEdgeKind| *k == PDGSpecEdgeKind::Data || *k == PDGSpecEdgeKind::Index;
    let mut seen_two = false;
    for d in nodes {
        let symbols: Vec<&Option<String>> = d
            .dependencies
            .iter()
            .filter(|(_, k)| lookup(k))
            .map(|(p, _)| &vertices[nodes[*p].inner as usize].assigns_to)
            .collect();
        for (i, s) in symbols.iter().enumerate() {
            assert!(s.is_some());
            assert!(!symbols[..i].contains(s));
        }
        seen_two = seen_two || symbols.len() == 2;
    }
    // The register has a data dependence on `w` only: the index edge to the same symbol is served.
    assert!(!seen_two);
    let (_, q) = node_of(&builder, 1, 2);
    let kinds: Vec<PDGSpecEdgeKind> = q.dependencies.iter().map(|(_, k)| *k).collect();
    assert_eq!(kinds, vec![PDGSpecEdgeKind::Data, PDGSpecEdgeKind::Conditional]);
}

#[test]
fn a_register_update_provides_from_the_next_cycle_on() {
    let (builder, _) = built();
    let nodes = &builder.dependency_state.nodes;
    let vertices = &builder.pdg.vertices;
    for d in nodes {
        for (p, kind) in &d.dependencies {
            let p = &nodes[*p];
            let v = &vertices[p.inner as usize];
            if p.cycle == d.cycle && *kind != PDGSpecEdgeKind::Conditional {
                assert!(!v.clocked || v.kind == PDGSpecNodeKind::DataDefinition);
            }
        }
    }
    // Under reset the declaration provides at once, one time step early.
    let (decl, decl_node) = node_of(&builder, 2, 6);
    assert_eq!(decl_node.timestamp, 5);
    let (_, w) = node_of(&builder, 0, 6);
    assert_eq!(w.dependencies[0], (decl, PDGSpecEdgeKind::Data));
    // At the end of the cycle the register update takes its place.
    let (q6, _) = node_of(&builder, 1, 6);
    assert_eq!(builder.dependency_state.live[1], Some(q6));
}

#[test]
fn the_exported_graph_has_no_cycle() {
    let (builder, root) = built_with(false);
    let exported = dpdg_make_exportable(
        &builder.dependency_state.nodes,
        root,
        &builder.pdg.vertices,
    );
    let n = exported.vertices.len();
    assert!(n > 10);
    // Taking away vertices without dependences again and again leaves nothing.
    let mut alive = vec![true; n];
    loop {
        let mut removed = false;
        for v in 0..n {
            if alive[v]
                && !exported.edges.iter().any(|e| e.from as usize == v && alive[e.to as usize])
            {
                alive[v] = false;
                removed = true;
            }
        }
        if !removed {
            break;
        }
    }
    assert!(alive.iter().all(|a| !a));
    // Every vertex is there once, and every edge once.
    for (i, e) in exported.edges.iter().enumerate() {
        assert!(!exported.edges[..i].contains(e));
    }
}

#[test]
fn equal_inputs_give_equal_graphs() {
    let (a, root_a) = built();
    let (b, root_b) = built();
    assert_eq!(root_a, root_b);
    let shape = |g: &GraphBuilder| -> Vec<(u32, i64, Vec<(usize, PDGSpecEdgeKind)>)> {
        g.dependency_state
            .nodes
            .iter()
            .map(|n| (n.inner, n.timestamp, n.dependencies.clone()))
            .collect()
    };
    assert_eq!(shape(&a), shape(&b));
}

#[test]
fn equal_statements_stand_in_one_class() {
    let mut other = vertex("when", PDGSpecNodeKind::ControlFlow, false, None);
    other.line = 2;
    let vertices = vec![
        vertex("when", PDGSpecNodeKind::ControlFlow, false, None),
        vertex("x", PDGSpecNodeKind::Connection, false, Some("x")),
        vertex("when", PDGSpecNodeKind::ControlFlow, false, None),
        other,
        vertex("x", PDGSpecNodeKind::Connection, false, Some("x")),
        vertex("x", PDGSpecNodeKind::Connection, true, Some("x")),
    ];
    assert_eq!(chiseltrace_rs::classes::classes(&vertices), vec![0, 1, 0, 3, 1, 5]);
    assert!(chiseltrace_rs::classes::classes(&vec![]).is_empty());
    assert!(chiseltrace_rs::classes::same_node(&vertices[0], &vertices[2]));
    assert!(!chiseltrace_rs::classes::same_node(&vertices[0], &vertices[3]));
}

#[test]
fn a_condition_is_provided_by_the_latest_equal_control_flow() {
    let pdg = PDGSpec {
        vertices: vec![
            vertex("when", PDGSpecNodeKind::ControlFlow, false, None),
            vertex("when", PDGSpecNodeKind::ControlFlow, false, None),
            vertex("x", PDGSpecNodeKind::Connection, false, Some("x")),
        ],
        edges: vec![edge(2, 0, PDGSpecEdgeKind::Conditional)],
        predicates: vec![],
        cfg: vec![stmt(0), stmt(1), stmt(2)],
    };
    let mut builder = GraphBuilder::new(header(vec![]), scopes(), pdg).unwrap();
    let criterion = CriterionType::Signal("x".to_string());
    let root =
        builder.process(&periods(1), &criterion, None, GraphProcessingType::Normal).unwrap();
    let (second, _) = node_of(&builder, 1, 0);
    let x = &builder.dependency_state.nodes[root];
    assert_eq!(x.inner, 2);
    assert_eq!(x.dependencies, vec![(second, PDGSpecEdgeKind::Conditional)]);
}

fn run_in(pdg: PDGSpec, symbol: &str, mode: GraphProcessingType) -> GraphBuilder {
    let mut builder = GraphBuilder::new(header(vec![]), scopes(), pdg).unwrap();
    let criterion = CriterionType::Signal(symbol.to_string());
    builder.process(&periods(4), &criterion, None, mode).unwrap();
    builder
}

#[test]
fn data_dependences_alone_are_a_part_of_all_dependences() {
    let few = run_in(register_design(), "w", GraphProcessingType::DataOnly);
    let all = run_in(register_design(), "w", GraphProcessingType::Normal);
    let few = &few.dependency_state.nodes;
    let all = &all.dependency_state.nodes;
    assert_eq!(few.len(), all.len());
    let mut fewer = false;
    for (a, b) in few.iter().zip(all.iter()) {
        assert_eq!((a.inner, a.timestamp, a.cycle), (b.inner, b.timestamp, b.cycle));
        assert!(a.dependencies.iter().all(|d| d.1 == PDGSpecEdgeKind::Data));
        assert!(a.dependencies.iter().all(|d| b.dependencies.contains(d)));
        fewer = fewer || a.dependencies.len() < b.dependencies.len();
    }
    assert!(fewer);
}

#[test]
fn an_index_edge_in_front_takes_the_place_of_the_data_edge() {
    let design = || PDGSpec {
        vertices: vec![
            vertex("s", PDGSpecNodeKind::IO, false, Some("s")),
            vertex("c", PDGSpecNodeKind::Connection, false, Some("c")),
        ],
        edges: vec![edge(1, 0, PDGSpecEdgeKind::Index), edge(1, 0, PDGSpecEdgeKind::Data)],
        predicates: vec![],
        cfg: vec![stmt(0), stmt(1)],
    };
    let deps = |mode: GraphProcessingType| {
        let builder = run_in(design(), "c", mode);
        let (_, c) = node_of(&builder, 1, 0);
        c.dependencies.clone()
    };
    assert_eq!(deps(GraphProcessingType::Normal), vec![(0, PDGSpecEdgeKind::Index)]);
    assert_eq!(deps(GraphProcessingType::DataOnly), vec![(0, PDGSpecEdgeKind::Data)]);
}

#[test]
fn a_declaration_under_reset_may_share_the_time_of_its_provider() {
    let pdg = PDGSpec {
        vertices: vec![
            vertex("w", PDGSpecNodeKind::Connection, false, Some("w")),
            vertex("q_def", PDGSpecNodeKind::DataDefinition, true, Some("q")),
        ],
        edges: vec![edge(1, 0, PDGSpecEdgeKind::Data)],
        predicates: vec![],
        cfg: vec![stmt(0), stmt(1)],
    };
    let mut commands = period(0, vec![TraceCommand::ChangeScalar(RESET, LogicValue::V1)]);
    commands.extend(period(2, vec![]));
    commands.extend(period(4, vec![TraceCommand::ChangeScalar(RESET, LogicValue::V0)]));
    let mut builder = GraphBuilder::new(header(vec![]), scopes(), pdg).unwrap();
    let criterion = CriterionType::Signal("q".to_string());
    builder.process(&commands, &criterion, None, GraphProcessingType::Normal).unwrap();
    // In cycle zero the wire is later than the declaration.
    let (w0, w) = node_of(&builder, 0, 0);
    let (_, q) = node_of(&builder, 1, 0);
    assert_eq!((w.timestamp, q.timestamp), (0, -1));
    assert_eq!(q.dependencies, vec![(w0, PDGSpecEdgeKind::Data)]);
    // Under reset in cycle one both carry the time stamp zero.
    let (w1, w) = node_of(&builder, 0, 1);
    let (_, q) = node_of(&builder, 1, 1);
    assert_eq!((w.timestamp, q.timestamp), (0, 0));
    assert_eq!(q.dependencies, vec![(w1, PDGSpecEdgeKind::Data)]);
    // Outside reset the declaration carries the time of its cycle and provides nothing.
    let (_, q) = node_of(&builder, 1, 2);
    assert_eq!(q.timestamp, 2);
}
