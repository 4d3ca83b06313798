use chiseltrace_rs::errors::Error;
use chiseltrace_rs::pdg_spec::{
    ExportablePDG, ExportablePDGEdge, ExportablePDGNode, PDGSpecEdgeKind, PDGSpecNodeKind,
    PDGSpecRelatedSignal,
};
use chiseltrace_rs::sim_data::{build_signal_map, plan_injection, signal_route, vector_text};
use chiseltrace_rs::trace::{Header, LogicValue, Scope, ScopeItem, TraceCommand, Var};
use chiseltrace_rs::viewer::{
    get_viewer_signals, AppState, EdgeColour, NodeColour, NodeShape, ViewableGraph,
};

use LogicValue::{V0, V1, X, Z};

fn vertex(name: &str, timestamp: i64, signal: Option<(&str, &str)>, value: Option<&str>)
    -> ExportablePDGNode {
    ExportablePDGNode {
        file: "Alu.scala".to_string(),
        line: 1,
        char: 0,
        name: name.to_string(),
        kind: PDGSpecNodeKind::Connection,
        clocked: false,
        related_signal: signal.map(|(s, f)| PDGSpecRelatedSignal {
            signal_path: s.to_string(),
            field_path: f.to_string(),
        }),
        sim_data: value.map(|v| v.to_string()),
        timestamp,
        is_chisel_assignment: true,
        instance_path: vec![],
    }
}

fn edge(from: u32, to: u32, kind: PDGSpecEdgeKind) -> ExportablePDGEdge {
    ExportablePDGEdge { from, to, kind, clocked: false }
}

fn graph() -> ExportablePDG {
    ExportablePDG {
        vertices: vec![
            vertex("out", 3, Some(("io_out", "")), Some("UInt<4> 1010")),
            vertex("sum", 2, Some(("sum", "bits")), Some("SInt<4> 1111")),
            vertex("sel", 2, None, Some("Bool 1")),
            vertex("in", -1, Some(("io_in", "")), None),
            vertex("loose", 0, None, None),
        ],
        edges: vec![
            edge(0, 1, PDGSpecEdgeKind::Data),
            edge(0, 2, PDGSpecEdgeKind::Conditional),
            edge(1, 3, PDGSpecEdgeKind::Data),
            edge(0, 1, PDGSpecEdgeKind::Data),
            edge(1, 3, PDGSpecEdgeKind::Index),
            edge(2, 3, PDGSpecEdgeKind::Declaration),
        ],
    }
}

#[test]
fn kinds_have_their_colours_and_shapes() {
    assert_eq!(NodeColour::from_kind(PDGSpecNodeKind::Connection).to_hex(), "#97C2FC");
    assert_eq!(NodeColour::from_kind(PDGSpecNodeKind::DataDefinition).to_hex(), "#97C2FC");
    assert_eq!(NodeColour::from_kind(PDGSpecNodeKind::ControlFlow).to_hex(), "#FB7E81");
    assert_eq!(NodeColour::from_kind(PDGSpecNodeKind::IO).to_hex(), "#7BE141");
    assert_eq!(NodeColour::from_kind(PDGSpecNodeKind::Definition).to_hex(), "#FFFF00");
    assert_eq!(NodeShape::from_kind(PDGSpecNodeKind::Connection), NodeShape::Ellipse);
    assert_eq!(NodeShape::from_kind(PDGSpecNodeKind::ControlFlow), NodeShape::Diamond);
    assert_eq!(NodeShape::from_kind(PDGSpecNodeKind::IO), NodeShape::Box);
    assert_eq!(EdgeColour::from_kind(PDGSpecEdgeKind::Data).to_hex(), "#97C2FC");
    assert_eq!(EdgeColour::from_kind(PDGSpecEdgeKind::Declaration).to_hex(), "#97C2FC");
    assert_eq!(EdgeColour::from_kind(PDGSpecEdgeKind::Conditional).to_hex(), "#FB7E81");
    assert_eq!(EdgeColour::from_kind(PDGSpecEdgeKind::Index).to_hex(), "#bc2dcc");
}

#[test]
fn the_signals_around_a_vertex_are_shown_once() {
    let g = graph();
    let shown = |edges: Vec<usize>, incoming: bool| -> Vec<(String, String, String)> {
        get_viewer_signals(&g, &edges, incoming)
            .into_iter()
            .map(|s| (s.name, s.value, s.connection_type))
            .collect()
    };
    let t = |a: &str, b: &str, c: &str| (a.to_string(), b.to_string(), c.to_string());
    assert_eq!(
        shown(vec![0, 1, 3], true),
        vec![t("sum [bits]", "-1", "data"), t("", "true", "controlflow")]
    );
    assert_eq!(
        shown(vec![2, 4, 5], true),
        vec![t("io_in", "", "data"), t("io_in", "", "index"), t("io_in", "", "")]
    );
    assert_eq!(shown(vec![0, 2], false), vec![t("io_out", "10", "data"), t("sum [bits]", "-1", "data")]);
    assert!(shown(vec![], true).is_empty());
}

#[test]
fn a_graph_for_viewing_shows_everything() {
    let g = ViewableGraph::new(graph(), vec![], false);
    assert_eq!(g.shown_ids, vec![true; 5]);
    assert_eq!(g.get_n_timeslots(), 3);
    assert_eq!(g.dep_to_edges, vec![vec![0, 1, 3], vec![2, 4], vec![5], vec![], vec![]]);
    assert_eq!(g.prov_to_edges, vec![vec![], vec![0, 3], vec![1], vec![2, 4, 5], vec![]]);
    let empty = ViewableGraph::new(ExportablePDG::empty(), vec![], false);
    assert_eq!(empty.get_n_timeslots(), 0);
    let early = ViewableGraph::new(
        ExportablePDG { vertices: vec![vertex("a", -1, None, None)], edges: vec![] },
        vec![],
        false,
    );
    assert_eq!(early.get_n_timeslots(), 0);
}

#[test]
fn a_new_head_shows_what_it_depends_on() {
    let mut g = ViewableGraph::new(graph(), vec![], false);
    g.set_new_head(1);
    assert_eq!(g.shown_ids, vec![false, true, false, true, false]);
    g.set_new_head(4);
    assert_eq!(g.shown_ids, vec![false, false, false, false, true]);
    // A number that names no vertex changes nothing.
    g.set_new_head(5);
    assert_eq!(g.shown_ids, vec![false, false, false, false, true]);
    g.set_new_head(0);
    assert_eq!(g.shown_ids, vec![true, true, true, true, false]);
    g.reset_head();
    assert_eq!(g.shown_ids, vec![true; 5]);
}

#[test]
fn a_session_starts_empty() {
    let state = AppState::new();
    assert!(state.pdg_config.is_none());
    assert!(state.graph.is_none());
}

fn var(reference: &str, code: u64) -> ScopeItem {
    ScopeItem::Var(Var { reference: reference.to_string(), code })
}

fn scope(identifier: &str, items: Vec<ScopeItem>) -> ScopeItem {
    ScopeItem::Scope(Scope { identifier: identifier.to_string(), items })
}

fn design(items: Vec<ScopeItem>) -> Header {
    Header { items: vec![scope("TOP", vec![scope("svsimTestbench", vec![scope("dut", items)])])] }
}

fn tick(rise: bool) -> TraceCommand {
    TraceCommand::ChangeVector(0, vec![if rise { V1 } else { V0 }])
}

#[test]
fn vectors_are_written_bit_by_bit() {
    assert_eq!(vector_text(&vec![V1, V0, X, Z, V1]), "10xz1");
    assert_eq!(vector_text(&vec![]), "");
}

#[test]
fn the_names_of_nested_scopes_run_together() {
    let header = design(vec![
        var("clock", 0),
        var("io_in", 1),
        scope("alu", vec![var("sum", 2), scope("core", vec![var("x", 3)])]),
        var("io_in", 4),
    ]);
    let root: Vec<String> = ["TOP", "svsimTestbench", "dut"].iter().map(|s| s.to_string()).collect();
    let signals: Vec<(u64, String)> =
        build_signal_map(&header, &root).into_iter().map(|s| (s.code, s.name)).collect();
    assert_eq!(
        signals,
        vec![
            (0, "clock".to_string()),
            (1, "io_in".to_string()),
            (2, "alu.sum".to_string()),
            (3, "alucore.x".to_string()),
            (4, "io_in".to_string()),
        ]
    );
    assert!(build_signal_map(&header, &vec!["TOP".to_string(), "dut".to_string()]).is_empty());
}

#[test]
fn vertices_are_given_the_values_of_their_cycle() {
    let header = design(vec![var("clock", 0), var("io_in", 1), var("sum", 2), var("io_out", 3)]);
    let pdg = ExportablePDG {
        vertices: vec![
            vertex("in0", 0, Some(("io_in", "")), None),
            vertex("sum0", 0, Some(("sum", "bits")), None),
            vertex("out1", 1, Some(("io_out", "")), None),
            vertex("in1", 1, Some(("io_in", "")), None),
            vertex("before", -1, Some(("io_in", "")), None),
            vertex("stray", 0, Some(("nothing", "")), None),
            vertex("bare", 0, None, None),
        ],
        edges: vec![],
    };
    let set = |id: u64, bits: Vec<LogicValue>| TraceCommand::ChangeVector(id, bits);
    let commands = vec![
        TraceCommand::Timestamp(0),
        tick(false),
        set(1, vec![V0, V1]),
        TraceCommand::ChangeScalar(2, V1),
        // No edge yet: the vertices before the first cycle are given what is known.
        TraceCommand::Timestamp(1),
        tick(true),
        set(1, vec![V1, V1]),
        set(2, vec![X]),
        // After the first rising edge: the vertices of cycle zero.
        TraceCommand::Timestamp(2),
        tick(false),
        set(3, vec![V1]),
        set(1, vec![V0, V0]),
        set(1, vec![V1, V0]),
        // No edge: the vertices of the cycle before are given their values once more.
        TraceCommand::Timestamp(3),
        tick(true),
        // After the second rising edge: the vertices of cycle one.
        TraceCommand::Timestamp(4),
        set(1, vec![Z]),
    ];
    let plan: Vec<(usize, String)> = plan_injection(&pdg, &header, &commands)
        .unwrap()
        .into_iter()
        .map(|i| (i.node, i.value))
        .collect();
    let v = |n: usize, s: &str| (n, s.to_string());
    assert_eq!(
        plan,
        vec![
            v(4, "01"),
            v(0, "11"),
            v(1, "x"),
            v(0, "10"),
            v(1, "x"),
            v(2, "1"),
            v(3, "10"),
        ]
    );
}

#[test]
fn a_trace_without_the_clock_of_the_design_gives_no_values() {
    let pdg = ExportablePDG::empty();
    let header = design(vec![var("io_in", 1)]);
    match plan_injection(&pdg, &header, &vec![]) {
        Err(Error::ClockNotFoundError) => {}
        other => panic!("unexpected outcome: {:?}", other),
    }
    let header = design(vec![var("clock", 0)]);
    match plan_injection(&pdg, &header, &vec![TraceCommand::ChangeVector(0, vec![])]) {
        Err(Error::MalformedVCD) => {}
        other => panic!("unexpected outcome: {:?}", other),
    }
    assert!(plan_injection(&pdg, &header, &vec![]).unwrap().is_empty());
}

#[test]
fn the_signal_of_a_vertex_has_its_route() {
    let node = vertex("sum0", 0, Some(("alu.sum", "bits.low")), None);
    let (signal, field) = signal_route(&node).unwrap();
    assert_eq!(signal, vec!["TOP", "svsimTestbench", "dut", "alu", "sum"]);
    assert_eq!(field, vec!["bits", "low"]);
    let (_, field) = signal_route(&vertex("in", 0, Some(("io_in", "")), None)).unwrap();
    assert_eq!(field, vec![""]);
    assert!(signal_route(&vertex("bare", 0, None, None)).is_none());
}

#[test]
fn a_session_starts_at_the_loading_page() {
    assert_eq!(chiseltrace_rs::viewer::get_initial_route(), "/loading_screen");
    let state = AppState::new();
    assert!(state.pdg_config.is_none() && state.graph.is_none());
}
