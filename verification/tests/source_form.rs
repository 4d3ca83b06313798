use chiseltrace_rs::conversion::pdg_convert_to_source;
use chiseltrace_rs::pdg_spec::{
    ExportablePDG, ExportablePDGEdge, ExportablePDGNode, PDGSpecEdgeKind, PDGSpecNodeKind,
};

use PDGSpecEdgeKind::{Conditional, Data, Index};

fn vertex(name: &str, line: u32, kind: PDGSpecNodeKind, chisel: bool) -> ExportablePDGNode {
    ExportablePDGNode {
        file: "src/main/scala/Alu.scala".to_string(),
        line,
        char: 3,
        name: name.to_string(),
        kind,
        clocked: false,
        related_signal: None,
        sim_data: None,
        timestamp: 0,
        is_chisel_assignment: chisel,
        instance_path: vec![],
    }
}

fn edge(from: u32, to: u32, kind: PDGSpecEdgeKind) -> ExportablePDGEdge {
    ExportablePDGEdge { from, to, kind, clocked: false }
}

fn names(pdg: &ExportablePDG) -> Vec<&str> {
    pdg.vertices.iter().map(|v| v.name.as_str()).collect()
}

fn ends(pdg: &ExportablePDG) -> Vec<(u32, u32, PDGSpecEdgeKind, bool)> {
    pdg.edges.iter().map(|e| (e.from, e.to, e.kind, e.clocked)).collect()
}

#[test]
fn vertices_of_one_statement_become_one() {
    let pdg = ExportablePDG {
        vertices: vec![
            vertex("connect_x", 10, PDGSpecNodeKind::Connection, true),
            vertex("_T_1", 10, PDGSpecNodeKind::Definition, false),
            vertex("io_y", 20, PDGSpecNodeKind::IO, true),
            vertex("_T_2", 10, PDGSpecNodeKind::Definition, false),
        ],
        edges: vec![
            edge(0, 1, Data),
            edge(0, 2, Data),
            edge(1, 2, Data),
            edge(3, 1, Conditional),
            edge(0, 2, Data),
        ],
    };
    let r = pdg_convert_to_source(pdg, false, true);
    // All of line 10 hangs together: the edge from 3 to 1 joins the last vertex to the part.
    assert_eq!(names(&r), vec!["connect_x", "io_y"]);
    assert_eq!(r.vertices[0].kind, PDGSpecNodeKind::Connection);
    assert_eq!(r.vertices[0].line, 10);
    assert_eq!(ends(&r), vec![(0, 1, Data, false)]);
}

#[test]
fn vertices_that_do_not_hang_together_stay_apart() {
    let pdg = ExportablePDG {
        vertices: vec![
            vertex("a", 10, PDGSpecNodeKind::Connection, true),
            vertex("b", 10, PDGSpecNodeKind::ControlFlow, true),
            vertex("c", 30, PDGSpecNodeKind::IO, true),
        ],
        edges: vec![edge(0, 2, Data), edge(1, 2, Conditional), edge(1, 0, Index)],
    };
    let r = pdg_convert_to_source(pdg, false, true);
    // An index edge holds nothing together; it stands for an index dependence on what its
    // target reads.
    assert_eq!(names(&r), vec!["a", "b", "c"]);
    assert_eq!(
        ends(&r),
        vec![(0, 2, Data, false), (1, 2, Conditional, false), (1, 2, Index, false)]
    );
}

#[test]
fn the_group_time_of_a_wire_is_the_step_after_its_own() {
    let mut reg = vertex("reg", 10, PDGSpecNodeKind::Connection, true);
    reg.clocked = true;
    reg.timestamp = 4;
    let mut wire = vertex("_T", 10, PDGSpecNodeKind::Definition, false);
    wire.timestamp = 3;
    let mut late = vertex("_U", 10, PDGSpecNodeKind::Definition, false);
    late.timestamp = 4;
    let pdg = ExportablePDG {
        vertices: vec![reg, wire, late],
        edges: vec![edge(0, 1, Data), edge(0, 2, Data)],
    };
    let r = pdg_convert_to_source(pdg, false, true);
    // The wire of time 3 goes with the register of time 4; the wire of time 4 does not.
    assert_eq!(names(&r), vec!["reg", "Alu.scala:10"]);
    assert_eq!(r.vertices[0].timestamp, 4);
    assert_eq!(r.vertices[1].timestamp, 4);
    // The edge carries the clocked bit of the part that it leaves.
    assert_eq!(ends(&r), vec![(0, 1, Data, true)]);
}

#[test]
fn index_edges_lead_past_probes() {
    let pdg = ExportablePDG {
        vertices: vec![
            vertex("read", 1, PDGSpecNodeKind::Connection, true),
            vertex("defnode_probe_idx", 2, PDGSpecNodeKind::Definition, false),
            vertex("addr", 3, PDGSpecNodeKind::Connection, true),
            vertex("defnode_probe_inner", 4, PDGSpecNodeKind::Definition, false),
            vertex("base", 5, PDGSpecNodeKind::Connection, true),
        ],
        edges: vec![
            edge(0, 1, Index),
            edge(1, 2, Data),
            edge(1, 3, Index),
            edge(3, 4, Data),
            edge(0, 4, Data),
        ],
    };
    let r = pdg_convert_to_source(pdg, false, true);
    assert_eq!(names(&r), vec!["read", "addr", "base"]);
    // The probe of the probe is chased too; the edges that leave probes are gone.
    assert_eq!(ends(&r), vec![(0, 1, Index, false), (0, 2, Index, false), (0, 2, Data, false)]);
}

#[test]
fn index_edges_that_run_in_a_circle_are_chased_once() {
    let pdg = ExportablePDG {
        vertices: vec![
            vertex("read", 1, PDGSpecNodeKind::Connection, true),
            vertex("defnode_probe_a", 2, PDGSpecNodeKind::Definition, false),
            vertex("defnode_probe_b", 3, PDGSpecNodeKind::Definition, false),
            vertex("addr", 4, PDGSpecNodeKind::Connection, true),
        ],
        edges: vec![
            edge(0, 1, Index),
            edge(1, 2, Index),
            edge(2, 1, Index),
            edge(2, 3, Data),
        ],
    };
    let r = pdg_convert_to_source(pdg, false, false);
    assert_eq!(names(&r), vec!["read", "addr"]);
    assert_eq!(ends(&r), vec![(0, 1, Index, false)]);
}

#[test]
fn names_can_be_verbose() {
    let mut stmt = vertex("connect_x", 10, PDGSpecNodeKind::Connection, true);
    stmt.timestamp = -1;
    stmt.clocked = true;
    let pdg = ExportablePDG {
        vertices: vec![stmt, vertex("_T", 12, PDGSpecNodeKind::DataDefinition, false)],
        edges: vec![edge(0, 1, Data)],
    };
    let r = pdg_convert_to_source(pdg, true, true);
    assert_eq!(names(&r), vec!["connect_x at t=-1 (Alu.scala:10)", "Alu.scala:12"]);
    assert_eq!(r.vertices[1].kind, PDGSpecNodeKind::Connection);
}

#[test]
fn generated_parts_take_their_kind_from_their_members() {
    let pdg = ExportablePDG {
        vertices: vec![
            vertex("_a", 1, PDGSpecNodeKind::ControlFlow, false),
            vertex("_b", 1, PDGSpecNodeKind::IO, false),
            vertex("_c", 2, PDGSpecNodeKind::ControlFlow, false),
            vertex("_d", 3, PDGSpecNodeKind::Definition, false),
            vertex("_e", 4, PDGSpecNodeKind::ControlFlow, false),
            vertex("_f", 4, PDGSpecNodeKind::DataDefinition, false),
        ],
        edges: vec![edge(0, 1, Data), edge(4, 5, Data)],
    };
    let r = pdg_convert_to_source(pdg, false, true);
    let kinds: Vec<PDGSpecNodeKind> = r.vertices.iter().map(|v| v.kind).collect();
    assert_eq!(
        kinds,
        vec![
            PDGSpecNodeKind::IO,
            PDGSpecNodeKind::ControlFlow,
            PDGSpecNodeKind::Definition,
            PDGSpecNodeKind::Connection,
        ]
    );
    assert_eq!(names(&r), vec!["Alu.scala:1", "Alu.scala:2", "Alu.scala:3", "Alu.scala:4"]);
}

#[test]
fn a_static_part_with_a_clocked_circle_depends_on_itself() {
    let circle = || ExportablePDG {
        vertices: vec![
            vertex("a", 10, PDGSpecNodeKind::Connection, true),
            vertex("b", 10, PDGSpecNodeKind::Connection, false),
            vertex("c", 11, PDGSpecNodeKind::Connection, true),
            vertex("d", 11, PDGSpecNodeKind::Connection, false),
        ],
        edges: vec![
            ExportablePDGEdge { from: 0, to: 1, kind: Data, clocked: true },
            edge(1, 0, Data),
            edge(2, 3, Data),
            edge(3, 2, Data),
            edge(0, 2, Data),
        ],
    };
    let r = pdg_convert_to_source(circle(), false, false);
    assert_eq!(names(&r), vec!["a", "c"]);
    // The circle of line 11 passes no clocked edge. The bit of the new edge is that of its part.
    assert_eq!(ends(&r), vec![(0, 1, Data, false), (0, 0, Data, false)]);
    // A dynamic graph has no circles to look for.
    let r = pdg_convert_to_source(circle(), false, true);
    assert_eq!(ends(&r), vec![(0, 1, Data, false)]);
}

#[test]
fn generated_vertices_that_repeat_each_other_are_taken_out() {
    let pdg = ExportablePDG {
        vertices: vec![
            vertex("_lut_0", 5, PDGSpecNodeKind::Connection, false),
            vertex("_lut_1", 5, PDGSpecNodeKind::Connection, false),
            vertex("table", 7, PDGSpecNodeKind::Connection, true),
            vertex("_lut_2", 5, PDGSpecNodeKind::Connection, false),
            vertex("other", 8, PDGSpecNodeKind::Connection, true),
            vertex("user", 9, PDGSpecNodeKind::Connection, true),
        ],
        edges: vec![
            edge(0, 2, Data),
            edge(1, 2, Data),
            edge(3, 2, Data),
            edge(3, 4, Data),
            edge(5, 1, Data),
            edge(5, 3, Data),
        ],
    };
    let r = pdg_convert_to_source(pdg, false, true);
    // The parts of one place follow each other. The second vertex of line 5 repeats the
    // first and goes, with the edge that arrived at it. The third depends on more than the
    // first and stays.
    assert_eq!(names(&r), vec!["Alu.scala:5", "Alu.scala:5", "table", "other", "user"]);
    assert_eq!(
        ends(&r),
        vec![(0, 2, Data, false), (1, 2, Data, false), (1, 3, Data, false), (4, 1, Data, false)]
    );
}

#[test]
fn the_empty_graph_stays_empty() {
    let r = pdg_convert_to_source(ExportablePDG::empty(), true, false);
    assert!(r.vertices.is_empty());
    assert!(r.edges.is_empty());
}
