use chiseltrace_rs::lines::{pdg_convert, same_edge};
use chiseltrace_rs::pdg_spec::{
    CFGSpecStatement, ExportablePDG, PDGSpec, PDGSpecCondition, PDGSpecEdge, PDGSpecEdgeKind,
    PDGSpecNode, PDGSpecNodeKind,
};

fn statement(name: &str, file: &str, line: u32, kind: PDGSpecNodeKind) -> PDGSpecNode {
    PDGSpecNode {
        file: file.to_string(),
        line,
        char: 3,
        name: name.to_string(),
        kind,
        clocked: false,
        related_signal: None,
        assigns_to: Some(name.to_string()),
        is_chisel_statement: false,
        condition: None,
        assign_delay: 0,
    }
}

fn edge(from: u32, to: u32, kind: PDGSpecEdgeKind, clocked: bool) -> PDGSpecEdge {
    PDGSpecEdge { from, to, kind, clocked, condition: None }
}

fn guarded(from: u32, to: u32, probe: &str, value: u64) -> PDGSpecEdge {
    PDGSpecEdge {
        from,
        to,
        kind: PDGSpecEdgeKind::Data,
        clocked: false,
        condition: Some(PDGSpecCondition {
            probe_name: vec![probe.to_string()],
            probe_value: vec![value],
        }),
    }
}

fn design() -> PDGSpec {
    PDGSpec {
        vertices: vec![
            statement("x", "src/A.scala", 1, PDGSpecNodeKind::Definition),
            statement("y", "src/A.scala", 2, PDGSpecNodeKind::Connection),
            statement("when", "src/A.scala", 1, PDGSpecNodeKind::ControlFlow),
            statement("io", "B.scala", 1, PDGSpecNodeKind::IO),
            statement("r", "src/A.scala", 2, PDGSpecNodeKind::DataDefinition),
        ],
        edges: vec![
            edge(0, 1, PDGSpecEdgeKind::Data, false),
            edge(2, 4, PDGSpecEdgeKind::Data, false),
            edge(0, 2, PDGSpecEdgeKind::Data, false),
            edge(1, 4, PDGSpecEdgeKind::Data, true),
            edge(3, 3, PDGSpecEdgeKind::Data, true),
            edge(3, 0, PDGSpecEdgeKind::Index, false),
        ],
        predicates: vec![statement("p", "P.scala", 9, PDGSpecNodeKind::ControlFlow)],
        cfg: vec![CFGSpecStatement {
            stmt_ref: 4,
            pred_stmt_ref: None,
            true_branch: None,
            false_branch: None,
        }],
    }
}

#[test]
fn the_statements_of_a_line_become_one_vertex() {
    let lines = pdg_convert(design());
    let seen: Vec<(String, PDGSpecNodeKind, String, u32)> = lines
        .vertices
        .iter()
        .map(|v| (v.name.clone(), v.kind, v.file.clone(), v.line))
        .collect();
    assert_eq!(
        seen,
        vec![
            ("A.scala:1".to_string(), PDGSpecNodeKind::ControlFlow, "src/A.scala".to_string(), 1),
            ("A.scala:2".to_string(), PDGSpecNodeKind::Connection, "src/A.scala".to_string(), 2),
            ("B.scala:1".to_string(), PDGSpecNodeKind::IO, "B.scala".to_string(), 1),
        ]
    );
    // The other fields are those of the first statement of the line.
    assert_eq!(lines.vertices[0].assigns_to, Some("x".to_string()));
    assert_eq!(lines.vertices[1].assigns_to, Some("y".to_string()));
    assert_eq!(lines.vertices[0].char, 3);
    assert_eq!(lines.predicates.len(), 1);
    assert_eq!(lines.predicates[0].name, "p");
    assert_eq!(lines.cfg.len(), 1);
    assert_eq!(lines.cfg[0].stmt_ref, 4);
}

#[test]
fn edges_between_lines_are_kept_once() {
    let lines = pdg_convert(design());
    assert_eq!(
        lines.edges,
        vec![
            edge(0, 1, PDGSpecEdgeKind::Data, false),
            edge(2, 0, PDGSpecEdgeKind::Index, false),
            // The clocked data edge inside the second line, whose first statement
            // stands at position one.
            edge(1, 1, PDGSpecEdgeKind::Data, true),
        ]
    );
}

#[test]
fn edges_with_other_conditions_are_other_edges() {
    let mut pdg = design();
    pdg.edges = vec![
        guarded(0, 1, "probe_a", 1),
        guarded(2, 4, "probe_a", 1),
        guarded(0, 1, "probe_a", 0),
        guarded(0, 1, "probe_b", 1),
        edge(0, 1, PDGSpecEdgeKind::Data, false),
    ];
    let lines = pdg_convert(pdg);
    assert_eq!(
        lines.edges,
        vec![
            guarded(0, 1, "probe_a", 1),
            guarded(0, 1, "probe_a", 0),
            guarded(0, 1, "probe_b", 1),
            edge(0, 1, PDGSpecEdgeKind::Data, false),
        ]
    );
    assert!(same_edge(&guarded(0, 1, "probe_a", 1), &guarded(0, 1, "probe_a", 1)));
    assert!(!same_edge(&guarded(0, 1, "probe_a", 1), &guarded(0, 1, "probe_a", 2)));
    assert!(!same_edge(&guarded(0, 1, "probe_a", 1), &edge(0, 1, PDGSpecEdgeKind::Data, false)));
}

#[test]
fn a_graph_without_statements_has_no_lines() {
    let lines = pdg_convert(PDGSpec {
        vertices: vec![],
        edges: vec![],
        predicates: vec![],
        cfg: vec![],
    });
    assert!(lines.vertices.is_empty() && lines.edges.is_empty());
}

#[test]
fn a_static_graph_is_exported_at_time_zero() {
    let exported = ExportablePDG::from_pdg(&design());
    assert_eq!(exported.vertices.len(), 5);
    assert!(exported.vertices.iter().all(|v| v.timestamp == 0 && v.sim_data.is_none()));
    assert_eq!(exported.vertices[3].name, "io");
    assert_eq!(exported.vertices[3].kind, PDGSpecNodeKind::IO);
    assert_eq!(exported.edges.len(), 6);
    assert_eq!((exported.edges[3].from, exported.edges[3].to), (1, 4));
    assert!(exported.edges[3].clocked);
    let none = PDGSpec::_empty();
    assert!(none.vertices.is_empty() && none.edges.is_empty());
    assert!(none.predicates.is_empty() && none.cfg.is_empty());
}
