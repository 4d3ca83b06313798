use chiseltrace_rs::hierarchy::{
    build_node_hierarchy, create_hier_pdg_node, get_highest_hier_node, highest_collapsed,
    toggle_module, NodeHierarchy,
};
use chiseltrace_rs::pdg_spec::{
    ExportablePDG, ExportablePDGEdge, ExportablePDGNode, PDGSpecEdgeKind, PDGSpecNodeKind,
    PDGSpecRelatedSignal,
};
use chiseltrace_rs::regroup::{rebuild_hier_graph, same_vertex};
use chiseltrace_rs::viewer::{
    advance_times, goto_argument, read_path, source_paths, NodeColour, NodeShape, SourceFile,
    ViewableGraph,
};
use chiseltrace_rs::window::{code_line, get_partial_graph, ViewerEdge, ViewerNode};

fn placed(name: &str, timestamp: i64, path: &[&str]) -> ExportablePDGNode {
    ExportablePDGNode {
        file: "Core.scala".to_string(),
        line: 2,
        char: 0,
        name: name.to_string(),
        kind: PDGSpecNodeKind::Connection,
        clocked: false,
        related_signal: None,
        sim_data: None,
        timestamp,
        is_chisel_assignment: true,
        instance_path: path.iter().map(|p| p.to_string()).collect(),
    }
}

fn edge(from: u32, to: u32, kind: PDGSpecEdgeKind) -> ExportablePDGEdge {
    ExportablePDGEdge { from, to, kind, clocked: false }
}

fn design() -> ExportablePDG {
    ExportablePDG {
        vertices: vec![
            placed("a", 1, &["core"]),
            placed("b", 1, &["core", "alu"]),
            placed("c", 1, &[]),
            placed("d", 0, &["core", "alu"]),
            placed("e", 0, &["mem"]),
        ],
        edges: vec![
            edge(0, 1, PDGSpecEdgeKind::Data),
            edge(1, 3, PDGSpecEdgeKind::Data),
            edge(2, 0, PDGSpecEdgeKind::Data),
            edge(0, 4, PDGSpecEdgeKind::Index),
            edge(1, 3, PDGSpecEdgeKind::Data),
        ],
    }
}

fn names(h: &NodeHierarchy) -> Vec<String> {
    h.groups.iter().map(|g| g.instance_name.clone()).collect()
}

fn ends(edges: &[ExportablePDGEdge]) -> Vec<(u32, u32, PDGSpecEdgeKind)> {
    edges.iter().map(|e| (e.from, e.to, e.kind)).collect()
}

#[test]
fn the_vertex_of_a_group_is_a_definition_without_a_place() {
    let v = create_hier_pdg_node("module_alu".to_string(), 4, vec!["core".to_string()]);
    assert_eq!(v.file, "");
    assert_eq!((v.line, v.char), (0, 0));
    assert_eq!(v.name, "module_alu");
    assert_eq!(v.kind, PDGSpecNodeKind::Definition);
    assert!(!v.clocked && !v.is_chisel_assignment);
    assert!(v.related_signal.is_none() && v.sim_data.is_none());
    assert_eq!(v.timestamp, 4);
    assert_eq!(v.instance_path, vec!["core".to_string()]);
}

#[test]
fn every_time_gets_a_tree_of_groups() {
    let h = build_node_hierarchy(&design());
    assert_eq!(names(&h), vec!["top", "mem", "core", "alu", "top", "core", "alu"]);
    assert_eq!(h.tops, vec![0, 4]);
    assert_eq!(h.lookup, vec![Some(5), Some(6), Some(4), Some(3), Some(1)]);
    let parents: Vec<Option<usize>> = h.groups.iter().map(|g| g.parent).collect();
    assert_eq!(parents, vec![None, Some(0), Some(0), Some(2), None, Some(4), Some(5)]);
    let children: Vec<Vec<usize>> = h.groups.iter().map(|g| g.children.clone()).collect();
    assert_eq!(
        children,
        vec![vec![1, 2], vec![], vec![3], vec![], vec![5], vec![6], vec![]]
    );
    let members: Vec<Vec<usize>> = h.groups.iter().map(|g| g.node_indices.clone()).collect();
    assert_eq!(members, vec![vec![], vec![4], vec![], vec![3], vec![2], vec![0], vec![1]]);
    // The groups are numbered behind five times the number of vertices.
    let ids: Vec<usize> = h.groups.iter().map(|g| g.group_id).collect();
    assert_eq!(ids, vec![25, 26, 27, 28, 29, 30, 31]);
    let expanded: Vec<bool> = h.groups.iter().map(|g| g.expanded).collect();
    assert_eq!(expanded, vec![true, false, false, false, true, false, false]);
    assert_eq!(h.groups[3].pdg_node.name, "module_alu");
    assert_eq!(h.groups[3].pdg_node.timestamp, 0);
    assert_eq!(h.groups[3].pdg_node.instance_path, vec!["core".to_string(), "alu".to_string()]);
    assert_eq!(h.groups[4].pdg_node.name, "module_top");
    assert_eq!(h.groups[4].pdg_node.timestamp, 1);
    assert!(h.groups[4].pdg_node.instance_path.is_empty());
}

#[test]
fn a_graph_without_times_has_no_groups() {
    let h = build_node_hierarchy(&ExportablePDG::empty());
    assert!(h.groups.is_empty() && h.tops.is_empty() && h.lookup.is_empty());
    let early = build_node_hierarchy(&ExportablePDG {
        vertices: vec![placed("a", -1, &["core"])],
        edges: vec![],
    });
    assert!(early.groups.is_empty() && early.tops.is_empty());
    assert_eq!(early.lookup, vec![None]);
}

#[test]
fn a_path_that_ends_in_an_empty_name_makes_no_group() {
    let h = build_node_hierarchy(&ExportablePDG {
        vertices: vec![placed("a", 0, &["core", ""]), placed("b", 0, &[""])],
        edges: vec![],
    });
    assert_eq!(names(&h), vec!["top"]);
    // The walk of the first vertex ends where `core` names no group.
    assert_eq!(h.lookup, vec![Some(0), Some(0)]);
    assert_eq!(h.groups[0].node_indices, vec![0, 1]);
}

#[test]
fn the_same_path_is_entered_once_and_shorter_paths_first() {
    let h = build_node_hierarchy(&ExportablePDG {
        vertices: vec![
            placed("a", 0, &["x", "y", "z"]),
            placed("b", 0, &["x", "y", "z"]),
            placed("c", 0, &["w"]),
            placed("d", 0, &["x"]),
        ],
        edges: vec![],
    });
    assert_eq!(names(&h), vec!["top", "w", "x", "y", "z"]);
    assert_eq!(h.lookup, vec![Some(4), Some(4), Some(1), Some(2)]);
    assert_eq!(h.groups[4].node_indices, vec![0, 1]);
}

#[test]
fn the_outermost_collapsed_group_stands_for_its_members() {
    let mut h = build_node_hierarchy(&design());
    assert_eq!(highest_collapsed(&h, 6), Some(5));
    assert_eq!(highest_collapsed(&h, 5), Some(5));
    assert_eq!(highest_collapsed(&h, 4), None);
    assert_eq!(highest_collapsed(&h, 3), Some(2));
    assert_eq!(get_highest_hier_node(&h, 6).map(|v| v.name), Some("module_core".to_string()));
    assert!(get_highest_hier_node(&h, 0).is_none());
    h.groups[5].expanded = true;
    assert_eq!(highest_collapsed(&h, 6), Some(6));
    assert_eq!(highest_collapsed(&h, 5), None);
    h.groups[6].expanded = true;
    assert_eq!(highest_collapsed(&h, 6), None);
}

#[test]
fn a_group_is_toggled_by_its_path() {
    let path = |parts: &[&str]| -> Vec<String> { parts.iter().map(|p| p.to_string()).collect() };
    let mut h = build_node_hierarchy(&design());
    assert!(toggle_module(&mut h, &path(&["core", "alu"]), 1));
    assert!(h.groups[6].expanded);
    assert!(!h.groups[3].expanded);
    assert!(toggle_module(&mut h, &path(&["core", "alu"]), 1));
    assert!(!h.groups[6].expanded);
    assert!(toggle_module(&mut h, &path(&["mem"]), 0));
    assert!(h.groups[1].expanded);
    // No such group, no such time, no path.
    assert!(!toggle_module(&mut h, &path(&["mem"]), 1));
    assert!(!toggle_module(&mut h, &path(&["core"]), 2));
    assert!(!toggle_module(&mut h, &path(&["core"]), -1));
    assert!(!toggle_module(&mut h, &path(&[]), 0));
    assert!(!toggle_module(&mut h, &path(&["", "core"]), 0));
    let expanded: Vec<bool> = h.groups.iter().map(|g| g.expanded).collect();
    assert_eq!(expanded, vec![true, true, false, false, true, false, false]);
}

#[test]
fn vertices_are_compared_in_every_field() {
    let a = placed("a", 1, &["core"]);
    assert!(same_vertex(&a, &placed("a", 1, &["core"])));
    assert!(!same_vertex(&a, &placed("a", 2, &["core"])));
    assert!(!same_vertex(&a, &placed("b", 1, &["core"])));
    assert!(!same_vertex(&a, &placed("a", 1, &["core", "alu"])));
    assert!(!same_vertex(&a, &placed("a", 1, &["cora"])));
    let mut b = placed("a", 1, &["core"]);
    b.sim_data = Some("1".to_string());
    assert!(!same_vertex(&a, &b));
    let mut c = placed("a", 1, &["core"]);
    c.related_signal =
        Some(PDGSpecRelatedSignal { signal_path: "s".to_string(), field_path: "".to_string() });
    assert!(!same_vertex(&a, &c));
    assert!(same_vertex(&c, &c));
}

#[test]
fn collapsed_groups_are_shown_as_one_vertex() {
    let g = design();
    let h = build_node_hierarchy(&g);
    let shown = rebuild_hier_graph(&g, &h);
    let labels: Vec<(String, i64)> =
        shown.dpdg.vertices.iter().map(|v| (v.name.clone(), v.timestamp)).collect();
    assert_eq!(
        labels,
        vec![
            ("module_core".to_string(), 1),
            ("module_core".to_string(), 0),
            ("c".to_string(), 1),
            ("module_mem".to_string(), 0),
        ]
    );
    assert_eq!(shown.original_ids, vec![30, 28, 2, 26]);
    assert_eq!(shown.group_ids, vec![Some(5), Some(3), None, Some(1)]);
    assert_eq!(
        ends(&shown.dpdg.edges),
        vec![
            (0, 1, PDGSpecEdgeKind::Data),
            (2, 0, PDGSpecEdgeKind::Data),
            (0, 3, PDGSpecEdgeKind::Index),
        ]
    );
    assert_eq!(shown.dep_to_edges, vec![vec![0, 2], vec![], vec![1], vec![]]);
    assert_eq!(shown.prov_to_edges, vec![vec![1], vec![0], vec![], vec![2]]);
}

#[test]
fn an_expanded_group_shows_its_members() {
    let mut graph = ViewableGraph::new(design(), vec![], true);
    graph.toggle_module(&vec!["core".to_string()], 1);
    let shown = graph.current_hier_dpdg.as_ref().unwrap();
    let labels: Vec<String> = shown.dpdg.vertices.iter().map(|v| v.name.clone()).collect();
    assert_eq!(labels, vec!["a", "module_alu", "module_core", "c", "module_mem"]);
    assert_eq!(shown.original_ids, vec![0, 31, 28, 2, 26]);
    assert_eq!(shown.group_ids, vec![None, Some(6), Some(3), None, Some(1)]);
    assert_eq!(
        ends(&shown.dpdg.edges),
        vec![
            (0, 1, PDGSpecEdgeKind::Data),
            (1, 2, PDGSpecEdgeKind::Data),
            (3, 0, PDGSpecEdgeKind::Data),
            (0, 4, PDGSpecEdgeKind::Index),
        ]
    );
    // A path that names no group changes nothing.
    graph.toggle_module(&vec!["alu".to_string()], 1);
    let same = graph.current_hier_dpdg.as_ref().unwrap();
    assert_eq!(same.original_ids, vec![0, 31, 28, 2, 26]);
    // Without groups nothing is toggled.
    let mut plain = ViewableGraph::new(design(), vec![], false);
    plain.toggle_module(&vec!["core".to_string()], 1);
    assert!(plain.node_hierarchy.is_none() && plain.current_hier_dpdg.is_none());
}

fn node_line(v: &ViewerNode) -> (u64, String, String, u64, bool) {
    (v.id, v.label.clone(), v.group.clone(), v.timestamp, v.long_distance)
}

fn edge_line(e: &ViewerEdge) -> (u64, u64, String, String) {
    (e.from, e.to, e.color.to_hex(), e.label.clone())
}

fn signal_lines(v: &ViewerNode) -> (Vec<(String, String, String)>, Vec<(String, String, String)>) {
    let lines = |list: &Vec<chiseltrace_rs::viewer::ViewerSignal>| {
        list.iter()
            .map(|s| (s.name.clone(), s.value.clone(), s.connection_type.clone()))
            .collect::<Vec<_>>()
    };
    (lines(&v.incoming), lines(&v.outgoing))
}

#[test]
fn the_groups_are_drawn_in_their_columns() {
    let graph = ViewableGraph::new(design(), vec![], true);
    let drawn = get_partial_graph(&graph, 0, 1).unwrap();
    let nodes: Vec<_> = drawn.vertices.iter().map(node_line).collect();
    assert_eq!(
        nodes,
        vec![
            (28, "module_core".to_string(), "t1".to_string(), 0, false),
            (26, "module_mem".to_string(), "t1".to_string(), 0, false),
            (30, "module_core".to_string(), "t0".to_string(), 1, false),
            (2, "c".to_string(), "t0".to_string(), 1, false),
        ]
    );
    let edges: Vec<_> = drawn.edges.iter().map(edge_line).collect();
    assert_eq!(
        edges,
        vec![
            (30, 28, "#97C2FC".to_string(), "".to_string()),
            (30, 26, "#bc2dcc".to_string(), "".to_string()),
            (2, 30, "#97C2FC".to_string(), "".to_string()),
        ]
    );
    let t = |c: &str| ("".to_string(), "".to_string(), c.to_string());
    assert_eq!(signal_lines(&drawn.vertices[0]), (vec![], vec![t("data")]));
    assert_eq!(signal_lines(&drawn.vertices[2]), (vec![t("data"), t("index")], vec![t("data")]));
    assert_eq!(drawn.vertices[0].color, NodeColour::Yellow);
    assert_eq!(drawn.vertices[0].shape, NodeShape::Box);
    assert_eq!(drawn.vertices[0].instance_path, vec!["core".to_string()]);
    assert_eq!(drawn.vertices[3].shape, NodeShape::Ellipse);
    assert!(drawn.edges.iter().all(|e| e.arrows == "to" && !e.dotted));
    // Only the first column.
    let first = get_partial_graph(&graph, 0, 0).unwrap();
    assert_eq!(first.vertices.len(), 2);
    assert!(first.edges.is_empty());
    // An empty range.
    let none = get_partial_graph(&graph, 1, 0).unwrap();
    assert!(none.vertices.is_empty() && none.edges.is_empty());
}

#[test]
fn a_group_without_a_shown_vertex_is_not_drawn() {
    let mut graph = ViewableGraph::new(design(), vec![], true);
    // Vertex 4 depends on nothing: only the group of `mem` has a shown vertex.
    graph.set_new_head(4);
    let drawn = get_partial_graph(&graph, 0, 1).unwrap();
    let nodes: Vec<_> = drawn.vertices.iter().map(node_line).collect();
    assert_eq!(nodes, vec![(26, "module_mem".to_string(), "t1".to_string(), 0, false)]);
    assert!(drawn.edges.is_empty());
}

#[test]
fn groups_that_are_asked_for_and_not_made_draw_nothing() {
    let mut graph = ViewableGraph::new(design(), vec![], false);
    graph.should_group_nodes = true;
    assert!(get_partial_graph(&graph, 0, 1).is_none());
}

fn valued(name: &str, timestamp: i64, line: u32, value: Option<&str>) -> ExportablePDGNode {
    ExportablePDGNode {
        file: if line == 9 { "Other.scala".to_string() } else { "Alu.scala".to_string() },
        line,
        char: 0,
        name: name.to_string(),
        kind: if name == "when" { PDGSpecNodeKind::ControlFlow } else { PDGSpecNodeKind::IO },
        clocked: false,
        related_signal: Some(PDGSpecRelatedSignal {
            signal_path: name.to_string(),
            field_path: "".to_string(),
        }),
        sim_data: value.map(|v| v.to_string()),
        timestamp,
        is_chisel_assignment: true,
        instance_path: vec![],
    }
}

fn sources() -> Vec<SourceFile> {
    vec![SourceFile {
        name: "Alu.scala".to_string(),
        lines: vec!["class Alu".to_string(), "  io.out := sum".to_string()],
    }]
}

fn spread() -> ExportablePDG {
    ExportablePDG {
        vertices: vec![
            valued("out", 5, 2, Some("UInt<4> 1010")),
            valued("when", 4, 1, Some("Bool 1")),
            valued("in", 1, 3, Some("0011")),
            valued("far", 2, 9, None),
        ],
        edges: vec![
            ExportablePDGEdge { from: 0, to: 1, kind: PDGSpecEdgeKind::Conditional, clocked: false },
            ExportablePDGEdge { from: 0, to: 2, kind: PDGSpecEdgeKind::Data, clocked: true },
            ExportablePDGEdge { from: 0, to: 3, kind: PDGSpecEdgeKind::Data, clocked: false },
        ],
    }
}

#[test]
fn a_far_provider_gets_a_stand_in() {
    let graph = ViewableGraph::new(spread(), sources(), false);
    assert_eq!(graph.get_n_timeslots(), 5);
    let drawn = get_partial_graph(&graph, 5, 5).unwrap();
    let nodes: Vec<_> = drawn.vertices.iter().map(node_line).collect();
    // The provider at time 1 lies four steps away, the one at time 2 three.
    assert_eq!(
        nodes,
        vec![
            (0, "out".to_string(), "t0".to_string(), 5, false),
            (2 + 4 + 0, "in".to_string(), "t0".to_string(), 5, true),
        ]
    );
    let edges: Vec<_> = drawn.edges.iter().map(edge_line).collect();
    assert_eq!(
        edges,
        vec![
            (0, 1, "#FB7E81".to_string(), "Bool true".to_string()),
            (0, 6, "#97C2FC".to_string(), " 0011".to_string()),
            (0, 3, "#97C2FC".to_string(), "".to_string()),
        ]
    );
    assert_eq!(
        drawn.edges.iter().map(|e| e.dotted).collect::<Vec<_>>(),
        vec![false, true, false]
    );
    assert_eq!(drawn.vertices[0].code, Some("  io.out := sum".to_string()));
    // The stand-in looks like the provider and stands at the place of the vertex.
    assert_eq!(drawn.vertices[1].code, None);
    assert_eq!(drawn.vertices[1].file, "Alu.scala");
    assert_eq!(drawn.vertices[1].line, 2);
    assert_eq!(drawn.vertices[1].shape, NodeShape::Box);
    let t = |a: &str, b: &str, c: &str| (a.to_string(), b.to_string(), c.to_string());
    assert_eq!(
        signal_lines(&drawn.vertices[0]),
        (vec![t("when", "true", "controlflow"), t("in", "0011", "data"), t("far", "", "data")], vec![])
    );
    assert_eq!(signal_lines(&drawn.vertices[1]), (vec![], vec![t("in", "0011", "data")]));
}

#[test]
fn the_columns_are_named_by_their_distance_from_the_end() {
    let mut graph = ViewableGraph::new(spread(), sources(), false);
    let drawn = get_partial_graph(&graph, 0, 9).unwrap();
    let nodes: Vec<_> = drawn.vertices.iter().map(node_line).collect();
    assert_eq!(
        nodes,
        vec![
            (2, "in".to_string(), "t4".to_string(), 1, false),
            (3, "far".to_string(), "t3".to_string(), 2, false),
            (1, "when".to_string(), "t1".to_string(), 4, false),
            (0, "out".to_string(), "t0".to_string(), 5, false),
            (6, "in".to_string(), "t0".to_string(), 5, true),
        ]
    );
    assert_eq!(drawn.vertices[1].code, None);
    assert_eq!(drawn.vertices[2].code, Some("class Alu".to_string()));
    assert_eq!(drawn.vertices[2].shape, NodeShape::Diamond);
    assert_eq!(drawn.vertices[2].color, NodeColour::Red);
    assert_eq!(drawn.vertices[0].color, NodeColour::Green);
    // A vertex that is not shown is left out with its edges.
    graph.set_new_head(1);
    let only = get_partial_graph(&graph, 0, 9).unwrap();
    let nodes: Vec<_> = only.vertices.iter().map(node_line).collect();
    assert_eq!(nodes, vec![(1, "when".to_string(), "t1".to_string(), 4, false)]);
    assert!(only.edges.is_empty());
}

#[test]
fn a_line_of_the_source_is_found_by_file_and_number() {
    let files = sources();
    assert_eq!(code_line(&files, "Alu.scala", 1), Some("class Alu".to_string()));
    assert_eq!(code_line(&files, "Alu.scala", 2), Some("  io.out := sum".to_string()));
    assert_eq!(code_line(&files, "Alu.scala", 3), None);
    assert_eq!(code_line(&files, "Alu.scala", 0), None);
    assert_eq!(code_line(&files, "Other.scala", 1), None);
    assert_eq!(code_line(&vec![], "Alu.scala", 1), None);
}

#[test]
fn the_files_of_a_graph_are_listed_once() {
    assert_eq!(source_paths(&spread()), vec!["Alu.scala".to_string(), "Other.scala".to_string()]);
    assert!(source_paths(&ExportablePDG::empty()).is_empty());
    assert_eq!(read_path("home/me/Alu.scala"), "/home/me/Alu.scala");
    assert_eq!(read_path("/home/me/Alu.scala"), "/home/me/Alu.scala");
    assert_eq!(read_path("src/Alu.scala"), "src/Alu.scala");
    assert_eq!(read_path("hom"), "hom");
}

#[test]
fn the_times_of_a_graph_move_one_step_on() {
    let mut g = spread();
    advance_times(&mut g);
    let times: Vec<i64> = g.vertices.iter().map(|v| v.timestamp).collect();
    assert_eq!(times, vec![6, 5, 2, 3]);
    assert_eq!(g.vertices[0].name, "out");
    assert_eq!(g.edges.len(), 3);
}

#[test]
fn an_editor_is_sent_to_file_and_line() {
    let graph = ViewableGraph::new(spread(), vec![], false);
    assert_eq!(goto_argument(&graph, 0), Some("Alu.scala:2".to_string()));
    assert_eq!(goto_argument(&graph, 3), Some("Other.scala:9".to_string()));
    assert_eq!(goto_argument(&graph, 4), None);
}

#[test]
fn a_far_group_gets_a_stand_in_with_a_number_of_its_own() {
    let design = ExportablePDG {
        vertices: vec![placed("a", 5, &["core"]), placed("d", 0, &["mem"])],
        edges: vec![edge(0, 1, PDGSpecEdgeKind::Data)],
    };
    let graph = ViewableGraph::new(design, vec![], true);
    let shown = graph.current_hier_dpdg.as_ref().unwrap();
    assert_eq!(shown.original_ids, vec![17, 11]);
    let drawn = get_partial_graph(&graph, 5, 5).unwrap();
    let far = (11u64 << 32) + 10 * 2 + 17;
    let nodes: Vec<_> = drawn.vertices.iter().map(node_line).collect();
    assert_eq!(
        nodes,
        vec![
            (17, "module_core".to_string(), "t0".to_string(), 5, false),
            (far, "module_mem".to_string(), "t0".to_string(), 5, true),
        ]
    );
    let edges: Vec<_> = drawn.edges.iter().map(edge_line).collect();
    assert_eq!(edges, vec![(17, far, "#97C2FC".to_string(), "".to_string())]);
    // The times without vertices have a tree of their own.
    let h = graph.node_hierarchy.as_ref().unwrap();
    assert_eq!(h.tops, vec![0, 2, 3, 4, 5, 6]);
    assert_eq!(h.lookup, vec![Some(7), Some(1)]);
}
