use chiseltrace_rs::errors::Error;
use chiseltrace_rs::pdg_spec::{
    CFGSpecStatement, PDGSpec, PDGSpecEdge, PDGSpecEdgeKind, PDGSpecNode, PDGSpecNodeKind,
};
use chiseltrace_rs::slicing::{
    find_valid_statement, get_edge_replacement_mapping, link_pdg, pdg_slice, reduce_cfg,
    sort_descending,
};
use chiseltrace_rs::translation::{
    decimal_text, interpret_tywaves_value, translate_as_bool, translate_as_sint,
    translate_as_uint, TranslationStrategy,
};

fn vertex(name: &str) -> PDGSpecNode {
    PDGSpecNode {
        file: "Design.scala".to_string(),
        line: 1,
        char: 0,
        name: name.to_string(),
        kind: PDGSpecNodeKind::Connection,
        clocked: false,
        related_signal: None,
        assigns_to: Some(name.to_string()),
        is_chisel_statement: true,
        condition: None,
        assign_delay: 0,
    }
}

fn edge(from: u32, to: u32) -> PDGSpecEdge {
    PDGSpecEdge { from, to, kind: PDGSpecEdgeKind::Data, clocked: false, condition: None }
}

fn stmt(stmt_ref: u32) -> CFGSpecStatement {
    CFGSpecStatement { stmt_ref, pred_stmt_ref: None, true_branch: None, false_branch: None }
}

fn fork(stmt_ref: u32, pred: u32, t: Vec<CFGSpecStatement>, f: Vec<CFGSpecStatement>)
    -> CFGSpecStatement {
    CFGSpecStatement {
        stmt_ref,
        pred_stmt_ref: Some(pred),
        true_branch: Some(t),
        false_branch: Some(f),
    }
}

/// a <- b <- c, d <- c, e alone, f <- f; two forks over two predicates.
fn design() -> PDGSpec {
    PDGSpec {
        vertices: vec![
            vertex("a"),
            vertex("b"),
            vertex("c"),
            vertex("d"),
            vertex("e"),
            vertex("f"),
        ],
        edges: vec![edge(1, 0), edge(2, 1), edge(2, 3), edge(5, 5), edge(2, 1), edge(3, 0)],
        predicates: vec![vertex("pa"), vertex("pb"), vertex("pc")],
        cfg: vec![
            stmt(0),
            fork(1, 0, vec![stmt(2), fork(4, 2, vec![stmt(3)], vec![])], vec![stmt(5)]),
            fork(4, 1, vec![stmt(3)], vec![stmt(0)]),
            stmt(3),
        ],
    }
}

#[test]
fn linking_gives_every_vertex_its_dependences() {
    let nodes = link_pdg(&design());
    let conns: Vec<Vec<usize>> = nodes.iter().map(|n| n.connections.clone()).collect();
    assert_eq!(conns, vec![vec![], vec![0], vec![1, 3, 1], vec![0], vec![], vec![5]]);
    assert!(nodes.iter().all(|n| !n.visited));
    assert_eq!(nodes[2].name, "c");
    assert_eq!(find_valid_statement(&nodes, "d").unwrap(), 3);
    match find_valid_statement(&nodes, "zz") {
        Err(Error::StatementLookupError(text)) => assert_eq!(text, "zz"),
        other => panic!("unexpected outcome: {:?}", other),
    }
}

#[test]
fn the_mapping_marks_what_the_criterion_reaches() {
    let mut nodes = link_pdg(&design());
    let (removed, remap) = get_edge_replacement_mapping(&mut nodes, 1);
    let marks: Vec<bool> = nodes.iter().map(|n| n.visited).collect();
    assert_eq!(marks, vec![true, true, false, false, false, false]);
    assert_eq!(removed, vec![2, 3, 4, 5]);
    assert_eq!(remap, vec![Some(0), Some(1), None, None, None, None]);

    let mut nodes = link_pdg(&design());
    let (removed, remap) = get_edge_replacement_mapping(&mut nodes, 2);
    assert_eq!(removed, vec![4, 5]);
    assert_eq!(remap, vec![Some(0), Some(1), Some(2), Some(3), None, None]);

    // A vertex that depends on itself alone keeps itself.
    let mut nodes = link_pdg(&design());
    let (removed, remap) = get_edge_replacement_mapping(&mut nodes, 5);
    assert_eq!(removed, vec![0, 1, 2, 3, 4]);
    assert_eq!(remap, vec![None, None, None, None, None, Some(0)]);
}

#[test]
fn lists_are_sorted_from_the_greatest() {
    assert_eq!(sort_descending(&vec![]), Vec::<usize>::new());
    assert_eq!(sort_descending(&vec![3, 1, 2]), vec![3, 2, 1]);
    assert_eq!(sort_descending(&vec![1, 5, 1, 9, 5]), vec![9, 5, 5, 1, 1]);
}

fn refs(cfg: &Vec<CFGSpecStatement>) -> String {
    let mut out = String::new();
    for s in cfg {
        out.push_str(&format!("{}", s.stmt_ref));
        if let Some(p) = s.pred_stmt_ref {
            out.push_str(&format!("?{}", p));
        }
        if let Some(b) = &s.true_branch {
            out.push_str(&format!("[{}]", refs(b)));
        }
        if let Some(b) = &s.false_branch {
            out.push_str(&format!("[{}]", refs(b)));
        }
        out.push(' ');
    }
    out.trim_end().to_string()
}

#[test]
fn the_control_flow_is_reduced_to_what_stays() {
    let removed = vec![4, 5];
    let remap = vec![Some(0), Some(1), Some(2), Some(3), None, None];
    let reduced = reduce_cfg(design(), &removed, &remap);
    // The inner fork over predicate 2 and the fork over predicate 1 go; what lay below them goes too.
    assert_eq!(refs(&reduced.cfg), "0 1?0[2][] 3");
    let names: Vec<&str> = reduced.predicates.iter().map(|p| p.name.as_str()).collect();
    assert_eq!(names, vec!["pa"]);
    assert_eq!(reduced.vertices.len(), 6);
    assert_eq!(reduced.edges.len(), 6);
}

#[test]
fn what_stays_is_renumbered() {
    let removed = vec![0, 2];
    let remap = vec![None, Some(0), None, Some(1), Some(2), Some(3)];
    let reduced = reduce_cfg(design(), &removed, &remap);
    assert_eq!(refs(&reduced.cfg), "0?0[2?2[1][]][3] 2?1[1][] 1");
    assert_eq!(reduced.predicates.len(), 3);
}

#[test]
fn slicing_keeps_the_criterion_and_what_it_depends_on() {
    let sliced = pdg_slice(design(), "c").unwrap();
    let names: Vec<&str> = sliced.vertices.iter().map(|v| v.name.as_str()).collect();
    assert_eq!(names, vec!["a", "b", "c", "d"]);
    let ends: Vec<(u32, u32)> = sliced.edges.iter().map(|e| (e.from, e.to)).collect();
    assert_eq!(ends, vec![(1, 0), (2, 1), (2, 3), (2, 1), (3, 0)]);
    assert_eq!(refs(&sliced.cfg), "0 1?0[2][] 3");
    assert_eq!(sliced.predicates.len(), 1);

    let sliced = pdg_slice(design(), "d").unwrap();
    let names: Vec<&str> = sliced.vertices.iter().map(|v| v.name.as_str()).collect();
    assert_eq!(names, vec!["a", "d"]);
    let ends: Vec<(u32, u32)> = sliced.edges.iter().map(|e| (e.from, e.to)).collect();
    assert_eq!(ends, vec![(1, 0)]);
    assert_eq!(refs(&sliced.cfg), "0 1");
    let names: Vec<&str> = sliced.predicates.iter().map(|p| p.name.as_str()).collect();
    assert_eq!(names, vec!["pc"]);
}

#[test]
fn slicing_refuses_what_it_cannot_slice() {
    match pdg_slice(design(), "nothing") {
        Err(Error::StatementLookupError(text)) => assert_eq!(text, "nothing"),
        other => panic!("unexpected outcome: {:?}", other.map(|_| ())),
    }
    let mut broken = design();
    broken.edges.push(edge(0, 17));
    match pdg_slice(broken, "a") {
        Err(Error::MalformedPDG) => {}
        other => panic!("unexpected outcome: {:?}", other.map(|_| ())),
    }
    let mut broken = design();
    broken.cfg.push(stmt(40));
    match pdg_slice(broken, "a") {
        Err(Error::MalformedPDG) => {}
        other => panic!("unexpected outcome: {:?}", other.map(|_| ())),
    }
}

#[test]
fn numbers_are_written_in_decimal() {
    assert_eq!(decimal_text(0), "0");
    assert_eq!(decimal_text(7), "7");
    assert_eq!(decimal_text(10), "10");
    assert_eq!(decimal_text(1234567890), "1234567890");
    assert_eq!(decimal_text(u128::MAX), "340282366920938463463374607431768211455");
}

#[test]
fn bits_are_read_as_unsigned_numbers() {
    assert_eq!(translate_as_uint(""), "0");
    assert_eq!(translate_as_uint("0"), "0");
    assert_eq!(translate_as_uint("1011"), "11");
    assert_eq!(translate_as_uint("0000000011111111"), "255");
    assert_eq!(translate_as_uint("10x1"), "UDF");
    assert_eq!(translate_as_uint("z"), "UDF");
    let ones = "1".repeat(128);
    assert_eq!(translate_as_uint(&ones), "340282366920938463463374607431768211455");
    // More than 128 bits: the low 128 are read.
    assert_eq!(translate_as_uint(&format!("1{}", "0".repeat(128))), "0");
    assert_eq!(translate_as_uint(&format!("1{}1", "0".repeat(128))), "1");
}

#[test]
fn bits_are_read_as_signed_numbers() {
    assert_eq!(translate_as_sint(""), "UDF");
    assert_eq!(translate_as_sint("0"), "0");
    assert_eq!(translate_as_sint("1"), "-1");
    assert_eq!(translate_as_sint("0111"), "7");
    assert_eq!(translate_as_sint("1000"), "-8");
    assert_eq!(translate_as_sint("1111"), "-1");
    assert_eq!(translate_as_sint("1011"), "-5");
    assert_eq!(translate_as_sint("10x1"), "UDF");
    assert_eq!(translate_as_sint("x011"), "UDF");
    assert_eq!(
        translate_as_sint(&format!("1{}", "0".repeat(126))),
        "-85070591730234615865843651857942052864"
    );
    assert_eq!(
        translate_as_sint(&format!("0{}", "1".repeat(126))),
        "85070591730234615865843651857942052863"
    );
    assert_eq!(translate_as_sint(&"1".repeat(128)), "UDF");
}

#[test]
fn bits_are_read_as_truth_values() {
    assert_eq!(translate_as_bool("1"), "true");
    assert_eq!(translate_as_bool("0"), "false");
    assert_eq!(translate_as_bool("x"), "UDF");
    assert_eq!(translate_as_bool("01"), "UDF");
    assert_eq!(translate_as_bool(""), "UDF");
}

fn read(val: &str, strategy: TranslationStrategy) -> (Option<String>, String) {
    let r = interpret_tywaves_value(&val.to_string(), strategy);
    (r.tpe, r.value)
}

#[test]
fn values_are_read_by_their_type() {
    let auto = TranslationStrategy::Auto;
    assert_eq!(read("UInt<8> 00001010", auto), (Some("UInt<8>".to_string()), "10".to_string()));
    assert_eq!(read("SInt<4> 1110", auto), (Some("SInt<4>".to_string()), "-2".to_string()));
    assert_eq!(read("Bool 1", auto), (Some("Bool".to_string()), "true".to_string()));
    assert_eq!(read("logic 0", auto), (Some("logic".to_string()), "false".to_string()));
    assert_eq!(read("Bundle 1010", auto), (Some("Bundle".to_string()), "1010".to_string()));
    assert_eq!(read("1010", auto), (None, "1010".to_string()));
    assert_eq!(read("", auto), (None, "".to_string()));
    // Only the second word is the value.
    assert_eq!(read("UInt<2> 11 01", auto), (Some("UInt<2>".to_string()), "3".to_string()));
    // A type that holds both names is unsigned.
    assert_eq!(read("SIntUInt 11", auto), (Some("SIntUInt".to_string()), "3".to_string()));
}

#[test]
fn values_are_read_under_a_strategy() {
    assert_eq!(
        read("SInt<4> 1110", TranslationStrategy::UInt),
        (Some("SInt<4>".to_string()), "14".to_string())
    );
    assert_eq!(read("1110", TranslationStrategy::UInt), (None, "14".to_string()));
    assert_eq!(
        read("SInt<4> 1110", TranslationStrategy::Raw),
        (Some("SInt<4>".to_string()), "1110".to_string())
    );
}
