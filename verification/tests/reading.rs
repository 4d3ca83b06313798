use chiseltrace_rs::errors::{map_err_to_string, Error};
use chiseltrace_rs::reader::VcdReader;
use chiseltrace_rs::trace::{
    bitvector_to_unsigned, find_probes, Header, LogicValue, Scope, ScopeItem, TraceCommand, Var,
};
use chiseltrace_rs::util::parse_criterion;
use chiseltrace_rs::graphbuilder::CriterionType;

use LogicValue::{V0, V1, X, Z};

fn var(reference: &str, code: u64) -> ScopeItem {
    ScopeItem::Var(Var { reference: reference.to_string(), code })
}

fn scope(identifier: &str, items: Vec<ScopeItem>) -> ScopeItem {
    ScopeItem::Scope(Scope { identifier: identifier.to_string(), items })
}

fn path(parts: &[&str]) -> Vec<String> {
    parts.iter().map(|s| s.to_string()).collect()
}

fn sample_header() -> Header {
    Header {
        items: vec![scope(
            "TOP",
            vec![
                var("clock", 0),
                scope(
                    "dut",
                    vec![
                        var("clock", 1),
                        var("reset", 2),
                        var("probe_a", 3),
                        var("counter", 4),
                        ScopeItem::Other,
                        scope(
                            "alu",
                            vec![
                                var("probe_b", 5),
                                var("probe_alias", 3),
                                scope("inner", vec![var("probe_c", 6), var("x", 7)]),
                            ],
                        ),
                        var("probe_tail", 8),
                    ],
                ),
                scope("dut", vec![var("shadowed", 9)]),
            ],
        )],
    }
}

#[test]
fn bit_vectors_are_read_most_significant_bit_first() {
    assert_eq!(bitvector_to_unsigned(&vec![]), 0);
    assert_eq!(bitvector_to_unsigned(&vec![V1]), 1);
    assert_eq!(bitvector_to_unsigned(&vec![V1, V0]), 2);
    assert_eq!(bitvector_to_unsigned(&vec![V1, V0, V1, V1]), 11);
    assert_eq!(bitvector_to_unsigned(&vec![V0, V0, V1, V0, V1]), 5);
}

#[test]
fn unknown_bits_count_as_zero() {
    assert_eq!(bitvector_to_unsigned(&vec![X, V1, Z, V1]), 5);
    assert_eq!(bitvector_to_unsigned(&vec![X, Z]), 0);
}

#[test]
fn wide_bit_vectors_keep_their_low_64_bits() {
    let mut bits = vec![V1; 64];
    assert_eq!(bitvector_to_unsigned(&bits), u64::MAX);
    bits.insert(0, V1);
    assert_eq!(bitvector_to_unsigned(&bits), u64::MAX);
    let mut high = vec![V1];
    high.extend(vec![V0; 64]);
    assert_eq!(bitvector_to_unsigned(&high), 0);
    let mut mixed = vec![V1, V1];
    mixed.extend(vec![V0; 62]);
    mixed.extend(vec![V1, V1]);
    // 66 bits: the two highest are dropped.
    assert_eq!(bitvector_to_unsigned(&mixed), 3);
}

#[test]
fn variables_are_found_by_path() {
    let header = sample_header();
    assert_eq!(header.find_var(&path(&["TOP", "clock"])), Some(0));
    assert_eq!(header.find_var(&path(&["TOP", "dut", "clock"])), Some(1));
    assert_eq!(header.find_var(&path(&["TOP", "dut", "alu", "inner", "x"])), Some(7));
    assert_eq!(header.find_var(&path(&["TOP", "dut", "missing"])), None);
    assert_eq!(header.find_var(&path(&["TOP", "nowhere", "clock"])), None);
    assert_eq!(header.find_var(&path(&[])), None);
    // A scope is no variable, and the first scope of a name hides a later one.
    assert_eq!(header.find_var(&path(&["TOP", "dut"])), None);
    assert_eq!(header.find_var(&path(&["TOP", "dut", "shadowed"])), None);
}

#[test]
fn scopes_are_found_by_path() {
    let header = sample_header();
    assert_eq!(header.find_scope(&path(&["TOP", "dut", "alu", "inner"])).unwrap().len(), 2);
    assert_eq!(header.find_scope(&path(&["TOP", "dut"])).unwrap().len(), 7);
    assert!(header.find_scope(&path(&["TOP", "clock"])).is_none());
    assert!(header.find_scope(&path(&[])).is_none());
}

#[test]
fn probes_are_the_variables_named_probe() {
    let header = sample_header();
    let probes = find_probes(&header, &path(&["TOP", "dut"]));
    let found: Vec<(u64, &str)> = probes.iter().map(|p| (p.code, p.path.as_str())).collect();
    assert_eq!(
        found,
        vec![
            (3, "probe_a"),
            (5, "alu.probe_b"),
            (3, "alu.probe_alias"),
            (6, "alu.inner.probe_c"),
            (8, "probe_tail"),
        ]
    );
    assert!(find_probes(&header, &path(&["TOP", "missing"])).is_empty());
    assert!(find_probes(&header, &path(&[])).is_empty());
}

#[test]
fn reader_needs_clock_and_reset() {
    let header = sample_header();
    assert!(VcdReader::new(&header, path(&["TOP", "dut"])).is_ok());
    // Below TOP there is a clock but no reset.
    match VcdReader::new(&header, path(&["TOP"])) {
        Err(Error::ClockNotFoundError) => {}
        other => panic!("unexpected outcome: {:?}", other.map(|_| ())),
    }
    match VcdReader::new(&header, path(&["TOP", "dut", "alu"])) {
        Err(Error::ClockNotFoundError) => {}
        other => panic!("unexpected outcome: {:?}", other.map(|_| ())),
    }
}

#[test]
fn reader_resolves_dotted_paths() {
    let header = sample_header();
    let reader = VcdReader::new(&header, path(&["TOP", "dut"])).unwrap();
    assert_eq!(reader.find_var(&header, "alu.inner.x").unwrap(), 7);
    assert_eq!(reader.find_var(&header, "counter").unwrap(), 4);
    match reader.find_var(&header, "alu.nothing") {
        Err(Error::VariableNotFoundError(p)) => assert_eq!(p, "TOP.dut.alu.nothing"),
        other => panic!("unexpected outcome: {:?}", other),
    }
}

fn slot(reader: &VcdReader, name: &str) -> Option<u64> {
    let index = reader.probes.iter().position(|p| p.path == name).unwrap();
    reader.probe_values[reader.slots[index]]
}

#[test]
fn a_cycle_ends_at_the_time_step_after_a_rising_edge() {
    let header = sample_header();
    let mut reader = VcdReader::new(&header, path(&["TOP", "dut"])).unwrap();
    let commands = vec![
        TraceCommand::Timestamp(0),
        TraceCommand::ChangeScalar(1, V0),
        TraceCommand::ChangeScalar(2, V1),
        TraceCommand::ChangeScalar(4, V1),
        TraceCommand::ChangeScalar(3, V1),
        TraceCommand::ChangeVector(5, vec![V1, V0, V1]),
        TraceCommand::Other,
        TraceCommand::Timestamp(1),
        TraceCommand::ChangeScalar(1, V1),
        TraceCommand::ChangeScalar(7, V0),
        TraceCommand::ChangeVector(6, vec![V1, V1]),
        TraceCommand::Timestamp(2),
        TraceCommand::ChangeScalar(1, V0),
        TraceCommand::Timestamp(3),
        TraceCommand::ChangeScalar(1, V1),
    ];
    let (changes, eof) = reader.read_cycle_changes(&commands);
    assert!(!eof);
    assert_eq!(reader.current_time, 1);
    assert_eq!(reader.pos, 12);
    assert_eq!(reader.reset_val, V1);
    // What changed before the time step of the rising edge belongs to the cycle.
    assert_eq!(changes.len(), 1);
    assert_eq!((changes[0].id, changes[0].value), (4, V1));
    // Both paths of identifier 3 take the value; identifier 6 still waits.
    assert_eq!(slot(&reader, "probe_a"), Some(1));
    assert_eq!(slot(&reader, "alu.probe_alias"), Some(1));
    assert_eq!(slot(&reader, "alu.probe_b"), Some(5));
    assert_eq!(slot(&reader, "alu.inner.probe_c"), None);
    assert_eq!(slot(&reader, "probe_tail"), None);

    let (changes, eof) = reader.read_cycle_changes(&commands);
    assert!(eof);
    assert_eq!(reader.current_time, 2);
    assert_eq!(reader.pos, commands.len());
    // What changed together with the rising edge is handed out one cycle later.
    assert_eq!(changes.len(), 1);
    assert_eq!((changes[0].id, changes[0].value), (7, V0));
    assert_eq!(slot(&reader, "alu.inner.probe_c"), Some(3));

    // At the end of the trace the reader still counts a cycle.
    let (changes, eof) = reader.read_cycle_changes(&commands);
    assert!(eof);
    assert!(changes.is_empty());
    assert_eq!(reader.current_time, 3);
}

#[test]
fn a_trace_without_rising_edge_counts_one_cycle() {
    let header = sample_header();
    let mut reader = VcdReader::new(&header, path(&["TOP", "dut"])).unwrap();
    let commands = vec![
        TraceCommand::Timestamp(0),
        TraceCommand::ChangeScalar(1, V1),
        TraceCommand::ChangeScalar(4, V1),
        TraceCommand::Timestamp(5),
        TraceCommand::ChangeScalar(1, V0),
        TraceCommand::Timestamp(10),
    ];
    // The clock starts unknown: a change to one is no rising edge.
    let (changes, eof) = reader.read_cycle_changes(&commands);
    assert!(eof);
    assert_eq!(reader.current_time, 1);
    assert_eq!(changes.len(), 1);
}

#[test]
fn criteria_are_read_from_text() {
    match parse_criterion("statement:connect_io.a") {
        Ok(CriterionType::Statement(name)) => assert_eq!(name, "connect_io.a"),
        other => panic!("unexpected outcome: {:?}", other),
    }
    match parse_criterion("signal:io.out") {
        Ok(CriterionType::Signal(symbol)) => assert_eq!(symbol, "io.out"),
        other => panic!("unexpected outcome: {:?}", other),
    }
    // The payload is whatever follows the first colon.
    match parse_criterion("signal:a:b") {
        Ok(CriterionType::Signal(symbol)) => assert_eq!(symbol, "a:b"),
        other => panic!("unexpected outcome: {:?}", other),
    }
    match parse_criterion("statement:") {
        Ok(CriterionType::Statement(name)) => assert_eq!(name, ""),
        other => panic!("unexpected outcome: {:?}", other),
    }
}

#[test]
fn the_kind_of_a_criterion_is_read_in_any_case() {
    match parse_criterion("Signal:z") {
        Ok(CriterionType::Signal(symbol)) => assert_eq!(symbol, "z"),
        other => panic!("unexpected outcome: {:?}", other),
    }
    match parse_criterion("STATEMENT:Z") {
        Ok(CriterionType::Statement(name)) => assert_eq!(name, "Z"),
        other => panic!("unexpected outcome: {:?}", other),
    }
}

#[test]
fn ill_formed_criteria_are_refused() {
    match parse_criterion("no colon here") {
        Err(text) => assert_eq!(text, "Expected 'type:value' format"),
        other => panic!("unexpected outcome: {:?}", other),
    }
    match parse_criterion("Wire:x") {
        Err(text) => assert_eq!(text, "Unknown criterion type 'Wire'"),
        other => panic!("unexpected outcome: {:?}", other),
    }
    match parse_criterion(":x") {
        Err(text) => assert_eq!(text, "Unknown criterion type ''"),
        other => panic!("unexpected outcome: {:?}", other),
    }
}

#[test]
fn errors_have_their_texts() {
    assert_eq!(
        Error::StatementLookupError("x".to_string()).message(),
        "Invalid slicing statement: x"
    );
    assert_eq!(Error::ClockNotFoundError.message(), "Clock signal not found");
    assert_eq!(
        Error::VariableNotFoundError("TOP.dut.p".to_string()).message(),
        "Variable \"TOP.dut.p\" not found"
    );
    assert_eq!(Error::MalformedPDG.message(), "Malformed program dependence graph");
    assert_eq!(Error::MalformedVCD.message(), "Malformed value change dump");
    assert_eq!(Error::TywavesSignalNotFound.message(), "Tywaves signal not found");
    assert_eq!(Error::TywavesDowncastFailed.message(), "Tywaves variable downcast failed");
    assert_eq!(
        Error::ArgumentValidationError("Invalid PDG path".to_string()).message(),
        "Failed to validate input arguments: Invalid PDG path"
    );
}

#[test]
fn a_failure_is_turned_into_its_text() {
    assert_eq!(map_err_to_string(Ok(7)), Ok(7));
    assert_eq!(
        map_err_to_string::<u8>(Err(Error::ClockNotFoundError)),
        Err("Clock signal not found".to_string())
    );
    assert_eq!(
        map_err_to_string::<u8>(Err(Error::StatementLookupError("s".to_string()))),
        Err("Invalid slicing statement: s".to_string())
    );
}
