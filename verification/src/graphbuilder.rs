//! The builder of the dynamic graph: it reads a trace cycle by cycle, makes
//! one node for every activation of a statement, and finds the node that
//! the slicing criterion names.

use vstd::prelude::*;
use vstd::string::*;
use crate::activation::{absorb_changes, active_from, initial_values, predicate_ids, predicates_found, PredicateState};
use crate::dependency::{
    all_in_range, cycle, graph_wf, vertex_wf, BuilderState, DependencyState, StaticGraph,
};
pub use crate::dependency::{CriterionType, DynPDGNode, GraphProcessingType};
use crate::errors::Error;
use crate::invariants::{arena_laws, delayed_ok, lemma_rest_laws, lemma_start_ok, rest_ok};
use crate::linked::{edges_in_range, link, linked_graph, symbol_keys, LinkedNode};
use crate::pdg_spec::{CFGSpecStatement, PDGSpec, PDGSpecNode};
use crate::reader::{
    lemma_read_on_pos, probe_keys, read_cycle, ReadProgress, ReaderEnv, ReaderState, VcdReader,
};
use crate::text::{first_equal, join_all, same_text, split_on};
use crate::trace::{probes_below, var_at, Header, LogicValue, TraceCommand};

verus! {

/// Whether statement `node` is what `criterion` names.
pub open spec fn criterion_names(criterion: CriterionType, node: PDGSpecNode) -> bool {
    match criterion {
        CriterionType::Statement(name) => node.name@ == name@,
        CriterionType::Signal(symbol) => node.assigns_to.deep_view() == Some(symbol@),
    }
}

/// For every vertex whether the criterion names it.
pub open spec fn criterion_matches(criterion: CriterionType, vertices: Seq<PDGSpecNode>) -> Seq<
    bool,
> {
    Seq::new(vertices.len(), |v: int| criterion_names(criterion, vertices[v]))
}

/// What a run is made for, as far as it stays fixed.
pub struct Design {
    pub graph: StaticGraph,
    pub cfg: Vec<CFGSpecStatement>,
    /// The signal of each predicate.
    pub ids: Seq<u64>,
    /// For every vertex whether the criterion names it.
    pub matches: Seq<bool>,
    pub env: ReaderEnv,
    pub mode: GraphProcessingType,
    /// The budget: the run stops once twice the number of cycles exceeds it.
    pub max_timesteps: Option<i64>,
}

/// How far a run has come.
pub struct RunState {
    pub reader: ReaderState,
    /// The current value of each predicate signal.
    pub values: Map<u64, bool>,
    pub builder: BuilderState,
    /// Whether the trace has ended.
    pub eof: bool,
    /// Whether a cycle activated a statement that the graph does not hold.
    pub malformed: bool,
}

/// Whether another cycle is within the budget.
pub open spec fn within_budget(current_time: i64, max_timesteps: Option<i64>) -> bool {
    match max_timesteps {
        Some(m) => 2 * current_time <= m,
        None => true,
    }
}

/// The run after one more cycle: the cycle is read, its changes move the
/// predicates, the control flow gives the active statements, and the
/// builder makes their nodes at the time stamp one below the cycle count.
pub open spec fn run_step(d: Design, commands: Seq<TraceCommand>, s: RunState) -> RunState {
    let (reader, changes, eof) = read_cycle(d.env, commands, s.reader);
    let values = absorb_changes(s.values, changes);
    let activated = active_from(&d.cfg, d.ids, values, 0);
    let tau = (reader.current_time - 1) as i64;
    if all_in_range(activated, d.graph.len() as int) {
        RunState {
            reader,
            values,
            builder: cycle(
                d.graph,
                d.matches,
                d.mode,
                s.builder,
                activated,
                tau,
                reader.reset_val == LogicValue::V1,
                reader.probe_values,
            ),
            eof,
            malformed: false,
        }
    } else {
        RunState { reader, values, builder: s.builder, eof, malformed: true }
    }
}

/// The run at its end: cycles are taken until the trace ends, the budget
/// is used up, or a cycle is refused.
pub open spec fn run(d: Design, commands: Seq<TraceCommand>, s: RunState) -> RunState
    decreases commands.len() - s.reader.pos, (if s.eof {
        0int
    } else {
        1int
    }),
    when 0 <= s.reader.pos <= commands.len()
{
    if s.eof || s.malformed || !within_budget(s.reader.current_time, d.max_timesteps) {
        s
    } else {
        proof {
            lemma_read_on_pos(
                d.env,
                commands,
                ReadProgress { state: s.reader, changes: seq![], rising: false },
            );
        }
        run(d, commands, run_step(d, commands, s))
    }
}

/// The node that the criterion selects at the end of a run: for a
/// statement the latest node that matched, for a signal the node that
/// produced it last.
pub open spec fn selected(
    criterion: CriterionType,
    vertices: Seq<PDGSpecNode>,
    builder: BuilderState,
) -> Option<usize> {
    match criterion {
        CriterionType::Statement(_) => builder.candidate,
        CriterionType::Signal(symbol) => match first_equal(symbol_keys(vertices), symbol@, 0) {
            Some(s) => builder.live[s],
            None => None,
        },
    }
}

/// A signal that no statement assigns selects no node, whatever the run made.
pub proof fn lemma_unknown_signal(
    criterion: CriterionType,
    vertices: Seq<PDGSpecNode>,
    builder: BuilderState,
)
    requires
        criterion matches CriterionType::Signal(symbol) && forall|v: int|
            0 <= v < vertices.len() ==> (#[trigger] vertices[v]).assigns_to.deep_view() != Some(
                symbol@,
            ),
    ensures
        selected(criterion, vertices, builder) is None,
{
    let symbol = criterion->Signal_0;
    crate::text::lemma_first_equal(symbol_keys(vertices), symbol@, 0);
    if first_equal(symbol_keys(vertices), symbol@, 0) is Some {
        let j = first_equal(symbol_keys(vertices), symbol@, 0)->0;
        assert(symbol_keys(vertices)[j] == vertices[j].assigns_to.deep_view());
    }
}

/// Builds the dynamic graph of one design from one trace.
#[derive(Debug)]
pub struct GraphBuilder {
    pub reader: VcdReader,
    pub header: Header,
    pub pdg: PDGSpec,
    pub linked_nodes: Vec<LinkedNode>,
    pub predicates: PredicateState,
    pub dependency_state: DependencyState,
}

/// The time stamps up to which cycles can be counted.
pub open spec fn time_limit() -> int {
    i64::MAX - u32::MAX
}

/// Tests whether another cycle is within the budget.
pub fn budget_allows(current_time: i64, max_timesteps: Option<i64>) -> (r: bool)
    requires
        0 <= current_time,
    ensures
        r == within_budget(current_time, max_timesteps),
{
    match max_timesteps {
        Some(m) => m >= 0 && current_time <= m / 2,
        None => true,
    }
}

/// For every vertex whether the criterion names it.
pub fn match_criterion(criterion: &CriterionType, vertices: &Vec<PDGSpecNode>) -> (matches: Vec<
    bool,
>)
    ensures
        matches@ == criterion_matches(*criterion, vertices@),
{
    let mut matches: Vec<bool> = Vec::new();
    let mut v: usize = 0;
    while v < vertices.len()
        invariant
            v <= vertices.len(),
            matches.len() == v,
            forall|k: int|
                0 <= k < v ==> #[trigger] matches[k] == criterion_names(*criterion, vertices[k]),
        decreases vertices.len() - v,
    {
        let node = &vertices[v];
        let hit = match criterion {
            CriterionType::Statement(name) => same_text(node.name.as_str(), name.as_str()),
            CriterionType::Signal(symbol) => match &node.assigns_to {
                Some(s) => same_text(s.as_str(), symbol.as_str()),
                None => false,
            },
        };
        matches.push(hit);
        v = v + 1;
    }
    assert(matches@ =~= criterion_matches(*criterion, vertices@));
    matches
}

/// The first vertex that assigns `symbol`.
pub fn find_symbol(vertices: &Vec<PDGSpecNode>, symbol: &str) -> (r: Option<usize>)
    ensures
        r matches Some(s) ==> s < vertices.len() && first_equal(
            symbol_keys(vertices@),
            symbol@,
            0,
        ) == Some(s as int),
        r is None ==> first_equal(symbol_keys(vertices@), symbol@, 0) is None,
{
    let mut v: usize = 0;
    while v < vertices.len()
        invariant
            v <= vertices.len(),
            first_equal(symbol_keys(vertices@), symbol@, 0) == first_equal(
                symbol_keys(vertices@),
                symbol@,
                v as int,
            ),
        decreases vertices.len() - v,
    {
        match &vertices[v].assigns_to {
            Some(s) => {
                if same_text(s.as_str(), symbol) {
                    return Some(v);
                }
            },
            None => {},
        }
        v = v + 1;
    }
    None
}

/// A graph whose edges stay inside it is well formed once linked.
pub proof fn lemma_linked_graph_wf(pdg: PDGSpec, keys: Seq<Option<Seq<char>>>)
    requires
        edges_in_range(pdg.edges@, pdg.vertices.len() as int),
    ensures
        graph_wf(linked_graph(pdg.vertices@, pdg.edges@, keys)),
{
    let g = linked_graph(pdg.vertices@, pdg.edges@, keys);
    let n = g.len() as int;
    assert forall|v: int| 0 <= v < n implies vertex_wf(#[trigger] g[v], n) by {
        crate::text::lemma_representative(symbol_keys(pdg.vertices@), v, v);
        crate::classes::lemma_class(pdg.vertices@, v, 0);
        lemma_edges_from_in_range(pdg.edges@, keys, v, pdg.edges.len() as int, n);
    }
}

/// The edges that leave a vertex of a graph whose edges stay inside it arrive inside it.
pub proof fn lemma_edges_from_in_range(
    edges: Seq<crate::pdg_spec::PDGSpecEdge>,
    keys: Seq<Option<Seq<char>>>,
    v: int,
    upto: int,
    n: int,
)
    requires
        edges_in_range(edges, n),
        0 <= v < n,
        0 <= upto <= edges.len(),
    ensures
        forall|k: int|
            0 <= k < crate::linked::edges_from(edges, keys, v, upto).len() ==> (
            #[trigger] crate::linked::edges_from(edges, keys, v, upto)[k]).to < n,
    decreases upto,
{
    if upto > 0 {
        lemma_edges_from_in_range(edges, keys, v, upto - 1, n);
        let rest = crate::linked::edges_from(edges, keys, v, upto - 1);
        let all = crate::linked::edges_from(edges, keys, v, upto);
        assert forall|k: int| 0 <= k < all.len() implies (#[trigger] all[k]).to < n by {
            if k < rest.len() {
                assert(all[k] == rest[k]);
            } else {
                assert(edges[upto - 1].from < n);
            }
        }
    }
}

impl GraphBuilder {
    /// The static graph as the builder reads it.
    pub open spec fn graph(&self) -> StaticGraph {
        self.linked_nodes.deep_view()
    }

    /// The reader is well formed, the linked graph is that of the design
    /// against the probes of the trace, and the state fits the graph.
    pub open spec fn wf(&self) -> bool {
        &&& self.reader.wf()
        &&& edges_in_range(self.pdg.edges@, self.pdg.vertices.len() as int)
        &&& self.graph() == linked_graph(
            self.pdg.vertices@,
            self.pdg.edges@,
            probe_keys(self.reader.probes.deep_view()),
        )
        &&& rest_ok(self.graph(), self.dependency_state@, self.reader.current_time as int)
        &&& delayed_ok(self.graph(), self.dependency_state@, self.reader.current_time as int)
    }

    /// What a run of this builder is made for.
    pub open spec fn design(
        &self,
        criterion: CriterionType,
        max_timesteps: Option<i64>,
        mode: GraphProcessingType,
    ) -> Design {
        Design {
            graph: self.graph(),
            cfg: self.pdg.cfg,
            ids: predicate_ids(
                self.header.items@,
                self.reader.extra_scopes.deep_view(),
                self.pdg.predicates@,
            ),
            matches: criterion_matches(criterion, self.pdg.vertices@),
            env: self.reader.env(),
            mode,
            max_timesteps,
        }
    }

    /// Where a run of this builder starts.
    pub open spec fn start(&self) -> RunState {
        RunState {
            reader: self.reader@,
            values: initial_values(
                predicate_ids(
                    self.header.items@,
                    self.reader.extra_scopes.deep_view(),
                    self.pdg.predicates@,
                ),
            ),
            builder: self.dependency_state@,
            eof: false,
            malformed: false,
        }
    }

    /// A builder for the design `pdg` and a trace with the declarations
    /// `header`, whose signals stand below the scopes `extra_scopes`. There is
    /// none where the trace lacks the clock or the reset, nor where an edge
    /// of the design leaves the graph.
    pub fn new(header: Header, extra_scopes: Vec<String>, pdg: PDGSpec) -> (r: Result<
        GraphBuilder,
        Error,
    >)
        ensures
            match r {
                Ok(builder) => {
                    &&& builder.wf()
                    &&& builder.header == header
                    &&& builder.pdg == pdg
                    &&& builder.reader.extra_scopes.deep_view() == extra_scopes.deep_view()
                    &&& var_at(header.items@, extra_scopes.deep_view().push("clock"@)) == Some(
                        builder.reader.clock,
                    )
                    &&& var_at(header.items@, extra_scopes.deep_view().push("reset"@)) == Some(
                        builder.reader.reset,
                    )
                    &&& builder.reader.probes.deep_view() == probes_below(
                        header.items@,
                        extra_scopes.deep_view(),
                    )
                    &&& builder.reader@ == ReaderState {
                        pos: 0,
                        current_time: 0,
                        clock_val: LogicValue::X,
                        reset_val: LogicValue::X,
                        changes_buffer: seq![],
                        probe_values: Seq::new(builder.reader.probes.len() as nat, |k: int| None),
                        pending: seq![],
                    }
                    &&& builder.dependency_state@ == BuilderState {
                        nodes: seq![],
                        live: Seq::new(pdg.vertices.len() as nat, |i: int| None::<usize>),
                        control: Seq::new(pdg.vertices.len() as nat, |i: int| None::<usize>),
                        reg_next: seq![],
                        delayed: seq![],
                        snapshots: Map::empty(),
                        candidate: None,
                    }
                },
                Err(Error::ClockNotFoundError) => var_at(
                    header.items@,
                    extra_scopes.deep_view().push("clock"@),
                ) is None || var_at(header.items@, extra_scopes.deep_view().push("reset"@))
                    is None,
                Err(Error::MalformedPDG) => {
                    &&& var_at(header.items@, extra_scopes.deep_view().push("clock"@)) is Some
                    &&& var_at(header.items@, extra_scopes.deep_view().push("reset"@)) is Some
                    &&& !edges_in_range(pdg.edges@, pdg.vertices.len() as int)
                },
                Err(_) => false,
            },
    {
        let reader = match VcdReader::new(&header, extra_scopes) {
            Ok(reader) => reader,
            Err(e) => {
                return Err(Error::ClockNotFoundError);
            },
        };
        let linked_nodes = match link(&pdg, &reader.probes) {
            Ok(linked) => linked,
            Err(e) => {
                return Err(Error::MalformedPDG);
            },
        };
        let dependency_state = DependencyState::new(pdg.vertices.len());
        proof {
            lemma_linked_graph_wf(pdg, probe_keys(reader.probes.deep_view()));
            lemma_start_ok(linked_nodes.deep_view(), dependency_state@);
        }
        Ok(
            GraphBuilder {
                reader,
                header,
                pdg,
                linked_nodes,
                predicates: PredicateState::new(),
                dependency_state,
            },
        )
    }

    /// Walks the trace cycle by cycle until it ends or the budget is used
    /// up, and returns the node that the criterion selects: its position in
    /// the arena `dependency_state.nodes`. A trace with more commands left
    /// than cycles can be counted is refused as it stands. Whatever comes
    /// back but a refused cycle, the arena keeps its laws.
    pub fn process(
        &mut self,
        commands: &Vec<TraceCommand>,
        criterion: &CriterionType,
        max_timesteps: Option<i64>,
        processing_type: GraphProcessingType,
    ) -> (r: Result<usize, Error>)
        requires
            old(self).wf(),
            old(self).reader.pos <= commands.len(),
        ensures
            !(r matches Err(Error::MalformedPDG)) ==> final(self).wf() && arena_laws(
                final(self).graph(),
                final(self).dependency_state@.nodes,
            ),
            (r matches Err(Error::MalformedVCD)) <==> old(self).reader.current_time + (
            commands.len() - old(self).reader.pos) > time_limit(),
            (r matches Err(Error::MalformedVCD)) ==> *final(self) == *old(self),
            criterion matches CriterionType::Signal(symbol) && (forall|v: int|
                0 <= v < old(self).pdg.vertices.len() ==> (
                #[trigger] old(self).pdg.vertices[v]).assigns_to.deep_view() != Some(symbol@))
                ==> r is Err,
            final(self).pdg == old(self).pdg,
            final(self).header == old(self).header,
            final(self).linked_nodes == old(self).linked_nodes,
            match r {
                Ok(root) => {
                    let d = old(self).design(*criterion, max_timesteps, processing_type);
                    let end = run(d, commands@, old(self).start());
                    &&& predicates_found(
                        old(self).header.items@,
                        old(self).reader.extra_scopes.deep_view(),
                        old(self).pdg.predicates@,
                        old(self).pdg.predicates.len() as int,
                    )
                    &&& !end.malformed
                    &&& final(self).dependency_state@ == end.builder
                    &&& final(self).reader@ == end.reader
                    &&& selected(*criterion, old(self).pdg.vertices@, end.builder) == Some(root)
                    &&& root < final(self).dependency_state.nodes.len()
                },
                Err(Error::VariableNotFoundError(path)) => exists|k: int|
                    {
                        &&& 0 <= k < old(self).pdg.predicates.len()
                        &&& predicates_found(
                            old(self).header.items@,
                            old(self).reader.extra_scopes.deep_view(),
                            old(self).pdg.predicates@,
                            k,
                        )
                        &&& var_at(
                            old(self).header.items@,
                            old(self).reader.extra_scopes.deep_view() + split_on(
                                #[trigger] old(self).pdg.predicates[k].name@,
                                '.',
                            ),
                        ) is None
                        &&& path@ == join_all(
                            old(self).reader.extra_scopes.deep_view() + split_on(
                                old(self).pdg.predicates[k].name@,
                                '.',
                            ),
                        )
                    },
                Err(Error::MalformedPDG) => {
                    let d = old(self).design(*criterion, max_timesteps, processing_type);
                    &&& predicates_found(
                        old(self).header.items@,
                        old(self).reader.extra_scopes.deep_view(),
                        old(self).pdg.predicates@,
                        old(self).pdg.predicates.len() as int,
                    )
                    &&& run(d, commands@, old(self).start()).malformed
                },
                Err(Error::StatementLookupError(text)) => {
                    let d = old(self).design(*criterion, max_timesteps, processing_type);
                    let end = run(d, commands@, old(self).start());
                    &&& predicates_found(
                        old(self).header.items@,
                        old(self).reader.extra_scopes.deep_view(),
                        old(self).pdg.predicates@,
                        old(self).pdg.predicates.len() as int,
                    )
                    &&& !end.malformed
                    &&& final(self).dependency_state@ == end.builder
                    &&& selected(*criterion, old(self).pdg.vertices@, end.builder) is None
                    &&& text@ == "Criterion not found in DPDG"@
                },
                Err(Error::MalformedVCD) => true,
                Err(_) => false,
            },
    {
        proof {
            lemma_rest_laws(
                self.graph(),
                self.dependency_state@,
                self.reader.current_time as int,
            );
        }
        let left: i128 = (commands.len() - self.reader.pos) as i128;
        if self.reader.current_time as i128 + left > i64::MAX as i128 - u32::MAX as i128 {
            return Err(Error::MalformedVCD);
        }
        match self.predicates.init_predicates(&self.pdg.predicates, &self.reader, &self.header) {
            Ok(()) => {},
            Err(e) => {
                return Err(e);
            },
        }
        let matches = match_criterion(criterion, &self.pdg.vertices);
        let ghost d = old(self).design(*criterion, max_timesteps, processing_type);
        let ghost start = old(self).start();
        let mut eof_reached = false;
        let mut malformed = false;
        while !eof_reached && !malformed && budget_allows(
            self.reader.current_time,
            max_timesteps,
        )
            invariant
                !malformed ==> self.wf(),
                self.reader.wf(),
                self.pdg == old(self).pdg,
                self.header == old(self).header,
                self.linked_nodes == old(self).linked_nodes,
                self.reader.env() == old(self).reader.env(),
                self.reader.probes == old(self).reader.probes,
                self.reader.extra_scopes == old(self).reader.extra_scopes,
                self.predicates.pred_idx_to_id@ == d.ids,
                matches@ == d.matches,
                d == old(self).design(*criterion, max_timesteps, processing_type),
                start == old(self).start(),
                self.reader.pos <= commands.len(),
                !eof_reached ==> self.reader.current_time + (commands.len() - self.reader.pos)
                    <= time_limit(),
                run(d, commands@, start) == run(
                    d,
                    commands@,
                    RunState {
                        reader: self.reader@,
                        values: self.predicates.pred_values@,
                        builder: self.dependency_state@,
                        eof: eof_reached,
                        malformed,
                    },
                ),
            decreases commands.len() - self.reader.pos, (if eof_reached || malformed {
                0int
            } else {
                1int
            }),
        {
            let ghost before = RunState {
                reader: self.reader@,
                values: self.predicates.pred_values@,
                builder: self.dependency_state@,
                eof: false,
                malformed: false,
            };
            assert(within_budget(self.reader.current_time, max_timesteps));
            let (changes, eof) = self.reader.read_cycle_changes(commands);
            let corrected_timestamp = self.reader.current_time - 1;
            eof_reached = eof;
            let activated_statements = self.predicates.get_activated_statements(
                &self.pdg.cfg,
                &changes,
            );
            let reset = self.reader.reset_val == LogicValue::V1;
            match self.dependency_state.process_cycle(
                &self.linked_nodes,
                &matches,
                processing_type,
                &activated_statements,
                corrected_timestamp,
                reset,
                &self.reader.probe_values,
            ) {
                Ok(()) => {},
                Err(e) => {
                    malformed = true;
                },
            }
            proof {
                let after = RunState {
                    reader: self.reader@,
                    values: self.predicates.pred_values@,
                    builder: self.dependency_state@,
                    eof: eof_reached,
                    malformed,
                };
                assert(after == run_step(d, commands@, before));
                assert(run(d, commands@, before) == run(d, commands@, after));
            }
        }
        let ghost end = RunState {
            reader: self.reader@,
            values: self.predicates.pred_values@,
            builder: self.dependency_state@,
            eof: eof_reached,
            malformed,
        };
        assert(run(d, commands@, end) == end);
        if malformed {
            return Err(Error::MalformedPDG);
        }
        proof {
            lemma_rest_laws(
                self.graph(),
                self.dependency_state@,
                self.reader.current_time as int,
            );
        }
        let exported_node = match criterion {
            CriterionType::Statement(_) => self.dependency_state.candidate,
            CriterionType::Signal(c) => match find_symbol(&self.pdg.vertices, c.as_str()) {
                Some(s) => self.dependency_state.live[s],
                None => None,
            },
        };
        proof {
            if criterion matches CriterionType::Signal(symbol) && exported_node is Some {
                let symbol = criterion->Signal_0;
                crate::text::lemma_first_equal(symbol_keys(self.pdg.vertices@), symbol@, 0);
                let s = first_equal(symbol_keys(self.pdg.vertices@), symbol@, 0)->0;
                assert(symbol_keys(self.pdg.vertices@)[s] == self.pdg.vertices[s].assigns_to.deep_view());
            }
        }
        match exported_node {
            Some(root) => Ok(root),
            None => Err(Error::StatementLookupError("Criterion not found in DPDG".to_owned())),
        }
    }
}

} // verus!
