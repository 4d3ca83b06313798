//! The nodes of the dynamic graph and the state from which they are made:
//! what one cycle does to the arena, the dependency table, the delayed
//! statements and the snapshots.

use std::collections::HashMap;
use vstd::prelude::*;
use vstd::std_specs::hash::*;
use crate::errors::Error;
use crate::invariants::{
    cycle_ok, declared_apart, delayed_ok, floor_stamp, lemma_activate_ok, lemma_cycle_end,
    lemma_delayed_after, lemma_resolve_ok, lemma_rest_apart, made_in, rest_ok,
};
use crate::linked::{Guard, LinkedEdgeView, LinkedNode, LinkedNodeView};
use crate::pdg_spec::{PDGSpecEdgeKind, PDGSpecNodeKind};

verus! {

broadcast use group_hash_axioms;

/// One activation of a statement. Nodes live in the arena of their graph
/// and are known by their position in it.
#[derive(Debug)]
pub struct DynPDGNode {
    /// The statement: a vertex of the static graph.
    pub inner: u32,
    pub timestamp: i64,
    /// The nodes that this one depends on, each with the kind of the dependence.
    pub dependencies: Vec<(usize, PDGSpecEdgeKind)>,
    /// The cycle in which the node was made.
    pub cycle: i64,
}

/// Mathematical value of a [`DynPDGNode`].
pub struct DynNodeView {
    pub inner: u32,
    pub timestamp: i64,
    pub dependencies: Seq<(usize, PDGSpecEdgeKind)>,
    pub cycle: i64,
}

impl DeepView for DynPDGNode {
    type V = DynNodeView;

    open spec fn deep_view(&self) -> DynNodeView {
        DynNodeView {
            inner: self.inner,
            timestamp: self.timestamp,
            dependencies: self.dependencies@,
            cycle: self.cycle,
        }
    }
}

/// What the graph is grown from: a statement by its name, or a signal by
/// the symbol that is assigned.
#[derive(Clone, Debug)]
pub enum CriterionType {
    Statement(String),
    Signal(String),
}

/// Which dependences the graph holds.
#[derive(Clone, Copy, Debug, PartialEq, Eq, Structural)]
pub enum GraphProcessingType {
    /// Data, index and conditional dependences.
    Normal,
    /// Data dependences only.
    DataOnly,
    /// As `Normal`, and the declarations of what a statement uses.
    Full,
}

/// The dependency table and the probe values as they stood at the end of a cycle.
#[derive(Debug)]
pub struct Snapshot {
    pub table: Vec<Option<usize>>,
    pub probes: Vec<Option<u64>>,
}

/// Mathematical value of a [`Snapshot`].
pub struct SnapshotView {
    pub table: Seq<Option<usize>>,
    pub probes: Seq<Option<u64>>,
}

impl View for Snapshot {
    type V = SnapshotView;

    open spec fn view(&self) -> SnapshotView {
        SnapshotView { table: self.table@, probes: self.probes@ }
    }
}

/// The state that the builder carries from cycle to cycle, as a mathematical value.
pub struct BuilderState {
    /// The arena of nodes.
    pub nodes: Seq<DynNodeView>,
    /// For each symbol the node that produced it last.
    pub live: Seq<Option<usize>>,
    /// For each vertex the control-flow node that was recorded for it last.
    pub control: Seq<Option<usize>>,
    /// Register writes of the current cycle, in order; they take effect when the cycle ends.
    pub reg_next: Seq<(usize, usize)>,
    /// Delayed statements with the cycle in which each fires.
    pub delayed: Seq<(i64, u32)>,
    /// The snapshots that were taken, by cycle.
    pub snapshots: Map<i64, SnapshotView>,
    /// The latest node that matched the criterion.
    pub candidate: Option<usize>,
}

/// The static graph as the builder reads it.
pub type StaticGraph = Seq<LinkedNodeView>;

/// Whether one comparison holds of the probe values; it fails for a probe
/// that is unknown or has no value yet.
pub open spec fn guard_holds(g: Guard, probes: Seq<Option<u64>>) -> bool {
    g.slot matches Some(s) && s < probes.len() && probes[s as int] == Some(g.value)
}

/// Whether every comparison holds.
pub open spec fn guards_hold(guards: Seq<Guard>, probes: Seq<Option<u64>>) -> bool {
    forall|i: int| 0 <= i < guards.len() ==> guard_holds(#[trigger] guards[i], probes)
}

/// The time stamp of a node made in cycle `tau`: the cycle for a clocked
/// statement, the cycle before for any other, but never below zero.
pub open spec fn node_timestamp(v: LinkedNodeView, tau: i64) -> int {
    if v.clocked {
        tau as int
    } else if tau >= 1 {
        tau - 1
    } else {
        0
    }
}

/// A register declaration under reset: it provides its symbol at once, one
/// time step early.
pub open spec fn resets(v: LinkedNodeView, tau: i64, reset: bool) -> bool {
    v.symbol is Some && v.clocked && v.kind == PDGSpecNodeKind::DataDefinition && (tau == 0
        || reset)
}

/// A statement that provides its symbol as soon as it is activated.
pub open spec fn writes_now(v: LinkedNodeView, tau: i64, reset: bool) -> bool {
    v.symbol is Some && (!v.clocked || resets(v, tau, reset))
}

/// A register update: it provides its symbol from the end of the cycle on.
pub open spec fn defers(v: LinkedNodeView) -> bool {
    v.symbol is Some && v.clocked && v.kind != PDGSpecNodeKind::DataDefinition
}

/// The statements of `activated` that are in the graph.
pub open spec fn all_in_range(stmts: Seq<u32>, n: int) -> bool {
    forall|k: int| 0 <= k < stmts.len() ==> (#[trigger] stmts[k]) < n
}

/// The delayed statements that fire in cycle `tau`, in the order in which they wait.
pub open spec fn ready_statements(delayed: Seq<(i64, u32)>, tau: i64) -> Seq<u32>
    decreases delayed.len(),
{
    if delayed.len() == 0 {
        seq![]
    } else {
        let rest = ready_statements(delayed.drop_last(), tau);
        if delayed.last().0 == tau {
            rest.push(delayed.last().1)
        } else {
            rest
        }
    }
}

/// The delayed statements that do not fire in cycle `tau`.
pub open spec fn still_delayed(delayed: Seq<(i64, u32)>, tau: i64) -> Seq<(i64, u32)>
    decreases delayed.len(),
{
    if delayed.len() == 0 {
        seq![]
    } else {
        let rest = still_delayed(delayed.drop_last(), tau);
        if delayed.last().0 == tau {
            rest
        } else {
            rest.push(delayed.last())
        }
    }
}

/// The activated statements without delay, in order.
pub open spec fn immediate_of(g: StaticGraph, activated: Seq<u32>) -> Seq<u32>
    decreases activated.len(),
{
    if activated.len() == 0 {
        seq![]
    } else {
        let rest = immediate_of(g, activated.drop_last());
        if g[activated.last() as int].assign_delay == 0 {
            rest.push(activated.last())
        } else {
            rest
        }
    }
}

/// The activated statements with a delay, each with the cycle in which it fires.
pub open spec fn enqueued(g: StaticGraph, activated: Seq<u32>, tau: i64) -> Seq<(i64, u32)>
    decreases activated.len(),
{
    if activated.len() == 0 {
        seq![]
    } else {
        let rest = enqueued(g, activated.drop_last(), tau);
        let delay = g[activated.last() as int].assign_delay;
        if delay == 0 {
            rest
        } else {
            rest.push(((tau + delay) as i64, activated.last()))
        }
    }
}

/// The state after statement `stmt` is activated in cycle `tau`: a node
/// without dependences is made for it, and if its condition holds it is
/// registered as a provider.
pub open spec fn activate(
    g: StaticGraph,
    st: BuilderState,
    stmt: u32,
    tau: i64,
    reset: bool,
    probes: Seq<Option<u64>>,
) -> BuilderState {
    let v = g[stmt as int];
    let holds = guards_hold(v.guards, probes);
    let idx = st.nodes.len() as usize;
    let stamp = if holds && resets(v, tau, reset) {
        node_timestamp(v, tau) - 1
    } else {
        node_timestamp(v, tau)
    };
    BuilderState {
        nodes: st.nodes.push(
            DynNodeView { inner: stmt, timestamp: stamp as i64, dependencies: seq![], cycle: tau },
        ),
        live: if holds && writes_now(v, tau, reset) {
            st.live.update(v.symbol->0 as int, Some(idx))
        } else {
            st.live
        },
        reg_next: if holds && defers(v) {
            st.reg_next.push((v.symbol->0, idx))
        } else {
            st.reg_next
        },
        control: if holds && v.kind == PDGSpecNodeKind::ControlFlow {
            st.control.update(v.class as int, Some(idx))
        } else {
            st.control
        },
        ..st
    }
}

/// The state after the statements `stmts` are activated in order.
pub open spec fn activate_all(
    g: StaticGraph,
    st: BuilderState,
    stmts: Seq<u32>,
    tau: i64,
    reset: bool,
    probes: Seq<Option<u64>>,
) -> BuilderState
    decreases stmts.len(),
{
    if stmts.len() == 0 {
        st
    } else {
        activate(
            g,
            activate_all(g, st, stmts.drop_last(), tau, reset, probes),
            stmts.last(),
            tau,
            reset,
            probes,
        )
    }
}

/// What the dependences of one node have come to while its edges are walked.
pub struct Resolution {
    /// The dependences found so far.
    pub deps: Seq<(usize, PDGSpecEdgeKind)>,
    /// The declaration nodes made so far.
    pub fresh: Seq<DynNodeView>,
    /// The symbols that were looked up so far.
    pub served: Seq<usize>,
}

/// The tables that the edges of a vertex are resolved against: the snapshot
/// of the cycle in which a delayed statement was activated, else the live
/// table and the current probe values.
pub open spec fn context(st: BuilderState, v: LinkedNodeView, tau: i64, probes: Seq<Option<u64>>)
    -> SnapshotView {
    if v.assign_delay > 0 && st.snapshots.contains_key((tau - v.assign_delay) as i64) {
        st.snapshots[(tau - v.assign_delay) as i64]
    } else {
        SnapshotView { table: st.live, probes }
    }
}

/// The resolution after one more edge.
pub open spec fn resolve_edge(
    g: StaticGraph,
    st: BuilderState,
    ctx: SnapshotView,
    mode: GraphProcessingType,
    tau: i64,
    r: Resolution,
    e: LinkedEdgeView,
) -> Resolution {
    let symbol = g[e.to as int].symbol;
    if symbol is Some && r.served.contains(symbol->0) {
        r
    } else if mode == GraphProcessingType::DataOnly && e.kind != PDGSpecEdgeKind::Data {
        r
    } else if !guards_hold(e.guards, ctx.probes) {
        r
    } else {
        match e.kind {
            PDGSpecEdgeKind::Declaration => if mode == GraphProcessingType::Full {
                Resolution {
                    deps: r.deps.push(
                        ((st.nodes.len() + r.fresh.len()) as usize, PDGSpecEdgeKind::Declaration),
                    ),
                    fresh: r.fresh.push(
                        DynNodeView {
                            inner: e.to,
                            timestamp: (tau - 1) as i64,
                            dependencies: seq![],
                            cycle: tau,
                        },
                    ),
                    ..r
                }
            } else {
                r
            },
            PDGSpecEdgeKind::Conditional => match st.control[g[e.to as int].class as int] {
                Some(p) => if st.nodes[p as int].cycle == tau {
                    Resolution { deps: r.deps.push((p, PDGSpecEdgeKind::Conditional)), ..r }
                } else {
                    r
                },
                None => r,
            },
            _ => match symbol {
                Some(s) => {
                    let table = if e.kind == PDGSpecEdgeKind::Data {
                        st.live
                    } else {
                        ctx.table
                    };
                    Resolution {
                        deps: match table[s as int] {
                            Some(p) => r.deps.push((p, e.kind)),
                            None => r.deps,
                        },
                        served: r.served.push(s),
                        ..r
                    }
                },
                None => r,
            },
        }
    }
}

/// The resolution after the first `upto` edges.
pub open spec fn resolve_edges(
    g: StaticGraph,
    st: BuilderState,
    ctx: SnapshotView,
    mode: GraphProcessingType,
    tau: i64,
    edges: Seq<LinkedEdgeView>,
    upto: int,
) -> Resolution
    decreases upto,
{
    if upto <= 0 {
        Resolution { deps: seq![], fresh: seq![], served: seq![] }
    } else {
        resolve_edge(
            g,
            st,
            ctx,
            mode,
            tau,
            resolve_edges(g, st, ctx, mode, tau, edges, upto - 1),
            edges[upto - 1],
        )
    }
}

/// The state after the dependences of node `node` are resolved.
pub open spec fn resolve(
    g: StaticGraph,
    st: BuilderState,
    node: int,
    mode: GraphProcessingType,
    tau: i64,
    probes: Seq<Option<u64>>,
) -> BuilderState {
    let v = g[st.nodes[node].inner as int];
    let r = resolve_edges(
        g,
        st,
        context(st, v, tau, probes),
        mode,
        tau,
        v.dependencies,
        v.dependencies.len() as int,
    );
    BuilderState {
        nodes: (st.nodes + r.fresh).update(
            node,
            DynNodeView { dependencies: r.deps, ..st.nodes[node] },
        ),
        ..st
    }
}

/// The state after the dependences of the nodes `base .. base + count` are resolved in order.
pub open spec fn resolve_all(
    g: StaticGraph,
    st: BuilderState,
    base: int,
    count: int,
    mode: GraphProcessingType,
    tau: i64,
    probes: Seq<Option<u64>>,
) -> BuilderState
    decreases count,
{
    if count <= 0 {
        st
    } else {
        resolve(
            g,
            resolve_all(g, st, base, count - 1, mode, tau, probes),
            base + count - 1,
            mode,
            tau,
            probes,
        )
    }
}

/// The live table after the register writes `reg_next`, applied in order.
pub open spec fn commit_registers(live: Seq<Option<usize>>, reg_next: Seq<(usize, usize)>) -> Seq<
    Option<usize>,
>
    decreases reg_next.len(),
{
    if reg_next.len() == 0 {
        live
    } else {
        commit_registers(live, reg_next.drop_last()).update(
            reg_next.last().0 as int,
            Some(reg_next.last().1),
        )
    }
}

/// The candidate after the nodes `base .. base + count`: the last of them
/// whose statement matches the criterion, else the candidate before.
pub open spec fn capture(
    matches: Seq<bool>,
    nodes: Seq<DynNodeView>,
    base: int,
    count: int,
    candidate: Option<usize>,
) -> Option<usize>
    decreases count,
{
    if count <= 0 {
        candidate
    } else if matches[nodes[base + count - 1].inner as int] {
        Some((base + count - 1) as usize)
    } else {
        capture(matches, nodes, base, count - 1, candidate)
    }
}

/// The statements for which a node is made in cycle `tau`: the activated
/// ones without delay, then the delayed ones that fire.
pub open spec fn cycle_statements(
    g: StaticGraph,
    st: BuilderState,
    activated: Seq<u32>,
    tau: i64,
) -> Seq<u32> {
    immediate_of(g, activated) + ready_statements(st.delayed, tau)
}

/// The state after cycle `tau`, in which the statements `activated` are
/// active, the reset is asserted or not, and the probes hold `probes`.
pub open spec fn cycle(
    g: StaticGraph,
    matches: Seq<bool>,
    mode: GraphProcessingType,
    st: BuilderState,
    activated: Seq<u32>,
    tau: i64,
    reset: bool,
    probes: Seq<Option<u64>>,
) -> BuilderState {
    let stmts = cycle_statements(g, st, activated, tau);
    let waiting = enqueued(g, activated, tau);
    let base = st.nodes.len() as int;
    let s2 = BuilderState { delayed: still_delayed(st.delayed, tau) + waiting, ..st };
    let s3 = activate_all(g, s2, stmts, tau, reset, probes);
    let s4 = resolve_all(g, s3, base, stmts.len() as int, mode, tau, probes);
    let s6 = BuilderState {
        live: commit_registers(s4.live, s4.reg_next),
        reg_next: seq![],
        candidate: capture(matches, s4.nodes, base, stmts.len() as int, s4.candidate),
        ..s4
    };
    if waiting.len() > 0 {
        BuilderState {
            snapshots: s6.snapshots.insert(tau, SnapshotView { table: s6.live, probes }),
            ..s6
        }
    } else {
        s6
    }
}

/// The edges of a static graph stay inside it, and so do its symbols.
pub open spec fn vertex_wf(v: LinkedNodeView, n: int) -> bool {
    &&& v.class < n
    &&& (v.symbol matches Some(s) ==> s < n)
    &&& forall|k: int| 0 <= k < v.dependencies.len() ==> (#[trigger] v.dependencies[k]).to < n
}

/// Every vertex of the static graph is well formed.
pub open spec fn graph_wf(g: StaticGraph) -> bool {
    forall|v: int| 0 <= v < g.len() ==> vertex_wf(#[trigger] g[v], g.len() as int)
}

/// A table with `n` entries, each empty or a node below `limit`.
pub open spec fn table_wf(table: Seq<Option<usize>>, n: int, limit: int) -> bool {
    &&& table.len() == n
    &&& forall|i: int| 0 <= i < n ==> (#[trigger] table[i] matches Some(p) ==> p < limit)
}

/// A node of a statement below `n` whose dependences are nodes below `limit`.
pub open spec fn node_wf(node: DynNodeView, n: int, limit: int) -> bool {
    &&& node.inner < n
    &&& forall|j: int|
        0 <= j < node.dependencies.len() ==> (#[trigger] node.dependencies[j]).0 < limit
}

/// Every table of the state has an entry for every vertex, and whatever
/// names a node names one of the arena.
pub open spec fn state_wf(g: StaticGraph, st: BuilderState) -> bool {
    let n = g.len() as int;
    let limit = st.nodes.len() as int;
    &&& graph_wf(g)
    &&& table_wf(st.live, n, limit)
    &&& table_wf(st.control, n, limit)
    &&& forall|k: int|
        0 <= k < st.reg_next.len() ==> (#[trigger] st.reg_next[k]).0 < n && st.reg_next[k].1
            < limit
    &&& (st.candidate matches Some(c) ==> c < limit)
    &&& forall|i: int| 0 <= i < limit ==> node_wf(#[trigger] st.nodes[i], n, limit)
    &&& forall|k: i64| #[trigger]
        st.snapshots.contains_key(k) ==> table_wf(st.snapshots[k].table, n, limit)
    &&& forall|k: int| 0 <= k < st.delayed.len() ==> (#[trigger] st.delayed[k]).1 < n
}

/// The state that the builder carries from cycle to cycle.
#[derive(Debug)]
pub struct DependencyState {
    pub nodes: Vec<DynPDGNode>,
    pub live: Vec<Option<usize>>,
    pub control: Vec<Option<usize>>,
    pub reg_next: Vec<(usize, usize)>,
    pub delayed: Vec<(i64, u32)>,
    pub snapshots: HashMap<i64, Snapshot>,
    pub candidate: Option<usize>,
}

impl View for DependencyState {
    type V = BuilderState;

    open spec fn view(&self) -> BuilderState {
        BuilderState {
            nodes: self.nodes.deep_view(),
            live: self.live@,
            control: self.control@,
            reg_next: self.reg_next@,
            delayed: self.delayed@,
            snapshots: Map::new(
                |k: i64| self.snapshots@.contains_key(k),
                |k: i64| self.snapshots@[k]@,
            ),
            candidate: self.candidate,
        }
    }
}

/// A copy of a list of plain values.
pub fn copy_vec<T: Copy>(v: &Vec<T>) -> (r: Vec<T>)
    ensures
        r@ == v@,
{
    let mut r: Vec<T> = Vec::new();
    let mut i: usize = 0;
    while i < v.len()
        invariant
            i <= v.len(),
            r@ == v@.take(i as int),
        decreases v.len() - i,
    {
        r.push(v[i]);
        assert(v@.take(i + 1) =~= v@.take(i as int).push(v@[i as int]));
        i = i + 1;
    }
    assert(v@.take(i as int) =~= v@);
    r
}

/// A list of `n` empty entries.
pub fn empty_table(n: usize) -> (r: Vec<Option<usize>>)
    ensures
        r@ == Seq::new(n as nat, |i: int| None::<usize>),
{
    let mut r: Vec<Option<usize>> = Vec::new();
    let mut i: usize = 0;
    while i < n
        invariant
            i <= n,
            r.len() == i,
            forall|k: int| 0 <= k < i ==> #[trigger] r[k] is None,
        decreases n - i,
    {
        r.push(None);
        i = i + 1;
    }
    assert(r@ =~= Seq::new(n as nat, |i: int| None::<usize>));
    r
}

/// Tests the comparisons of a condition against the probe values.
pub fn check_guards(guards: &Vec<Guard>, probes: &Vec<Option<u64>>) -> (r: bool)
    ensures
        r == guards_hold(guards@, probes@),
{
    let mut i: usize = 0;
    while i < guards.len()
        invariant
            i <= guards.len(),
            forall|k: int| 0 <= k < i ==> guard_holds(#[trigger] guards[k], probes@),
        decreases guards.len() - i,
    {
        let g = guards[i];
        let ok = match g.slot {
            Some(s) => s < probes.len() && match probes[s] {
                Some(current) => current == g.value,
                None => false,
            },
            None => false,
        };
        if !ok {
            assert(!guard_holds(guards[i as int], probes@));
            return false;
        }
        i = i + 1;
    }
    true
}

fn contains_symbol(served: &Vec<usize>, s: usize) -> (r: bool)
    ensures
        r == served@.contains(s),
{
    let mut i: usize = 0;
    while i < served.len()
        invariant
            i <= served.len(),
            forall|k: int| 0 <= k < i ==> served[k] != s,
        decreases served.len() - i,
    {
        if served[i] == s {
            return true;
        }
        i = i + 1;
    }
    false
}

impl DependencyState {
    /// The state before the first cycle, for a graph of `n` vertices.
    pub fn new(n: usize) -> (state: Self)
        ensures
            state@ == (BuilderState {
                nodes: seq![],
                live: Seq::new(n as nat, |i: int| None::<usize>),
                control: Seq::new(n as nat, |i: int| None::<usize>),
                reg_next: seq![],
                delayed: seq![],
                snapshots: Map::empty(),
                candidate: None,
            }),
    {
        let state = DependencyState {
            nodes: Vec::new(),
            live: empty_table(n),
            control: empty_table(n),
            reg_next: Vec::new(),
            delayed: Vec::new(),
            snapshots: HashMap::new(),
            candidate: None,
        };
        assert(state@.nodes =~= seq![]);
        assert(state@.snapshots =~= Map::empty());
        state
    }

    /// Makes the node of one activated statement and registers it as a
    /// provider where its condition holds.
    pub fn activate(
        &mut self,
        g: &Vec<LinkedNode>,
        stmt: u32,
        tau: i64,
        reset: bool,
        probes: &Vec<Option<u64>>,
    )
        requires
            state_wf(g.deep_view(), old(self)@),
            stmt < g.len(),
            0 <= tau,
        ensures
            final(self)@ == activate(g.deep_view(), old(self)@, stmt, tau, reset, probes@),
            state_wf(g.deep_view(), final(self)@),
    {
        let ghost gv = g.deep_view();
        let ghost st = self@;
        let node = &g[stmt as usize];
        assert(gv[stmt as int] == node.deep_view());
        assert(vertex_wf(gv[stmt as int], gv.len() as int));
        let idx = self.nodes.len();
        let mut timestamp = if node.clocked {
            tau
        } else if tau >= 1 {
            tau - 1
        } else {
            0
        };
        let holds = check_guards(&node.guards, probes);
        if holds {
            if let Some(symbol) = node.symbol {
                if node.clocked {
                    if node.kind == PDGSpecNodeKind::DataDefinition {
                        if tau == 0 || reset {
                            timestamp = timestamp - 1;
                            self.live.set(symbol, Some(idx));
                        }
                    } else {
                        self.reg_next.push((symbol, idx));
                    }
                } else {
                    self.live.set(symbol, Some(idx));
                }
            }
            if node.kind == PDGSpecNodeKind::ControlFlow {
                self.control.set(node.class, Some(idx));
            }
        }
        self.nodes.push(
            DynPDGNode { inner: stmt, timestamp, dependencies: Vec::new(), cycle: tau },
        );
        proof {
            let after = activate(gv, st, stmt, tau, reset, probes@);
            assert(self.nodes.len() == idx + 1);
            assert(self.nodes.len() <= usize::MAX);
            assert(st.nodes.len() == idx);
            assert(self@.nodes =~= after.nodes);
            assert(self@.snapshots =~= after.snapshots);
            assert(self@.live =~= after.live);
            assert(self@.control =~= after.control);
            assert(self@.reg_next =~= after.reg_next);
            assert(self@ == after);
            lemma_activate_wf(gv, st, stmt, tau, reset, probes@);
        }
    }

    /// Resolves the dependences of node `node`, made in cycle `tau`, along
    /// the edges that leave its statement.
    pub fn resolve(
        &mut self,
        g: &Vec<LinkedNode>,
        node: usize,
        mode: GraphProcessingType,
        tau: i64,
        probes: &Vec<Option<u64>>,
    )
        requires
            state_wf(g.deep_view(), old(self)@),
            node < old(self).nodes.len(),
            0 <= tau,
        ensures
            final(self)@ == resolve(g.deep_view(), old(self)@, node as int, mode, tau, probes@),
            state_wf(g.deep_view(), final(self)@),
    {
        let ghost gv = g.deep_view();
        let ghost st = self@;
        let ghost n = gv.len() as int;
        let ghost limit = st.nodes.len() as int;
        let inner = self.nodes[node].inner;
        let timestamp = self.nodes[node].timestamp;
        let made = self.nodes[node].cycle;
        assert(st.nodes[node as int] == self.nodes[node as int].deep_view());
        assert(node_wf(st.nodes[node as int], n, limit));
        let v = &g[inner as usize];
        assert(gv[inner as int] == v.deep_view());
        assert(vertex_wf(gv[inner as int], n));
        let ghost edges = v.deep_view().dependencies;
        let ghost ctx = context(st, v.deep_view(), tau, probes@);
        let snapshot = if v.assign_delay > 0 {
            self.snapshots.get(&(tau - v.assign_delay as i64))
        } else {
            None
        };
        let (ctx_table, ctx_probes): (&Vec<Option<usize>>, &Vec<Option<u64>>) = match snapshot {
            Some(s) => (&s.table, &s.probes),
            None => (&self.live, probes),
        };
        assert(ctx_table@ == ctx.table && ctx_probes@ == ctx.probes);
        assert(table_wf(ctx.table, n, limit));
        let mut deps: Vec<(usize, PDGSpecEdgeKind)> = Vec::new();
        let mut served: Vec<usize> = Vec::new();
        let mut k: usize = 0;
        assert(self.nodes.deep_view() =~= st.nodes + Seq::<DynNodeView>::empty());
        while k < v.dependencies.len()
            invariant
                k <= v.dependencies.len(),
                0 <= tau,
                gv == g.deep_view(),
                n == gv.len(),
                limit == st.nodes.len(),
                limit <= self.nodes.len(),
                state_wf(gv, st),
                inner < g.len(),
                v == &g[inner as int],
                edges == v.deep_view().dependencies,
                vertex_wf(v.deep_view(), n),
                ctx_table@ == ctx.table,
                ctx_probes@ == ctx.probes,
                table_wf(ctx.table, n, limit),
                self.live@ == st.live,
                self.control@ == st.control,
                self.reg_next@ == st.reg_next,
                self.delayed@ == st.delayed,
                self@.snapshots == st.snapshots,
                self.candidate == st.candidate,
                deps@ == resolve_edges(gv, st, ctx, mode, tau, edges, k as int).deps,
                served@ == resolve_edges(gv, st, ctx, mode, tau, edges, k as int).served,
                self.nodes.deep_view() == st.nodes + resolve_edges(
                    gv,
                    st,
                    ctx,
                    mode,
                    tau,
                    edges,
                    k as int,
                ).fresh,
                forall|j: int| 0 <= j < deps.len() ==> (#[trigger] deps[j]).0 < self.nodes.len(),
                forall|i: int|
                    limit <= i < self.nodes.len() ==> (#[trigger] self.nodes.deep_view()[i]).inner
                        < n && self.nodes.deep_view()[i].dependencies.len() == 0,
            decreases v.dependencies.len() - k,
        {
            let edge = &v.dependencies[k];
            let ghost r = resolve_edges(gv, st, ctx, mode, tau, edges, k as int);
            let ghost e = edges[k as int];
            assert(e == edge.deep_view());
            assert(e.to < n);
            let target = &g[edge.to as usize];
            assert(gv[e.to as int] == target.deep_view());
            assert(vertex_wf(gv[e.to as int], n));
            let symbol = target.symbol;
            let already = match symbol {
                Some(s) => contains_symbol(&served, s),
                None => false,
            };
            let ghost before_nodes = self.nodes.deep_view();
            if already {
            } else if mode == GraphProcessingType::DataOnly && edge.kind != PDGSpecEdgeKind::Data {
            } else if !check_guards(&edge.guards, ctx_probes) {
            } else {
                match edge.kind {
                    PDGSpecEdgeKind::Declaration => {
                        if mode == GraphProcessingType::Full {
                            let fresh = self.nodes.len();
                            self.nodes.push(
                                DynPDGNode {
                                    inner: edge.to,
                                    timestamp: tau - 1,
                                    dependencies: Vec::new(),
                                    cycle: tau,
                                },
                            );
                            deps.push((fresh, PDGSpecEdgeKind::Declaration));
                            assert(self.nodes.deep_view() =~= before_nodes.push(
                                DynNodeView {
                                    inner: e.to,
                                    timestamp: (tau - 1) as i64,
                                    dependencies: seq![],
                                    cycle: tau,
                                },
                            ));
                        }
                    },
                    PDGSpecEdgeKind::Conditional => {
                        match self.control[target.class] {
                            Some(p) => {
                                assert(p < limit);
                                assert(before_nodes[p as int] == st.nodes[p as int]);
                                assert(before_nodes[p as int] == self.nodes[p as int].deep_view());
                                if self.nodes[p].cycle == tau {
                                    deps.push((p, PDGSpecEdgeKind::Conditional));
                                }
                            },
                            None => {},
                        }
                    },
                    _ => {
                        match symbol {
                            Some(s) => {
                                let found = if edge.kind == PDGSpecEdgeKind::Data {
                                    self.live[s]
                                } else {
                                    ctx_table[s]
                                };
                                match found {
                                    Some(p) => {
                                        deps.push((p, edge.kind));
                                    },
                                    None => {},
                                }
                                served.push(s);
                            },
                            None => {},
                        }
                    },
                }
            }
            proof {
                let r2 = resolve_edge(gv, st, ctx, mode, tau, r, e);
                assert(r2 == resolve_edges(gv, st, ctx, mode, tau, edges, k + 1));
                assert(deps@ =~= r2.deps);
                assert(served@ =~= r2.served);
                assert(self.nodes.deep_view() =~= st.nodes + r2.fresh);
            }
            k = k + 1;
        }
        let ghost r = resolve_edges(gv, st, ctx, mode, tau, edges, edges.len() as int);
        let ghost grown = self.nodes.deep_view();
        self.nodes.set(node, DynPDGNode { inner, timestamp, dependencies: deps, cycle: made });
        proof {
            let after = resolve(gv, st, node as int, mode, tau, probes@);
            assert(self@.nodes =~= after.nodes);
            assert(self@.snapshots == after.snapshots);
            assert(self@ == after);
            let limit2 = after.nodes.len() as int;
            assert forall|i: int| 0 <= i < limit2 implies node_wf(
                #[trigger] after.nodes[i],
                n,
                limit2,
            ) by {
                if i == node {
                } else if i < limit {
                    assert(after.nodes[i] == st.nodes[i]);
                    assert(node_wf(st.nodes[i], n, limit));
                } else {
                    assert(after.nodes[i] == grown[i]);
                }
            }
            assert forall|k: i64| #[trigger] after.snapshots.contains_key(k) implies table_wf(
                after.snapshots[k].table,
                n,
                limit2,
            ) by {
                assert(table_wf(st.snapshots[k].table, n, limit));
            }
        }
    }

    /// Takes the delayed statements that fire in cycle `tau` out of the buffer.
    pub fn take_ready(&mut self, tau: i64) -> (ready: Vec<u32>)
        ensures
            ready@ == ready_statements(old(self)@.delayed, tau),
            final(self)@ == (BuilderState {
                delayed: still_delayed(old(self)@.delayed, tau),
                ..old(self)@
            }),
    {
        let mut ready: Vec<u32> = Vec::new();
        let mut rest: Vec<(i64, u32)> = Vec::new();
        let mut i: usize = 0;
        let ghost delayed = self.delayed@;
        assert(delayed.take(0) =~= Seq::<(i64, u32)>::empty());
        while i < self.delayed.len()
            invariant
                i <= self.delayed.len(),
                self.delayed@ == delayed,
                ready@ == ready_statements(delayed.take(i as int), tau),
                rest@ == still_delayed(delayed.take(i as int), tau),
            decreases self.delayed.len() - i,
        {
            let (fire, stmt) = self.delayed[i];
            assert(delayed.take(i + 1).drop_last() =~= delayed.take(i as int));
            assert(delayed.take(i + 1).last() == (fire, stmt));
            if fire == tau {
                ready.push(stmt);
            } else {
                rest.push((fire, stmt));
            }
            i = i + 1;
        }
        assert(delayed.take(i as int) =~= delayed);
        self.delayed = rest;
        ready
    }

    /// Splits the activated statements by their delay: those without one
    /// are returned, the others wait in the buffer for the cycle in which
    /// they fire. Also tells whether any statement was put to wait.
    pub fn partition(&mut self, g: &Vec<LinkedNode>, activated: &Vec<u32>, tau: i64) -> (r: (
        Vec<u32>,
        bool,
    ))
        requires
            all_in_range(activated@, g.len() as int),
            0 <= tau <= i64::MAX - u32::MAX,
        ensures
            r.0@ == immediate_of(g.deep_view(), activated@),
            r.1 == (enqueued(g.deep_view(), activated@, tau).len() > 0),
            final(self)@ == (BuilderState {
                delayed: old(self)@.delayed + enqueued(g.deep_view(), activated@, tau),
                ..old(self)@
            }),
    {
        let ghost gv = g.deep_view();
        let ghost start = self.delayed@;
        let mut immediate: Vec<u32> = Vec::new();
        let mut delayed_present = false;
        let mut i: usize = 0;
        assert(activated@.take(0) =~= Seq::<u32>::empty());
        assert(start + Seq::<(i64, u32)>::empty() =~= start);
        while i < activated.len()
            invariant
                i <= activated.len(),
                gv == g.deep_view(),
                all_in_range(activated@, g.len() as int),
                0 <= tau <= i64::MAX - u32::MAX,
                immediate@ == immediate_of(gv, activated@.take(i as int)),
                self.delayed@ == start + enqueued(gv, activated@.take(i as int), tau),
                delayed_present == (enqueued(gv, activated@.take(i as int), tau).len() > 0),
                self@ == (BuilderState { delayed: self.delayed@, ..old(self)@ }),
            decreases activated.len() - i,
        {
            let stmt = activated[i];
            assert(activated@.take(i + 1).drop_last() =~= activated@.take(i as int));
            assert(activated@.take(i + 1).last() == stmt);
            assert(gv[stmt as int] == g[stmt as int].deep_view());
            let delay = g[stmt as usize].assign_delay;
            if delay == 0 {
                immediate.push(stmt);
            } else {
                let ghost before = enqueued(gv, activated@.take(i as int), tau);
                self.delayed.push((tau + delay as i64, stmt));
                delayed_present = true;
                assert(self.delayed@ =~= start + before.push(((tau + delay) as i64, stmt)));
            }
            i = i + 1;
        }
        assert(activated@.take(i as int) =~= activated@);
        (immediate, delayed_present)
    }

    /// Lets the register writes of the cycle take effect.
    pub fn commit_registers(&mut self)
        requires
            forall|k: int|
                0 <= k < old(self).reg_next.len() ==> (#[trigger] old(self).reg_next[k]).0 < old(
                    self,
                ).live.len(),
        ensures
            final(self)@ == (BuilderState {
                live: commit_registers(old(self)@.live, old(self)@.reg_next),
                reg_next: seq![],
                ..old(self)@
            }),
    {
        let ghost st = self@;
        let mut k: usize = 0;
        assert(st.reg_next.take(0) =~= Seq::<(usize, usize)>::empty());
        while k < self.reg_next.len()
            invariant
                k <= self.reg_next.len(),
                self.live.len() == st.live.len(),
                forall|j: int|
                    0 <= j < st.reg_next.len() ==> (#[trigger] st.reg_next[j]).0 < st.live.len(),
                self@ == (BuilderState {
                    live: commit_registers(st.live, st.reg_next.take(k as int)),
                    ..st
                }),
            decreases self.reg_next.len() - k,
        {
            let (symbol, node) = self.reg_next[k];
            assert(st.reg_next.take(k + 1).drop_last() =~= st.reg_next.take(k as int));
            assert(st.reg_next.take(k + 1).last() == (symbol, node));
            assert(st.reg_next[k as int].0 < st.live.len());
            self.live.set(symbol, Some(node));
            k = k + 1;
        }
        assert(st.reg_next.take(k as int) =~= st.reg_next);
        self.reg_next.clear();
    }

    /// Remembers the last of the nodes `base .. base + count` whose statement matches the criterion.
    pub fn capture(&mut self, matches: &Vec<bool>, base: usize, count: usize)
        requires
            base + count <= old(self).nodes.len(),
            forall|i: int|
                0 <= i < old(self).nodes.len() ==> (#[trigger] old(self).nodes[i]).inner
                    < matches.len(),
        ensures
            final(self)@ == (BuilderState {
                candidate: capture(
                    matches@,
                    old(self)@.nodes,
                    base as int,
                    count as int,
                    old(self)@.candidate,
                ),
                ..old(self)@
            }),
    {
        let ghost st = self@;
        let mut i: usize = 0;
        while i < count
            invariant
                i <= count,
                base + count <= self.nodes.len(),
                self.nodes == old(self).nodes,
                forall|j: int|
                    0 <= j < self.nodes.len() ==> (#[trigger] self.nodes[j]).inner < matches.len(),
                self@ == (BuilderState {
                    candidate: capture(matches@, st.nodes, base as int, i as int, st.candidate),
                    ..st
                }),
            decreases count - i,
        {
            assert(st.nodes[base + i] == self.nodes[base + i].deep_view());
            if matches[self.nodes[base + i].inner as usize] {
                self.candidate = Some(base + i);
            }
            i = i + 1;
        }
    }

    /// Keeps a copy of the live table and of the probe values under cycle `tau`.
    pub fn store_snapshot(&mut self, tau: i64, probes: &Vec<Option<u64>>)
        ensures
            final(self)@ == (BuilderState {
                snapshots: old(self)@.snapshots.insert(
                    tau,
                    SnapshotView { table: old(self)@.live, probes: probes@ },
                ),
                ..old(self)@
            }),
    {
        let snapshot = Snapshot { table: copy_vec(&self.live), probes: copy_vec(probes) };
        self.snapshots.insert(tau, snapshot);
        assert(self@.snapshots =~= old(self)@.snapshots.insert(
            tau,
            SnapshotView { table: old(self)@.live, probes: probes@ },
        ));
    }

    /// Builds the nodes of cycle `tau`: the statements `activated` are
    /// active, the reset is asserted or not, and the probes hold `probes`.
    /// A cycle that activates a statement outside the graph is refused, and
    /// the state stays as it was.
    pub fn process_cycle(
        &mut self,
        g: &Vec<LinkedNode>,
        matches: &Vec<bool>,
        mode: GraphProcessingType,
        activated: &Vec<u32>,
        tau: i64,
        reset: bool,
        probes: &Vec<Option<u64>>,
    ) -> (r: Result<(), Error>)
        requires
            rest_ok(g.deep_view(), old(self)@, tau as int),
            delayed_ok(g.deep_view(), old(self)@, tau as int),
            matches.len() == g.len(),
            0 <= tau <= i64::MAX - u32::MAX,
        ensures
            match r {
                Ok(()) => {
                    &&& all_in_range(activated@, g.len() as int)
                    &&& final(self)@ == cycle(
                        g.deep_view(),
                        matches@,
                        mode,
                        old(self)@,
                        activated@,
                        tau,
                        reset,
                        probes@,
                    )
                    &&& rest_ok(g.deep_view(), final(self)@, tau + 1)
                    &&& delayed_ok(g.deep_view(), final(self)@, tau + 1)
                },
                Err(e) => {
                    &&& e is MalformedPDG
                    &&& !all_in_range(activated@, g.len() as int)
                    &&& final(self)@ == old(self)@
                },
            },
    {
        let ghost gv = g.deep_view();
        let ghost st = self@;
        let ghost n = gv.len() as int;
        let mut c: usize = 0;
        while c < activated.len()
            invariant
                c <= activated.len(),
                forall|k: int| 0 <= k < c ==> (#[trigger] activated[k]) < g.len(),
            decreases activated.len() - c,
        {
            if activated[c] as usize >= g.len() {
                return Err(Error::MalformedPDG);
            }
            c = c + 1;
        }
        let base = self.nodes.len();
        let mut ready = self.take_ready(tau);
        let (mut stmts, delayed_present) = self.partition(g, activated, tau);
        let ghost waiting = enqueued(gv, activated@, tau);
        let ghost s2 = self@;
        stmts.append(&mut ready);
        proof {
            assert(stmts@ =~= cycle_statements(gv, st, activated@, tau));
            lemma_ready_in_range(st.delayed, tau, n);
            lemma_partition_in_range(gv, activated@, tau);
            assert(s2 == BuilderState { delayed: still_delayed(st.delayed, tau) + waiting, ..st });
            assert(state_wf(gv, s2));
            assert(stmts@.take(0) =~= Seq::<u32>::empty());
        }
        let count = stmts.len();
        let ghost floor = base + count;
        proof {
            lemma_rest_apart(gv, st, tau as int, floor);
            assert(cycle_ok(gv, s2, tau as int));
        }
        let mut i: usize = 0;
        while i < count
            invariant
                i <= count,
                count == stmts.len(),
                floor == base + count,
                gv == g.deep_view(),
                n == gv.len(),
                0 <= tau <= i64::MAX - u32::MAX,
                all_in_range(stmts@, n),
                self.nodes.len() == base + i,
                cycle_ok(gv, self@, tau as int),
                declared_apart(self@.nodes, tau as int, floor),
                made_in(gv, self@.nodes, tau as int, base as int, floor),
                self@ == activate_all(gv, s2, stmts@.take(i as int), tau, reset, probes@),
            decreases count - i,
        {
            assert(stmts@.take(i + 1).drop_last() =~= stmts@.take(i as int));
            assert(stmts@.take(i + 1).last() == stmts[i as int]);
            let ghost before = self@;
            self.activate(g, stmts[i], tau, reset, probes);
            proof {
                assert(self.nodes.len() <= usize::MAX);
                assert(before.nodes.len() == base + i);
                lemma_activate_ok(gv, before, stmts[i as int], tau, reset, probes@, floor);
                assert forall|k: int|
                    base <= k < floor && k < self@.nodes.len() implies (
                #[trigger] self@.nodes[k]).cycle == tau && (!gv[self@.nodes[k].inner as int].clocked
                    ==> self@.nodes[k].timestamp == floor_stamp(tau as int)) by {
                    if k < before.nodes.len() {
                        assert(before.nodes[k].cycle == tau);
                    }
                }
            }
            i = i + 1;
        }
        assert(stmts@.take(count as int) =~= stmts@);
        let ghost s3 = self@;
        let mut j: usize = 0;
        while j < count
            invariant
                j <= count,
                floor == base + count,
                gv == g.deep_view(),
                n == gv.len(),
                0 <= tau <= i64::MAX - u32::MAX,
                base + count <= self.nodes.len(),
                cycle_ok(gv, self@, tau as int),
                declared_apart(self@.nodes, tau as int, floor),
                made_in(gv, self@.nodes, tau as int, base as int, floor),
                self@ == resolve_all(gv, s3, base as int, j as int, mode, tau, probes@),
            decreases count - j,
        {
            let ghost before = self@;
            self.resolve(g, base + j, mode, tau, probes);
            proof {
                assert(self.nodes.len() <= usize::MAX);
                assert(before.nodes[base + j].cycle == tau);
                lemma_resolve_ok(gv, before, base + j, mode, tau, probes@, floor);
                assert forall|k: int|
                    base <= k < floor && k < self@.nodes.len() implies (
                #[trigger] self@.nodes[k]).cycle == tau && (!gv[self@.nodes[k].inner as int].clocked
                    ==> self@.nodes[k].timestamp == floor_stamp(tau as int)) by {
                    assert(before.nodes[k].cycle == tau);
                }
            }
            j = j + 1;
        }
        let ghost s4 = self@;
        proof {
            lemma_commit_wf(s4.live, s4.reg_next, n, s4.nodes.len() as int);
            lemma_capture_bound(
                matches@,
                s4.nodes,
                base as int,
                count as int,
                s4.candidate,
                s4.nodes.len() as int,
            );
        }
        self.commit_registers();
        proof {
            assert(self@.nodes == s4.nodes);
            assert forall|i: int| 0 <= i < self.nodes.len() implies (#[trigger] self.nodes[i]).inner
                < matches.len() by {
                assert(node_wf(s4.nodes[i], n, s4.nodes.len() as int));
                assert(self@.nodes[i] == self.nodes[i].deep_view());
            }
        }
        self.capture(matches, base, count);
        if delayed_present {
            self.store_snapshot(tau, probes);
        }
        proof {
            let after = cycle(gv, matches@, mode, st, activated@, tau, reset, probes@);
            assert(self@ == after);
            assert forall|k: i64| #[trigger] after.snapshots.contains_key(k) implies table_wf(
                after.snapshots[k].table,
                n,
                after.nodes.len() as int,
            ) by {
                if s4.snapshots.contains_key(k) {
                    assert(table_wf(s4.snapshots[k].table, n, s4.nodes.len() as int));
                }
            }
            lemma_cycle_end(gv, s4, after, tau as int, probes@);
            lemma_delayed_after(gv, matches@, mode, st, activated@, tau, reset, probes@);
        }
        Ok(())
    }
}

/// Activating a statement of the graph keeps the state well formed.
pub proof fn lemma_activate_wf(
    g: StaticGraph,
    st: BuilderState,
    stmt: u32,
    tau: i64,
    reset: bool,
    probes: Seq<Option<u64>>,
)
    requires
        state_wf(g, st),
        stmt < g.len(),
        st.nodes.len() < usize::MAX,
    ensures
        state_wf(g, activate(g, st, stmt, tau, reset, probes)),
{
    let after = activate(g, st, stmt, tau, reset, probes);
    let n = g.len() as int;
    let limit = after.nodes.len() as int;
    assert(vertex_wf(g[stmt as int], n));
    assert forall|i: int| 0 <= i < limit implies node_wf(#[trigger] after.nodes[i], n, limit) by {
        if i < st.nodes.len() {
            assert(node_wf(st.nodes[i], n, st.nodes.len() as int));
        }
    }
    assert forall|k: i64| #[trigger] after.snapshots.contains_key(k) implies table_wf(
        after.snapshots[k].table,
        n,
        limit,
    ) by {
        assert(table_wf(st.snapshots[k].table, n, st.nodes.len() as int));
    }
}

/// The delayed statements that fire, and those that stay, are statements of the graph.
pub proof fn lemma_ready_in_range(delayed: Seq<(i64, u32)>, tau: i64, n: int)
    requires
        forall|k: int| 0 <= k < delayed.len() ==> (#[trigger] delayed[k]).1 < n,
    ensures
        all_in_range(ready_statements(delayed, tau), n),
        forall|k: int|
            0 <= k < still_delayed(delayed, tau).len() ==> (#[trigger] still_delayed(
                delayed,
                tau,
            )[k]).1 < n,
    decreases delayed.len(),
{
    if delayed.len() > 0 {
        lemma_ready_in_range(delayed.drop_last(), tau, n);
        let rest = still_delayed(delayed.drop_last(), tau);
        let last = delayed[delayed.len() - 1];
        assert(last.1 < n);
        assert forall|k: int| 0 <= k < still_delayed(delayed, tau).len() implies (
        #[trigger] still_delayed(delayed, tau)[k]).1 < n by {
            if k < rest.len() {
                assert(still_delayed(delayed, tau)[k] == rest[k]);
            }
        }
        let ready = ready_statements(delayed.drop_last(), tau);
        assert forall|k: int| 0 <= k < ready_statements(delayed, tau).len() implies (
        #[trigger] ready_statements(delayed, tau)[k]) < n by {
            if k < ready.len() {
                assert(ready_statements(delayed, tau)[k] == ready[k]);
            }
        }
    }
}

/// Splitting activated statements of the graph by their delay gives statements of the graph.
pub proof fn lemma_partition_in_range(g: StaticGraph, activated: Seq<u32>, tau: i64)
    requires
        all_in_range(activated, g.len() as int),
    ensures
        all_in_range(immediate_of(g, activated), g.len() as int),
        forall|k: int|
            0 <= k < enqueued(g, activated, tau).len() ==> (#[trigger] enqueued(
                g,
                activated,
                tau,
            )[k]).1 < g.len(),
    decreases activated.len(),
{
    if activated.len() > 0 {
        lemma_partition_in_range(g, activated.drop_last(), tau);
        let last = activated[activated.len() - 1];
        assert(last < g.len());
        let rest = enqueued(g, activated.drop_last(), tau);
        assert forall|k: int| 0 <= k < enqueued(g, activated, tau).len() implies (
        #[trigger] enqueued(g, activated, tau)[k]).1 < g.len() by {
            if k < rest.len() {
                assert(enqueued(g, activated, tau)[k] == rest[k]);
            }
        }
        let now = immediate_of(g, activated.drop_last());
        assert forall|k: int| 0 <= k < immediate_of(g, activated).len() implies (
        #[trigger] immediate_of(g, activated)[k]) < g.len() by {
            if k < now.len() {
                assert(immediate_of(g, activated)[k] == now[k]);
            }
        }
    }
}

/// Committing register writes that name nodes of the arena keeps the table well formed.
pub proof fn lemma_commit_wf(
    live: Seq<Option<usize>>,
    reg_next: Seq<(usize, usize)>,
    n: int,
    limit: int,
)
    requires
        table_wf(live, n, limit),
        forall|k: int|
            0 <= k < reg_next.len() ==> (#[trigger] reg_next[k]).0 < n && reg_next[k].1 < limit,
    ensures
        table_wf(commit_registers(live, reg_next), n, limit),
    decreases reg_next.len(),
{
    if reg_next.len() > 0 {
        lemma_commit_wf(live, reg_next.drop_last(), n, limit);
    }
}

/// The captured candidate is a node of the arena.
pub proof fn lemma_capture_bound(
    matches: Seq<bool>,
    nodes: Seq<DynNodeView>,
    base: int,
    count: int,
    candidate: Option<usize>,
    limit: int,
)
    requires
        0 <= base,
        base + count <= limit <= usize::MAX,
        candidate matches Some(c) ==> c < limit,
    ensures
        capture(matches, nodes, base, count, candidate) matches Some(c) ==> c < limit,
    decreases count,
{
    if count > 0 {
        lemma_capture_bound(matches, nodes, base, count - 1, candidate, limit);
    }
}

} // verus!
