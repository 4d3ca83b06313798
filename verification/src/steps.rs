//! What one cycle makes of the arena: a node for every statement of the
//! cycle, in order, behind the nodes that were there, which stay as they
//! are; what the nodes of the cycle depend on; and that a run is made of
//! such cycles, whose nodes stay to its end.

use vstd::prelude::*;
use crate::activation::active_from;
use crate::dependency::{
    activate, activate_all, all_in_range, context, cycle, cycle_statements, enqueued, graph_wf,
    guards_hold, immediate_of, node_timestamp, ready_statements, resets, resolve, resolve_all,
    resolve_edges, still_delayed, vertex_wf, writes_now, BuilderState, DynNodeView,
    GraphProcessingType, SnapshotView, StaticGraph,
};
use crate::invariants::{lemma_activate_all_frame, lemma_resolve_all_frame};
use crate::graphbuilder::{run, run_step, within_budget, Design, RunState};
use crate::linked::{LinkedEdgeView, LinkedNodeView};
use crate::pdg_spec::{PDGSpecEdgeKind, PDGSpecNodeKind};
use crate::reader::{lemma_read_on_pos, ReadProgress};
use crate::trace::{LogicValue, TraceCommand};

verus! {

/// The time stamp of a node of statement `v` made in cycle `tau`: that
/// of its kind, and one less for a register declaration whose condition
/// holds under reset or in cycle zero.
pub open spec fn stamp_of(v: LinkedNodeView, tau: i64, reset: bool, probes: Seq<Option<u64>>)
    -> int {
    if guards_hold(v.guards, probes) && resets(v, tau, reset) {
        node_timestamp(v, tau) - 1
    } else {
        node_timestamp(v, tau)
    }
}

/// The arena `after` holds behind the `base` nodes of `before` a node
/// for every statement of `stmts`, in order, made in cycle `tau` with
/// the time stamp of its statement; the nodes of `before` keep statement,
/// time stamp and cycle.
pub open spec fn made_in_order(
    g: StaticGraph,
    before: Seq<DynNodeView>,
    after: Seq<DynNodeView>,
    stmts: Seq<u32>,
    tau: i64,
    reset: bool,
    probes: Seq<Option<u64>>,
) -> bool {
    let base = before.len() as int;
    &&& after.len() >= base + stmts.len()
    &&& forall|i: int|
        0 <= i < base ==> (#[trigger] after[i]).inner == before[i].inner && after[i].timestamp
            == before[i].timestamp && after[i].cycle == before[i].cycle
    &&& forall|k: int|
        0 <= k < stmts.len() ==> (#[trigger] after[base + k]).inner == stmts[k] && after[base
            + k].cycle == tau && after[base + k].timestamp == stamp_of(
            g[stmts[k] as int],
            tau,
            reset,
            probes,
        ) as i64
}

/// Activating statements makes their nodes in order and leaves the nodes before as they are.
pub proof fn lemma_activate_all_nodes(
    g: StaticGraph,
    st: BuilderState,
    stmts: Seq<u32>,
    tau: i64,
    reset: bool,
    probes: Seq<Option<u64>>,
)
    ensures
        activate_all(g, st, stmts, tau, reset, probes).nodes.len() == st.nodes.len() + stmts.len(),
        made_in_order(
            g,
            st.nodes,
            activate_all(g, st, stmts, tau, reset, probes).nodes,
            stmts,
            tau,
            reset,
            probes,
        ),
        forall|i: int|
            0 <= i < st.nodes.len() ==> #[trigger] activate_all(
                g,
                st,
                stmts,
                tau,
                reset,
                probes,
            ).nodes[i] == st.nodes[i],
    decreases stmts.len(),
{
    if stmts.len() > 0 {
        let rest = stmts.drop_last();
        lemma_activate_all_nodes(g, st, rest, tau, reset, probes);
        let mid = activate_all(g, st, rest, tau, reset, probes);
        let after = activate(g, mid, stmts.last(), tau, reset, probes);
        let base = st.nodes.len() as int;
        assert forall|k: int| 0 <= k < stmts.len() implies (#[trigger] after.nodes[base + k]).inner
            == stmts[k] && after.nodes[base + k].cycle == tau && after.nodes[base + k].timestamp
            == stamp_of(g[stmts[k] as int], tau, reset, probes) as i64 by {
            if k < rest.len() {
                assert(after.nodes[base + k] == mid.nodes[base + k]);
                assert(rest[k] == stmts[k]);
            }
        }
        assert forall|i: int| 0 <= i < base implies #[trigger] after.nodes[i] == st.nodes[i] by {
            assert(after.nodes[i] == mid.nodes[i]);
        }
    }
}

/// Resolving dependences keeps the statement, the time stamp and the
/// cycle of every node, and the nodes below `base` as they are.
pub proof fn lemma_resolve_all_nodes(
    g: StaticGraph,
    st: BuilderState,
    base: int,
    count: int,
    mode: GraphProcessingType,
    tau: i64,
    probes: Seq<Option<u64>>,
)
    requires
        0 <= base,
        0 <= count,
        base + count <= st.nodes.len(),
    ensures
        resolve_all(g, st, base, count, mode, tau, probes).nodes.len() >= st.nodes.len(),
        forall|i: int|
            0 <= i < st.nodes.len() ==> (#[trigger] resolve_all(
                g,
                st,
                base,
                count,
                mode,
                tau,
                probes,
            ).nodes[i]).inner == st.nodes[i].inner && resolve_all(
                g,
                st,
                base,
                count,
                mode,
                tau,
                probes,
            ).nodes[i].timestamp == st.nodes[i].timestamp && resolve_all(
                g,
                st,
                base,
                count,
                mode,
                tau,
                probes,
            ).nodes[i].cycle == st.nodes[i].cycle,
        forall|i: int|
            0 <= i < base ==> #[trigger] resolve_all(g, st, base, count, mode, tau, probes).nodes[i]
                == st.nodes[i],
    decreases count,
{
    if count > 0 {
        lemma_resolve_all_nodes(g, st, base, count - 1, mode, tau, probes);
        let mid = resolve_all(g, st, base, count - 1, mode, tau, probes);
        let after = resolve(g, mid, base + count - 1, mode, tau, probes);
        assert forall|i: int| 0 <= i < st.nodes.len() implies (#[trigger] after.nodes[i]).inner
            == st.nodes[i].inner && after.nodes[i].timestamp == st.nodes[i].timestamp
            && after.nodes[i].cycle == st.nodes[i].cycle by {
            assert(mid.nodes[i].inner == st.nodes[i].inner);
        }
        assert forall|i: int| 0 <= i < base implies #[trigger] after.nodes[i] == st.nodes[i] by {
            assert(mid.nodes[i] == st.nodes[i]);
        }
    }
}

/// What a cycle makes. Behind the nodes that were there stands a node
/// for every statement of the cycle, the activated ones without delay
/// first, then the delayed ones that fire; each is made in this cycle and
/// carries the time stamp of its statement, one less for a register
/// declaration whose condition holds under reset or in cycle zero. A
/// statement with a delay gets no node in the cycle that activates it. The
/// nodes that were there keep statement, time stamp, cycle and dependences.
pub proof fn lemma_cycle_nodes(
    g: StaticGraph,
    matches: Seq<bool>,
    mode: GraphProcessingType,
    st: BuilderState,
    activated: Seq<u32>,
    tau: i64,
    reset: bool,
    probes: Seq<Option<u64>>,
)
    ensures
        made_in_order(
            g,
            st.nodes,
            cycle(g, matches, mode, st, activated, tau, reset, probes).nodes,
            cycle_statements(g, st, activated, tau),
            tau,
            reset,
            probes,
        ),
        forall|i: int|
            0 <= i < st.nodes.len() ==> #[trigger] cycle(
                g,
                matches,
                mode,
                st,
                activated,
                tau,
                reset,
                probes,
            ).nodes[i] == st.nodes[i],
        cycle_statements(g, st, activated, tau) == immediate_of(g, activated) + ready_statements(
            st.delayed,
            tau,
        ),
        cycle(g, matches, mode, st, activated, tau, reset, probes).delayed == still_delayed(
            st.delayed,
            tau,
        ) + enqueued(g, activated, tau),
{
    let stmts = cycle_statements(g, st, activated, tau);
    let base = st.nodes.len() as int;
    let s2 = BuilderState { delayed: still_delayed(st.delayed, tau) + enqueued(g, activated, tau), ..st };
    lemma_activate_all_nodes(g, s2, stmts, tau, reset, probes);
    lemma_activate_all_frame(g, s2, stmts, tau, reset, probes);
    let s3 = activate_all(g, s2, stmts, tau, reset, probes);
    lemma_resolve_all_nodes(g, s3, base, stmts.len() as int, mode, tau, probes);
    lemma_resolve_all_frame(g, s3, base, stmts.len() as int, mode, tau, probes);
    let s4 = resolve_all(g, s3, base, stmts.len() as int, mode, tau, probes);
    let end = cycle(g, matches, mode, st, activated, tau, reset, probes);
    assert(end.nodes == s4.nodes);
    assert forall|k: int| 0 <= k < stmts.len() implies (#[trigger] end.nodes[base + k]).inner
        == stmts[k] && end.nodes[base + k].cycle == tau && end.nodes[base + k].timestamp
        == stamp_of(g[stmts[k] as int], tau, reset, probes) as i64 by {
        assert(s3.nodes[base + k].inner == stmts[k]);
        assert(s4.nodes[base + k].inner == s3.nodes[base + k].inner);
    }
    assert forall|i: int| 0 <= i < base implies #[trigger] end.nodes[i] == st.nodes[i] by {
        assert(s3.nodes[i] == st.nodes[i]);
        assert(s4.nodes[i] == s3.nodes[i]);
    }
    assert forall|i: int| 0 <= i < base implies (#[trigger] end.nodes[i]).inner == st.nodes[i].inner
        && end.nodes[i].timestamp == st.nodes[i].timestamp && end.nodes[i].cycle
        == st.nodes[i].cycle by {
        assert(end.nodes[i] == st.nodes[i]);
    }
}

/// The state in which the dependences of the `k`-th statement of a
/// cycle are resolved: every statement of the cycle is activated, so the
/// tables hold what the cycle provides at once, and the statements before
/// the `k`-th have their dependences.
pub open spec fn resolving_state(
    g: StaticGraph,
    st: BuilderState,
    activated: Seq<u32>,
    mode: GraphProcessingType,
    tau: i64,
    reset: bool,
    probes: Seq<Option<u64>>,
    k: int,
) -> BuilderState {
    let stmts = cycle_statements(g, st, activated, tau);
    let s2 = BuilderState { delayed: still_delayed(st.delayed, tau) + enqueued(g, activated, tau), ..st };
    let s3 = activate_all(g, s2, stmts, tau, reset, probes);
    resolve_all(g, s3, st.nodes.len() as int, k, mode, tau, probes)
}

proof fn lemma_resolve_all_keeps(
    g: StaticGraph,
    st: BuilderState,
    base: int,
    count: int,
    more: int,
    mode: GraphProcessingType,
    tau: i64,
    probes: Seq<Option<u64>>,
    i: int,
)
    requires
        0 <= base,
        0 <= count <= more,
        base + more <= st.nodes.len(),
        0 <= i < base + count,
    ensures
        resolve_all(g, st, base, more, mode, tau, probes).nodes[i] == resolve_all(
            g,
            st,
            base,
            count,
            mode,
            tau,
            probes,
        ).nodes[i],
    decreases more - count,
{
    if count < more {
        lemma_resolve_all_keeps(g, st, base, count, more - 1, mode, tau, probes, i);
        lemma_resolve_all_nodes(g, st, base, more - 1, mode, tau, probes);
    }
}

/// The dependences of the node that a cycle makes for its `k`-th
/// statement are what the edges of the statement resolve to in the state
/// in which they are resolved: with the tables after every statement of
/// the cycle is activated, and against the context of the statement. The
/// tables of that state are the live table, the recorded control flow and
/// the snapshots after the activations; resolving changes the arena alone.
pub proof fn lemma_cycle_dependences(
    g: StaticGraph,
    matches: Seq<bool>,
    mode: GraphProcessingType,
    st: BuilderState,
    activated: Seq<u32>,
    tau: i64,
    reset: bool,
    probes: Seq<Option<u64>>,
    k: int,
)
    requires
        0 <= k < cycle_statements(g, st, activated, tau).len(),
    ensures
        ({
            let stmts = cycle_statements(g, st, activated, tau);
            let v = g[stmts[k] as int];
            let at = resolving_state(g, st, activated, mode, tau, reset, probes, k);
            let first = resolving_state(g, st, activated, mode, tau, reset, probes, 0);
            &&& cycle(g, matches, mode, st, activated, tau, reset, probes).nodes[st.nodes.len()
                + k].dependencies == resolve_edges(
                g,
                at,
                context(at, v, tau, probes),
                mode,
                tau,
                v.dependencies,
                v.dependencies.len() as int,
            ).deps
            &&& at == (BuilderState { nodes: at.nodes, ..first })
            &&& first == activate_all(
                g,
                BuilderState {
                    delayed: still_delayed(st.delayed, tau) + enqueued(g, activated, tau),
                    ..st
                },
                stmts,
                tau,
                reset,
                probes,
            )
        }),
{
    let stmts = cycle_statements(g, st, activated, tau);
    let base = st.nodes.len() as int;
    let s2 = BuilderState { delayed: still_delayed(st.delayed, tau) + enqueued(g, activated, tau), ..st };
    lemma_activate_all_nodes(g, s2, stmts, tau, reset, probes);
    let s3 = activate_all(g, s2, stmts, tau, reset, probes);
    let at = resolve_all(g, s3, base, k, mode, tau, probes);
    lemma_resolve_all_frame(g, s3, base, k, mode, tau, probes);
    lemma_resolve_all_nodes(g, s3, base, k, mode, tau, probes);
    assert(at.nodes[base + k].inner == s3.nodes[base + k].inner);
    let next = resolve_all(g, s3, base, k + 1, mode, tau, probes);
    assert(next == resolve(g, at, base + k, mode, tau, probes));
    lemma_resolve_all_keeps(g, s3, base, k + 1, stmts.len() as int, mode, tau, probes, base + k);
}

/// Whether statement `v` provides symbol `s` as soon as it is
/// activated in cycle `tau`: its condition holds, and it is combinational
/// or a register declaration under reset or in cycle zero.
pub open spec fn provides_now(
    v: LinkedNodeView,
    s: usize,
    tau: i64,
    reset: bool,
    probes: Seq<Option<u64>>,
) -> bool {
    guards_hold(v.guards, probes) && writes_now(v, tau, reset) && v.symbol == Some(s)
}

/// The provider of a symbol after statements are activated: the node
/// of the last of them that provides the symbol at once, and the provider
/// before if none does.
pub proof fn lemma_activate_all_live(
    g: StaticGraph,
    st: BuilderState,
    stmts: Seq<u32>,
    tau: i64,
    reset: bool,
    probes: Seq<Option<u64>>,
    s: usize,
)
    requires
        graph_wf(g),
        all_in_range(stmts, g.len() as int),
        st.live.len() == g.len(),
        s < st.live.len(),
        st.nodes.len() + stmts.len() <= usize::MAX,
    ensures
        activate_all(g, st, stmts, tau, reset, probes).live.len() == st.live.len(),
        (forall|k: int|
            0 <= k < stmts.len() ==> !provides_now(g[(#[trigger] stmts[k]) as int], s, tau, reset, probes))
            ==> activate_all(g, st, stmts, tau, reset, probes).live[s as int] == st.live[s as int],
        forall|k: int|
            0 <= k < stmts.len() && provides_now(g[(#[trigger] stmts[k]) as int], s, tau, reset, probes)
                && (forall|m: int|
                k < m < stmts.len() ==> !provides_now(
                    g[(#[trigger] stmts[m]) as int],
                    s,
                    tau,
                    reset,
                    probes,
                )) ==> activate_all(g, st, stmts, tau, reset, probes).live[s as int] == Some(
                (st.nodes.len() + k) as usize,
            ),
    decreases stmts.len(),
{
    if stmts.len() > 0 {
        let rest = stmts.drop_last();
        assert forall|k: int| 0 <= k < rest.len() implies (#[trigger] rest[k]) < g.len() by {
            assert(rest[k] == stmts[k]);
        }
        lemma_activate_all_live(g, st, rest, tau, reset, probes, s);
        lemma_activate_all_nodes(g, st, rest, tau, reset, probes);
        let mid = activate_all(g, st, rest, tau, reset, probes);
        let after = activate(g, mid, stmts.last(), tau, reset, probes);
        let last = g[stmts.last() as int];
        assert(stmts.last() == stmts[stmts.len() - 1]);
        assert(vertex_wf(g[stmts[stmts.len() - 1] as int], g.len() as int));
        if forall|k: int|
            0 <= k < stmts.len() ==> !provides_now(g[(#[trigger] stmts[k]) as int], s, tau, reset, probes) {
            assert forall|k: int| 0 <= k < rest.len() implies !provides_now(
                g[(#[trigger] rest[k]) as int],
                s,
                tau,
                reset,
                probes,
            ) by {
                assert(rest[k] == stmts[k]);
            }
            assert(!provides_now(g[stmts[stmts.len() - 1] as int], s, tau, reset, probes));
        }
        assert forall|k: int|
            0 <= k < stmts.len() && provides_now(g[(#[trigger] stmts[k]) as int], s, tau, reset, probes)
                && (forall|m: int|
                k < m < stmts.len() ==> !provides_now(
                    g[(#[trigger] stmts[m]) as int],
                    s,
                    tau,
                    reset,
                    probes,
                )) implies after.live[s as int] == Some((st.nodes.len() + k) as usize) by {
            if k < rest.len() {
                assert(rest[k] == stmts[k]);
                assert forall|m: int| k < m < rest.len() implies !provides_now(
                    g[(#[trigger] rest[m]) as int],
                    s,
                    tau,
                    reset,
                    probes,
                ) by {
                    assert(rest[m] == stmts[m]);
                }
                assert(!provides_now(g[stmts[stmts.len() - 1] as int], s, tau, reset, probes));
            }
        }
    }
}

/// A symbol that was looked up belongs to the provider of an edge that was walked.
pub proof fn lemma_served_from(
    g: StaticGraph,
    st: BuilderState,
    ctx: SnapshotView,
    mode: GraphProcessingType,
    tau: i64,
    edges: Seq<LinkedEdgeView>,
    upto: int,
    s: usize,
)
    requires
        0 <= upto <= edges.len(),
        resolve_edges(g, st, ctx, mode, tau, edges, upto).served.contains(s),
    ensures
        exists|i: int| 0 <= i < upto && g[(#[trigger] edges[i]).to as int].symbol == Some(s),
    decreases upto,
{
    let before = resolve_edges(g, st, ctx, mode, tau, edges, upto - 1);
    let after = resolve_edges(g, st, ctx, mode, tau, edges, upto);
    if upto > 0 {
        if before.served.contains(s) {
            lemma_served_from(g, st, ctx, mode, tau, edges, upto - 1, s);
            let i = choose|i: int| 0 <= i < upto - 1 && g[(#[trigger] edges[i]).to as int].symbol == Some(s);
            assert(g[edges[i].to as int].symbol == Some(s));
        } else {
            let k = choose|k: int| 0 <= k < after.served.len() && after.served[k] == s;
            if after.served != before.served {
                assert(after.served =~= before.served.push(g[edges[upto - 1].to as int].symbol->0));
                if k < before.served.len() {
                    assert(before.served[k] == s);
                }
            }
            assert(g[edges[upto - 1].to as int].symbol == Some(s));
        }
    }
}

/// The dependences found stay when more edges are walked.
pub proof fn lemma_deps_stay(
    g: StaticGraph,
    st: BuilderState,
    ctx: SnapshotView,
    mode: GraphProcessingType,
    tau: i64,
    edges: Seq<LinkedEdgeView>,
    few: int,
    all: int,
    dep: (usize, PDGSpecEdgeKind),
)
    requires
        0 <= few <= all <= edges.len(),
        resolve_edges(g, st, ctx, mode, tau, edges, few).deps.contains(dep),
    ensures
        resolve_edges(g, st, ctx, mode, tau, edges, all).deps.contains(dep),
    decreases all - few,
{
    if few < all {
        lemma_deps_stay(g, st, ctx, mode, tau, edges, few, all - 1, dep);
        let before = resolve_edges(g, st, ctx, mode, tau, edges, all - 1);
        let after = resolve_edges(g, st, ctx, mode, tau, edges, all);
        let k = choose|k: int| 0 <= k < before.deps.len() && before.deps[k] == dep;
        if after.deps != before.deps {
            assert(after.deps =~= before.deps.push(after.deps[after.deps.len() - 1]));
        }
        assert(after.deps[k] == dep);
    }
}

/// A data edge gives the dependence on the live provider of its symbol.
/// If edge `m` of a statement is a data edge whose condition holds, no
/// edge before it leads to a provider of the same symbol, and the live
/// table holds a node for the symbol, the statement depends on that node.
pub proof fn lemma_data_edge_links(
    g: StaticGraph,
    st: BuilderState,
    ctx: SnapshotView,
    mode: GraphProcessingType,
    tau: i64,
    edges: Seq<LinkedEdgeView>,
    m: int,
    s: usize,
    p: usize,
)
    requires
        0 <= m < edges.len(),
        edges[m].kind == PDGSpecEdgeKind::Data,
        g[edges[m].to as int].symbol == Some(s),
        forall|i: int| 0 <= i < m ==> g[(#[trigger] edges[i]).to as int].symbol != Some(s),
        guards_hold(edges[m].guards, ctx.probes),
        st.live[s as int] == Some(p),
    ensures
        resolve_edges(g, st, ctx, mode, tau, edges, edges.len() as int).deps.contains(
            (p, PDGSpecEdgeKind::Data),
        ),
{
    let before = resolve_edges(g, st, ctx, mode, tau, edges, m);
    if before.served.contains(s) {
        lemma_served_from(g, st, ctx, mode, tau, edges, m, s);
        let i = choose|i: int| 0 <= i < m && g[(#[trigger] edges[i]).to as int].symbol == Some(s);
        assert(g[edges[i].to as int].symbol != Some(s));
    }
    let after = resolve_edges(g, st, ctx, mode, tau, edges, m + 1);
    assert(after.deps =~= before.deps.push((p, PDGSpecEdgeKind::Data)));
    assert(after.deps[before.deps.len() as int] == (p, PDGSpecEdgeKind::Data));
    lemma_deps_stay(g, st, ctx, mode, tau, edges, m + 1, edges.len() as int, (p, PDGSpecEdgeKind::Data));
}

/// An index edge gives the dependence on the provider that the context
/// holds for its symbol. If edge `m` of a statement is an index edge whose
/// condition holds, no edge before it leads to a provider of the same
/// symbol, the mode is not that of data dependences alone, and the table
/// of the context holds a node for the symbol, the statement depends on
/// that node.
pub proof fn lemma_index_edge_links(
    g: StaticGraph,
    st: BuilderState,
    ctx: SnapshotView,
    mode: GraphProcessingType,
    tau: i64,
    edges: Seq<LinkedEdgeView>,
    m: int,
    s: usize,
    p: usize,
)
    requires
        0 <= m < edges.len(),
        edges[m].kind == PDGSpecEdgeKind::Index,
        mode != GraphProcessingType::DataOnly,
        g[edges[m].to as int].symbol == Some(s),
        forall|i: int| 0 <= i < m ==> g[(#[trigger] edges[i]).to as int].symbol != Some(s),
        guards_hold(edges[m].guards, ctx.probes),
        ctx.table[s as int] == Some(p),
    ensures
        resolve_edges(g, st, ctx, mode, tau, edges, edges.len() as int).deps.contains(
            (p, PDGSpecEdgeKind::Index),
        ),
{
    let before = resolve_edges(g, st, ctx, mode, tau, edges, m);
    if before.served.contains(s) {
        lemma_served_from(g, st, ctx, mode, tau, edges, m, s);
        let i = choose|i: int| 0 <= i < m && g[(#[trigger] edges[i]).to as int].symbol == Some(s);
        assert(g[edges[i].to as int].symbol != Some(s));
    }
    let after = resolve_edges(g, st, ctx, mode, tau, edges, m + 1);
    assert(after.deps =~= before.deps.push((p, PDGSpecEdgeKind::Index)));
    assert(after.deps[before.deps.len() as int] == (p, PDGSpecEdgeKind::Index));
    lemma_deps_stay(g, st, ctx, mode, tau, edges, m + 1, edges.len() as int, (p, PDGSpecEdgeKind::Index));
}

/// What a statement links by an index edge in a cycle: the node that
/// its context holds for the symbol. For a delayed statement that is the
/// snapshot of the cycle in which it was activated, with the probe values
/// of that cycle; for any other the live table after the activations of
/// the cycle and the current probe values.
pub proof fn lemma_cycle_index_links(
    g: StaticGraph,
    matches: Seq<bool>,
    mode: GraphProcessingType,
    st: BuilderState,
    activated: Seq<u32>,
    tau: i64,
    reset: bool,
    probes: Seq<Option<u64>>,
    k: int,
    m: int,
    s: usize,
    p: usize,
)
    requires
        0 <= k < cycle_statements(g, st, activated, tau).len(),
        mode != GraphProcessingType::DataOnly,
        ({
            let v = g[cycle_statements(g, st, activated, tau)[k] as int];
            let first = resolving_state(g, st, activated, mode, tau, reset, probes, 0);
            &&& 0 <= m < v.dependencies.len()
            &&& v.dependencies[m].kind == PDGSpecEdgeKind::Index
            &&& g[v.dependencies[m].to as int].symbol == Some(s)
            &&& forall|i: int|
                0 <= i < m ==> g[(#[trigger] v.dependencies[i]).to as int].symbol != Some(s)
            &&& guards_hold(v.dependencies[m].guards, context(first, v, tau, probes).probes)
            &&& context(first, v, tau, probes).table[s as int] == Some(p)
        }),
    ensures
        cycle(g, matches, mode, st, activated, tau, reset, probes).nodes[st.nodes.len()
            + k].dependencies.contains((p, PDGSpecEdgeKind::Index)),
{
    lemma_cycle_dependences(g, matches, mode, st, activated, tau, reset, probes, k);
    let v = g[cycle_statements(g, st, activated, tau)[k] as int];
    let at = resolving_state(g, st, activated, mode, tau, reset, probes, k);
    let first = resolving_state(g, st, activated, mode, tau, reset, probes, 0);
    assert(context(at, v, tau, probes) == context(first, v, tau, probes));
    lemma_index_edge_links(
        g,
        at,
        context(at, v, tau, probes),
        mode,
        tau,
        v.dependencies,
        m,
        s,
        p,
    );
}

/// What a consumer links in a cycle. If the `k`-th statement of a cycle
/// has a data edge whose condition holds under the probe values that it
/// reads, no edge before it leads to a provider of the same symbol, and
/// after the activations of the cycle the live table holds node `p` for
/// the symbol, the node made for the statement depends on `p`.
pub proof fn lemma_cycle_links(
    g: StaticGraph,
    matches: Seq<bool>,
    mode: GraphProcessingType,
    st: BuilderState,
    activated: Seq<u32>,
    tau: i64,
    reset: bool,
    probes: Seq<Option<u64>>,
    k: int,
    m: int,
    s: usize,
    p: usize,
)
    requires
        0 <= k < cycle_statements(g, st, activated, tau).len(),
        ({
            let v = g[cycle_statements(g, st, activated, tau)[k] as int];
            let first = resolving_state(g, st, activated, mode, tau, reset, probes, 0);
            &&& 0 <= m < v.dependencies.len()
            &&& v.dependencies[m].kind == PDGSpecEdgeKind::Data
            &&& g[v.dependencies[m].to as int].symbol == Some(s)
            &&& forall|i: int|
                0 <= i < m ==> g[(#[trigger] v.dependencies[i]).to as int].symbol != Some(s)
            &&& guards_hold(v.dependencies[m].guards, context(first, v, tau, probes).probes)
            &&& first.live[s as int] == Some(p)
        }),
    ensures
        cycle(g, matches, mode, st, activated, tau, reset, probes).nodes[st.nodes.len()
            + k].dependencies.contains((p, PDGSpecEdgeKind::Data)),
{
    lemma_cycle_dependences(g, matches, mode, st, activated, tau, reset, probes, k);
    let v = g[cycle_statements(g, st, activated, tau)[k] as int];
    let at = resolving_state(g, st, activated, mode, tau, reset, probes, k);
    let first = resolving_state(g, st, activated, mode, tau, reset, probes, 0);
    assert(context(at, v, tau, probes) == context(first, v, tau, probes));
    lemma_data_edge_links(
        g,
        at,
        context(at, v, tau, probes),
        mode,
        tau,
        v.dependencies,
        m,
        s,
        p,
    );
}

/// Reset. The node that a cycle makes for a register declaration whose
/// condition holds carries the time stamp before the cycle if the reset is
/// asserted or the cycle is cycle zero, and the time stamp of the cycle
/// otherwise.
pub proof fn lemma_cycle_reset(
    g: StaticGraph,
    matches: Seq<bool>,
    mode: GraphProcessingType,
    st: BuilderState,
    activated: Seq<u32>,
    tau: i64,
    reset: bool,
    probes: Seq<Option<u64>>,
    k: int,
)
    requires
        0 <= k < cycle_statements(g, st, activated, tau).len(),
        g[cycle_statements(g, st, activated, tau)[k] as int].clocked,
        g[cycle_statements(g, st, activated, tau)[k] as int].kind == PDGSpecNodeKind::DataDefinition,
        g[cycle_statements(g, st, activated, tau)[k] as int].symbol is Some,
        guards_hold(g[cycle_statements(g, st, activated, tau)[k] as int].guards, probes),
        i64::MIN < tau,
    ensures
        ({
            let node = cycle(g, matches, mode, st, activated, tau, reset, probes).nodes[st.nodes.len()
                + k];
            &&& node.inner == cycle_statements(g, st, activated, tau)[k]
            &&& node.cycle == tau
            &&& (reset || tau == 0 ==> node.timestamp == tau - 1)
            &&& (!(reset || tau == 0) ==> node.timestamp == tau)
        }),
{
    lemma_cycle_nodes(g, matches, mode, st, activated, tau, reset, probes);
}

/// What a cycle of a run made stays to its end: the nodes of the arena
/// at any point of a run stand in the arena at the end of the run, as they
/// are, and every later node stands behind them.
pub proof fn lemma_run_keeps(d: Design, commands: Seq<TraceCommand>, s: RunState)
    requires
        0 <= s.reader.pos <= commands.len(),
    ensures
        run(d, commands, s).builder.nodes.len() >= s.builder.nodes.len(),
        forall|i: int|
            0 <= i < s.builder.nodes.len() ==> #[trigger] run(d, commands, s).builder.nodes[i]
                == s.builder.nodes[i],
    decreases commands.len() - s.reader.pos, (if s.eof {
        0int
    } else {
        1int
    }),
{
    if s.eof || s.malformed || !within_budget(s.reader.current_time, d.max_timesteps) {
    } else {
        lemma_read_on_pos(
            d.env,
            commands,
            ReadProgress { state: s.reader, changes: seq![], rising: false },
        );
        let next = run_step(d, commands, s);
        if !next.malformed {
            let tau = (next.reader.current_time - 1) as i64;
            let activated = active_from(&d.cfg, d.ids, next.values, 0);
            lemma_cycle_nodes(
                d.graph,
                d.matches,
                d.mode,
                s.builder,
                activated,
                tau,
                next.reader.reset_val == LogicValue::V1,
                next.reader.probe_values,
            );
        }
        lemma_run_keeps(d, commands, next);
        assert forall|i: int| 0 <= i < s.builder.nodes.len() implies #[trigger] run(
            d,
            commands,
            s,
        ).builder.nodes[i] == s.builder.nodes[i] by {
            assert(next.builder.nodes[i] == s.builder.nodes[i]);
            assert(run(d, commands, next).builder.nodes[i] == next.builder.nodes[i]);
        }
    }
}

/// A run that goes on takes one cycle and goes on from there: the
/// cycle is read from the trace, and unless it activates a statement that
/// the graph does not hold, the builder makes the cycle of the model at
/// the time stamp one below the cycle count, under the reset and the probe
/// values that the reader holds after reading.
pub proof fn lemma_run_unfolds(d: Design, commands: Seq<TraceCommand>, s: RunState)
    requires
        0 <= s.reader.pos <= commands.len(),
        !s.eof,
        !s.malformed,
        within_budget(s.reader.current_time, d.max_timesteps),
    ensures
        run(d, commands, s) == run(d, commands, run_step(d, commands, s)),
        s.reader.pos <= run_step(d, commands, s).reader.pos <= commands.len(),
        run_step(d, commands, s).reader.current_time == s.reader.current_time + 1
            || s.reader.current_time == i64::MAX,
        !run_step(d, commands, s).malformed ==> run_step(d, commands, s).builder == cycle(
            d.graph,
            d.matches,
            d.mode,
            s.builder,
            active_from(&d.cfg, d.ids, run_step(d, commands, s).values, 0),
            (run_step(d, commands, s).reader.current_time - 1) as i64,
            run_step(d, commands, s).reader.reset_val == LogicValue::V1,
            run_step(d, commands, s).reader.probe_values,
        ),
{
    lemma_read_on_pos(d.env, commands, ReadProgress { state: s.reader, changes: seq![], rising: false });
}

} // verus!
