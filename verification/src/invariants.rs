//! What holds of every graph that the builder makes: how the time stamps
//! of a node and of its providers lie, which nodes can provide in the cycle
//! in which they are made, and that no node has two providers of one symbol.

use vstd::prelude::*;
use crate::dependency::{
    activate, activate_all, commit_registers, context, cycle, cycle_statements, defers, enqueued,
    graph_wf, guards_hold, node_timestamp, resolve, resolve_all, resolve_edge, resolve_edges,
    state_wf, still_delayed, vertex_wf, BuilderState, DynNodeView, GraphProcessingType, Resolution,
    SnapshotView, StaticGraph, all_in_range,
};
use crate::conversion::{edge_sound, lemma_start_walk, lemma_walk_sound, start_walk, walk};
use crate::linked::{LinkedEdgeView, LinkedNodeView};
use crate::pdg_spec::ExportablePDGEdge;
use crate::pdg_spec::{PDGSpecEdgeKind, PDGSpecNodeKind};

verus! {

/// The time stamp of a combinational node made in cycle `c`.
pub open spec fn floor_stamp(c: int) -> int {
    if c >= 1 {
        c - 1
    } else {
        0
    }
}

/// A dependence that was looked up in a table of providers.
pub open spec fn is_lookup(kind: PDGSpecEdgeKind) -> bool {
    kind == PDGSpecEdgeKind::Data || kind == PDGSpecEdgeKind::Index
}

/// Whether the static edge `e` accounts for a dependence of kind `kind` on
/// a node of statement `provider`.
pub open spec fn justifies(g: StaticGraph, e: LinkedEdgeView, kind: PDGSpecEdgeKind, provider: u32)
    -> bool {
    &&& e.kind == kind
    &&& match kind {
        PDGSpecEdgeKind::Declaration => e.to == provider,
        PDGSpecEdgeKind::Conditional => g[e.to as int].class == g[provider as int].class,
        _ => g[e.to as int].symbol == g[provider as int].symbol,
    }
}

/// What holds of a dependence of a node of statement `consumer`, made in cycle `c`.
pub open spec fn provider_ok(
    g: StaticGraph,
    nodes: Seq<DynNodeView>,
    consumer: u32,
    c: int,
    dep: (usize, PDGSpecEdgeKind),
) -> bool {
    let p = nodes[dep.0 as int];
    let vp = g[p.inner as int];
    let vd = g[consumer as int];
    &&& dep.0 < nodes.len()
    &&& p.inner < g.len()
    &&& 0 <= p.cycle <= c
    &&& exists|m: int|
        0 <= m < vd.dependencies.len() && justifies(g, #[trigger] vd.dependencies[m], dep.1, p.inner)
    &&& match dep.1 {
        PDGSpecEdgeKind::Declaration => p.cycle == c && p.timestamp == c - 1
            && p.dependencies.len() == 0,
        PDGSpecEdgeKind::Conditional => p.cycle == c && vp.kind == PDGSpecNodeKind::ControlFlow
            && p.timestamp == node_timestamp(vp, p.cycle),
        _ => {
            &&& vp.symbol is Some
            &&& p.timestamp <= floor_stamp(c)
            &&& (!vp.clocked ==> p.timestamp == floor_stamp(p.cycle as int))
            &&& (p.cycle == c ==> !vp.clocked || (vp.kind == PDGSpecNodeKind::DataDefinition
                && p.timestamp == c - 1))
        },
    }
}

/// No two looked-up dependences have providers of one symbol.
pub open spec fn lookups_distinct(
    g: StaticGraph,
    nodes: Seq<DynNodeView>,
    deps: Seq<(usize, PDGSpecEdgeKind)>,
) -> bool {
    forall|a: int, b: int|
        0 <= a < b < deps.len() && is_lookup((#[trigger] deps[a]).1) && is_lookup(
            (#[trigger] deps[b]).1,
        ) ==> g[nodes[deps[a].0 as int].inner as int].symbol
            != g[nodes[deps[b].0 as int].inner as int].symbol
}

/// What holds of a node and its dependences.
pub open spec fn node_ok(g: StaticGraph, nodes: Seq<DynNodeView>, i: int) -> bool {
    let node = nodes[i];
    let v = g[node.inner as int];
    &&& node.inner < g.len()
    &&& 0 <= node.cycle
    &&& (v.clocked ==> node.timestamp == node.cycle || node.timestamp == node.cycle - 1)
    &&& (!v.clocked ==> node.timestamp == floor_stamp(node.cycle as int) || (node.timestamp
        == node.cycle - 1 && node.dependencies.len() == 0))
    &&& forall|j: int|
        0 <= j < node.dependencies.len() ==> provider_ok(
            g,
            nodes,
            node.inner,
            node.cycle as int,
            #[trigger] node.dependencies[j],
        )
    &&& lookups_distinct(g, nodes, node.dependencies)
}

/// What holds of a table of providers that is read in cycle `c`.
pub open spec fn table_ok(
    g: StaticGraph,
    nodes: Seq<DynNodeView>,
    table: Seq<Option<usize>>,
    c: int,
) -> bool {
    &&& table.len() == g.len()
    &&& forall|s: int|
        0 <= s < table.len() ==> (#[trigger] table[s] matches Some(p) ==> {
            let node = nodes[p as int];
            let vp = g[node.inner as int];
            &&& p < nodes.len()
            &&& node.inner < g.len()
            &&& vp.symbol == Some(s as usize)
            &&& 0 <= node.cycle <= c
            &&& node.timestamp <= floor_stamp(c)
            &&& (!vp.clocked ==> node.timestamp == floor_stamp(node.cycle as int))
            &&& (node.cycle == c ==> !vp.clocked || (vp.kind == PDGSpecNodeKind::DataDefinition
                && node.timestamp == c - 1))
        })
}

/// What holds of the recorded control-flow nodes in cycle `c`.
pub open spec fn control_ok(
    g: StaticGraph,
    nodes: Seq<DynNodeView>,
    control: Seq<Option<usize>>,
    c: int,
) -> bool {
    &&& control.len() == g.len()
    &&& forall|s: int|
        0 <= s < control.len() ==> (#[trigger] control[s] matches Some(p) ==> {
            let node = nodes[p as int];
            let vp = g[node.inner as int];
            &&& p < nodes.len()
            &&& node.inner < g.len()
            &&& vp.class == s
            &&& vp.kind == PDGSpecNodeKind::ControlFlow
            &&& 0 <= node.cycle <= c
            &&& node.timestamp == node_timestamp(vp, node.cycle)
        })
}

/// What holds of the register writes that wait for the end of cycle `c`.
pub open spec fn registers_ok(
    g: StaticGraph,
    nodes: Seq<DynNodeView>,
    reg_next: Seq<(usize, usize)>,
    c: int,
) -> bool {
    forall|k: int|
        0 <= k < reg_next.len() ==> {
            let (s, p) = #[trigger] reg_next[k];
            let node = nodes[p as int];
            let vp = g[node.inner as int];
            &&& s < g.len()
            &&& p < nodes.len()
            &&& node.inner < g.len()
            &&& vp.symbol == Some(s)
            &&& vp.clocked
            &&& vp.kind != PDGSpecNodeKind::DataDefinition
            &&& node.cycle == c
            &&& node.timestamp == c
        }
}

/// What holds of the state while cycle `c` is built.
pub open spec fn cycle_ok(g: StaticGraph, st: BuilderState, c: int) -> bool {
    &&& 0 <= c
    &&& state_wf(g, st)
    &&& forall|i: int| 0 <= i < st.nodes.len() ==> node_ok(g, st.nodes, i) && (
    #[trigger] st.nodes[i]).cycle <= c
    &&& table_ok(g, st.nodes, st.live, c)
    &&& control_ok(g, st.nodes, st.control, c)
    &&& registers_ok(g, st.nodes, st.reg_next, c)
    &&& forall|k: i64| #[trigger]
        st.snapshots.contains_key(k) ==> 0 <= k < c && table_ok(
            g,
            st.nodes,
            st.snapshots[k].table,
            k + 1,
        )
}

/// What holds of the state between cycles, when cycle `t` comes next.
pub open spec fn rest_ok(g: StaticGraph, st: BuilderState, t: int) -> bool {
    &&& cycle_ok(g, st, t)
    &&& st.reg_next.len() == 0
    &&& forall|i: int| 0 <= i < st.nodes.len() ==> (#[trigger] st.nodes[i]).cycle < t
}

/// The declaration nodes of cycle `c` stand at or above `floor` in the arena.
pub open spec fn declared_apart(nodes: Seq<DynNodeView>, c: int, floor: int) -> bool {
    forall|i: int, j: int|
        0 <= i < nodes.len() && 0 <= j < nodes[i].dependencies.len() && (
        #[trigger] nodes[i].dependencies[j]).1 == PDGSpecEdgeKind::Declaration
            ==> nodes[nodes[i].dependencies[j].0 as int].cycle < c || nodes[i].dependencies[j].0
            >= floor
}

/// The arena `after` holds the nodes of `before` with the same statement,
/// time stamp and cycle, and maybe more nodes.
pub open spec fn same_stamps(before: Seq<DynNodeView>, after: Seq<DynNodeView>) -> bool {
    &&& before.len() <= after.len()
    &&& forall|i: int|
        0 <= i < before.len() ==> (#[trigger] after[i]).inner == before[i].inner
            && after[i].timestamp == before[i].timestamp && after[i].cycle == before[i].cycle
}

/// A table that is in order stays so when nodes are added and the cycle moves on.
pub proof fn lemma_table_stable(
    g: StaticGraph,
    before: Seq<DynNodeView>,
    after: Seq<DynNodeView>,
    table: Seq<Option<usize>>,
    c: int,
    later: int,
)
    requires
        table_ok(g, before, table, c),
        same_stamps(before, after),
        c <= later,
    ensures
        table_ok(g, after, table, later),
{
    assert forall|s: int| 0 <= s < table.len() implies (#[trigger] table[s] matches Some(p) ==> {
        let node = after[p as int];
        let vp = g[node.inner as int];
        &&& p < after.len()
        &&& node.inner < g.len()
        &&& vp.symbol == Some(s as usize)
        &&& 0 <= node.cycle <= later
        &&& node.timestamp <= floor_stamp(later)
        &&& (!vp.clocked ==> node.timestamp == floor_stamp(node.cycle as int))
        &&& (node.cycle == later ==> !vp.clocked || (vp.kind == PDGSpecNodeKind::DataDefinition
            && node.timestamp == later - 1))
    }) by {
        if table[s] is Some {
            let p = table[s]->0;
            assert(after[p as int].inner == before[p as int].inner);
        }
    }
}

/// Recorded control flow that is in order stays so when nodes are added and the cycle
/// moves on.
pub proof fn lemma_control_stable(
    g: StaticGraph,
    before: Seq<DynNodeView>,
    after: Seq<DynNodeView>,
    control: Seq<Option<usize>>,
    c: int,
    later: int,
)
    requires
        control_ok(g, before, control, c),
        same_stamps(before, after),
        c <= later,
    ensures
        control_ok(g, after, control, later),
{
    assert forall|s: int| 0 <= s < control.len() implies (#[trigger] control[s] matches Some(p) ==> {
        let node = after[p as int];
        let vp = g[node.inner as int];
        &&& p < after.len()
        &&& node.inner < g.len()
        &&& vp.class == s
        &&& vp.kind == PDGSpecNodeKind::ControlFlow
        &&& 0 <= node.cycle <= later
        &&& node.timestamp == node_timestamp(vp, node.cycle)
    }) by {
        if control[s] is Some {
            let p = control[s]->0;
            assert(after[p as int].inner == before[p as int].inner);
        }
    }
}

/// Waiting register writes that are in order stay so when nodes are added.
pub proof fn lemma_registers_stable(
    g: StaticGraph,
    before: Seq<DynNodeView>,
    after: Seq<DynNodeView>,
    reg_next: Seq<(usize, usize)>,
    c: int,
)
    requires
        registers_ok(g, before, reg_next, c),
        same_stamps(before, after),
    ensures
        registers_ok(g, after, reg_next, c),
{
    assert forall|k: int| 0 <= k < reg_next.len() implies {
        let (s, p) = #[trigger] reg_next[k];
        let node = after[p as int];
        let vp = g[node.inner as int];
        &&& s < g.len()
        &&& p < after.len()
        &&& node.inner < g.len()
        &&& vp.symbol == Some(s)
        &&& vp.clocked
        &&& vp.kind != PDGSpecNodeKind::DataDefinition
        &&& node.cycle == c
        &&& node.timestamp == c
    } by {
        let p = reg_next[k].1;
        assert(after[p as int].inner == before[p as int].inner);
    }
}

/// A dependence stays accounted for when the arena grows, as long as its
/// provider keeps its dependences.
pub proof fn lemma_provider_stable(
    g: StaticGraph,
    before: Seq<DynNodeView>,
    after: Seq<DynNodeView>,
    consumer: u32,
    c: int,
    dep: (usize, PDGSpecEdgeKind),
)
    requires
        provider_ok(g, before, consumer, c, dep),
        same_stamps(before, after),
        dep.1 == PDGSpecEdgeKind::Declaration ==> after[dep.0 as int].dependencies.len() == 0,
    ensures
        provider_ok(g, after, consumer, c, dep),
{
    assert(after[dep.0 as int].inner == before[dep.0 as int].inner);
    let vd = g[consumer as int];
    let m = choose|m: int|
        0 <= m < vd.dependencies.len() && justifies(
            g,
            #[trigger] vd.dependencies[m],
            dep.1,
            before[dep.0 as int].inner,
        );
    assert(justifies(g, vd.dependencies[m], dep.1, after[dep.0 as int].inner));
}

/// A node stays in order when the arena grows, as long as it and the
/// declaration nodes that it depends on keep their dependences.
pub proof fn lemma_node_stable(
    g: StaticGraph,
    before: Seq<DynNodeView>,
    after: Seq<DynNodeView>,
    i: int,
)
    requires
        0 <= i < before.len(),
        node_ok(g, before, i),
        same_stamps(before, after),
        after[i] == before[i],
        forall|j: int|
            0 <= j < before[i].dependencies.len() && (#[trigger] before[i].dependencies[j]).1
                == PDGSpecEdgeKind::Declaration
                ==> after[before[i].dependencies[j].0 as int].dependencies.len() == 0,
    ensures
        node_ok(g, after, i),
{
    let node = before[i];
    assert forall|j: int| 0 <= j < node.dependencies.len() implies provider_ok(
        g,
        after,
        node.inner,
        node.cycle as int,
        #[trigger] node.dependencies[j],
    ) by {
        lemma_provider_stable(g, before, after, node.inner, node.cycle as int, node.dependencies[j]);
    }
    assert forall|a: int, b: int|
        0 <= a < b < node.dependencies.len() && is_lookup((#[trigger] node.dependencies[a]).1)
            && is_lookup((#[trigger] node.dependencies[b]).1) implies g[after[node.dependencies[a].0 as int].inner as int].symbol
        != g[after[node.dependencies[b].0 as int].inner as int].symbol by {
        assert(provider_ok(g, before, node.inner, node.cycle as int, node.dependencies[a]));
        assert(provider_ok(g, before, node.inner, node.cycle as int, node.dependencies[b]));
        assert(after[node.dependencies[a].0 as int].inner
            == before[node.dependencies[a].0 as int].inner);
        assert(after[node.dependencies[b].0 as int].inner
            == before[node.dependencies[b].0 as int].inner);
    }
}

/// Activating a statement keeps the state of the cycle in order.
pub proof fn lemma_activate_ok(
    g: StaticGraph,
    st: BuilderState,
    stmt: u32,
    tau: i64,
    reset: bool,
    probes: Seq<Option<u64>>,
    floor: int,
)
    requires
        cycle_ok(g, st, tau as int),
        declared_apart(st.nodes, tau as int, floor),
        stmt < g.len(),
        st.nodes.len() < usize::MAX,
        tau < i64::MAX,
    ensures
        cycle_ok(g, activate(g, st, stmt, tau, reset, probes), tau as int),
        declared_apart(activate(g, st, stmt, tau, reset, probes).nodes, tau as int, floor),
        same_stamps(st.nodes, activate(g, st, stmt, tau, reset, probes).nodes),
{
    let after = activate(g, st, stmt, tau, reset, probes);
    let c = tau as int;
    let v = g[stmt as int];
    let idx = st.nodes.len() as int;
    crate::dependency::lemma_activate_wf(g, st, stmt, tau, reset, probes);
    assert(vertex_wf(v, g.len() as int));
    assert(same_stamps(st.nodes, after.nodes));
    assert forall|i: int| 0 <= i < after.nodes.len() implies node_ok(g, after.nodes, i) && (
    #[trigger] after.nodes[i]).cycle <= c by {
        if i < idx {
            assert(st.nodes[i].cycle <= c);
            assert forall|j: int|
                0 <= j < st.nodes[i].dependencies.len() && (#[trigger] st.nodes[i].dependencies[j]).1
                    == PDGSpecEdgeKind::Declaration implies after.nodes[st.nodes[i].dependencies[j].0 as int].dependencies.len()
                == 0 by {
                assert(provider_ok(
                    g,
                    st.nodes,
                    st.nodes[i].inner,
                    st.nodes[i].cycle as int,
                    st.nodes[i].dependencies[j],
                ));
            }
            lemma_node_stable(g, st.nodes, after.nodes, i);
        }
    }
    lemma_table_stable(g, st.nodes, after.nodes, st.live, c, c);
    lemma_control_stable(g, st.nodes, after.nodes, st.control, c, c);
    lemma_registers_stable(g, st.nodes, after.nodes, st.reg_next, c);
    assert forall|k: i64| #[trigger] after.snapshots.contains_key(k) implies 0 <= k < c && table_ok(
        g,
        after.nodes,
        after.snapshots[k].table,
        k + 1,
    ) by {
        lemma_table_stable(g, st.nodes, after.nodes, st.snapshots[k].table, k + 1, k + 1);
    }
    assert(table_ok(g, after.nodes, after.live, c));
    assert(control_ok(g, after.nodes, after.control, c));
    assert(registers_ok(g, after.nodes, after.reg_next, c)) by {
        assert forall|k: int| 0 <= k < after.reg_next.len() implies {
            let (s, p) = #[trigger] after.reg_next[k];
            let node = after.nodes[p as int];
            let vp = g[node.inner as int];
            &&& s < g.len()
            &&& p < after.nodes.len()
            &&& node.inner < g.len()
            &&& vp.symbol == Some(s)
            &&& vp.clocked
            &&& vp.kind != PDGSpecNodeKind::DataDefinition
            &&& node.cycle == c
            &&& node.timestamp == c
        } by {
            if k < st.reg_next.len() {
                assert(after.reg_next[k] == st.reg_next[k]);
            }
        }
    }
    assert forall|i: int, j: int|
        0 <= i < after.nodes.len() && 0 <= j < after.nodes[i].dependencies.len() && (
        #[trigger] after.nodes[i].dependencies[j]).1
            == PDGSpecEdgeKind::Declaration implies after.nodes[after.nodes[i].dependencies[j].0 as int].cycle
        < c || after.nodes[i].dependencies[j].0 >= floor by {
        assert(st.nodes[i].dependencies[j] == after.nodes[i].dependencies[j]);
        assert(provider_ok(
            g,
            st.nodes,
            st.nodes[i].inner,
            st.nodes[i].cycle as int,
            st.nodes[i].dependencies[j],
        ));
    }
}

/// What holds of the dependences of a node of statement `consumer` while
/// its edges are walked in cycle `c`.
pub open spec fn resolution_ok(
    g: StaticGraph,
    nodes: Seq<DynNodeView>,
    consumer: u32,
    c: int,
    r: Resolution,
) -> bool {
    let all = nodes + r.fresh;
    &&& forall|f: int|
        0 <= f < r.fresh.len() ==> (#[trigger] r.fresh[f]).inner < g.len() && r.fresh[f].cycle == c
            && r.fresh[f].timestamp == c - 1 && r.fresh[f].dependencies.len() == 0
    &&& forall|j: int|
        0 <= j < r.deps.len() ==> provider_ok(g, all, consumer, c, #[trigger] r.deps[j])
    &&& lookups_distinct(g, all, r.deps)
    &&& forall|j: int|
        0 <= j < r.deps.len() && is_lookup((#[trigger] r.deps[j]).1) ==> r.served.contains(
            g[all[r.deps[j].0 as int].inner as int].symbol->0,
        )
    &&& forall|j: int|
        0 <= j < r.deps.len() && (#[trigger] r.deps[j]).1 == PDGSpecEdgeKind::Declaration
            ==> r.deps[j].0 >= nodes.len()
}

/// Walking the edges of a statement keeps its dependences in order.
pub proof fn lemma_resolve_edges_ok(
    g: StaticGraph,
    st: BuilderState,
    ctx: SnapshotView,
    mode: GraphProcessingType,
    tau: i64,
    consumer: u32,
    upto: int,
)
    requires
        cycle_ok(g, st, tau as int),
        table_ok(g, st.nodes, ctx.table, tau as int),
        consumer < g.len(),
        0 <= upto <= g[consumer as int].dependencies.len(),
        st.nodes.len() + resolve_edges(
            g,
            st,
            ctx,
            mode,
            tau,
            g[consumer as int].dependencies,
            upto,
        ).fresh.len() <= usize::MAX,
    ensures
        resolution_ok(
            g,
            st.nodes,
            consumer,
            tau as int,
            resolve_edges(g, st, ctx, mode, tau, g[consumer as int].dependencies, upto),
        ),
    decreases upto,
{
    let edges = g[consumer as int].dependencies;
    let c = tau as int;
    let r = resolve_edges(g, st, ctx, mode, tau, edges, upto);
    if upto > 0 {
        let r0 = resolve_edges(g, st, ctx, mode, tau, edges, upto - 1);
        let e = edges[upto - 1];
        assert(r == resolve_edge(g, st, ctx, mode, tau, r0, e));
        assert(r0.fresh.len() <= r.fresh.len());
        lemma_resolve_edges_ok(g, st, ctx, mode, tau, consumer, upto - 1);
        let all0 = st.nodes + r0.fresh;
        let all = st.nodes + r.fresh;
        assert(vertex_wf(g[consumer as int], g.len() as int));
        assert(e.to < g.len());
        assert(vertex_wf(g[e.to as int], g.len() as int));
        assert(same_stamps(all0, all)) by {
            assert forall|i: int| 0 <= i < all0.len() implies (#[trigger] all[i]) == all0[i] by {
                if i >= st.nodes.len() {
                    assert(r.fresh[i - st.nodes.len()] == r0.fresh[i - st.nodes.len()]);
                }
            }
        }
        assert forall|i: int| 0 <= i < all0.len() implies (#[trigger] all[i]) == all0[i] by {
            if i >= st.nodes.len() {
                assert(r.fresh[i - st.nodes.len()] == r0.fresh[i - st.nodes.len()]);
            }
        }
        // The dependences found before stay accounted for.
        assert forall|j: int| 0 <= j < r0.deps.len() implies provider_ok(
            g,
            all,
            consumer,
            c,
            #[trigger] r0.deps[j],
        ) by {
            assert(provider_ok(g, all0, consumer, c, r0.deps[j]));
            lemma_provider_stable(g, all0, all, consumer, c, r0.deps[j]);
        }
        if r.deps.len() > r0.deps.len() {
            let dep = r.deps[r0.deps.len() as int];
            assert(r.deps == r0.deps.push(dep));
            assert(justifies(g, edges[upto - 1], dep.1, all[dep.0 as int].inner));
            assert(provider_ok(g, all, consumer, c, dep));
            assert forall|j: int| 0 <= j < r.deps.len() implies provider_ok(
                g,
                all,
                consumer,
                c,
                #[trigger] r.deps[j],
            ) by {
                if j < r0.deps.len() {
                    assert(r.deps[j] == r0.deps[j]);
                }
            }
            assert forall|a: int, b: int|
                0 <= a < b < r.deps.len() && is_lookup((#[trigger] r.deps[a]).1) && is_lookup(
                    (#[trigger] r.deps[b]).1,
                ) implies g[all[r.deps[a].0 as int].inner as int].symbol
                != g[all[r.deps[b].0 as int].inner as int].symbol by {
                assert(r.deps[a] == r0.deps[a]);
                assert(provider_ok(g, all0, consumer, c, r0.deps[a]));
                if b < r0.deps.len() {
                    assert(r.deps[b] == r0.deps[b]);
                    assert(provider_ok(g, all0, consumer, c, r0.deps[b]));
                } else {
                    assert(r0.served.contains(g[all0[r0.deps[a].0 as int].inner as int].symbol->0));
                }
            }
            assert forall|j: int|
                0 <= j < r.deps.len() && is_lookup((#[trigger] r.deps[j]).1) implies r.served.contains(
                g[all[r.deps[j].0 as int].inner as int].symbol->0,
            ) by {
                if j < r0.deps.len() {
                    assert(r.deps[j] == r0.deps[j]);
                    assert(provider_ok(g, all0, consumer, c, r0.deps[j]));
                    let x = g[all0[r0.deps[j].0 as int].inner as int].symbol->0;
                    assert(r0.served.contains(x));
                    let k = choose|k: int| 0 <= k < r0.served.len() && r0.served[k] == x;
                    assert(r.served[k] == x);
                } else {
                    assert(r.served[r0.served.len() as int] == g[e.to as int].symbol->0);
                }
            }
            assert forall|j: int|
                0 <= j < r.deps.len() && (#[trigger] r.deps[j]).1
                    == PDGSpecEdgeKind::Declaration implies r.deps[j].0 >= st.nodes.len() by {
                if j < r0.deps.len() {
                    assert(r.deps[j] == r0.deps[j]);
                }
            }
        } else {
            assert(r.deps == r0.deps);
            assert forall|a: int, b: int|
                0 <= a < b < r.deps.len() && is_lookup((#[trigger] r.deps[a]).1) && is_lookup(
                    (#[trigger] r.deps[b]).1,
                ) implies g[all[r.deps[a].0 as int].inner as int].symbol
                != g[all[r.deps[b].0 as int].inner as int].symbol by {
                assert(provider_ok(g, all0, consumer, c, r0.deps[a]));
                assert(provider_ok(g, all0, consumer, c, r0.deps[b]));
            }
            assert forall|j: int|
                0 <= j < r.deps.len() && is_lookup((#[trigger] r.deps[j]).1) implies r.served.contains(
                g[all[r.deps[j].0 as int].inner as int].symbol->0,
            ) by {
                assert(provider_ok(g, all0, consumer, c, r0.deps[j]));
                let x = g[all0[r0.deps[j].0 as int].inner as int].symbol->0;
                assert(r0.served.contains(x));
                let k = choose|k: int| 0 <= k < r0.served.len() && r0.served[k] == x;
                assert(r.served[k] == x);
            }
        }
        assert forall|f: int| 0 <= f < r.fresh.len() implies (#[trigger] r.fresh[f]).inner < g.len()
            && r.fresh[f].cycle == c && r.fresh[f].timestamp == c - 1
            && r.fresh[f].dependencies.len() == 0 by {
            if f < r0.fresh.len() {
                assert(r.fresh[f] == r0.fresh[f]);
            }
        }
    }
}

/// Committing the register writes of cycle `c` gives a table for the next cycle.
pub proof fn lemma_commit_ok(
    g: StaticGraph,
    nodes: Seq<DynNodeView>,
    live: Seq<Option<usize>>,
    reg_next: Seq<(usize, usize)>,
    c: int,
)
    requires
        0 <= c,
        table_ok(g, nodes, live, c),
        registers_ok(g, nodes, reg_next, c),
    ensures
        table_ok(g, nodes, commit_registers(live, reg_next), c + 1),
    decreases reg_next.len(),
{
    if reg_next.len() == 0 {
        lemma_table_stable(g, nodes, nodes, live, c, c + 1);
    } else {
        assert(registers_ok(g, nodes, reg_next.drop_last(), c)) by {
            assert forall|k: int| 0 <= k < reg_next.drop_last().len() implies {
                let (s, p) = #[trigger] reg_next.drop_last()[k];
                let node = nodes[p as int];
                let vp = g[node.inner as int];
                &&& s < g.len()
                &&& p < nodes.len()
                &&& node.inner < g.len()
                &&& vp.symbol == Some(s)
                &&& vp.clocked
                &&& vp.kind != PDGSpecNodeKind::DataDefinition
                &&& node.cycle == c
                &&& node.timestamp == c
            } by {
                assert(reg_next.drop_last()[k] == reg_next[k]);
            }
        }
        lemma_commit_ok(g, nodes, live, reg_next.drop_last(), c);
        let last = reg_next[reg_next.len() - 1];
        assert(last == reg_next.last());
    }
}

/// Resolving the dependences of a node of the cycle keeps the state in order.
pub proof fn lemma_resolve_ok(
    g: StaticGraph,
    st: BuilderState,
    node: int,
    mode: GraphProcessingType,
    tau: i64,
    probes: Seq<Option<u64>>,
    floor: int,
)
    requires
        cycle_ok(g, st, tau as int),
        declared_apart(st.nodes, tau as int, floor),
        0 <= node < floor <= st.nodes.len(),
        st.nodes[node].cycle == tau,
        !g[st.nodes[node].inner as int].clocked ==> st.nodes[node].timestamp == floor_stamp(
            tau as int,
        ),
        resolve(g, st, node, mode, tau, probes).nodes.len() <= usize::MAX,
        state_wf(g, resolve(g, st, node, mode, tau, probes)),
    ensures
        cycle_ok(g, resolve(g, st, node, mode, tau, probes), tau as int),
        declared_apart(resolve(g, st, node, mode, tau, probes).nodes, tau as int, floor),
        same_stamps(st.nodes, resolve(g, st, node, mode, tau, probes).nodes),
{
    let c = tau as int;
    let after = resolve(g, st, node, mode, tau, probes);
    let consumer = st.nodes[node].inner;
    let v = g[consumer as int];
    let ctx = context(st, v, tau, probes);
    let r = resolve_edges(g, st, ctx, mode, tau, v.dependencies, v.dependencies.len() as int);
    let all = st.nodes + r.fresh;
    assert(node_ok(g, st.nodes, node));
    assert(table_ok(g, st.nodes, ctx.table, c)) by {
        if v.assign_delay > 0 && st.snapshots.contains_key((tau - v.assign_delay) as i64) {
            let k = (tau - v.assign_delay) as i64;
            lemma_table_stable(g, st.nodes, st.nodes, st.snapshots[k].table, k + 1, c);
        }
    }
    assert(after.nodes.len() == all.len());
    lemma_resolve_edges_ok(g, st, ctx, mode, tau, consumer, v.dependencies.len() as int);
    assert(same_stamps(st.nodes, after.nodes));
    assert(same_stamps(all, after.nodes));
    assert forall|i: int| 0 <= i < after.nodes.len() implies node_ok(g, after.nodes, i) && (
    #[trigger] after.nodes[i]).cycle <= c by {
        if i == node {
            let me = after.nodes[i];
            assert(me.dependencies == r.deps);
            assert forall|j: int| 0 <= j < me.dependencies.len() implies provider_ok(
                g,
                after.nodes,
                me.inner,
                me.cycle as int,
                #[trigger] me.dependencies[j],
            ) by {
                assert(provider_ok(g, all, consumer, c, r.deps[j]));
                if r.deps[j].1 == PDGSpecEdgeKind::Declaration {
                    assert(r.deps[j].0 >= st.nodes.len());
                    assert(after.nodes[r.deps[j].0 as int] == all[r.deps[j].0 as int]);
                }
                lemma_provider_stable(g, all, after.nodes, consumer, c, r.deps[j]);
            }
            assert forall|a: int, b: int|
                0 <= a < b < me.dependencies.len() && is_lookup((#[trigger] me.dependencies[a]).1)
                    && is_lookup((#[trigger] me.dependencies[b]).1) implies g[after.nodes[me.dependencies[a].0 as int].inner as int].symbol
                != g[after.nodes[me.dependencies[b].0 as int].inner as int].symbol by {
                assert(provider_ok(g, all, consumer, c, r.deps[a]));
                assert(provider_ok(g, all, consumer, c, r.deps[b]));
                assert(after.nodes[r.deps[a].0 as int].inner == all[r.deps[a].0 as int].inner);
                assert(after.nodes[r.deps[b].0 as int].inner == all[r.deps[b].0 as int].inner);
            }
        } else if i < st.nodes.len() {
            assert(after.nodes[i] == st.nodes[i]);
            assert(node_ok(g, st.nodes, i));
            assert(st.nodes[i].cycle <= c);
            assert forall|j: int|
                0 <= j < st.nodes[i].dependencies.len() && (#[trigger] st.nodes[i].dependencies[j]).1
                    == PDGSpecEdgeKind::Declaration implies after.nodes[st.nodes[i].dependencies[j].0 as int].dependencies.len()
                == 0 by {
                let dep = st.nodes[i].dependencies[j];
                assert(provider_ok(g, st.nodes, st.nodes[i].inner, st.nodes[i].cycle as int, dep));
                assert(dep.0 != node);
                assert(after.nodes[dep.0 as int] == st.nodes[dep.0 as int]);
            }
            lemma_node_stable(g, st.nodes, after.nodes, i);
        } else {
            assert(after.nodes[i] == r.fresh[i - st.nodes.len()]);
        }
    }
    lemma_table_stable(g, st.nodes, after.nodes, st.live, c, c);
    lemma_control_stable(g, st.nodes, after.nodes, st.control, c, c);
    lemma_registers_stable(g, st.nodes, after.nodes, st.reg_next, c);
    assert forall|k: i64| #[trigger] after.snapshots.contains_key(k) implies 0 <= k < c && table_ok(
        g,
        after.nodes,
        after.snapshots[k].table,
        k + 1,
    ) by {
        lemma_table_stable(g, st.nodes, after.nodes, st.snapshots[k].table, k + 1, k + 1);
    }
    assert forall|i: int, j: int|
        0 <= i < after.nodes.len() && 0 <= j < after.nodes[i].dependencies.len() && (
        #[trigger] after.nodes[i].dependencies[j]).1
            == PDGSpecEdgeKind::Declaration implies after.nodes[after.nodes[i].dependencies[j].0 as int].cycle
        < c || after.nodes[i].dependencies[j].0 >= floor by {
        if i == node {
            assert(after.nodes[i].dependencies[j] == r.deps[j]);
        } else if i < st.nodes.len() {
            assert(after.nodes[i] == st.nodes[i]);
            assert(st.nodes[i].dependencies[j] == after.nodes[i].dependencies[j]);
            assert(provider_ok(
                g,
                st.nodes,
                st.nodes[i].inner,
                st.nodes[i].cycle as int,
                st.nodes[i].dependencies[j],
            ));
        } else {
            assert(after.nodes[i] == r.fresh[i - st.nodes.len()]);
        }
    }
}

/// The nodes `base .. floor` were made in cycle `c` for activated
/// statements: a combinational one carries the time stamp of its cycle.
pub open spec fn made_in(
    g: StaticGraph,
    nodes: Seq<DynNodeView>,
    c: int,
    base: int,
    floor: int,
) -> bool {
    forall|i: int|
        base <= i < floor && i < nodes.len() ==> (#[trigger] nodes[i]).cycle == c && (!g[nodes[i].inner as int].clocked
            ==> nodes[i].timestamp == floor_stamp(c))
}

/// Between cycles no declaration node of the coming cycle exists.
pub proof fn lemma_rest_apart(g: StaticGraph, st: BuilderState, t: int, floor: int)
    requires
        rest_ok(g, st, t),
    ensures
        declared_apart(st.nodes, t, floor),
{
    assert forall|i: int, j: int|
        0 <= i < st.nodes.len() && 0 <= j < st.nodes[i].dependencies.len() && (
        #[trigger] st.nodes[i].dependencies[j]).1
            == PDGSpecEdgeKind::Declaration implies st.nodes[st.nodes[i].dependencies[j].0 as int].cycle
        < t || st.nodes[i].dependencies[j].0 >= floor by {
        assert(node_ok(g, st.nodes, i));
        assert(st.nodes[i].cycle < t);
        assert(provider_ok(
            g,
            st.nodes,
            st.nodes[i].inner,
            st.nodes[i].cycle as int,
            st.nodes[i].dependencies[j],
        ));
    }
}

/// The end of cycle `c`: with the register writes committed, a candidate
/// chosen and maybe a snapshot taken, the state is in order for the next cycle.
pub proof fn lemma_cycle_end(
    g: StaticGraph,
    s4: BuilderState,
    end: BuilderState,
    c: int,
    probes: Seq<Option<u64>>,
)
    requires
        cycle_ok(g, s4, c),
        state_wf(g, end),
        c < i64::MAX,
        end.nodes == s4.nodes,
        end.live == commit_registers(s4.live, s4.reg_next),
        end.control == s4.control,
        end.reg_next.len() == 0,
        end.snapshots == s4.snapshots || end.snapshots == s4.snapshots.insert(
            c as i64,
            SnapshotView { table: end.live, probes },
        ),
    ensures
        rest_ok(g, end, c + 1),
{
    lemma_commit_ok(g, s4.nodes, s4.live, s4.reg_next, c);
    lemma_control_stable(g, s4.nodes, s4.nodes, s4.control, c, c + 1);
    assert forall|k: i64| #[trigger] end.snapshots.contains_key(k) implies 0 <= k < c + 1
        && table_ok(g, end.nodes, end.snapshots[k].table, k + 1) by {
        if s4.snapshots.contains_key(k) && end.snapshots[k] == s4.snapshots[k] {
        } else {
            assert(k == c);
        }
    }
    assert forall|i: int| 0 <= i < end.nodes.len() implies (#[trigger] end.nodes[i]).cycle < c + 1 by {
        assert(s4.nodes[i].cycle <= c);
    }
}

/// Before the first cycle the state is in order.
pub proof fn lemma_start_ok(g: StaticGraph, st: BuilderState)
    requires
        graph_wf(g),
        st.nodes.len() == 0,
        st.live == Seq::new(g.len(), |i: int| None::<usize>),
        st.control == Seq::new(g.len(), |i: int| None::<usize>),
        st.reg_next.len() == 0,
        st.delayed.len() == 0,
        st.snapshots == Map::<i64, SnapshotView>::empty(),
        st.candidate is None,
    ensures
        rest_ok(g, st, 0),
{
}

/// A node of a clocked statement that carries the time stamp before its
/// cycle: a register declaration under reset.
pub open spec fn early(g: StaticGraph, node: DynNodeView) -> bool {
    g[node.inner as int].clocked && node.timestamp == node.cycle - 1
}

/// The dependences whose provider carries a later time stamp than the
/// consumer `d`: a conditional dependence on a clocked control-flow node
/// whose consumer is early or, after cycle zero, combinational; and, in
/// cycle zero, a dependence of an early consumer on a combinational node,
/// unless it is a declaration.
pub open spec fn out_of_order(
    g: StaticGraph,
    d: DynNodeView,
    p: DynNodeView,
    kind: PDGSpecEdgeKind,
) -> bool {
    ||| (kind == PDGSpecEdgeKind::Conditional && g[p.inner as int].clocked && (early(g, d) || (
    !g[d.inner as int].clocked && d.cycle >= 1)))
    ||| (early(g, d) && d.cycle == 0 && !g[p.inner as int].clocked && kind
        != PDGSpecEdgeKind::Declaration)
}

/// Time order. The provider of a dependence never carries a later time
/// stamp than the consumer, but for the dependences that `out_of_order`
/// describes, and there it always does. Where the consumer is a clocked
/// statement outside reset and the dependence is a data dependence, the
/// provider is strictly earlier, but for a combinational provider in
/// cycle zero, which carries the same time stamp.
pub proof fn lemma_time_order(g: StaticGraph, nodes: Seq<DynNodeView>, i: int, j: int)
    requires
        0 <= i < nodes.len(),
        node_ok(g, nodes, i),
        0 <= j < nodes[i].dependencies.len(),
    ensures
        ({
            let d = nodes[i];
            let p = nodes[d.dependencies[j].0 as int];
            let kind = d.dependencies[j].1;
            &&& p.timestamp <= d.timestamp <==> !out_of_order(g, d, p, kind)
            &&& g[d.inner as int].clocked && kind == PDGSpecEdgeKind::Data && !early(g, d) ==> (
            p.timestamp < d.timestamp <==> !(d.cycle == 0 && !g[p.inner as int].clocked))
        }),
{
    let d = nodes[i];
    assert(provider_ok(g, nodes, d.inner, d.cycle as int, d.dependencies[j]));
}

/// One provider for each symbol. No node has two data or index
/// dependences whose providers assign the same symbol.
pub proof fn lemma_one_provider(g: StaticGraph, nodes: Seq<DynNodeView>, i: int, a: int, b: int)
    requires
        0 <= i < nodes.len(),
        node_ok(g, nodes, i),
        0 <= a < nodes[i].dependencies.len(),
        0 <= b < nodes[i].dependencies.len(),
        a != b,
        is_lookup(nodes[i].dependencies[a].1),
        is_lookup(nodes[i].dependencies[b].1),
    ensures
        g[nodes[nodes[i].dependencies[a].0 as int].inner as int].symbol is Some,
        g[nodes[nodes[i].dependencies[a].0 as int].inner as int].symbol
            != g[nodes[nodes[i].dependencies[b].0 as int].inner as int].symbol,
{
    let d = nodes[i];
    assert(provider_ok(g, nodes, d.inner, d.cycle as int, d.dependencies[a]));
    if a < b {
        assert(is_lookup(d.dependencies[a].1) && is_lookup(d.dependencies[b].1));
    } else {
        assert(is_lookup(d.dependencies[b].1) && is_lookup(d.dependencies[a].1));
    }
}

/// A register update waits for the end of its cycle: no node has a data
/// or index dependence on a node of a clocked statement of its own cycle,
/// unless that statement is a register declaration under reset.
pub proof fn lemma_register_waits(g: StaticGraph, nodes: Seq<DynNodeView>, i: int, j: int)
    requires
        0 <= i < nodes.len(),
        node_ok(g, nodes, i),
        0 <= j < nodes[i].dependencies.len(),
        is_lookup(nodes[i].dependencies[j].1),
        nodes[nodes[i].dependencies[j].0 as int].cycle == nodes[i].cycle,
    ensures
        ({
            let p = nodes[nodes[i].dependencies[j].0 as int];
            let vp = g[p.inner as int];
            !vp.clocked || (vp.kind == PDGSpecNodeKind::DataDefinition && early(g, p))
        }),
{
    let d = nodes[i];
    assert(provider_ok(g, nodes, d.inner, d.cycle as int, d.dependencies[j]));
}

/// At the end of a cycle the last register write of a symbol is its provider.
pub proof fn lemma_register_commit(live: Seq<Option<usize>>, reg_next: Seq<(usize, usize)>, k: int)
    requires
        0 <= k < reg_next.len(),
        forall|m: int| 0 <= m < reg_next.len() ==> (#[trigger] reg_next[m]).0 < live.len(),
        forall|m: int| k < m < reg_next.len() ==> (#[trigger] reg_next[m]).0 != reg_next[k].0,
    ensures
        commit_registers(live, reg_next).len() == live.len(),
        commit_registers(live, reg_next)[reg_next[k].0 as int] == Some(reg_next[k].1),
    decreases reg_next.len(),
{
    lemma_commit_len(live, reg_next);
    assert forall|m: int| 0 <= m < reg_next.drop_last().len() implies (
    #[trigger] reg_next.drop_last()[m]).0 < live.len() by {
        assert(reg_next.drop_last()[m] == reg_next[m]);
    }
    lemma_commit_len(live, reg_next.drop_last());
    assert(reg_next.last() == reg_next[reg_next.len() - 1]);
    if k < reg_next.len() - 1 {
        assert(reg_next.drop_last()[k] == reg_next[k]);
        assert forall|m: int| k < m < reg_next.drop_last().len() implies (
        #[trigger] reg_next.drop_last()[m]).0 != reg_next.drop_last()[k].0 by {
            assert(reg_next.drop_last()[m] == reg_next[m]);
        }
        assert forall|m: int| 0 <= m < reg_next.drop_last().len() implies (
        #[trigger] reg_next.drop_last()[m]).0 < live.len() by {
            assert(reg_next.drop_last()[m] == reg_next[m]);
        }
        lemma_register_commit(live, reg_next.drop_last(), k);
        assert(reg_next[reg_next.len() - 1].0 != reg_next[k].0);
    }
}

/// Committing register writes keeps the size of the table.
pub proof fn lemma_commit_len(live: Seq<Option<usize>>, reg_next: Seq<(usize, usize)>)
    requires
        forall|m: int| 0 <= m < reg_next.len() ==> (#[trigger] reg_next[m]).0 < live.len(),
    ensures
        commit_registers(live, reg_next).len() == live.len(),
    decreases reg_next.len(),
{
    if reg_next.len() > 0 {
        assert forall|m: int| 0 <= m < reg_next.drop_last().len() implies (
        #[trigger] reg_next.drop_last()[m]).0 < live.len() by {
            assert(reg_next.drop_last()[m] == reg_next[m]);
        }
        lemma_commit_len(live, reg_next.drop_last());
        assert(reg_next.last() == reg_next[reg_next.len() - 1]);
    }
}

/// A register update whose condition holds is put to wait and leaves the
/// table of providers as it was.
pub proof fn lemma_register_deferred(
    g: StaticGraph,
    st: BuilderState,
    stmt: u32,
    tau: i64,
    reset: bool,
    probes: Seq<Option<u64>>,
)
    requires
        stmt < g.len(),
        defers(g[stmt as int]),
        guards_hold(g[stmt as int].guards, probes),
    ensures
        activate(g, st, stmt, tau, reset, probes).live == st.live,
        activate(g, st, stmt, tau, reset, probes).reg_next == st.reg_next.push(
            (g[stmt as int].symbol->0, st.nodes.len() as usize),
        ),
        activate(g, st, stmt, tau, reset, probes).nodes.last().timestamp == tau,
{
}

/// Reset. A register declaration that is activated under reset, or in
/// cycle zero, with its condition holding provides its symbol at once, and
/// its node carries the time stamp before the cycle.
pub proof fn lemma_reset_provides(
    g: StaticGraph,
    st: BuilderState,
    stmt: u32,
    tau: i64,
    reset: bool,
    probes: Seq<Option<u64>>,
)
    requires
        stmt < g.len(),
        g[stmt as int].clocked,
        g[stmt as int].kind == PDGSpecNodeKind::DataDefinition,
        g[stmt as int].symbol is Some,
        g[stmt as int].symbol->0 < st.live.len(),
        guards_hold(g[stmt as int].guards, probes),
        reset || tau == 0,
        i64::MIN < tau,
    ensures
        ({
            let after = activate(g, st, stmt, tau, reset, probes);
            &&& after.nodes.len() == st.nodes.len() + 1
            &&& after.nodes.last().inner == stmt
            &&& after.nodes.last().timestamp == tau - 1
            &&& after.live[g[stmt as int].symbol->0 as int] == Some(st.nodes.len() as usize)
        }),
{
}

/// Whether a node of statement `w` can provide, in the cycle in which it
/// is made, for edge `m` of statement `u`: a control-flow statement of the
/// class that a conditional edge names, or for a data or index edge a
/// statement that assigns the symbol and is combinational or a register
/// declaration. A declaration edge is never provided for by an activated
/// statement.
pub open spec fn provides_at_once(g: StaticGraph, u: int, m: int, w: int) -> bool {
    let e = g[u].dependencies[m];
    match e.kind {
        PDGSpecEdgeKind::Declaration => false,
        PDGSpecEdgeKind::Conditional => g[w].kind == PDGSpecNodeKind::ControlFlow && g[w].class
            == g[e.to as int].class,
        _ => g[w].symbol is Some && g[w].symbol == g[e.to as int].symbol && (!g[w].clocked
            || g[w].kind == PDGSpecNodeKind::DataDefinition),
    }
}

/// The statements can be ranked so that whatever provides within a cycle
/// ranks below what it provides for: the design has no loop of
/// dependences that take effect within one cycle.
pub open spec fn ranked(g: StaticGraph, rank: Seq<int>) -> bool {
    &&& rank.len() == g.len()
    &&& forall|u: int, m: int, w: int|
        0 <= u < g.len() && 0 <= m < g[u].dependencies.len() && 0 <= w < g.len()
            && #[trigger] provides_at_once(g, u, m, w) ==> rank[w] < rank[u]
}

/// Whether node `a` depends on node `b`.
pub open spec fn depends_on(nodes: Seq<DynNodeView>, a: int, b: int) -> bool {
    exists|j: int|
        0 <= j < nodes[a].dependencies.len() && (#[trigger] nodes[a].dependencies[j]).0 == b
}

/// A walk along dependences: each node of `path` depends on the next.
pub open spec fn is_walk(nodes: Seq<DynNodeView>, path: Seq<int>) -> bool {
    &&& path.len() >= 1
    &&& forall|k: int| 0 <= k < path.len() ==> 0 <= #[trigger] path[k] < nodes.len()
    &&& forall|k: int|
        0 <= k < path.len() - 1 ==> depends_on(nodes, #[trigger] path[k], path[k + 1])
}

/// Every node of the arena is in order.
pub open spec fn arena_ok(g: StaticGraph, nodes: Seq<DynNodeView>) -> bool {
    forall|i: int| 0 <= i < nodes.len() ==> #[trigger] node_ok(g, nodes, i)
}

proof fn lemma_walk_descends(
    g: StaticGraph,
    nodes: Seq<DynNodeView>,
    rank: Seq<int>,
    path: Seq<int>,
    k: int,
)
    requires
        arena_ok(g, nodes),
        ranked(g, rank),
        is_walk(nodes, path),
        forall|m: int| 0 <= m < path.len() ==> nodes[#[trigger] path[m]].dependencies.len() > 0,
        0 <= k < path.len(),
    ensures
        nodes[path[k]].cycle <= nodes[path[0]].cycle,
        nodes[path[k]].cycle == nodes[path[0]].cycle ==> rank[nodes[path[k]].inner as int] + k
            <= rank[nodes[path[0]].inner as int],
    decreases k,
{
    if k > 0 {
        lemma_walk_descends(g, nodes, rank, path, k - 1);
        let d = nodes[path[k - 1]];
        assert(depends_on(nodes, path[k - 1], path[k - 1 + 1]));
        let j = choose|j: int|
            0 <= j < d.dependencies.len() && (#[trigger] d.dependencies[j]).0 == path[k];
        let p = nodes[path[k]];
        assert(node_ok(g, nodes, path[k - 1]));
        assert(provider_ok(g, nodes, d.inner, d.cycle as int, d.dependencies[j]));
        assert(p.dependencies.len() > 0);
        assert(d.dependencies[j].1 != PDGSpecEdgeKind::Declaration);
        if p.cycle == d.cycle {
            let vd = g[d.inner as int];
            let m = choose|m: int|
                0 <= m < vd.dependencies.len() && justifies(
                    g,
                    #[trigger] vd.dependencies[m],
                    d.dependencies[j].1,
                    p.inner,
                );
            assert(provides_at_once(g, d.inner as int, m, p.inner as int));
        }
    }
}

/// No cycle. In a design without a loop of dependences that take effect
/// within one cycle, no walk of one step or more along the dependences of
/// the arena returns to the node where it began.
pub proof fn lemma_no_cycle(g: StaticGraph, nodes: Seq<DynNodeView>, rank: Seq<int>, path: Seq<int>)
    requires
        arena_ok(g, nodes),
        ranked(g, rank),
        is_walk(nodes, path),
        path.len() >= 2,
    ensures
        path[0] != path.last(),
{
    if path[0] == path.last() {
        assert forall|m: int| 0 <= m < path.len() implies nodes[#[trigger] path[m]].dependencies.len()
            > 0 by {
            if m < path.len() - 1 {
                assert(depends_on(nodes, path[m], path[m + 1]));
            } else {
                let first = 0int;
                assert(depends_on(nodes, path[first], path[first + 1]));
            }
        }
        lemma_walk_descends(g, nodes, rank, path, path.len() - 1);
    }
}

/// Whether an exported edge leads from vertex `a` to vertex `b`.
pub open spec fn export_step(edges: Seq<ExportablePDGEdge>, a: int, b: int) -> bool {
    exists|k: int| 0 <= k < edges.len() && (#[trigger] edges[k]).from == a && edges[k].to == b
}

/// No cycle in the exported graph. In a design without a loop of
/// dependences that take effect within one cycle, no walk of one step or
/// more along the edges of the exported graph returns to the vertex where
/// it began.
pub proof fn lemma_export_no_cycle(
    g: StaticGraph,
    nodes: Seq<DynNodeView>,
    rank: Seq<int>,
    root: usize,
    clocked: Seq<bool>,
    path: Seq<int>,
)
    requires
        arena_ok(g, nodes),
        ranked(g, rank),
        root < nodes.len(),
        nodes.len() <= u32::MAX,
        path.len() >= 2,
        forall|k: int|
            0 <= k < path.len() - 1 ==> export_step(
                walk(nodes, clocked, start_walk(nodes.len(), root)).edges,
                #[trigger] path[k],
                path[k + 1],
            ),
    ensures
        path[0] != path.last(),
{
    let start = start_walk(nodes.len(), root);
    let end = walk(nodes, clocked, start);
    assert forall|i: int, j: int|
        0 <= i < nodes.len() && 0 <= j < nodes[i].dependencies.len() implies (
    #[trigger] nodes[i].dependencies[j]).0 < nodes.len() by {
        assert(node_ok(g, nodes, i));
        assert(provider_ok(g, nodes, nodes[i].inner, nodes[i].cycle as int, nodes[i].dependencies[j]));
    }
    lemma_start_walk(nodes, root);
    lemma_walk_sound(nodes, clocked, start);
    let arena_path = Seq::new(path.len(), |k: int| end.order[path[k]] as int);
    assert forall|k: int| 0 <= k < path.len() implies 0 <= path[k] < end.order.len() && 0
        <= #[trigger] arena_path[k] < nodes.len() by {
        if k < path.len() - 1 {
            assert(export_step(end.edges, path[k], path[k + 1]));
            let m = choose|m: int|
                0 <= m < end.edges.len() && (#[trigger] end.edges[m]).from == path[k]
                    && end.edges[m].to == path[k + 1];
            assert(edge_sound(nodes, end.order, end.edges[m]));
        } else {
            assert(export_step(end.edges, path[k - 1], path[k - 1 + 1]));
            let m = choose|m: int|
                0 <= m < end.edges.len() && (#[trigger] end.edges[m]).from == path[k - 1]
                    && end.edges[m].to == path[k];
            assert(edge_sound(nodes, end.order, end.edges[m]));
        }
    }
    assert forall|k: int| 0 <= k < arena_path.len() - 1 implies depends_on(
        nodes,
        #[trigger] arena_path[k],
        arena_path[k + 1],
    ) by {
        assert(export_step(end.edges, path[k], path[k + 1]));
        let m = choose|m: int|
            0 <= m < end.edges.len() && (#[trigger] end.edges[m]).from == path[k]
                && end.edges[m].to == path[k + 1];
        let e = end.edges[m];
        assert(edge_sound(nodes, end.order, e));
        let j = choose|j: int|
            0 <= j < nodes[end.order[e.from as int] as int].dependencies.len() && (
            #[trigger] nodes[end.order[e.from as int] as int].dependencies[j]) == (
                end.order[e.to as int],
                e.kind,
            );
        assert(nodes[arena_path[k]].dependencies[j].0 == arena_path[k + 1]);
    }
    lemma_no_cycle(g, nodes, rank, arena_path);
    assert(arena_path[0] == end.order[path[0]] as int);
    assert(arena_path.last() == end.order[path.last()] as int);
}

/// What holds of the delayed statements when cycle `t` comes next: each
/// has a delay, fires in cycle `t` or later, and the snapshot of the cycle
/// in which it was activated is kept.
pub open spec fn delayed_ok(g: StaticGraph, st: BuilderState, t: int) -> bool {
    forall|k: int|
        0 <= k < st.delayed.len() ==> {
            let (fire, stmt) = #[trigger] st.delayed[k];
            &&& stmt < g.len()
            &&& g[stmt as int].assign_delay > 0
            &&& fire >= t
            &&& st.snapshots.contains_key((fire - g[stmt as int].assign_delay) as i64)
        }
}

/// What holds of each of a list of waiting statements.
pub open spec fn waits_ok(
    g: StaticGraph,
    snapshots: Map<i64, SnapshotView>,
    t: int,
    entry: (i64, u32),
) -> bool {
    &&& entry.1 < g.len()
    &&& g[entry.1 as int].assign_delay > 0
    &&& entry.0 >= t
    &&& snapshots.contains_key((entry.0 - g[entry.1 as int].assign_delay) as i64)
}

/// The statements that stay delayed after cycle `tau` fire later.
pub proof fn lemma_still_delayed(
    g: StaticGraph,
    snapshots: Map<i64, SnapshotView>,
    delayed: Seq<(i64, u32)>,
    tau: i64,
)
    requires
        forall|k: int| 0 <= k < delayed.len() ==> waits_ok(g, snapshots, tau as int, #[trigger] delayed[k]),
    ensures
        forall|k: int|
            0 <= k < still_delayed(delayed, tau).len() ==> waits_ok(
                g,
                snapshots,
                tau + 1,
                #[trigger] still_delayed(delayed, tau)[k],
            ),
        forall|k: int|
            0 <= k < crate::dependency::ready_statements(delayed, tau).len() ==> {
                let stmt = #[trigger] crate::dependency::ready_statements(delayed, tau)[k];
                &&& stmt < g.len()
                &&& g[stmt as int].assign_delay > 0
                &&& snapshots.contains_key((tau - g[stmt as int].assign_delay) as i64)
            },
    decreases delayed.len(),
{
    if delayed.len() > 0 {
        let front = delayed.drop_last();
        assert forall|k: int| 0 <= k < front.len() implies waits_ok(
            g,
            snapshots,
            tau as int,
            #[trigger] front[k],
        ) by {
            assert(front[k] == delayed[k]);
        }
        lemma_still_delayed(g, snapshots, front, tau);
        let last = delayed[delayed.len() - 1];
        assert(waits_ok(g, snapshots, tau as int, last));
        let rest = still_delayed(front, tau);
        assert forall|k: int| 0 <= k < still_delayed(delayed, tau).len() implies waits_ok(
            g,
            snapshots,
            tau + 1,
            #[trigger] still_delayed(delayed, tau)[k],
        ) by {
            if k < rest.len() {
                assert(still_delayed(delayed, tau)[k] == rest[k]);
            }
        }
        let ready = crate::dependency::ready_statements(front, tau);
        assert forall|k: int|
            0 <= k < crate::dependency::ready_statements(delayed, tau).len() implies {
            let stmt = #[trigger] crate::dependency::ready_statements(delayed, tau)[k];
            &&& stmt < g.len()
            &&& g[stmt as int].assign_delay > 0
            &&& snapshots.contains_key((tau - g[stmt as int].assign_delay) as i64)
        } by {
            if k < ready.len() {
                assert(crate::dependency::ready_statements(delayed, tau)[k] == ready[k]);
            }
        }
    }
}

/// Delay. An activated statement with a delay is put to wait for the
/// cycle that lies its delay ahead; whatever is put to wait has a delay
/// and waits for that cycle; and what is taken at once has none.
pub proof fn lemma_enqueued(g: StaticGraph, activated: Seq<u32>, tau: i64)
    requires
        all_in_range(activated, g.len() as int),
        0 <= tau <= i64::MAX - u32::MAX,
    ensures
        forall|k: int|
            0 <= k < enqueued(g, activated, tau).len() ==> {
                let (fire, stmt) = #[trigger] enqueued(g, activated, tau)[k];
                &&& stmt < g.len()
                &&& g[stmt as int].assign_delay > 0
                &&& fire == tau + g[stmt as int].assign_delay
            },
        forall|k: int|
            0 <= k < activated.len() && g[(#[trigger] activated[k]) as int].assign_delay > 0
                ==> enqueued(g, activated, tau).contains(
                ((tau + g[activated[k] as int].assign_delay) as i64, activated[k]),
            ),
        forall|k: int|
            0 <= k < crate::dependency::immediate_of(g, activated).len()
                ==> g[(#[trigger] crate::dependency::immediate_of(g, activated)[k]) as int].assign_delay
                == 0,
    decreases activated.len(),
{
    if activated.len() > 0 {
        let front = activated.drop_last();
        let last = activated[activated.len() - 1];
        assert(last < g.len());
        assert(all_in_range(front, g.len() as int)) by {
            assert forall|k: int| 0 <= k < front.len() implies (#[trigger] front[k]) < g.len() by {
                assert(front[k] == activated[k]);
            }
        }
        lemma_enqueued(g, front, tau);
        let rest = enqueued(g, front, tau);
        let all = enqueued(g, activated, tau);
        assert forall|k: int| 0 <= k < all.len() implies {
            let (fire, stmt) = #[trigger] all[k];
            &&& stmt < g.len()
            &&& g[stmt as int].assign_delay > 0
            &&& fire == tau + g[stmt as int].assign_delay
        } by {
            if k < rest.len() {
                assert(all[k] == rest[k]);
            }
        }
        assert forall|k: int|
            0 <= k < activated.len() && g[(#[trigger] activated[k]) as int].assign_delay
                > 0 implies all.contains(
            ((tau + g[activated[k] as int].assign_delay) as i64, activated[k]),
        ) by {
            let entry = ((tau + g[activated[k] as int].assign_delay) as i64, activated[k]);
            if k < front.len() {
                assert(front[k] == activated[k]);
                assert(rest.contains(entry));
                let m = choose|m: int| 0 <= m < rest.len() && rest[m] == entry;
                assert(all[m] == entry);
            } else {
                assert(all[rest.len() as int] == entry);
            }
        }
        let now = crate::dependency::immediate_of(g, front);
        assert forall|k: int|
            0 <= k < crate::dependency::immediate_of(g, activated).len() implies g[(
        #[trigger] crate::dependency::immediate_of(g, activated)[k]) as int].assign_delay == 0 by {
            if k < now.len() {
                assert(crate::dependency::immediate_of(g, activated)[k] == now[k]);
            }
        }
    }
}

/// After a cycle the delayed statements are in order for the next: the
/// cycle that puts a statement to wait keeps its snapshot.
pub proof fn lemma_delayed_after(
    g: StaticGraph,
    matches: Seq<bool>,
    mode: GraphProcessingType,
    st: BuilderState,
    activated: Seq<u32>,
    tau: i64,
    reset: bool,
    probes: Seq<Option<u64>>,
)
    requires
        delayed_ok(g, st, tau as int),
        all_in_range(activated, g.len() as int),
        0 <= tau <= i64::MAX - u32::MAX,
    ensures
        delayed_ok(g, cycle(g, matches, mode, st, activated, tau, reset, probes), tau + 1),
        enqueued(g, activated, tau).len() > 0 ==> cycle(
            g,
            matches,
            mode,
            st,
            activated,
            tau,
            reset,
            probes,
        ).snapshots.contains_key(tau),
{
    let after = cycle(g, matches, mode, st, activated, tau, reset, probes);
    let waiting = enqueued(g, activated, tau);
    let kept = still_delayed(st.delayed, tau);
    assert forall|k: int| 0 <= k < st.delayed.len() implies waits_ok(
        g,
        st.snapshots,
        tau as int,
        #[trigger] st.delayed[k],
    ) by {}
    lemma_still_delayed(g, st.snapshots, st.delayed, tau);
    lemma_enqueued(g, activated, tau);
    let stmts = cycle_statements(g, st, activated, tau);
    let s2 = BuilderState { delayed: kept + waiting, ..st };
    lemma_activate_all_frame(g, s2, stmts, tau, reset, probes);
    let s3 = activate_all(g, s2, stmts, tau, reset, probes);
    lemma_resolve_all_frame(g, s3, st.nodes.len() as int, stmts.len() as int, mode, tau, probes);
    assert(after.delayed == kept + waiting);
    assert forall|k: int| 0 <= k < after.delayed.len() implies {
        let (fire, stmt) = #[trigger] after.delayed[k];
        &&& stmt < g.len()
        &&& g[stmt as int].assign_delay > 0
        &&& fire >= tau + 1
        &&& after.snapshots.contains_key((fire - g[stmt as int].assign_delay) as i64)
    } by {
        if k < kept.len() {
            assert(after.delayed[k] == kept[k]);
            assert(waits_ok(g, st.snapshots, tau + 1, kept[k]));
        } else {
            assert(after.delayed[k] == waiting[k - kept.len()]);
        }
    }
}

/// Activating statements leaves the delayed statements and the snapshots as they were.
pub proof fn lemma_activate_all_frame(
    g: StaticGraph,
    st: BuilderState,
    stmts: Seq<u32>,
    tau: i64,
    reset: bool,
    probes: Seq<Option<u64>>,
)
    ensures
        activate_all(g, st, stmts, tau, reset, probes).delayed == st.delayed,
        activate_all(g, st, stmts, tau, reset, probes).snapshots == st.snapshots,
        activate_all(g, st, stmts, tau, reset, probes).candidate == st.candidate,
    decreases stmts.len(),
{
    if stmts.len() > 0 {
        lemma_activate_all_frame(g, st, stmts.drop_last(), tau, reset, probes);
    }
}

/// Resolving dependences changes the arena alone.
pub proof fn lemma_resolve_all_frame(
    g: StaticGraph,
    st: BuilderState,
    base: int,
    count: int,
    mode: GraphProcessingType,
    tau: i64,
    probes: Seq<Option<u64>>,
)
    ensures
        resolve_all(g, st, base, count, mode, tau, probes) == (BuilderState {
            nodes: resolve_all(g, st, base, count, mode, tau, probes).nodes,
            ..st
        }),
    decreases count,
{
    if count > 0 {
        lemma_resolve_all_frame(g, st, base, count - 1, mode, tau, probes);
    }
}

/// A delayed statement reads the snapshot of the cycle in which it was
/// activated, any other the live table and the current probe values.
pub proof fn lemma_delayed_context(
    st: BuilderState,
    v: LinkedNodeView,
    tau: i64,
    probes: Seq<Option<u64>>,
)
    ensures
        v.assign_delay > 0 && st.snapshots.contains_key((tau - v.assign_delay) as i64) ==> context(
            st,
            v,
            tau,
            probes,
        ) == st.snapshots[(tau - v.assign_delay) as i64],
        v.assign_delay == 0 ==> context(st, v, tau, probes) == (SnapshotView {
            table: st.live,
            probes,
        }),
{
}

/// Where an edge gives a dependence, its condition holds of the probe
/// values of the context; a data dependence is the entry of the live
/// table for the symbol of the edge, an index dependence that of the
/// context.
pub proof fn lemma_lookup_tables(
    g: StaticGraph,
    st: BuilderState,
    ctx: SnapshotView,
    mode: GraphProcessingType,
    tau: i64,
    r: Resolution,
    e: LinkedEdgeView,
)
    ensures
        ({
            let after = resolve_edge(g, st, ctx, mode, tau, r, e);
            let symbol = g[e.to as int].symbol;
            &&& after.deps.len() == r.deps.len() || after.deps == r.deps.push(after.deps.last())
            &&& after.deps.len() > r.deps.len() ==> {
                &&& guards_hold(e.guards, ctx.probes)
                &&& after.deps.last().1 == e.kind
                &&& e.kind == PDGSpecEdgeKind::Data ==> symbol is Some && st.live[symbol->0 as int]
                    == Some(after.deps.last().0)
                &&& e.kind == PDGSpecEdgeKind::Index ==> symbol is Some
                    && ctx.table[symbol->0 as int] == Some(after.deps.last().0)
            }
        }),
{
}

/// What holds of dependence `j` of node `i`. The provider is not later
/// than the node, but for the dependences that `out_of_order` describes.
/// For a clocked statement outside reset a data provider is strictly
/// earlier, but for a combinational provider in cycle zero. For a register
/// declaration under reset a data or index provider is not later from
/// cycle one on, and may carry the same time stamp. A data or index
/// provider is never of a later cycle, and one of the node's own cycle is
/// combinational or a register declaration under reset: a register update
/// provides from the next cycle on.
pub open spec fn dependence_in_order(g: StaticGraph, nodes: Seq<DynNodeView>, i: int, j: int)
    -> bool {
    let d = nodes[i];
    let p = nodes[d.dependencies[j].0 as int];
    let kind = d.dependencies[j].1;
    let vp = g[p.inner as int];
    &&& d.dependencies[j].0 < nodes.len()
    &&& (p.timestamp <= d.timestamp <==> !out_of_order(g, d, p, kind))
    &&& (g[d.inner as int].clocked && kind == PDGSpecEdgeKind::Data && !early(g, d) ==> (
    p.timestamp < d.timestamp <==> !(d.cycle == 0 && !vp.clocked)))
    &&& (early(g, d) && d.cycle >= 1 && is_lookup(kind) ==> p.timestamp <= d.timestamp)
    &&& (is_lookup(kind) ==> p.cycle <= d.cycle)
    &&& (is_lookup(kind) && p.cycle == d.cycle ==> !vp.clocked || (vp.kind
        == PDGSpecNodeKind::DataDefinition && early(g, p)))
}

/// What holds of every node of an arena: the node and its dependences
/// are in order, each dependence is accounted for by an edge of the
/// statement, no two of its data or index dependences have providers of
/// one symbol,
/// and in a design without a loop of dependences that take effect within
/// one cycle no walk along dependences returns to where it began.
pub open spec fn arena_laws(g: StaticGraph, nodes: Seq<DynNodeView>) -> bool {
    &&& forall|i: int, j: int|
        0 <= i < nodes.len() && 0 <= j < nodes[i].dependencies.len() ==> dependence_in_order(
            g,
            nodes,
            i,
            j,
        ) && provider_ok(
            g,
            nodes,
            nodes[i].inner,
            nodes[i].cycle as int,
            #[trigger] nodes[i].dependencies[j],
        )
    &&& forall|i: int|
        0 <= i < nodes.len() ==> node_ok(g, nodes, i) && lookups_distinct(
            g,
            nodes,
            (#[trigger] nodes[i]).dependencies,
        )
    &&& forall|rank: Seq<int>, path: Seq<int>|
        #[trigger] ranked(g, rank) && #[trigger] is_walk(nodes, path) && path.len() >= 2 ==> path[0]
            != path.last()
}

/// An arena whose nodes are in order keeps the laws of the arena.
pub proof fn lemma_arena_laws(g: StaticGraph, nodes: Seq<DynNodeView>)
    requires
        arena_ok(g, nodes),
    ensures
        arena_laws(g, nodes),
{
    assert forall|i: int, j: int|
        0 <= i < nodes.len() && 0 <= j < nodes[i].dependencies.len() implies dependence_in_order(
        g,
        nodes,
        i,
        j,
    ) && provider_ok(
        g,
        nodes,
        nodes[i].inner,
        nodes[i].cycle as int,
        #[trigger] nodes[i].dependencies[j],
    ) by {
        assert(node_ok(g, nodes, i));
        lemma_time_order(g, nodes, i, j);
        let d = nodes[i];
        assert(provider_ok(g, nodes, d.inner, d.cycle as int, d.dependencies[j]));
    }
    assert forall|i: int| 0 <= i < nodes.len() implies node_ok(g, nodes, i) && lookups_distinct(
        g,
        nodes,
        (#[trigger] nodes[i]).dependencies,
    ) by {
        assert(node_ok(g, nodes, i));
    }
    assert forall|rank: Seq<int>, path: Seq<int>|
        #[trigger] ranked(g, rank) && #[trigger] is_walk(nodes, path) && path.len() >= 2 implies path[0]
        != path.last() by {
        lemma_no_cycle(g, nodes, rank, path);
    }
}

/// A state that is in order between two cycles keeps the laws of the arena.
pub proof fn lemma_rest_laws(g: StaticGraph, st: BuilderState, t: int)
    requires
        rest_ok(g, st, t),
    ensures
        arena_laws(g, st.nodes),
{
    assert forall|i: int| 0 <= i < st.nodes.len() implies #[trigger] node_ok(g, st.nodes, i) by {
        assert(st.nodes[i].cycle <= t);
    }
    lemma_arena_laws(g, st.nodes);
}

} // verus!
