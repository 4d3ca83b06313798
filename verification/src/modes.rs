//! How the graphs of the modes of a run relate: a run for data
//! dependences alone makes the nodes of an ordinary run, and no
//! dependence that the ordinary run does not make.

use vstd::prelude::*;
use crate::activation::active_from;
use crate::dependency::{
    activate, activate_all, all_in_range, capture, context, cycle, cycle_statements, enqueued,
    immediate_of, lemma_partition_in_range, lemma_ready_in_range, ready_statements, resolve,
    resolve_all, resolve_edge, resolve_edges, still_delayed, BuilderState, DynNodeView,
    GraphProcessingType, SnapshotView, StaticGraph,
};
use crate::graphbuilder::{run, run_step, within_budget, Design, RunState};
use crate::linked::LinkedNodeView;
use crate::pdg_spec::PDGSpecEdgeKind;
use crate::reader::{lemma_read_on_pos, ReadProgress};
use crate::trace::{LogicValue, TraceCommand};

verus! {

/// No data edge of the vertex stands behind an index edge that leads to
/// a provider of the same symbol.
pub open spec fn data_unshadowed(g: StaticGraph, v: LinkedNodeView) -> bool {
    forall|i: int, j: int|
        0 <= i < j < v.dependencies.len() && (#[trigger] v.dependencies[i]).kind
            == PDGSpecEdgeKind::Index && (#[trigger] v.dependencies[j]).kind
            == PDGSpecEdgeKind::Data ==> g[v.dependencies[i].to as int].symbol is None
            || g[v.dependencies[i].to as int].symbol != g[v.dependencies[j].to as int].symbol
}

/// No vertex of the graph has a data edge behind an index edge that
/// leads to a provider of the same symbol.
pub open spec fn kinds_apart(g: StaticGraph) -> bool {
    forall|v: int| 0 <= v < g.len() ==> data_unshadowed(g, #[trigger] g[v])
}

/// Every entry of `a` is an entry of `b`.
pub open spec fn within<T>(a: Seq<T>, b: Seq<T>) -> bool {
    forall|k: int| 0 <= k < a.len() ==> b.contains(#[trigger] a[k])
}

/// Node `a` is node `b` with some of its dependences.
pub open spec fn node_within(a: DynNodeView, b: DynNodeView) -> bool {
    &&& a.inner == b.inner
    &&& a.timestamp == b.timestamp
    &&& a.cycle == b.cycle
    &&& within(a.dependencies, b.dependencies)
}

/// State `a` is state `b` with some of the dependences of its nodes;
/// the statements of both are vertices of the graph.
pub open spec fn state_within(g: StaticGraph, a: BuilderState, b: BuilderState) -> bool {
    &&& a.live == b.live
    &&& a.control == b.control
    &&& a.reg_next == b.reg_next
    &&& a.delayed == b.delayed
    &&& a.snapshots == b.snapshots
    &&& a.candidate == b.candidate
    &&& a.nodes.len() == b.nodes.len()
    &&& forall|i: int|
        0 <= i < a.nodes.len() ==> node_within(#[trigger] a.nodes[i], b.nodes[i]) && a.nodes[i].inner
            < g.len()
    &&& forall|k: int| 0 <= k < a.delayed.len() ==> (#[trigger] a.delayed[k]).1 < g.len()
}

proof fn lemma_within_push<T>(a: Seq<T>, b: Seq<T>, x: T)
    requires
        within(a, b),
    ensures
        within(a, b.push(x)),
        within(a.push(x), b.push(x)),
{
    let wide = b.push(x);
    assert forall|k: int| 0 <= k < a.len() implies wide.contains(#[trigger] a[k]) by {
        let j = choose|j: int| 0 <= j < b.len() && b[j] == a[k];
        assert(wide[j] == a[k]);
    }
    assert forall|k: int| 0 <= k < a.push(x).len() implies wide.contains(
        #[trigger] a.push(x)[k],
    ) by {
        if k < a.len() {
            assert(wide.contains(a[k]));
        } else {
            assert(wide[b.len() as int] == x);
        }
    }
}

/// What the edges of a vertex come to in both modes, resolved against
/// equal tables: no declaration is made, every dependence of the data
/// mode is one of the ordinary mode, and a symbol that only the ordinary
/// mode has looked up was looked up for an index edge.
proof fn lemma_edges_within(
    g: StaticGraph,
    a: BuilderState,
    b: BuilderState,
    ctx: SnapshotView,
    tau: i64,
    v: LinkedNodeView,
    upto: int,
)
    requires
        a.live == b.live,
        data_unshadowed(g, v),
        0 <= upto <= v.dependencies.len(),
    ensures
        ({
            let few = resolve_edges(
                g,
                a,
                ctx,
                GraphProcessingType::DataOnly,
                tau,
                v.dependencies,
                upto,
            );
            let all = resolve_edges(g, b, ctx, GraphProcessingType::Normal, tau, v.dependencies, upto);
            &&& few.fresh.len() == 0
            &&& all.fresh.len() == 0
            &&& within(few.deps, all.deps)
            &&& within(few.served, all.served)
            &&& forall|s: usize|
                all.served.contains(s) && !few.served.contains(s) ==> exists|i: int|
                    0 <= i < upto && (#[trigger] v.dependencies[i]).kind == PDGSpecEdgeKind::Index
                        && g[v.dependencies[i].to as int].symbol == Some(s)
        }),
    decreases upto,
{
    if upto > 0 {
        lemma_edges_within(g, a, b, ctx, tau, v, upto - 1);
        let edges = v.dependencies;
        let e = edges[upto - 1];
        let few0 = resolve_edges(g, a, ctx, GraphProcessingType::DataOnly, tau, edges, upto - 1);
        let all0 = resolve_edges(g, b, ctx, GraphProcessingType::Normal, tau, edges, upto - 1);
        let few = resolve_edge(g, a, ctx, GraphProcessingType::DataOnly, tau, few0, e);
        let all = resolve_edge(g, b, ctx, GraphProcessingType::Normal, tau, all0, e);
        let symbol = g[e.to as int].symbol;
        // What the ordinary mode adds keeps what the data mode had.
        assert(within(few0.deps, all.deps) && within(few0.served, all.served)) by {
            if all.deps != all0.deps {
                let x = all.deps[all.deps.len() - 1];
                assert(all.deps =~= all0.deps.push(x));
                lemma_within_push(few0.deps, all0.deps, x);
            }
            if all.served != all0.served {
                assert(all.served =~= all0.served.push(symbol->0));
                lemma_within_push(few0.served, all0.served, symbol->0);
            }
        }
        if few != few0 {
            // A data edge whose symbol the data mode has not looked up.
            let s = symbol->0;
            assert(e.kind == PDGSpecEdgeKind::Data);
            assert(!few0.served.contains(s));
            assert(!all0.served.contains(s)) by {
                if all0.served.contains(s) {
                    let i = choose|i: int|
                        0 <= i < upto - 1 && (#[trigger] edges[i]).kind == PDGSpecEdgeKind::Index
                            && g[edges[i].to as int].symbol == Some(s);
                    assert(edges[upto - 1].kind == PDGSpecEdgeKind::Data);
                    assert(g[edges[i].to as int].symbol != g[edges[upto - 1].to as int].symbol);
                }
            }
            assert(few.served =~= few0.served.push(s));
            assert(all.served =~= all0.served.push(s));
            lemma_within_push(few0.served, all0.served, s);
            match a.live[s as int] {
                Some(p) => {
                    assert(few.deps =~= few0.deps.push((p, e.kind)));
                    assert(all.deps =~= all0.deps.push((p, e.kind)));
                    lemma_within_push(few0.deps, all0.deps, (p, e.kind));
                },
                None => {},
            }
        }
        assert forall|s: usize| all.served.contains(s) && !few.served.contains(s) implies exists|
            i: int,
        |
            0 <= i < upto && (#[trigger] edges[i]).kind == PDGSpecEdgeKind::Index
                && g[edges[i].to as int].symbol == Some(s) by {
            if all0.served.contains(s) {
                if few0.served.contains(s) {
                    let k = choose|k: int| 0 <= k < few0.served.len() && few0.served[k] == s;
                    if few != few0 {
                        assert(few.served =~= few0.served.push(symbol->0));
                        assert(few.served[k] == s);
                    }
                    assert(few.served.contains(s));
                } else {
                    let i = choose|i: int|
                        0 <= i < upto - 1 && (#[trigger] edges[i]).kind == PDGSpecEdgeKind::Index
                            && g[edges[i].to as int].symbol == Some(s);
                    assert(edges[i].kind == PDGSpecEdgeKind::Index);
                }
            } else {
                let k = choose|k: int| 0 <= k < all.served.len() && all.served[k] == s;
                assert(all.served =~= all0.served.push(symbol->0));
                if k < all0.served.len() {
                    assert(all0.served[k] == s);
                }
                assert(symbol == Some(s));
                if e.kind == PDGSpecEdgeKind::Data {
                    assert(few.served =~= few0.served.push(s));
                    assert(few.served[few0.served.len() as int] == s);
                }
                assert(edges[upto - 1].kind == PDGSpecEdgeKind::Index);
            }
        }
    }
}

proof fn lemma_activate_within(
    g: StaticGraph,
    a: BuilderState,
    b: BuilderState,
    stmt: u32,
    tau: i64,
    reset: bool,
    probes: Seq<Option<u64>>,
)
    requires
        state_within(g, a, b),
        stmt < g.len(),
    ensures
        state_within(
            g,
            activate(g, a, stmt, tau, reset, probes),
            activate(g, b, stmt, tau, reset, probes),
        ),
{
    let x = activate(g, a, stmt, tau, reset, probes);
    let y = activate(g, b, stmt, tau, reset, probes);
    assert forall|i: int| 0 <= i < x.nodes.len() implies node_within(#[trigger] x.nodes[i], y.nodes[i])
        && x.nodes[i].inner < g.len() by {
        if i < a.nodes.len() {
            assert(node_within(a.nodes[i], b.nodes[i]));
        }
    }
}

proof fn lemma_activate_all_within(
    g: StaticGraph,
    a: BuilderState,
    b: BuilderState,
    stmts: Seq<u32>,
    tau: i64,
    reset: bool,
    probes: Seq<Option<u64>>,
)
    requires
        state_within(g, a, b),
        all_in_range(stmts, g.len() as int),
    ensures
        state_within(
            g,
            activate_all(g, a, stmts, tau, reset, probes),
            activate_all(g, b, stmts, tau, reset, probes),
        ),
        activate_all(g, a, stmts, tau, reset, probes).nodes.len() == a.nodes.len() + stmts.len(),
    decreases stmts.len(),
{
    if stmts.len() > 0 {
        let rest = stmts.drop_last();
        assert forall|k: int| 0 <= k < rest.len() implies (#[trigger] rest[k]) < g.len() by {
            assert(rest[k] == stmts[k]);
        }
        lemma_activate_all_within(g, a, b, rest, tau, reset, probes);
        assert(stmts.last() == stmts[stmts.len() - 1]);
        lemma_activate_within(
            g,
            activate_all(g, a, rest, tau, reset, probes),
            activate_all(g, b, rest, tau, reset, probes),
            stmts.last(),
            tau,
            reset,
            probes,
        );
    }
}

proof fn lemma_resolve_within(
    g: StaticGraph,
    a: BuilderState,
    b: BuilderState,
    node: int,
    tau: i64,
    probes: Seq<Option<u64>>,
)
    requires
        state_within(g, a, b),
        kinds_apart(g),
        0 <= node < a.nodes.len(),
    ensures
        state_within(
            g,
            resolve(g, a, node, GraphProcessingType::DataOnly, tau, probes),
            resolve(g, b, node, GraphProcessingType::Normal, tau, probes),
        ),
        resolve(g, a, node, GraphProcessingType::DataOnly, tau, probes).nodes.len()
            == a.nodes.len(),
{
    assert(node_within(a.nodes[node], b.nodes[node]));
    let v = g[a.nodes[node].inner as int];
    let ctx = context(a, v, tau, probes);
    assert(ctx == context(b, v, tau, probes));
    lemma_edges_within(g, a, b, ctx, tau, v, v.dependencies.len() as int);
    let x = resolve(g, a, node, GraphProcessingType::DataOnly, tau, probes);
    let y = resolve(g, b, node, GraphProcessingType::Normal, tau, probes);
    let few = resolve_edges(
        g,
        a,
        ctx,
        GraphProcessingType::DataOnly,
        tau,
        v.dependencies,
        v.dependencies.len() as int,
    );
    let all = resolve_edges(
        g,
        b,
        ctx,
        GraphProcessingType::Normal,
        tau,
        v.dependencies,
        v.dependencies.len() as int,
    );
    assert(a.nodes + few.fresh =~= a.nodes);
    assert(b.nodes + all.fresh =~= b.nodes);
    assert forall|i: int| 0 <= i < x.nodes.len() implies node_within(#[trigger] x.nodes[i], y.nodes[i])
        && x.nodes[i].inner < g.len() by {
        assert(node_within(a.nodes[i], b.nodes[i]));
    }
}

proof fn lemma_resolve_all_within(
    g: StaticGraph,
    a: BuilderState,
    b: BuilderState,
    base: int,
    count: int,
    tau: i64,
    probes: Seq<Option<u64>>,
)
    requires
        state_within(g, a, b),
        kinds_apart(g),
        0 <= base,
        0 <= count,
        base + count <= a.nodes.len(),
    ensures
        state_within(
            g,
            resolve_all(g, a, base, count, GraphProcessingType::DataOnly, tau, probes),
            resolve_all(g, b, base, count, GraphProcessingType::Normal, tau, probes),
        ),
        resolve_all(g, a, base, count, GraphProcessingType::DataOnly, tau, probes).nodes.len()
            == a.nodes.len(),
    decreases count,
{
    if count > 0 {
        lemma_resolve_all_within(g, a, b, base, count - 1, tau, probes);
        lemma_resolve_within(
            g,
            resolve_all(g, a, base, count - 1, GraphProcessingType::DataOnly, tau, probes),
            resolve_all(g, b, base, count - 1, GraphProcessingType::Normal, tau, probes),
            base + count - 1,
            tau,
            probes,
        );
    }
}

proof fn lemma_capture_within(
    matches: Seq<bool>,
    a: Seq<DynNodeView>,
    b: Seq<DynNodeView>,
    base: int,
    count: int,
    candidate: Option<usize>,
)
    requires
        a.len() == b.len(),
        0 <= base,
        base + count <= a.len(),
        forall|i: int| 0 <= i < a.len() ==> (#[trigger] a[i]).inner == b[i].inner,
    ensures
        capture(matches, a, base, count, candidate) == capture(matches, b, base, count, candidate),
    decreases count,
{
    if count > 0 {
        assert(a[base + count - 1].inner == b[base + count - 1].inner);
        lemma_capture_within(matches, a, b, base, count - 1, candidate);
    }
}

/// One cycle keeps a state for data dependences alone within the state
/// of the ordinary mode.
pub proof fn lemma_cycle_within(
    g: StaticGraph,
    matches: Seq<bool>,
    a: BuilderState,
    b: BuilderState,
    activated: Seq<u32>,
    tau: i64,
    reset: bool,
    probes: Seq<Option<u64>>,
)
    requires
        state_within(g, a, b),
        kinds_apart(g),
        all_in_range(activated, g.len() as int),
    ensures
        state_within(
            g,
            cycle(g, matches, GraphProcessingType::DataOnly, a, activated, tau, reset, probes),
            cycle(g, matches, GraphProcessingType::Normal, b, activated, tau, reset, probes),
        ),
{
    let n = g.len() as int;
    let stmts = cycle_statements(g, a, activated, tau);
    let waiting = enqueued(g, activated, tau);
    let base = a.nodes.len() as int;
    lemma_ready_in_range(a.delayed, tau, n);
    lemma_partition_in_range(g, activated, tau);
    let left = still_delayed(a.delayed, tau) + waiting;
    assert forall|k: int| 0 <= k < left.len() implies (#[trigger] left[k]).1 < n by {
        if k < still_delayed(a.delayed, tau).len() {
            assert(left[k] == still_delayed(a.delayed, tau)[k]);
        } else {
            assert(left[k] == waiting[k - still_delayed(a.delayed, tau).len()]);
        }
    }
    assert forall|k: int| 0 <= k < stmts.len() implies (#[trigger] stmts[k]) < n by {
        let first = immediate_of(g, activated);
        if k < first.len() {
            assert(stmts[k] == first[k]);
        } else {
            assert(stmts[k] == ready_statements(a.delayed, tau)[k - first.len()]);
        }
    }
    let a2 = BuilderState { delayed: left, ..a };
    let b2 = BuilderState { delayed: left, ..b };
    assert(state_within(g, a2, b2)) by {
        assert forall|i: int| 0 <= i < a2.nodes.len() implies node_within(
            #[trigger] a2.nodes[i],
            b2.nodes[i],
        ) && a2.nodes[i].inner < g.len() by {
            assert(node_within(a.nodes[i], b.nodes[i]));
        }
    }
    lemma_activate_all_within(g, a2, b2, stmts, tau, reset, probes);
    let a3 = activate_all(g, a2, stmts, tau, reset, probes);
    let b3 = activate_all(g, b2, stmts, tau, reset, probes);
    lemma_resolve_all_within(g, a3, b3, base, stmts.len() as int, tau, probes);
    let a4 = resolve_all(g, a3, base, stmts.len() as int, GraphProcessingType::DataOnly, tau, probes);
    let b4 = resolve_all(g, b3, base, stmts.len() as int, GraphProcessingType::Normal, tau, probes);
    assert forall|i: int| 0 <= i < a4.nodes.len() implies (#[trigger] a4.nodes[i]).inner
        == b4.nodes[i].inner by {
        assert(node_within(a4.nodes[i], b4.nodes[i]));
    }
    lemma_capture_within(matches, a4.nodes, b4.nodes, base, stmts.len() as int, a4.candidate);
    let x = cycle(g, matches, GraphProcessingType::DataOnly, a, activated, tau, reset, probes);
    let y = cycle(g, matches, GraphProcessingType::Normal, b, activated, tau, reset, probes);
    assert forall|i: int| 0 <= i < x.nodes.len() implies node_within(#[trigger] x.nodes[i], y.nodes[i])
        && x.nodes[i].inner < g.len() by {
        assert(node_within(a4.nodes[i], b4.nodes[i]));
    }
}

/// Run `a` is run `b` with some of the dependences of its nodes.
pub open spec fn run_within(g: StaticGraph, a: RunState, b: RunState) -> bool {
    &&& a.reader == b.reader
    &&& a.values == b.values
    &&& a.eof == b.eof
    &&& a.malformed == b.malformed
    &&& state_within(g, a.builder, b.builder)
}

/// A run for data dependences alone reads what the ordinary run reads,
/// makes the same nodes and tables, and gives every node dependences
/// that the ordinary run gives it too. This holds of a design in which no
/// data edge stands behind an index edge to a provider of the same
/// symbol: there the ordinary run makes the index dependence in place of
/// the data dependence.
pub proof fn lemma_data_only_within(
    d: Design,
    commands: Seq<TraceCommand>,
    a: RunState,
    b: RunState,
)
    requires
        kinds_apart(d.graph),
        run_within(d.graph, a, b),
        0 <= a.reader.pos <= commands.len(),
    ensures
        run_within(
            d.graph,
            run(Design { mode: GraphProcessingType::DataOnly, ..d }, commands, a),
            run(Design { mode: GraphProcessingType::Normal, ..d }, commands, b),
        ),
    decreases commands.len() - a.reader.pos, (if a.eof {
        0int
    } else {
        1int
    }),
{
    let few = Design { mode: GraphProcessingType::DataOnly, ..d };
    let all = Design { mode: GraphProcessingType::Normal, ..d };
    if a.eof || a.malformed || !within_budget(a.reader.current_time, d.max_timesteps) {
    } else {
        lemma_read_on_pos(
            d.env,
            commands,
            ReadProgress { state: a.reader, changes: seq![], rising: false },
        );
        let x = run_step(few, commands, a);
        let y = run_step(all, commands, b);
        if !x.malformed {
            let tau = (x.reader.current_time - 1) as i64;
            let activated = active_from(
                &d.cfg,
                d.ids,
                x.values,
                0,
            );
            lemma_cycle_within(
                d.graph,
                d.matches,
                a.builder,
                b.builder,
                activated,
                tau,
                x.reader.reset_val == LogicValue::V1,
                x.reader.probe_values,
            );
        }
        assert(run_within(d.graph, x, y));
        lemma_data_only_within(d, commands, x, y);
    }
}

} // verus!
