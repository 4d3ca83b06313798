//! Index dependences lead through probe vertices. This module replaces
//! each of them by dependences on what the probe reads, and drops the
//! edges that leave a probe.

use vstd::prelude::*;
use vstd::string::*;
use crate::pdg_spec::{ExportablePDGEdge, ExportablePDGNode, PDGSpecEdgeKind};
use crate::slicing::{count_unmarked, lemma_mark};
use crate::text::{has_prefix, starts_with};

verus! {

/// Every edge joins two of `n` vertices.
pub open spec fn edges_within(edges: Seq<ExportablePDGEdge>, n: int) -> bool {
    forall|k: int| 0 <= k < edges.len() ==> (#[trigger] edges[k]).from < n && edges[k].to < n
}

/// The end of an edge on the side asked for.
pub open spec fn end_of(e: ExportablePDGEdge, leaving: bool) -> u32 {
    if leaving {
        e.from
    } else {
        e.to
    }
}

/// The edges among the first `upto` that leave vertex `v`, or arrive at it, ascending.
pub open spec fn incident(edges: Seq<ExportablePDGEdge>, v: int, upto: int, leaving: bool) -> Seq<
    usize,
>
    decreases upto,
{
    if upto <= 0 {
        seq![]
    } else if end_of(edges[upto - 1], leaving) == v {
        incident(edges, v, upto - 1, leaving).push((upto - 1) as usize)
    } else {
        incident(edges, v, upto - 1, leaving)
    }
}

/// The edges listed for a vertex lie below `upto` and end at that vertex on the side
/// asked for.
pub proof fn lemma_incident(edges: Seq<ExportablePDGEdge>, v: int, upto: int, leaving: bool)
    requires
        0 <= upto <= edges.len() <= usize::MAX,
    ensures
        forall|j: int|
            0 <= j < incident(edges, v, upto, leaving).len() ==> (#[trigger] incident(
                edges,
                v,
                upto,
                leaving,
            )[j]) < upto && end_of(edges[incident(edges, v, upto, leaving)[j] as int], leaving)
                == v,
    decreases upto,
{
    if upto > 0 {
        lemma_incident(edges, v, upto - 1, leaving);
        let rest = incident(edges, v, upto - 1, leaving);
        let all = incident(edges, v, upto, leaving);
        assert forall|j: int| 0 <= j < all.len() implies (#[trigger] all[j]) < upto && end_of(
            edges[all[j] as int],
            leaving,
        ) == v by {
            if j < rest.len() {
                assert(all[j] == rest[j]);
            }
        }
    }
}

/// For every vertex the edges that leave it, or that arrive at it.
pub fn adjacency(edges: &Vec<ExportablePDGEdge>, n: usize, leaving: bool) -> (adj: Vec<Vec<usize>>)
    requires
        edges_within(edges@, n as int),
    ensures
        adj.len() == n,
        forall|v: int|
            0 <= v < n ==> (#[trigger] adj[v])@ == incident(edges@, v, edges.len() as int, leaving),
{
    let mut adj: Vec<Vec<usize>> = Vec::new();
    let mut v: usize = 0;
    while v < n
        invariant
            v <= n,
            adj.len() == v,
            forall|u: int| 0 <= u < v ==> (#[trigger] adj[u])@ == Seq::<usize>::empty(),
        decreases n - v,
    {
        adj.push(Vec::new());
        v = v + 1;
    }
    let mut k: usize = 0;
    while k < edges.len()
        invariant
            k <= edges.len(),
            adj.len() == n,
            edges_within(edges@, n as int),
            forall|u: int|
                0 <= u < n ==> (#[trigger] adj[u])@ == incident(edges@, u, k as int, leaving),
        decreases edges.len() - k,
    {
        let e = edges[k];
        let end = if leaving {
            e.from
        } else {
            e.to
        };
        adj[end as usize].push(k);
        k = k + 1;
    }
    adj
}

/// A vertex that stands for a probe.
pub open spec fn is_probe(v: ExportablePDGNode) -> bool {
    has_prefix(v.name@, "defnode_probe"@)
}

/// For every vertex whether it stands for a probe.
pub fn probe_flags(vertices: &Vec<ExportablePDGNode>) -> (flags: Vec<bool>)
    ensures
        flags.len() == vertices.len(),
        forall|v: int| 0 <= v < vertices.len() ==> #[trigger] flags[v] == is_probe(vertices[v]),
{
    let mut flags: Vec<bool> = Vec::new();
    let mut v: usize = 0;
    while v < vertices.len()
        invariant
            v <= vertices.len(),
            flags.len() == v,
            forall|u: int| 0 <= u < v ==> #[trigger] flags[u] == is_probe(vertices[u]),
        decreases vertices.len() - v,
    {
        flags.push(starts_with(vertices[v].name.as_str(), "defnode_probe"));
        v = v + 1;
    }
    flags
}

/// A chase along index edges in progress.
pub struct Chase {
    /// The index edges whose targets are still to be looked at.
    pub stack: Seq<usize>,
    /// For every edge whether the chase has taken it up.
    pub seen: Seq<bool>,
    /// The data edges found so far.
    pub found: Seq<usize>,
}

/// The chase after one more edge that leaves the vertex at hand: a data
/// edge is found, an index edge that is new to the chase is taken up.
pub open spec fn chase_edge(edges: Seq<ExportablePDGEdge>, c: Chase, k: usize) -> Chase {
    if edges[k as int].kind == PDGSpecEdgeKind::Data {
        Chase { found: c.found.push(k), ..c }
    } else if edges[k as int].kind == PDGSpecEdgeKind::Index && !c.seen[k as int] {
        Chase { stack: c.stack.push(k), seen: c.seen.update(k as int, true), ..c }
    } else {
        c
    }
}

/// The chase after the first `upto` of the edges `outs`.
pub open spec fn chase_edges(edges: Seq<ExportablePDGEdge>, c: Chase, outs: Seq<usize>, upto: int)
    -> Chase
    decreases upto,
{
    if upto <= 0 {
        c
    } else {
        chase_edge(edges, chase_edges(edges, c, outs, upto - 1), outs[upto - 1])
    }
}

/// The chase after the edge on top of the stack is taken off and the
/// edges that leave its target are looked at.
pub open spec fn chase_step(edges: Seq<ExportablePDGEdge>, n: int, c: Chase) -> Chase {
    let t = c.stack.last();
    let outs = incident(edges, edges[t as int].to as int, edges.len() as int, true);
    chase_edges(edges, Chase { stack: c.stack.drop_last(), ..c }, outs, outs.len() as int)
}

/// What a chase needs to go on.
pub open spec fn chase_wf(edges: Seq<ExportablePDGEdge>, c: Chase) -> bool {
    &&& c.seen.len() == edges.len()
    &&& edges.len() <= usize::MAX
    &&& forall|j: int| 0 <= j < c.stack.len() ==> (#[trigger] c.stack[j]) < edges.len()
}

/// The chase for index edge `i` before its first step: the edge itself
/// is taken up and waits on the stack.
pub open spec fn start_chase(edges: Seq<ExportablePDGEdge>, i: int) -> Chase {
    Chase { stack: seq![i as usize], seen: Seq::new(edges.len(), |k: int| k == i), found: seq![] }
}

/// Chasing edges keeps the chase well formed; every vertex that it marks joins the
/// stack.
pub proof fn lemma_chase_edges(
    edges: Seq<ExportablePDGEdge>,
    c: Chase,
    outs: Seq<usize>,
    upto: int,
)
    requires
        chase_wf(edges, c),
        0 <= upto <= outs.len(),
        forall|j: int| 0 <= j < outs.len() ==> (#[trigger] outs[j]) < edges.len(),
    ensures
        chase_wf(edges, chase_edges(edges, c, outs, upto)),
        count_unmarked(chase_edges(edges, c, outs, upto).seen) + chase_edges(
            edges,
            c,
            outs,
            upto,
        ).stack.len() == count_unmarked(c.seen) + c.stack.len(),
        chase_edges(edges, c, outs, upto).stack.len() >= c.stack.len(),
        forall|j: int|
            0 <= j < chase_edges(edges, c, outs, upto).found.len() ==> (#[trigger] chase_edges(
                edges,
                c,
                outs,
                upto,
            ).found[j]) < edges.len() || (j < c.found.len() && chase_edges(
                edges,
                c,
                outs,
                upto,
            ).found[j] == c.found[j]),
        chase_edges(edges, c, outs, upto).found.len() >= c.found.len(),
        forall|j: int|
            0 <= j < c.found.len() ==> chase_edges(edges, c, outs, upto).found[j] == c.found[j],
    decreases upto,
{
    if upto > 0 {
        lemma_chase_edges(edges, c, outs, upto - 1);
        let before = chase_edges(edges, c, outs, upto - 1);
        let k = outs[upto - 1];
        let after = chase_edge(edges, before, k);
        if edges[k as int].kind == PDGSpecEdgeKind::Index && !before.seen[k as int] {
            lemma_mark(before.seen, k as int);
            assert forall|j: int| 0 <= j < after.stack.len() implies (#[trigger] after.stack[j])
                < edges.len() by {
                if j < before.stack.len() {
                    assert(after.stack[j] == before.stack[j]);
                }
            }
        }
    }
}

/// The chase at its end: steps are taken until the stack is empty.
pub open spec fn chase(edges: Seq<ExportablePDGEdge>, n: int, c: Chase) -> Chase
    decreases count_unmarked(c.seen), c.stack.len(),
    when chase_wf(edges, c)
{
    if c.stack.len() == 0 {
        c
    } else {
        proof {
            let t = c.stack.last();
            let outs = incident(edges, edges[t as int].to as int, edges.len() as int, true);
            lemma_incident(edges, edges[t as int].to as int, edges.len() as int, true);
            lemma_chase_edges(
                edges,
                Chase { stack: c.stack.drop_last(), ..c },
                outs,
                outs.len() as int,
            );
        }
        chase(edges, n, chase_step(edges, n, c))
    }
}

/// The data edges that the index edge `i` stands for: those that leave
/// its target, and those that leave the targets of the index edges found
/// on the way, each index edge taken up once.
pub open spec fn replacements(edges: Seq<ExportablePDGEdge>, n: int, i: int) -> Seq<usize> {
    chase(edges, n, start_chase(edges, i)).found
}

/// The edges that take the place of the data edges `found` for the index
/// edge `e`: from where `e` leaves, to where each data edge arrives.
pub open spec fn replaced(edges: Seq<ExportablePDGEdge>, e: ExportablePDGEdge, found: Seq<usize>)
    -> Seq<ExportablePDGEdge> {
    Seq::new(
        found.len(),
        |j: int|
            ExportablePDGEdge {
                from: e.from,
                to: edges[found[j] as int].to,
                kind: PDGSpecEdgeKind::Index,
                clocked: e.clocked,
            },
    )
}

/// The edges that stand for edge `i` after the redirection: for an index
/// edge its replacements, for any other the edge itself unless it leaves a probe.
pub open spec fn redirected_edge(
    vertices: Seq<ExportablePDGNode>,
    edges: Seq<ExportablePDGEdge>,
    i: int,
) -> Seq<ExportablePDGEdge> {
    let e = edges[i];
    if e.kind == PDGSpecEdgeKind::Index {
        replaced(edges, e, replacements(edges, vertices.len() as int, i))
    } else if !is_probe(vertices[e.from as int]) {
        seq![e]
    } else {
        seq![]
    }
}

/// The edges that stand for the first `upto` edges after the redirection.
pub open spec fn redirected(
    vertices: Seq<ExportablePDGNode>,
    edges: Seq<ExportablePDGEdge>,
    upto: int,
) -> Seq<ExportablePDGEdge>
    decreases upto,
{
    if upto <= 0 {
        seq![]
    } else {
        redirected(vertices, edges, upto - 1) + redirected_edge(vertices, edges, upto - 1)
    }
}

/// Redirects the index edges of a graph and drops the edges that leave a probe.
pub fn redirect_index_edges(
    vertices: &Vec<ExportablePDGNode>,
    edges: &Vec<ExportablePDGEdge>,
    probes: &Vec<bool>,
    leaving: &Vec<Vec<usize>>,
) -> (r: Vec<ExportablePDGEdge>)
    requires
        edges_within(edges@, vertices.len() as int),
        probes.len() == vertices.len(),
        forall|v: int| 0 <= v < vertices.len() ==> #[trigger] probes[v] == is_probe(vertices[v]),
        leaving.len() == vertices.len(),
        forall|v: int|
            0 <= v < vertices.len() ==> (#[trigger] leaving[v])@ == incident(
                edges@,
                v,
                edges.len() as int,
                true,
            ),
    ensures
        r@ == redirected(vertices@, edges@, edges.len() as int),
        edges_within(r@, vertices.len() as int),
{
    let ghost es = edges@;
    let ghost n = vertices.len() as int;
    let mut r: Vec<ExportablePDGEdge> = Vec::new();
    // An edge was taken up by the chase at hand if it carries the stamp of that chase.
    let mut stamps: Vec<usize> = Vec::new();
    let mut k: usize = 0;
    while k < edges.len()
        invariant
            k <= edges.len(),
            stamps.len() == k,
            forall|j: int| 0 <= j < k ==> #[trigger] stamps[j] == 0,
        decreases edges.len() - k,
    {
        stamps.push(0);
        k = k + 1;
    }
    let mut i: usize = 0;
    while i < edges.len()
        invariant
            i <= edges.len(),
            es == edges@,
            n == vertices.len(),
            edges_within(es, n),
            probes.len() == vertices.len(),
            forall|v: int| 0 <= v < vertices.len() ==> #[trigger] probes[v] == is_probe(vertices[v]),
            leaving.len() == vertices.len(),
            forall|v: int|
                0 <= v < vertices.len() ==> (#[trigger] leaving[v])@ == incident(
                    es,
                    v,
                    es.len() as int,
                    true,
                ),
            stamps.len() == edges.len(),
            forall|j: int| 0 <= j < stamps.len() ==> #[trigger] stamps[j] <= i,
            r@ == redirected(vertices@, es, i as int),
            edges_within(r@, n),
        decreases edges.len() - i,
    {
        let e = edges[i];
        let ghost done = r@;
        if e.kind == PDGSpecEdgeKind::Index {
            let stamp = i + 1;
            let mut stack: Vec<usize> = Vec::new();
            let mut found: Vec<usize> = Vec::new();
            stack.push(i);
            stamps.set(i, stamp);
            let ghost start = start_chase(es, i as int);
            assert(Seq::new(stamps.len() as nat, |k: int| stamps[k] == stamp) =~= start.seen);
            assert(stack@ =~= start.stack);
            while stack.len() > 0
                invariant
                    i < edges.len(),
                    stamp == i + 1,
                    es == edges@,
                    n == vertices.len(),
                    edges_within(es, n),
                    leaving.len() == vertices.len(),
                    forall|v: int|
                        0 <= v < vertices.len() ==> (#[trigger] leaving[v])@ == incident(
                            es,
                            v,
                            es.len() as int,
                            true,
                        ),
                    stamps.len() == edges.len(),
                    forall|j: int| 0 <= j < stamps.len() ==> #[trigger] stamps[j] <= i + 1,
                    chase_wf(
                        es,
                        Chase {
                            stack: stack@,
                            seen: Seq::new(stamps.len() as nat, |k: int| stamps[k] == stamp),
                            found: found@,
                        },
                    ),
                    forall|j: int| 0 <= j < found.len() ==> (#[trigger] found[j]) < edges.len(),
                    chase(es, n, start) == chase(
                        es,
                        n,
                        Chase {
                            stack: stack@,
                            seen: Seq::new(stamps.len() as nat, |k: int| stamps[k] == stamp),
                            found: found@,
                        },
                    ),
                decreases
                        count_unmarked(Seq::new(stamps.len() as nat, |k: int| stamps[k] == stamp)),
                        stack.len(),
            {
                let ghost c = Chase {
                    stack: stack@,
                    seen: Seq::new(stamps.len() as nat, |k: int| stamps[k] == stamp),
                    found: found@,
                };
                let t = stack.pop().unwrap();
                assert(t == c.stack.last());
                assert(stack@ =~= c.stack.drop_last());
                let ghost popped = Chase { stack: c.stack.drop_last(), ..c };
                let target = edges[t].to as usize;
                let outs = &leaving[target];
                proof {
                    lemma_incident(es, target as int, es.len() as int, true);
                }
                let mut j: usize = 0;
                while j < outs.len()
                    invariant
                        j <= outs.len(),
                        stamp == i + 1,
                        es == edges@,
                        outs@ == incident(es, target as int, es.len() as int, true),
                        forall|m: int| 0 <= m < outs.len() ==> (#[trigger] outs[m]) < es.len(),
                        stamps.len() == edges.len(),
                        forall|m: int| 0 <= m < stamps.len() ==> #[trigger] stamps[m] <= i + 1,
                        forall|m: int| 0 <= m < found.len() ==> (#[trigger] found[m]) < edges.len(),
                        chase_wf(es, popped),
                        (Chase {
                            stack: stack@,
                            seen: Seq::new(stamps.len() as nat, |k: int| stamps[k] == stamp),
                            found: found@,
                        }) == chase_edges(es, popped, outs@, j as int),
                    decreases outs.len() - j,
                {
                    let k = outs[j];
                    let ghost before = Seq::new(stamps.len() as nat, |m: int| stamps[m] == stamp);
                    let next = edges[k];
                    if next.kind == PDGSpecEdgeKind::Data {
                        found.push(k);
                    } else if next.kind == PDGSpecEdgeKind::Index && stamps[k] != stamp {
                        stamps.set(k, stamp);
                        stack.push(k);
                        assert(Seq::new(stamps.len() as nat, |m: int| stamps[m] == stamp)
                            =~= before.update(k as int, true));
                    }
                    j = j + 1;
                }
                proof {
                    lemma_chase_edges(es, popped, outs@, outs.len() as int);
                    let after = Chase {
                        stack: stack@,
                        seen: Seq::new(stamps.len() as nat, |k: int| stamps[k] == stamp),
                        found: found@,
                    };
                    assert(after == chase_step(es, n, c));
                }
            }
            let ghost end = Chase {
                stack: stack@,
                seen: Seq::new(stamps.len() as nat, |k: int| stamps[k] == stamp),
                found: found@,
            };
            assert(chase(es, n, end) == end);
            assert(found@ == replacements(es, n, i as int));
            let mut m: usize = 0;
            while m < found.len()
                invariant
                    m <= found.len(),
                    i < edges.len(),
                    n == vertices.len(),
                    es == edges@,
                    e == es[i as int],
                    edges_within(es, n),
                    edges_within(done, n),
                    forall|j: int| 0 <= j < found.len() ==> (#[trigger] found[j]) < edges.len(),
                    r@ == done + replaced(es, e, found@).take(m as int),
                    edges_within(r@, n),
                decreases found.len() - m,
            {
                let target = edges[found[m]];
                assert(es[found[m as int] as int].to < n && es[i as int].from < n);
                let ghost grown = r@;
                r.push(
                    ExportablePDGEdge {
                        from: e.from,
                        to: target.to,
                        kind: PDGSpecEdgeKind::Index,
                        clocked: e.clocked,
                    },
                );
                proof {
                    let all = replaced(es, e, found@);
                    assert(all.take(m + 1) =~= all.take(m as int).push(all[m as int]));
                    assert(r@ =~= done + all.take(m + 1));
                    assert forall|q: int| 0 <= q < r@.len() implies (#[trigger] r@[q]).from < n
                        && r@[q].to < n by {
                        if q < grown.len() {
                            assert(r@[q] == grown[q]);
                        }
                    }
                }
                m = m + 1;
            }
            assert(replaced(es, e, found@).take(found.len() as int) =~= replaced(es, e, found@));
        } else if !probes[e.from as usize] {
            r.push(e);
            assert(r@ =~= done + seq![e]);
            assert forall|q: int| 0 <= q < r@.len() implies (#[trigger] r@[q]).from < n && r@[q].to
                < n by {
                if q < done.len() {
                    assert(r@[q] == done[q]);
                }
            }
        } else {
            assert(r@ =~= done + Seq::<ExportablePDGEdge>::empty());
        }
        i = i + 1;
    }
    r
}

} // verus!
