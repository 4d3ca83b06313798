//! Dependences of a part on itself: a part of a static graph depends on
//! itself where its members depend on each other in a circle that passes
//! a clocked edge.

use vstd::prelude::*;
use crate::components::{buckets, lemma_positions, positions};
use crate::dependency::copy_vec;
use crate::pdg_spec::{ExportablePDGEdge, PDGSpecEdgeKind};
use crate::redirect::edges_within;
use crate::slicing::{count_unmarked, lemma_mark};

verus! {

/// The part inside which edge `k` runs, or `none` if its ends are members
/// of different parts or of no part.
pub open spec fn inner_key(
    edges: Seq<ExportablePDGEdge>,
    map: Seq<Option<u32>>,
    k: int,
    none: usize,
) -> usize {
    match (map[edges[k].from as int], map[edges[k].to as int]) {
        (Some(a), Some(b)) => if a == b {
            a as usize
        } else {
            none
        },
        _ => none,
    }
}

/// For every edge the part inside which it runs.
pub open spec fn inner_keys(edges: Seq<ExportablePDGEdge>, map: Seq<Option<u32>>, none: usize)
    -> Seq<usize> {
    Seq::new(edges.len(), |k: int| inner_key(edges, map, k, none))
}

/// Whether one of the edges `kept` has the ends of edge `k`.
pub open spec fn ends_known(edges: Seq<ExportablePDGEdge>, kept: Seq<usize>, k: usize) -> bool {
    exists|j: int|
        0 <= j < kept.len() && edges[#[trigger] kept[j] as int].from == edges[k as int].from
            && edges[kept[j] as int].to == edges[k as int].to
}

/// The edges among the first `upto` of `list` that are the first with their ends.
pub open spec fn distinct_ends(edges: Seq<ExportablePDGEdge>, list: Seq<usize>, upto: int) -> Seq<
    usize,
>
    decreases upto,
{
    if upto <= 0 {
        seq![]
    } else {
        let rest = distinct_ends(edges, list, upto - 1);
        if ends_known(edges, rest, list[upto - 1]) {
            rest
        } else {
            rest.push(list[upto - 1])
        }
    }
}

/// A vertex that waits to be looked at, with the walk that led to it.
pub struct Trail {
    pub node: usize,
    /// Whether the walk passed a clocked edge.
    pub clocked: bool,
    /// The vertices of the walk, the vertex itself last.
    pub path: Seq<usize>,
}

/// The hunt for a circle in progress.
pub struct Hunt {
    /// For every vertex whether its edges were followed.
    pub seen: Seq<bool>,
    pub stack: Seq<Trail>,
    /// Whether a circle with a clocked edge was found.
    pub found: bool,
}

/// The hunt after edge `k` is looked at from the trail `t`: an edge that
/// leaves the vertex of the trail closes a circle if it arrives on the
/// walk, and the circle counts if the walk or the edge is clocked; if it
/// arrives elsewhere, the walk goes on there.
pub open spec fn look(edges: Seq<ExportablePDGEdge>, h: Hunt, t: Trail, k: usize) -> Hunt {
    let e = edges[k as int];
    if h.found || e.from != t.node {
        h
    } else if t.path.contains(e.to as usize) {
        if e.clocked || t.clocked {
            Hunt { found: true, ..h }
        } else {
            h
        }
    } else {
        Hunt {
            stack: h.stack.push(
                Trail {
                    node: e.to as usize,
                    clocked: e.clocked || t.clocked,
                    path: t.path.push(e.to as usize),
                },
            ),
            ..h
        }
    }
}

/// The hunt after the first `upto` of the edges `list` are looked at.
pub open spec fn look_all(
    edges: Seq<ExportablePDGEdge>,
    h: Hunt,
    t: Trail,
    list: Seq<usize>,
    upto: int,
) -> Hunt
    decreases upto,
{
    if upto <= 0 {
        h
    } else {
        look(edges, look_all(edges, h, t, list, upto - 1), t, list[upto - 1])
    }
}

/// The hunt after the trail on top of the stack is taken off: a vertex
/// whose edges were followed before is passed over.
pub open spec fn hunt_step(edges: Seq<ExportablePDGEdge>, list: Seq<usize>, h: Hunt) -> Hunt {
    let t = h.stack.last();
    let popped = Hunt { stack: h.stack.drop_last(), ..h };
    if h.seen[t.node as int] {
        popped
    } else {
        look_all(
            edges,
            Hunt { seen: h.seen.update(t.node as int, true), ..popped },
            t,
            list,
            list.len() as int,
        )
    }
}

/// What a hunt needs to go on.
pub open spec fn hunt_wf(edges: Seq<ExportablePDGEdge>, list: Seq<usize>, h: Hunt) -> bool {
    &&& edges_within(edges, h.seen.len() as int)
    &&& forall|j: int| 0 <= j < list.len() ==> (#[trigger] list[j]) < edges.len()
    &&& forall|j: int| 0 <= j < h.stack.len() ==> (#[trigger] h.stack[j]).node < h.seen.len()
}

/// Looking at edges keeps the hunt well formed and its marks as they are; a hunt that
/// has found its vertex stays as it is.
pub proof fn lemma_look_all(
    edges: Seq<ExportablePDGEdge>,
    h: Hunt,
    t: Trail,
    list: Seq<usize>,
    upto: int,
)
    requires
        hunt_wf(edges, list, h),
        0 <= upto <= list.len(),
    ensures
        hunt_wf(edges, list, look_all(edges, h, t, list, upto)),
        look_all(edges, h, t, list, upto).seen == h.seen,
        h.found ==> look_all(edges, h, t, list, upto) == h,
    decreases upto,
{
    if upto > 0 {
        lemma_look_all(edges, h, t, list, upto - 1);
        let before = look_all(edges, h, t, list, upto - 1);
        let after = look(edges, before, t, list[upto - 1]);
        let e = edges[list[upto - 1] as int];
        assert(e.to < h.seen.len());
        assert forall|j: int| 0 <= j < after.stack.len() implies (#[trigger] after.stack[j]).node
            < h.seen.len() by {
            if j < before.stack.len() {
                assert(after.stack[j] == before.stack[j]);
            }
        }
    }
}

/// A step of the hunt keeps it well formed and brings it nearer to its end.
pub proof fn lemma_hunt_step(edges: Seq<ExportablePDGEdge>, list: Seq<usize>, h: Hunt)
    requires
        hunt_wf(edges, list, h),
        h.stack.len() > 0,
    ensures
        hunt_wf(edges, list, hunt_step(edges, list, h)),
        hunt_step(edges, list, h).seen.len() == h.seen.len(),
        count_unmarked(hunt_step(edges, list, h).seen) < count_unmarked(h.seen) || (count_unmarked(
            hunt_step(edges, list, h).seen,
        ) == count_unmarked(h.seen) && hunt_step(edges, list, h).stack.len() < h.stack.len()),
{
    let t = h.stack.last();
    let popped = Hunt { stack: h.stack.drop_last(), ..h };
    assert(hunt_wf(edges, list, popped));
    if !h.seen[t.node as int] {
        lemma_mark(h.seen, t.node as int);
        let marked = Hunt { seen: h.seen.update(t.node as int, true), ..popped };
        assert(hunt_wf(edges, list, marked));
        lemma_look_all(edges, marked, t, list, list.len() as int);
    }
}

/// The hunt at its end: steps are taken until a circle is found or the stack is empty.
pub open spec fn hunt(edges: Seq<ExportablePDGEdge>, list: Seq<usize>, h: Hunt) -> Hunt
    decreases count_unmarked(h.seen), h.stack.len(),
    when hunt_wf(edges, list, h)
{
    if h.found || h.stack.len() == 0 {
        h
    } else {
        proof {
            lemma_hunt_step(edges, list, h);
        }
        hunt(edges, list, hunt_step(edges, list, h))
    }
}

/// The hunt after the first `upto` members are tried as starts: a member
/// is tried unless a circle is found or its edges were followed before.
pub open spec fn hunt_from(
    edges: Seq<ExportablePDGEdge>,
    list: Seq<usize>,
    members: Seq<usize>,
    seen: Seq<bool>,
    upto: int,
) -> Hunt
    decreases upto,
{
    if upto <= 0 {
        Hunt { seen, stack: seq![], found: false }
    } else {
        let before = hunt_from(edges, list, members, seen, upto - 1);
        let m = members[upto - 1];
        if before.found || before.seen[m as int] {
            before
        } else {
            hunt(
                edges,
                list,
                Hunt {
                    stack: seq![Trail { node: m, clocked: false, path: seq![m] }],
                    ..before
                },
            )
        }
    }
}

/// Whether part `g` depends on itself: a hunt along the edges that run
/// inside the part, each pair of ends taken once, finds a circle with a
/// clocked edge.
pub open spec fn depends_on_itself(
    edges: Seq<ExportablePDGEdge>,
    map: Seq<Option<u32>>,
    groups: Seq<Seq<usize>>,
    g: int,
) -> bool {
    let inner = positions(inner_keys(edges, map, groups.len() as usize), g, edges.len() as int);
    hunt_from(
        edges,
        distinct_ends(edges, inner, inner.len() as int),
        groups[g],
        Seq::new(map.len(), |v: int| false),
        groups[g].len() as int,
    ).found
}

/// The edges by which the first `upto` parts depend on themselves: a
/// clocked data edge from the part to itself.
pub open spec fn self_dependencies(
    edges: Seq<ExportablePDGEdge>,
    map: Seq<Option<u32>>,
    groups: Seq<Seq<usize>>,
    upto: int,
) -> Seq<ExportablePDGEdge>
    decreases upto,
{
    if upto <= 0 {
        seq![]
    } else {
        let rest = self_dependencies(edges, map, groups, upto - 1);
        if depends_on_itself(edges, map, groups, upto - 1) {
            rest.push(
                ExportablePDGEdge {
                    from: (upto - 1) as u32,
                    to: (upto - 1) as u32,
                    kind: PDGSpecEdgeKind::Data,
                    clocked: true,
                },
            )
        } else {
            rest
        }
    }
}

/// A hunt ends well formed: it has found its vertex, or nothing waits on its stack.
pub proof fn lemma_hunt(edges: Seq<ExportablePDGEdge>, list: Seq<usize>, h: Hunt)
    requires
        hunt_wf(edges, list, h),
    ensures
        hunt_wf(edges, list, hunt(edges, list, h)),
        hunt(edges, list, h).seen.len() == h.seen.len(),
        hunt(edges, list, h).found || hunt(edges, list, h).stack.len() == 0,
    decreases count_unmarked(h.seen), h.stack.len(),
{
    if !(h.found || h.stack.len() == 0) {
        lemma_hunt_step(edges, list, h);
        lemma_hunt(edges, list, hunt_step(edges, list, h));
    }
}

/// A hunt from several members ends well formed, whichever member finds the vertex.
pub proof fn lemma_hunt_from(
    edges: Seq<ExportablePDGEdge>,
    list: Seq<usize>,
    members: Seq<usize>,
    seen: Seq<bool>,
    upto: int,
)
    requires
        edges_within(edges, seen.len() as int),
        forall|j: int| 0 <= j < list.len() ==> (#[trigger] list[j]) < edges.len(),
        forall|j: int| 0 <= j < members.len() ==> (#[trigger] members[j]) < seen.len(),
        0 <= upto <= members.len(),
    ensures
        hunt_wf(edges, list, hunt_from(edges, list, members, seen, upto)),
        hunt_from(edges, list, members, seen, upto).seen.len() == seen.len(),
        hunt_from(edges, list, members, seen, upto).found || hunt_from(
            edges,
            list,
            members,
            seen,
            upto,
        ).stack.len() == 0,
    decreases upto,
{
    if upto > 0 {
        lemma_hunt_from(edges, list, members, seen, upto - 1);
        let before = hunt_from(edges, list, members, seen, upto - 1);
        let m = members[upto - 1];
        if !(before.found || before.seen[m as int]) {
            let start = Hunt {
                stack: seq![Trail { node: m, clocked: false, path: seq![m] }],
                ..before
            };
            assert(hunt_wf(edges, list, start));
            lemma_hunt(edges, list, start);
        }
    }
}

fn has_ends(edges: &Vec<ExportablePDGEdge>, kept: &Vec<usize>, k: usize) -> (r: bool)
    requires
        k < edges.len(),
        forall|j: int| 0 <= j < kept.len() ==> (#[trigger] kept[j]) < edges.len(),
    ensures
        r == ends_known(edges@, kept@, k),
{
    let e = edges[k];
    let mut j: usize = 0;
    while j < kept.len()
        invariant
            j <= kept.len(),
            k < edges.len(),
            e == edges[k as int],
            forall|q: int| 0 <= q < kept.len() ==> (#[trigger] kept[q]) < edges.len(),
            forall|q: int|
                0 <= q < j ==> !(edges[#[trigger] kept[q] as int].from == e.from
                    && edges[kept[q] as int].to == e.to),
        decreases kept.len() - j,
    {
        let other = edges[kept[j]];
        if other.from == e.from && other.to == e.to {
            return true;
        }
        j = j + 1;
    }
    false
}

fn on_path(path: &Vec<usize>, x: usize) -> (r: bool)
    ensures
        r == path@.contains(x),
{
    let mut j: usize = 0;
    while j < path.len()
        invariant
            j <= path.len(),
            forall|q: int| 0 <= q < j ==> path[q] != x,
        decreases path.len() - j,
    {
        if path[j] == x {
            return true;
        }
        j = j + 1;
    }
    false
}

/// A trail as the hunt keeps it.
pub struct TrailEntry {
    pub node: usize,
    pub clocked: bool,
    pub path: Vec<usize>,
}

impl View for TrailEntry {
    type V = Trail;

    open spec fn view(&self) -> Trail {
        Trail { node: self.node, clocked: self.clocked, path: self.path@ }
    }
}

/// The trails of a stack.
pub open spec fn trails(stack: Seq<TrailEntry>) -> Seq<Trail> {
    Seq::new(stack.len(), |j: int| stack[j]@)
}

/// The marks that the stamps stand for in the hunt with stamp `stamp`.
pub open spec fn stamped(stamps: Seq<usize>, stamp: usize) -> Seq<bool> {
    Seq::new(stamps.len(), |v: int| stamps[v] == stamp)
}

/// The edges by which the parts of a graph depend on themselves.
pub fn find_self_dependencies(
    edges: &Vec<ExportablePDGEdge>,
    map: &Vec<Option<u32>>,
    groups: &Vec<Vec<usize>>,
) -> (r: Vec<ExportablePDGEdge>)
    requires
        edges_within(edges@, map.len() as int),
        groups.len() < u32::MAX,
        forall|v: int| 0 <= v < map.len() ==> (#[trigger] map[v] matches Some(x) ==> x < groups.len()),
        forall|g: int, j: int|
            0 <= g < groups.len() && 0 <= j < groups[g].len() ==> (#[trigger] groups[g][j])
                < map.len(),
    ensures
        r@ == self_dependencies(
            edges@,
            map@,
            Seq::new(groups.len() as nat, |g: int| groups[g]@),
            groups.len() as int,
        ),
        edges_within(r@, groups.len() as int),
{
    let ghost es = edges@;
    let ghost gs = Seq::new(groups.len() as nat, |g: int| groups[g]@);
    let n = map.len();
    let none = groups.len();
    let mut keys: Vec<usize> = Vec::new();
    let mut k: usize = 0;
    while k < edges.len()
        invariant
            k <= edges.len(),
            none == groups.len(),
            edges_within(es, map.len() as int),
            es == edges@,
            keys.len() == k,
            forall|v: int| 0 <= v < map.len() ==> (#[trigger] map[v] matches Some(x) ==> x < none),
            forall|j: int| 0 <= j < k ==> #[trigger] keys[j] == inner_key(es, map@, j, none),
            forall|j: int| 0 <= j < k ==> (#[trigger] keys[j]) < none + 1,
        decreases edges.len() - k,
    {
        let e = edges[k];
        let key = match (map[e.from as usize], map[e.to as usize]) {
            (Some(a), Some(b)) => if a == b {
                a as usize
            } else {
                none
            },
            _ => none,
        };
        keys.push(key);
        k = k + 1;
    }
    assert(keys@ =~= inner_keys(es, map@, none));
    let inside = buckets(&keys, none + 1);
    let mut stamps: Vec<usize> = Vec::new();
    let mut v: usize = 0;
    while v < n
        invariant
            v <= n,
            stamps.len() == v,
            forall|u: int| 0 <= u < v ==> #[trigger] stamps[u] == 0,
        decreases n - v,
    {
        stamps.push(0);
        v = v + 1;
    }
    let mut r: Vec<ExportablePDGEdge> = Vec::new();
    let mut g: usize = 0;
    while g < groups.len()
        invariant
            g <= groups.len(),
            none == groups.len(),
            n == map.len(),
            groups.len() < u32::MAX,
            es == edges@,
            gs == Seq::new(groups.len() as nat, |g: int| groups[g]@),
            edges_within(es, n as int),
            keys@ == inner_keys(es, map@, none),
            inside.len() == none + 1,
            forall|key: int|
                0 <= key < none + 1 ==> (#[trigger] inside[key])@ == positions(
                    keys@,
                    key,
                    keys.len() as int,
                ),
            forall|a: int, j: int|
                0 <= a < groups.len() && 0 <= j < groups[a].len() ==> (#[trigger] groups[a][j]) < n,
            stamps.len() == n,
            forall|u: int| 0 <= u < n ==> #[trigger] stamps[u] <= g,
            r@ == self_dependencies(es, map@, gs, g as int),
            edges_within(r@, groups.len() as int),
        decreases groups.len() - g,
    {
        let stamp = g + 1;
        let members = &groups[g];
        assert(gs[g as int] == members@);
        let inner = &inside[g];
        proof {
            lemma_positions(keys@, g as int, keys.len() as int);
        }
        // The edges inside the part, each pair of ends once.
        let mut list: Vec<usize> = Vec::new();
        let mut q: usize = 0;
        while q < inner.len()
            invariant
                q <= inner.len(),
                forall|j: int| 0 <= j < inner.len() ==> (#[trigger] inner[j]) < edges.len(),
                forall|j: int| 0 <= j < list.len() ==> (#[trigger] list[j]) < edges.len(),
                list@ == distinct_ends(edges@, inner@, q as int),
            decreases inner.len() - q,
        {
            if !has_ends(edges, &list, inner[q]) {
                list.push(inner[q]);
            }
            q = q + 1;
        }
        let ghost blank = Seq::new(n as nat, |v: int| false);
        assert(stamped(stamps@, stamp) =~= blank);
        let mut cycle_found = false;
        let mut stack: Vec<TrailEntry> = Vec::new();
        let mut m: usize = 0;
        proof {
            lemma_hunt_from(es, list@, members@, blank, 0);
        }
        assert(trails(stack@) =~= Seq::<Trail>::empty());
        while m < members.len()
            invariant
                m <= members.len(),
                stamp == g + 1,
                n == map.len(),
                es == edges@,
                edges_within(es, n as int),
                blank.len() == n,
                stamps.len() == n,
                forall|u: int| 0 <= u < n ==> #[trigger] stamps[u] <= g + 1,
                forall|j: int| 0 <= j < list.len() ==> (#[trigger] list[j]) < edges.len(),
                forall|j: int| 0 <= j < members.len() ==> (#[trigger] members[j]) < n,
                (Hunt { seen: stamped(stamps@, stamp), stack: trails(stack@), found: cycle_found })
                    == hunt_from(es, list@, members@, blank, m as int),
            decreases members.len() - m,
        {
            let node = members[m];
            proof {
                lemma_hunt_from(es, list@, members@, blank, m as int);
            }
            let ghost before = hunt_from(es, list@, members@, blank, m as int);
            if !cycle_found && stamps[node] != stamp {
                assert(stack@.len() == 0);
                let mut first: Vec<usize> = Vec::new();
                first.push(node);
                stack.push(TrailEntry { node, clocked: false, path: first });
                let ghost start = Hunt {
                    stack: seq![Trail { node, clocked: false, path: seq![node] }],
                    ..before
                };
                assert(trails(stack@) =~= start.stack);
                assert(hunt_wf(es, list@, start));
                while !cycle_found && stack.len() > 0
                    invariant
                        stamp == g + 1,
                        es == edges@,
                        stamps.len() == n,
                        forall|u: int| 0 <= u < n ==> #[trigger] stamps[u] <= g + 1,
                        forall|j: int| 0 <= j < list.len() ==> (#[trigger] list[j]) < edges.len(),
                        hunt_wf(
                            es,
                            list@,
                            Hunt {
                                seen: stamped(stamps@, stamp),
                                stack: trails(stack@),
                                found: cycle_found,
                            },
                        ),
                        hunt(es, list@, start) == hunt(
                            es,
                            list@,
                            Hunt {
                                seen: stamped(stamps@, stamp),
                                stack: trails(stack@),
                                found: cycle_found,
                            },
                        ),
                    decreases count_unmarked(stamped(stamps@, stamp)), stack.len(),
                {
                    let ghost h = Hunt {
                        seen: stamped(stamps@, stamp),
                        stack: trails(stack@),
                        found: cycle_found,
                    };
                    let ghost old_stack = stack@;
                    let t = stack.pop().unwrap();
                    assert(t@ == h.stack.last());
                    assert(trails(stack@) =~= h.stack.drop_last());
                    proof {
                        lemma_hunt_step(es, list@, h);
                    }
                    if stamps[t.node] != stamp {
                        let ghost marks = stamped(stamps@, stamp);
                        stamps.set(t.node, stamp);
                        assert(stamped(stamps@, stamp) =~= marks.update(t.node as int, true));
                        let ghost marked = Hunt {
                            seen: stamped(stamps@, stamp),
                            stack: trails(stack@),
                            found: false,
                        };
                        let mut x: usize = 0;
                        while x < list.len()
                            invariant
                                x <= list.len(),
                                es == edges@,
                                stamps.len() == n,
                                forall|j: int|
                                    0 <= j < list.len() ==> (#[trigger] list[j]) < edges.len(),
                                hunt_wf(es, list@, marked),
                                (Hunt {
                                    seen: stamped(stamps@, stamp),
                                    stack: trails(stack@),
                                    found: cycle_found,
                                }) == look_all(es, marked, t@, list@, x as int),
                            decreases list.len() - x,
                        {
                            let e = edges[list[x]];
                            let ghost grown = trails(stack@);
                            if !cycle_found && e.from as usize == t.node {
                                if on_path(&t.path, e.to as usize) {
                                    if e.clocked || t.clocked {
                                        cycle_found = true;
                                    }
                                } else {
                                    let mut path = copy_vec(&t.path);
                                    path.push(e.to as usize);
                                    stack.push(
                                        TrailEntry {
                                            node: e.to as usize,
                                            clocked: e.clocked || t.clocked,
                                            path,
                                        },
                                    );
                                    assert(trails(stack@) =~= grown.push(
                                        Trail {
                                            node: e.to as usize,
                                            clocked: e.clocked || t.clocked,
                                            path: t.path@.push(e.to as usize),
                                        },
                                    ));
                                }
                            }
                            x = x + 1;
                        }
                    }
                    proof {
                        let after = Hunt {
                            seen: stamped(stamps@, stamp),
                            stack: trails(stack@),
                            found: cycle_found,
                        };
                        assert(after == hunt_step(es, list@, h));
                    }
                }
                proof {
                    let end = Hunt {
                        seen: stamped(stamps@, stamp),
                        stack: trails(stack@),
                        found: cycle_found,
                    };
                    assert(hunt(es, list@, end) == end);
                }
            }
            m = m + 1;
        }
        let ghost so_far = r@;
        if cycle_found {
            r.push(
                ExportablePDGEdge {
                    from: g as u32,
                    to: g as u32,
                    kind: PDGSpecEdgeKind::Data,
                    clocked: true,
                },
            );
            assert forall|q: int| 0 <= q < r@.len() implies (#[trigger] r@[q]).from < groups.len()
                && r@[q].to < groups.len() by {
                if q < so_far.len() {
                    assert(r@[q] == so_far[q]);
                }
            }
        }
        g = g + 1;
    }
    r
}

} // verus!
