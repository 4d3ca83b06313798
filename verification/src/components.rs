//! Splitting the vertices of one place into the parts that hang together.

use vstd::prelude::*;
use crate::pdg_spec::{ExportablePDGEdge, PDGSpecEdgeKind};
use crate::redirect::{edges_within, incident, lemma_incident};
use crate::slicing::{count_unmarked, lemma_mark};

verus! {

/// The positions among the first `upto` of `keys` that hold `key`, ascending.
pub open spec fn positions(keys: Seq<usize>, key: int, upto: int) -> Seq<usize>
    decreases upto,
{
    if upto <= 0 {
        seq![]
    } else if keys[upto - 1] == key {
        positions(keys, key, upto - 1).push((upto - 1) as usize)
    } else {
        positions(keys, key, upto - 1)
    }
}

/// The positions listed for a key lie below `upto` and hold that key.
pub proof fn lemma_positions(keys: Seq<usize>, key: int, upto: int)
    requires
        0 <= upto <= keys.len() <= usize::MAX,
    ensures
        forall|j: int|
            0 <= j < positions(keys, key, upto).len() ==> (#[trigger] positions(keys, key, upto)[j])
                < upto && keys[positions(keys, key, upto)[j] as int] == key,
    decreases upto,
{
    if upto > 0 {
        lemma_positions(keys, key, upto - 1);
        let rest = positions(keys, key, upto - 1);
        let all = positions(keys, key, upto);
        assert forall|j: int| 0 <= j < all.len() implies (#[trigger] all[j]) < upto
            && keys[all[j] as int] == key by {
            if j < rest.len() {
                assert(all[j] == rest[j]);
            }
        }
    }
}

/// For every key below `n` the positions that hold it.
pub fn buckets(keys: &Vec<usize>, n: usize) -> (b: Vec<Vec<usize>>)
    requires
        forall|k: int| 0 <= k < keys.len() ==> (#[trigger] keys[k]) < n,
    ensures
        b.len() == n,
        forall|key: int|
            0 <= key < n ==> (#[trigger] b[key])@ == positions(keys@, key, keys.len() as int),
{
    let mut b: Vec<Vec<usize>> = Vec::new();
    let mut v: usize = 0;
    while v < n
        invariant
            v <= n,
            b.len() == v,
            forall|u: int| 0 <= u < v ==> (#[trigger] b[u])@ == Seq::<usize>::empty(),
        decreases n - v,
    {
        b.push(Vec::new());
        v = v + 1;
    }
    let mut k: usize = 0;
    while k < keys.len()
        invariant
            k <= keys.len(),
            b.len() == n,
            forall|j: int| 0 <= j < keys.len() ==> (#[trigger] keys[j]) < n,
            forall|key: int| 0 <= key < n ==> (#[trigger] b[key])@ == positions(keys@, key, k as int),
        decreases keys.len() - k,
    {
        b[keys[k]].push(k);
        k = k + 1;
    }
    b
}

/// The search for one part in progress.
pub struct Part {
    /// For every vertex whether it belongs to a part already.
    pub taken: Seq<bool>,
    /// The vertices of the part whose edges are still to be followed.
    pub stack: Seq<usize>,
    /// The vertices of the part that are no probes, in the order of the search.
    pub members: Seq<usize>,
}

/// The search after vertex `x` is looked at: it joins the part if it
/// stands at the place `place` and belongs to no part yet.
pub open spec fn claim(leaders: Seq<usize>, place: usize, p: Part, x: usize) -> Part {
    if leaders[x as int] == place && !p.taken[x as int] {
        Part { taken: p.taken.update(x as int, true), stack: p.stack.push(x), ..p }
    } else {
        p
    }
}

/// The search after edge `k` is followed: both its ends are looked at. An
/// index edge is not followed, nor an edge from a vertex to itself when it
/// is met as an arriving edge.
pub open spec fn follow(
    edges: Seq<ExportablePDGEdge>,
    leaders: Seq<usize>,
    place: usize,
    p: Part,
    k: usize,
    arriving: bool,
) -> Part {
    let e = edges[k as int];
    if e.kind == PDGSpecEdgeKind::Index || (arriving && e.from == e.to) {
        p
    } else {
        claim(leaders, place, claim(leaders, place, p, e.from as usize), e.to as usize)
    }
}

/// The search after the first `upto` of the edges `list` are followed.
pub open spec fn follow_all(
    edges: Seq<ExportablePDGEdge>,
    leaders: Seq<usize>,
    place: usize,
    p: Part,
    list: Seq<usize>,
    upto: int,
    arriving: bool,
) -> Part
    decreases upto,
{
    if upto <= 0 {
        p
    } else {
        follow(
            edges,
            leaders,
            place,
            follow_all(edges, leaders, place, p, list, upto - 1, arriving),
            list[upto - 1],
            arriving,
        )
    }
}

/// The search after the vertex on top of the stack is taken off: the
/// edges that leave it and those that arrive at it are followed, and it
/// becomes a member unless it is a probe.
pub open spec fn part_step(
    edges: Seq<ExportablePDGEdge>,
    leaders: Seq<usize>,
    probes: Seq<bool>,
    place: usize,
    p: Part,
) -> Part {
    let x = p.stack.last();
    let out = incident(edges, x as int, edges.len() as int, true);
    let into = incident(edges, x as int, edges.len() as int, false);
    let left = follow_all(
        edges,
        leaders,
        place,
        Part { stack: p.stack.drop_last(), ..p },
        out,
        out.len() as int,
        false,
    );
    let both = follow_all(edges, leaders, place, left, into, into.len() as int, true);
    if probes[x as int] {
        both
    } else {
        Part { members: both.members.push(x), ..both }
    }
}

/// What a search needs to go on.
pub open spec fn part_wf(
    edges: Seq<ExportablePDGEdge>,
    leaders: Seq<usize>,
    probes: Seq<bool>,
    p: Part,
) -> bool {
    let n = leaders.len();
    &&& p.taken.len() == n
    &&& probes.len() == n
    &&& edges.len() <= usize::MAX
    &&& edges_within(edges, n as int)
    &&& forall|j: int| 0 <= j < p.stack.len() ==> (#[trigger] p.stack[j]) < n
    &&& forall|j: int| 0 <= j < p.members.len() ==> (#[trigger] p.members[j]) < n
}

/// Following edges keeps the search well formed; every vertex that it claims joins the
/// stack.
pub proof fn lemma_follow_all(
    edges: Seq<ExportablePDGEdge>,
    leaders: Seq<usize>,
    probes: Seq<bool>,
    place: usize,
    p: Part,
    list: Seq<usize>,
    upto: int,
    arriving: bool,
)
    requires
        part_wf(edges, leaders, probes, p),
        0 <= upto <= list.len(),
        forall|j: int| 0 <= j < list.len() ==> (#[trigger] list[j]) < edges.len(),
    ensures
        part_wf(edges, leaders, probes, follow_all(edges, leaders, place, p, list, upto, arriving)),
        count_unmarked(follow_all(edges, leaders, place, p, list, upto, arriving).taken)
            + follow_all(edges, leaders, place, p, list, upto, arriving).stack.len()
            == count_unmarked(p.taken) + p.stack.len(),
        follow_all(edges, leaders, place, p, list, upto, arriving).stack.len() >= p.stack.len(),
        follow_all(edges, leaders, place, p, list, upto, arriving).members == p.members,
    decreases upto,
{
    if upto > 0 {
        lemma_follow_all(edges, leaders, probes, place, p, list, upto - 1, arriving);
        let before = follow_all(edges, leaders, place, p, list, upto - 1, arriving);
        let e = edges[list[upto - 1] as int];
        assert(e.from < leaders.len() && e.to < leaders.len());
        if !(e.kind == PDGSpecEdgeKind::Index || (arriving && e.from == e.to)) {
            lemma_claim(edges, leaders, probes, place, before, e.from as usize);
            let mid = claim(leaders, place, before, e.from as usize);
            lemma_claim(edges, leaders, probes, place, mid, e.to as usize);
        }
    }
}

/// Claiming a vertex keeps the search well formed and its members as they are.
pub proof fn lemma_claim(
    edges: Seq<ExportablePDGEdge>,
    leaders: Seq<usize>,
    probes: Seq<bool>,
    place: usize,
    p: Part,
    x: usize,
)
    requires
        part_wf(edges, leaders, probes, p),
        x < leaders.len(),
    ensures
        part_wf(edges, leaders, probes, claim(leaders, place, p, x)),
        count_unmarked(claim(leaders, place, p, x).taken) + claim(leaders, place, p, x).stack.len()
            == count_unmarked(p.taken) + p.stack.len(),
        claim(leaders, place, p, x).stack.len() >= p.stack.len(),
        claim(leaders, place, p, x).members == p.members,
{
    let after = claim(leaders, place, p, x);
    if leaders[x as int] == place && !p.taken[x as int] {
        lemma_mark(p.taken, x as int);
        assert forall|j: int| 0 <= j < after.stack.len() implies (#[trigger] after.stack[j])
            < leaders.len() by {
            if j < p.stack.len() {
                assert(after.stack[j] == p.stack[j]);
            }
        }
    }
}

/// A step of the search keeps it well formed and brings it nearer to its end.
pub proof fn lemma_part_step(
    edges: Seq<ExportablePDGEdge>,
    leaders: Seq<usize>,
    probes: Seq<bool>,
    place: usize,
    p: Part,
)
    requires
        part_wf(edges, leaders, probes, p),
        p.stack.len() > 0,
    ensures
        part_wf(edges, leaders, probes, part_step(edges, leaders, probes, place, p)),
        count_unmarked(part_step(edges, leaders, probes, place, p).taken) + part_step(
            edges,
            leaders,
            probes,
            place,
            p,
        ).stack.len() + 1 == count_unmarked(p.taken) + p.stack.len(),
        part_step(edges, leaders, probes, place, p).stack.len() + 1 >= p.stack.len(),
{
    let x = p.stack.last();
    let out = incident(edges, x as int, edges.len() as int, true);
    let into = incident(edges, x as int, edges.len() as int, false);
    lemma_incident(edges, x as int, edges.len() as int, true);
    lemma_incident(edges, x as int, edges.len() as int, false);
    let bare = Part { stack: p.stack.drop_last(), ..p };
    assert(part_wf(edges, leaders, probes, bare));
    lemma_follow_all(edges, leaders, probes, place, bare, out, out.len() as int, false);
    let left = follow_all(edges, leaders, place, bare, out, out.len() as int, false);
    lemma_follow_all(edges, leaders, probes, place, left, into, into.len() as int, true);
    let both = follow_all(edges, leaders, place, left, into, into.len() as int, true);
    let after = part_step(edges, leaders, probes, place, p);
    assert forall|j: int| 0 <= j < after.members.len() implies (#[trigger] after.members[j])
        < leaders.len() by {
        if j < both.members.len() {
            assert(after.members[j] == both.members[j]);
        }
    }
}

/// The search at its end: steps are taken until the stack is empty.
pub open spec fn part(
    edges: Seq<ExportablePDGEdge>,
    leaders: Seq<usize>,
    probes: Seq<bool>,
    place: usize,
    p: Part,
) -> Part
    decreases count_unmarked(p.taken), p.stack.len(),
    when part_wf(edges, leaders, probes, p)
{
    if p.stack.len() == 0 {
        p
    } else {
        proof {
            lemma_part_step(edges, leaders, probes, place, p);
        }
        part(edges, leaders, probes, place, part_step(edges, leaders, probes, place, p))
    }
}

/// The parts found so far.
pub struct Parts {
    /// For every vertex whether it belongs to a part already.
    pub taken: Seq<bool>,
    /// The parts, each with its members in the order of the search.
    pub groups: Seq<Seq<usize>>,
}

/// The parts after vertex `m` is offered as the start of a new one: if it
/// belongs to none yet, the part that hangs together with it is searched;
/// a part without members is not kept.
pub open spec fn offer(
    edges: Seq<ExportablePDGEdge>,
    leaders: Seq<usize>,
    probes: Seq<bool>,
    s: Parts,
    m: usize,
) -> Parts {
    if s.taken[m as int] {
        s
    } else {
        let found = part(
            edges,
            leaders,
            probes,
            leaders[m as int],
            Part { taken: s.taken.update(m as int, true), stack: seq![m], members: seq![] },
        );
        Parts {
            taken: found.taken,
            groups: if found.members.len() > 0 {
                s.groups.push(found.members)
            } else {
                s.groups
            },
        }
    }
}

/// The parts after the first `upto` of the vertices `list` are offered.
pub open spec fn offer_all(
    edges: Seq<ExportablePDGEdge>,
    leaders: Seq<usize>,
    probes: Seq<bool>,
    s: Parts,
    list: Seq<usize>,
    upto: int,
) -> Parts
    decreases upto,
{
    if upto <= 0 {
        s
    } else {
        offer(
            edges,
            leaders,
            probes,
            offer_all(edges, leaders, probes, s, list, upto - 1),
            list[upto - 1],
        )
    }
}

/// The parts after the places of the first `upto` vertices are split, in
/// order: the vertices of each place are offered from the first to the last.
pub open spec fn split(
    edges: Seq<ExportablePDGEdge>,
    leaders: Seq<usize>,
    probes: Seq<bool>,
    upto: int,
) -> Parts
    decreases upto,
{
    if upto <= 0 {
        Parts { taken: Seq::new(leaders.len(), |v: int| false), groups: seq![] }
    } else {
        let here = positions(leaders, upto - 1, leaders.len() as int);
        offer_all(edges, leaders, probes, split(edges, leaders, probes, upto - 1), here, here.len() as int)
    }
}

/// The parts of a graph are lists of its vertices, and there are no more
/// parts than vertices that belong to one.
pub open spec fn parts_wf(leaders: Seq<usize>, s: Parts) -> bool {
    let n = leaders.len();
    &&& s.taken.len() == n
    &&& s.groups.len() + count_unmarked(s.taken) <= n
    &&& forall|g: int, j: int|
        0 <= g < s.groups.len() && 0 <= j < s.groups[g].len() ==> (#[trigger] s.groups[g][j]) < n
    &&& forall|g: int| 0 <= g < s.groups.len() ==> (#[trigger] s.groups[g]).len() > 0
}

/// Of `n` vertices without a mark, `n` are unmarked.
pub proof fn lemma_count_all(n: nat)
    ensures
        count_unmarked(Seq::new(n, |v: int| false)) == n,
    decreases n,
{
    if n > 0 {
        lemma_count_all((n - 1) as nat);
        assert(Seq::new(n, |v: int| false).drop_last() =~= Seq::new((n - 1) as nat, |v: int| false));
    }
}

/// Splits the vertices of every place into the parts that hang together
/// by edges other than index edges. The places are taken in the order of
/// their first vertices, the parts of a place in the order of theirs.
/// Probes hold parts together but are no members.
pub fn split_places(
    edges: &Vec<ExportablePDGEdge>,
    leaders: &Vec<usize>,
    probes: &Vec<bool>,
    leaving: &Vec<Vec<usize>>,
    arriving: &Vec<Vec<usize>>,
) -> (groups: Vec<Vec<usize>>)
    requires
        edges_within(edges@, leaders.len() as int),
        probes.len() == leaders.len(),
        leaving.len() == leaders.len(),
        arriving.len() == leaders.len(),
        forall|v: int| 0 <= v < leaders.len() ==> (#[trigger] leaders[v]) < leaders.len(),
        forall|v: int|
            0 <= v < leaders.len() ==> (#[trigger] leaving[v])@ == incident(
                edges@,
                v,
                edges.len() as int,
                true,
            ),
        forall|v: int|
            0 <= v < leaders.len() ==> (#[trigger] arriving[v])@ == incident(
                edges@,
                v,
                edges.len() as int,
                false,
            ),
    ensures
        Seq::new(groups.len() as nat, |g: int| groups[g]@) == split(
            edges@,
            leaders@,
            probes@,
            leaders.len() as int,
        ).groups,
        groups.len() <= leaders.len(),
        forall|g: int, j: int|
            0 <= g < groups.len() && 0 <= j < groups[g].len() ==> (#[trigger] groups[g][j])
                < leaders.len(),
        forall|g: int| 0 <= g < groups.len() ==> (#[trigger] groups[g]).len() > 0,
{
    let n = leaders.len();
    let ghost es = edges@;
    let ghost ls = leaders@;
    let ghost ps = probes@;
    let members = buckets(leaders, n);
    let mut taken: Vec<bool> = Vec::new();
    let mut v: usize = 0;
    while v < n
        invariant
            v <= n,
            taken.len() == v,
            forall|u: int| 0 <= u < v ==> !(#[trigger] taken[u]),
        decreases n - v,
    {
        taken.push(false);
        v = v + 1;
    }
    assert(taken@ =~= Seq::new(n as nat, |v: int| false));
    proof {
        lemma_count_all(n as nat);
    }
    let mut groups: Vec<Vec<usize>> = Vec::new();
    let mut place: usize = 0;
    assert(Seq::new(groups.len() as nat, |g: int| groups[g]@) =~= Seq::<Seq<usize>>::empty());
    while place < n
        invariant
            place <= n,
            n == leaders.len(),
            es == edges@,
            ls == leaders@,
            ps == probes@,
            edges_within(es, n as int),
            ps.len() == n,
            leaving.len() == n,
            arriving.len() == n,
            members.len() == n,
            forall|v: int| 0 <= v < n ==> (#[trigger] ls[v]) < n,
            forall|v: int|
                0 <= v < n ==> (#[trigger] leaving[v])@ == incident(es, v, es.len() as int, true),
            forall|v: int|
                0 <= v < n ==> (#[trigger] arriving[v])@ == incident(es, v, es.len() as int, false),
            forall|key: int| 0 <= key < n ==> (#[trigger] members[key])@ == positions(ls, key, n as int),
            parts_wf(
                ls,
                Parts { taken: taken@, groups: Seq::new(groups.len() as nat, |g: int| groups[g]@) },
            ),
            (Parts { taken: taken@, groups: Seq::new(groups.len() as nat, |g: int| groups[g]@) })
                == split(es, ls, ps, place as int),
        decreases n - place,
    {
        let here = &members[place];
        proof {
            lemma_positions(ls, place as int, n as int);
        }
        let ghost at_place = Parts {
            taken: taken@,
            groups: Seq::new(groups.len() as nat, |g: int| groups[g]@),
        };
        let mut h: usize = 0;
        while h < here.len()
            invariant
                h <= here.len(),
                place < n,
                n == leaders.len(),
                es == edges@,
                ls == leaders@,
                ps == probes@,
                edges_within(es, n as int),
                ps.len() == n,
                leaving.len() == n,
                arriving.len() == n,
                here@ == positions(ls, place as int, n as int),
                forall|j: int| 0 <= j < here.len() ==> (#[trigger] here[j]) < n && ls[here[j] as int]
                    == place,
                forall|v: int| 0 <= v < n ==> (#[trigger] ls[v]) < n,
                forall|v: int|
                    0 <= v < n ==> (#[trigger] leaving[v])@ == incident(es, v, es.len() as int, true),
                forall|v: int|
                    0 <= v < n ==> (#[trigger] arriving[v])@ == incident(
                        es,
                        v,
                        es.len() as int,
                        false,
                    ),
                parts_wf(
                    ls,
                    Parts {
                        taken: taken@,
                        groups: Seq::new(groups.len() as nat, |g: int| groups[g]@),
                    },
                ),
                (Parts {
                    taken: taken@,
                    groups: Seq::new(groups.len() as nat, |g: int| groups[g]@),
                }) == offer_all(es, ls, ps, at_place, here@, h as int),
            decreases here.len() - h,
        {
            let m = here[h];
            let ghost before = Parts {
                taken: taken@,
                groups: Seq::new(groups.len() as nat, |g: int| groups[g]@),
            };
            if !taken[m] {
                proof {
                    lemma_mark(taken@, m as int);
                }
                taken.set(m, true);
                let mut stack: Vec<usize> = Vec::new();
                stack.push(m);
                let mut current: Vec<usize> = Vec::new();
                let ghost start = Part { taken: taken@, stack: seq![m], members: seq![] };
                assert(stack@ =~= start.stack);
                assert(current@ =~= start.members);
                assert(m < n);
                assert(es.len() == edges.len());
                assert(part_wf(es, ls, ps, start));
                while stack.len() > 0
                    invariant
                        place < n,
                        n == leaders.len(),
                        es == edges@,
                        ls == leaders@,
                        ps == probes@,
                        leaving.len() == n,
                        arriving.len() == n,
                        forall|v: int|
                            0 <= v < n ==> (#[trigger] leaving[v])@ == incident(
                                es,
                                v,
                                es.len() as int,
                                true,
                            ),
                        forall|v: int|
                            0 <= v < n ==> (#[trigger] arriving[v])@ == incident(
                                es,
                                v,
                                es.len() as int,
                                false,
                            ),
                        part_wf(es, ls, ps, Part { taken: taken@, stack: stack@, members: current@ }),
                        part(es, ls, ps, place, start) == part(
                            es,
                            ls,
                            ps,
                            place,
                            Part { taken: taken@, stack: stack@, members: current@ },
                        ),
                        count_unmarked(taken@) <= count_unmarked(start.taken),
                    decreases count_unmarked(taken@), stack.len(),
                {
                    let ghost p = Part { taken: taken@, stack: stack@, members: current@ };
                    let x = stack.pop().unwrap();
                    assert(x == p.stack.last());
                    assert(stack@ =~= p.stack.drop_last());
                    let ghost bare = Part { stack: p.stack.drop_last(), ..p };
                    proof {
                        lemma_incident(es, x as int, es.len() as int, true);
                        lemma_incident(es, x as int, es.len() as int, false);
                        lemma_part_step(es, ls, ps, place, p);
                    }
                    assert(part_wf(es, ls, ps, bare));
                    follow_list(
                        edges,
                        leaders,
                        Ghost(ps),
                        place,
                        &leaving[x],
                        false,
                        &mut taken,
                        &mut stack,
                        Ghost(current@),
                    );
                    proof {
                        lemma_follow_all(
                            es,
                            ls,
                            ps,
                            place,
                            bare,
                            leaving[x as int]@,
                            leaving[x as int].len() as int,
                            false,
                        );
                    }
                    follow_list(
                        edges,
                        leaders,
                        Ghost(ps),
                        place,
                        &arriving[x],
                        true,
                        &mut taken,
                        &mut stack,
                        Ghost(current@),
                    );
                    if !probes[x] {
                        current.push(x);
                    }
                    proof {
                        let after = Part { taken: taken@, stack: stack@, members: current@ };
                        assert(after == part_step(es, ls, ps, place, p));
                    }
                }
                proof {
                    let end = Part { taken: taken@, stack: stack@, members: current@ };
                    assert(part(es, ls, ps, place, end) == end);
                    assert(ls[m as int] == place);
                }
                if current.len() > 0 {
                    let ghost old_groups = Seq::new(groups.len() as nat, |g: int| groups[g]@);
                    groups.push(current);
                    assert(Seq::new(groups.len() as nat, |g: int| groups[g]@) =~= old_groups.push(
                        current@,
                    ));
                }
            }
            proof {
                let after = Parts {
                    taken: taken@,
                    groups: Seq::new(groups.len() as nat, |g: int| groups[g]@),
                };
                assert(after == offer(es, ls, ps, before, m));
            }
            h = h + 1;
        }
        place = place + 1;
    }
    proof {
        let end = Parts { taken: taken@, groups: Seq::new(groups.len() as nat, |g: int| groups[g]@) };
        assert forall|g: int, j: int|
            0 <= g < groups.len() && 0 <= j < groups[g].len() implies (#[trigger] groups[g][j])
            < leaders.len() by {
            assert(end.groups[g][j] < n);
        }
        assert forall|g: int| 0 <= g < groups.len() implies (#[trigger] groups[g]).len() > 0 by {
            assert(end.groups[g].len() > 0);
        }
    }
    groups
}

fn follow_list(
    edges: &Vec<ExportablePDGEdge>,
    leaders: &Vec<usize>,
    Ghost(probes): Ghost<Seq<bool>>,
    place: usize,
    list: &Vec<usize>,
    arriving: bool,
    taken: &mut Vec<bool>,
    stack: &mut Vec<usize>,
    Ghost(members): Ghost<Seq<usize>>,
)
    requires
        part_wf(
            edges@,
            leaders@,
            probes,
            Part { taken: old(taken)@, stack: old(stack)@, members },
        ),
        forall|j: int| 0 <= j < list.len() ==> (#[trigger] list[j]) < edges.len(),
    ensures
        (Part { taken: final(taken)@, stack: final(stack)@, members }) == follow_all(
            edges@,
            leaders@,
            place,
            Part { taken: old(taken)@, stack: old(stack)@, members },
            list@,
            list.len() as int,
            arriving,
        ),
{
    let ghost start = Part { taken: taken@, stack: stack@, members };
    let mut j: usize = 0;
    while j < list.len()
        invariant
            j <= list.len(),
            forall|k: int| 0 <= k < list.len() ==> (#[trigger] list[k]) < edges.len(),
            part_wf(edges@, leaders@, probes, start),
            part_wf(edges@, leaders@, probes, Part { taken: taken@, stack: stack@, members }),
            (Part { taken: taken@, stack: stack@, members }) == follow_all(
                edges@,
                leaders@,
                place,
                start,
                list@,
                j as int,
                arriving,
            ),
        decreases list.len() - j,
    {
        let e = edges[list[j]];
        proof {
            lemma_follow_all(edges@, leaders@, probes, place, start, list@, j + 1, arriving);
        }
        if !(e.kind == PDGSpecEdgeKind::Index || (arriving && e.from == e.to)) {
            let a = e.from as usize;
            if leaders[a] == place && !taken[a] {
                taken.set(a, true);
                stack.push(a);
            }
            let b = e.to as usize;
            if leaders[b] == place && !taken[b] {
                taken.set(b, true);
                stack.push(b);
            }
        }
        j = j + 1;
    }
}

} // verus!
