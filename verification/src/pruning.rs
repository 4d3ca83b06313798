//! Generated statements that repeat each other: vertices that are no
//! source statements, share time, place and name with an earlier one, and
//! depend on nothing that the earlier one does not depend on are taken out.

use std::collections::HashMap;
use vstd::prelude::*;
use vstd::std_specs::hash::*;
use vstd::string::*;
use crate::pdg_spec::{ExportNodeView, ExportablePDGEdge, ExportablePDGNode};
use crate::redirect::{edges_within, incident, lemma_incident};
use crate::slicing::{marked_items, remapping, unmarked};
use crate::text::same_text;

verus! {

broadcast use group_hash_axioms;

/// What the search for repeated vertices has come to.
pub struct Listing {
    /// For every time the vertices of that time that later ones are compared with.
    pub lists: Map<i64, Seq<usize>>,
    /// For every vertex whether it stays.
    pub kept: Seq<bool>,
}

/// Whether vertex `b` repeats the listed vertex `a`: `a` is no source
/// statement, and both have one file, line and name.
pub open spec fn alike(a: ExportNodeView, b: ExportNodeView) -> bool {
    !a.is_chisel_assignment && a.file == b.file && a.line == b.line && a.name == b.name
}

/// The position in `list` of the first vertex at or after `from` that vertex `idx` repeats.
pub open spec fn first_alike(
    verts: Seq<ExportNodeView>,
    list: Seq<usize>,
    idx: int,
    from: int,
) -> Option<int>
    decreases list.len() - from,
{
    if from < 0 || from >= list.len() {
        None
    } else if alike(verts[list[from] as int], verts[idx]) {
        Some(from)
    } else {
        first_alike(verts, list, idx, from + 1)
    }
}

/// Whether edge `k` arrives where one of the edges `theirs` arrives.
pub open spec fn arrives_with(edges: Seq<ExportablePDGEdge>, theirs: Seq<usize>, k: usize) -> bool {
    exists|j: int| 0 <= j < theirs.len() && edges[#[trigger] theirs[j] as int].to == edges[k as int].to
}

/// Whether every one of the edges `mine` arrives where one of the edges `theirs` arrives.
pub open spec fn covered(edges: Seq<ExportablePDGEdge>, mine: Seq<usize>, theirs: Seq<usize>)
    -> bool {
    forall|j: int| 0 <= j < mine.len() ==> arrives_with(edges, theirs, #[trigger] mine[j])
}

/// The search after vertex `idx`. If no listed vertex of its time is
/// repeated by it, it is listed itself. Else it is compared with the first
/// such vertex, and goes if it depends on nothing that the other does not
/// depend on.
pub open spec fn list_vertex(
    verts: Seq<ExportNodeView>,
    edges: Seq<ExportablePDGEdge>,
    l: Listing,
    idx: int,
) -> Listing {
    let time = verts[idx].timestamp;
    if l.lists.contains_key(time) {
        match first_alike(verts, l.lists[time], idx, 0) {
            Some(j) => if covered(
                edges,
                incident(edges, idx, edges.len() as int, true),
                incident(edges, l.lists[time][j] as int, edges.len() as int, true),
            ) {
                Listing { kept: l.kept.update(idx, false), ..l }
            } else {
                l
            },
            None => Listing { lists: l.lists.insert(time, l.lists[time].push(idx as usize)), ..l },
        }
    } else {
        Listing { lists: l.lists.insert(time, seq![idx as usize]), ..l }
    }
}

/// The search after the first `upto` vertices.
pub open spec fn listing(verts: Seq<ExportNodeView>, edges: Seq<ExportablePDGEdge>, upto: int)
    -> Listing
    decreases upto,
{
    if upto <= 0 {
        Listing { lists: Map::empty(), kept: Seq::new(verts.len(), |v: int| true) }
    } else {
        list_vertex(verts, edges, listing(verts, edges, upto - 1), upto - 1)
    }
}

/// The lists of the search as the tables hold them.
pub open spec fn listed(index: Map<i64, usize>, lists: Seq<Vec<usize>>) -> Map<i64, Seq<usize>> {
    Map::new(|time: i64| index.contains_key(time), |time: i64| lists[index[time] as int]@)
}

/// Every time has a list of its own, and the lists hold vertices.
pub open spec fn index_ok(index: Map<i64, usize>, lists: Seq<Vec<usize>>, n: int) -> bool {
    &&& forall|time: i64| #[trigger] index.contains_key(time) ==> index[time] < lists.len()
    &&& forall|a: i64, b: i64|
        #[trigger] index.contains_key(a) && #[trigger] index.contains_key(b) && a != b ==> index[a]
            != index[b]
    &&& forall|i: int, j: int|
        0 <= i < lists.len() && 0 <= j < lists[i].len() ==> (#[trigger] lists[i][j]) < n
}

fn covers(edges: &Vec<ExportablePDGEdge>, mine: &Vec<usize>, theirs: &Vec<usize>) -> (r: bool)
    requires
        forall|j: int| 0 <= j < mine.len() ==> (#[trigger] mine[j]) < edges.len(),
        forall|j: int| 0 <= j < theirs.len() ==> (#[trigger] theirs[j]) < edges.len(),
    ensures
        r == covered(edges@, mine@, theirs@),
{
    let mut j: usize = 0;
    while j < mine.len()
        invariant
            j <= mine.len(),
            forall|k: int| 0 <= k < mine.len() ==> (#[trigger] mine[k]) < edges.len(),
            forall|k: int| 0 <= k < theirs.len() ==> (#[trigger] theirs[k]) < edges.len(),
            forall|k: int| 0 <= k < j ==> arrives_with(edges@, theirs@, #[trigger] mine[k]),
        decreases mine.len() - j,
    {
        let to = edges[mine[j]].to;
        let mut found = false;
        let mut t: usize = 0;
        while t < theirs.len()
            invariant_except_break
                !found,
            invariant
                t <= theirs.len(),
                j < mine.len(),
                to == edges[mine[j as int] as int].to,
                forall|k: int| 0 <= k < theirs.len() ==> (#[trigger] theirs[k]) < edges.len(),
                forall|k: int| 0 <= k < t ==> edges[#[trigger] theirs[k] as int].to != to,
            ensures
                found == arrives_with(edges@, theirs@, mine[j as int]),
            decreases theirs.len() - t,
        {
            if edges[theirs[t]].to == to {
                found = true;
                break ;
            }
            t = t + 1;
        }
        if !found {
            return false;
        }
        j = j + 1;
    }
    true
}

fn find_alike(verts: &Vec<ExportablePDGNode>, list: &Vec<usize>, idx: usize) -> (r: Option<usize>)
    requires
        idx < verts.len(),
        forall|j: int| 0 <= j < list.len() ==> (#[trigger] list[j]) < verts.len(),
    ensures
        r matches Some(j) ==> j < list.len() && first_alike(
            verts.deep_view(),
            list@,
            idx as int,
            0,
        ) == Some(j as int),
        r is None ==> first_alike(verts.deep_view(), list@, idx as int, 0) is None,
{
    let vert = &verts[idx];
    let mut j: usize = 0;
    while j < list.len()
        invariant
            j <= list.len(),
            idx < verts.len(),
            vert == &verts[idx as int],
            forall|k: int| 0 <= k < list.len() ==> (#[trigger] list[k]) < verts.len(),
            first_alike(verts.deep_view(), list@, idx as int, 0) == first_alike(
                verts.deep_view(),
                list@,
                idx as int,
                j as int,
            ),
        decreases list.len() - j,
    {
        let v = &verts[list[j]];
        assert(verts.deep_view()[list[j as int] as int] == v.deep_view());
        assert(verts.deep_view()[idx as int] == vert.deep_view());
        if !v.is_chisel_assignment && v.line == vert.line && same_text(
            v.file.as_str(),
            vert.file.as_str(),
        ) && same_text(v.name.as_str(), vert.name.as_str()) {
            return Some(j);
        }
        j = j + 1;
    }
    None
}

/// For every vertex whether it stays once the repeated ones are taken out.
pub fn repeated_marks(
    verts: &Vec<ExportablePDGNode>,
    edges: &Vec<ExportablePDGEdge>,
    leaving: &Vec<Vec<usize>>,
) -> (kept: Vec<bool>)
    requires
        edges_within(edges@, verts.len() as int),
        leaving.len() == verts.len(),
        forall|v: int|
            0 <= v < verts.len() ==> (#[trigger] leaving[v])@ == incident(
                edges@,
                v,
                edges.len() as int,
                true,
            ),
    ensures
        kept@ == listing(verts.deep_view(), edges@, verts.len() as int).kept,
        kept.len() == verts.len(),
{
    let n = verts.len();
    let ghost vs = verts.deep_view();
    let ghost es = edges@;
    let mut kept: Vec<bool> = Vec::new();
    let mut v: usize = 0;
    while v < n
        invariant
            v <= n,
            kept.len() == v,
            forall|u: int| 0 <= u < v ==> #[trigger] kept[u],
        decreases n - v,
    {
        kept.push(true);
        v = v + 1;
    }
    assert(kept@ =~= Seq::new(n as nat, |v: int| true));
    let mut index: HashMap<i64, usize> = HashMap::new();
    let mut lists: Vec<Vec<usize>> = Vec::new();
    assert(listed(index@, lists@) =~= Map::<i64, Seq<usize>>::empty());
    let mut idx: usize = 0;
    while idx < n
        invariant
            idx <= n,
            n == verts.len(),
            vs == verts.deep_view(),
            es == edges@,
            kept.len() == n,
            edges_within(es, n as int),
            leaving.len() == n,
            forall|v: int|
                0 <= v < n ==> (#[trigger] leaving[v])@ == incident(es, v, es.len() as int, true),
            index_ok(index@, lists@, n as int),
            (Listing { lists: listed(index@, lists@), kept: kept@ }) == listing(vs, es, idx as int),
        decreases n - idx,
    {
        let time = verts[idx].timestamp;
        assert(vs[idx as int] == verts[idx as int].deep_view());
        let ghost l = Listing { lists: listed(index@, lists@), kept: kept@ };
        let ghost old_index = index@;
        let ghost old_lists = lists@;
        let slot = match index.get(&time) {
            Some(s) => Some(*s),
            None => None,
        };
        match slot {
            Some(s) => {
                assert(l.lists[time] == lists[s as int]@);
                match find_alike(verts, &lists[s], idx) {
                    Some(j) => {
                        let other = lists[s][j];
                        proof {
                            assert(es.len() == edges.len());
                            lemma_incident(es, idx as int, es.len() as int, true);
                            lemma_incident(es, other as int, es.len() as int, true);
                        }
                        if covers(edges, &leaving[idx], &leaving[other]) {
                            kept.set(idx, false);
                        }
                    },
                    None => {
                        lists[s].push(idx);
                        proof {
                            assert(listed(index@, lists@) =~= l.lists.insert(
                                time,
                                l.lists[time].push(idx),
                            )) by {
                                assert forall|t: i64| index@.contains_key(t) && t
                                    != time implies lists@[index@[t] as int]@
                                    == old_lists[old_index[t] as int]@ by {
                                    assert(index@[t] != index@[time]);
                                }
                            }
                            assert forall|i: int, j: int|
                                0 <= i < lists.len() && 0 <= j < lists[i].len() implies (
                            #[trigger] lists[i][j]) < n by {
                                if i == s && j == lists[i].len() - 1 {
                                } else {
                                    assert(lists[i][j] == old_lists[i][j]);
                                }
                            }
                        }
                    },
                }
            },
            None => {
                let mut fresh: Vec<usize> = Vec::new();
                fresh.push(idx);
                index.insert(time, lists.len());
                lists.push(fresh);
                proof {
                    assert(listed(index@, lists@) =~= l.lists.insert(time, seq![idx])) by {
                        assert forall|t: i64| old_index.contains_key(t) implies lists@[index@[t] as int]
                            == old_lists[old_index[t] as int] by {}
                    }
                    assert forall|i: int, j: int|
                        0 <= i < lists.len() && 0 <= j < lists[i].len() implies (
                    #[trigger] lists[i][j]) < n by {
                        if i < old_lists.len() {
                            assert(lists[i][j] == old_lists[i][j]);
                        }
                    }
                }
            },
        }
        idx = idx + 1;
    }
    kept
}

/// The edges among the first `upto` both of whose ends stay, with their ends renumbered.
pub open spec fn renumbered(edges: Seq<ExportablePDGEdge>, remap: Seq<Option<u32>>, upto: int) -> Seq<
    ExportablePDGEdge,
>
    decreases upto,
{
    if upto <= 0 {
        seq![]
    } else {
        let rest = renumbered(edges, remap, upto - 1);
        let e = edges[upto - 1];
        match (remap[e.from as int], remap[e.to as int]) {
            (Some(from), Some(to)) => rest.push(ExportablePDGEdge { from, to, ..e }),
            _ => rest,
        }
    }
}

/// The marked positions keep their order when they are renumbered: a
/// marked position gets a number below that of every later position.
pub proof fn lemma_remapping_order(marks: Seq<bool>, i: int, j: int)
    requires
        0 <= i < j <= marks.len(),
        marks[i],
    ensures
        i - unmarked(marks, i).len() < j - unmarked(marks, j).len(),
        0 <= i - unmarked(marks, i).len(),
    decreases j - i,
{
    crate::slicing::lemma_unmarked_len(marks, i);
    if j > i + 1 {
        lemma_remapping_order(marks, i, j - 1);
    }
}

/// The marked entries stand at their new numbers.
pub proof fn lemma_marked_at<T>(items: Seq<T>, marks: Seq<bool>, upto: int)
    requires
        0 <= upto <= marks.len(),
        marks.len() == items.len(),
    ensures
        marked_items(items, marks, upto).len() == upto - unmarked(marks, upto).len(),
        forall|i: int|
            0 <= i < upto && #[trigger] marks[i] ==> 0 <= i - unmarked(marks, i).len()
                < marked_items(items, marks, upto).len() && marked_items(items, marks, upto)[i
                - unmarked(marks, i).len()] == items[i],
    decreases upto,
{
    if upto > 0 {
        lemma_marked_at(items, marks, upto - 1);
        let rest = marked_items(items, marks, upto - 1);
        let all = marked_items(items, marks, upto);
        assert forall|i: int| 0 <= i < upto && #[trigger] marks[i] implies 0 <= i - unmarked(
            marks,
            i,
        ).len() < all.len() && all[i - unmarked(marks, i).len()] == items[i] by {
            if i < upto - 1 {
                assert(all[i - unmarked(marks, i).len()] == rest[i - unmarked(marks, i).len()]);
            }
        }
    }
}

/// Whether the edges join vertices of `vertices`, each with the clocked
/// bit of the vertex that it leaves, and none stands twice.
pub open spec fn edges_tidy(vertices: Seq<ExportNodeView>, edges: Seq<ExportablePDGEdge>) -> bool {
    &&& edges_within(edges, vertices.len() as int)
    &&& forall|k: int|
        0 <= k < edges.len() ==> (#[trigger] edges[k]).clocked
            == vertices[edges[k].from as int].clocked
    &&& forall|i: int, j: int| 0 <= i < j < edges.len() ==> edges[i] != edges[j]
}

/// No edge leads from a vertex to itself.
pub open spec fn no_loops(edges: Seq<ExportablePDGEdge>) -> bool {
    forall|k: int| 0 <= k < edges.len() ==> (#[trigger] edges[k]).from != edges[k].to
}

/// Taking vertices out keeps the edges tidy: those that stay join
/// vertices that stay, carry the bit of the vertex they leave, and none
/// stands twice; and where no edge was a loop, none is.
pub proof fn lemma_renumbered(
    verts: Seq<ExportNodeView>,
    edges: Seq<ExportablePDGEdge>,
    marks: Seq<bool>,
    upto: int,
)
    requires
        edges_tidy(verts, edges),
        marks.len() == verts.len(),
        verts.len() <= u32::MAX,
        0 <= upto <= edges.len(),
    ensures
        edges_tidy(
            marked_items(verts, marks, verts.len() as int),
            renumbered(edges, remapping(marks), upto),
        ),
        no_loops(edges) ==> no_loops(renumbered(edges, remapping(marks), upto)),
        forall|k: int|
            0 <= k < renumbered(edges, remapping(marks), upto).len() ==> exists|j: int|
                0 <= j < upto && marks[edges[j].from as int] && marks[edges[j].to as int]
                    && #[trigger] renumbered(edges, remapping(marks), upto)[k]
                    == renumbered_edge(edges[j], marks),
    decreases upto,
{
    let n = verts.len() as int;
    let remap = remapping(marks);
    let kept = marked_items(verts, marks, n);
    lemma_marked_at(verts, marks, n);
    if upto > 0 {
        lemma_renumbered(verts, edges, marks, upto - 1);
        let rest = renumbered(edges, remap, upto - 1);
        let all = renumbered(edges, remap, upto);
        let e = edges[upto - 1];
        if marks[e.from as int] && marks[e.to as int] {
            let moved = renumbered_edge(e, marks);
            crate::slicing::lemma_unmarked_len(marks, e.from as int);
            crate::slicing::lemma_unmarked_len(marks, e.to as int);
            assert(all == rest.push(moved));
            assert forall|k: int| 0 <= k < all.len() implies exists|j: int|
                0 <= j < upto && marks[edges[j].from as int] && marks[edges[j].to as int]
                    && #[trigger] all[k] == renumbered_edge(edges[j], marks) by {
                if k < rest.len() {
                    assert(all[k] == rest[k]);
                    let j = choose|j: int|
                        0 <= j < upto - 1 && marks[edges[j].from as int] && marks[edges[j].to as int]
                            && rest[k] == renumbered_edge(edges[j], marks);
                    assert(all[k] == renumbered_edge(edges[j], marks));
                } else {
                    assert(all[k] == renumbered_edge(edges[upto - 1], marks));
                }
            }
            assert forall|i: int, j: int| 0 <= i < j < all.len() implies all[i] != all[j] by {
                if j < rest.len() {
                    assert(all[i] == rest[i] && all[j] == rest[j]);
                } else {
                    assert(all[i] == rest[i]);
                    let q = choose|q: int|
                        0 <= q < upto - 1 && marks[edges[q].from as int] && marks[edges[q].to as int]
                            && rest[i] == renumbered_edge(edges[q], marks);
                    lemma_renumbered_apart(edges[q], e, marks);
                }
            }
            assert forall|k: int| 0 <= k < all.len() implies (#[trigger] all[k]).from < kept.len()
                && all[k].to < kept.len() && all[k].clocked == kept[all[k].from as int].clocked by {
                if k < rest.len() {
                    assert(all[k] == rest[k]);
                }
            }
            if no_loops(edges) {
                assert(e.from != e.to);
                lemma_renumbered_apart(e, ExportablePDGEdge { from: e.to, to: e.from, ..e }, marks);
                assert forall|k: int| 0 <= k < all.len() implies (#[trigger] all[k]).from
                    != all[k].to by {
                    if k < rest.len() {
                        assert(all[k] == rest[k]);
                    }
                }
            }
        } else {
            assert(all == rest);
        }
    }
}

/// An edge with its ends renumbered as the vertices are once those without a mark are taken out.
pub open spec fn renumbered_edge(e: ExportablePDGEdge, marks: Seq<bool>) -> ExportablePDGEdge {
    ExportablePDGEdge {
        from: (e.from - unmarked(marks, e.from as int).len()) as u32,
        to: (e.to - unmarked(marks, e.to as int).len()) as u32,
        ..e
    }
}

/// Edges between marked vertices that differ still differ when their ends are renumbered.
pub proof fn lemma_renumbered_apart(a: ExportablePDGEdge, b: ExportablePDGEdge, marks: Seq<bool>)
    requires
        a.from < marks.len(),
        a.to < marks.len(),
        b.from < marks.len(),
        b.to < marks.len(),
        marks[a.from as int] && marks[a.to as int] && marks[b.from as int] && marks[b.to as int],
        marks.len() <= u32::MAX,
    ensures
        a.from != b.from ==> renumbered_edge(a, marks).from != renumbered_edge(b, marks).from,
        a.to != b.to ==> renumbered_edge(a, marks).to != renumbered_edge(b, marks).to,
        a != b ==> renumbered_edge(a, marks) != renumbered_edge(b, marks),
{
    crate::slicing::lemma_unmarked_len(marks, a.from as int);
    crate::slicing::lemma_unmarked_len(marks, a.to as int);
    crate::slicing::lemma_unmarked_len(marks, b.from as int);
    crate::slicing::lemma_unmarked_len(marks, b.to as int);
    if a.from < b.from {
        lemma_remapping_order(marks, a.from as int, b.from as int);
    } else if b.from < a.from {
        lemma_remapping_order(marks, b.from as int, a.from as int);
    }
    if a.to < b.to {
        lemma_remapping_order(marks, a.to as int, b.to as int);
    } else if b.to < a.to {
        lemma_remapping_order(marks, b.to as int, a.to as int);
    }
}

/// Keeps the edges both of whose ends stay, and renumbers their ends as
/// the vertices are renumbered once those without a mark are taken out.
pub fn renumber_edges(edges: &Vec<ExportablePDGEdge>, kept: &Vec<bool>) -> (r: Vec<
    ExportablePDGEdge,
>)
    requires
        edges_within(edges@, kept.len() as int),
        kept.len() <= u32::MAX,
    ensures
        r@ == renumbered(edges@, remapping(kept@), edges.len() as int),
{
    let mut remap: Vec<Option<u32>> = Vec::new();
    let mut counter: u32 = 0;
    let mut i: usize = 0;
    while i < kept.len()
        invariant
            i <= kept.len(),
            kept.len() <= u32::MAX,
            remap.len() == i,
            counter == i - crate::slicing::unmarked(kept@, i as int).len(),
            forall|k: int| 0 <= k < i ==> #[trigger] remap[k] == remapping(kept@)[k],
        decreases kept.len() - i,
    {
        proof {
            crate::slicing::lemma_unmarked_len(kept@, i as int);
        }
        if kept[i] {
            remap.push(Some(counter));
            counter = counter + 1;
        } else {
            remap.push(None);
        }
        i = i + 1;
    }
    assert(remap@ =~= remapping(kept@));
    let mut r: Vec<ExportablePDGEdge> = Vec::new();
    let mut k: usize = 0;
    while k < edges.len()
        invariant
            k <= edges.len(),
            remap.len() == kept.len(),
            edges_within(edges@, kept.len() as int),
            r@ == renumbered(edges@, remap@, k as int),
        decreases edges.len() - k,
    {
        let e = edges[k];
        match (remap[e.from as usize], remap[e.to as usize]) {
            (Some(from), Some(to)) => {
                r.push(ExportablePDGEdge { from, to, kind: e.kind, clocked: e.clocked });
            },
            _ => {},
        }
        k = k + 1;
    }
    r
}

} // verus!
