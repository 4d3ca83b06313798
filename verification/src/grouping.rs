//! Grouping the vertices of an exported graph by their place in the
//! source: file, line and time.

use std::collections::HashMap;
use vstd::prelude::*;
use vstd::std_specs::hash::*;
use vstd::string::*;
use crate::pdg_spec::ExportablePDGNode;
use crate::text::same_text;

verus! {

broadcast use group_hash_axioms;

/// The time under which a vertex is grouped: a combinational vertex goes
/// with the clocked vertices of the time step after its own.
pub open spec fn group_time(v: ExportablePDGNode) -> int {
    if v.clocked {
        v.timestamp as int
    } else {
        v.timestamp + 1
    }
}

/// Whether two vertices stand at the same place: file, line and group time.
pub open spec fn same_place(a: ExportablePDGNode, b: ExportablePDGNode) -> bool {
    a.file@ == b.file@ && a.line == b.line && group_time(a) == group_time(b)
}

/// The first vertex at or after `start` that stands at the place of vertex `v`.
pub open spec fn leader_from(vertices: Seq<ExportablePDGNode>, v: int, start: int) -> int
    decreases v - start,
{
    if start >= v {
        v
    } else if same_place(vertices[start], vertices[v]) {
        start
    } else {
        leader_from(vertices, v, start + 1)
    }
}

/// The leader of vertex `v`: the first vertex that stands at its place.
pub open spec fn leader(vertices: Seq<ExportablePDGNode>, v: int) -> int {
    leader_from(vertices, v, 0)
}

/// The first vertex at or after `start` that lies in the file of vertex `v`.
pub open spec fn file_leader_from(vertices: Seq<ExportablePDGNode>, v: int, start: int) -> int
    decreases v - start,
{
    if start >= v {
        v
    } else if vertices[start].file@ == vertices[v].file@ {
        start
    } else {
        file_leader_from(vertices, v, start + 1)
    }
}

/// The first vertex that lies in the file of vertex `v`.
pub open spec fn file_leader(vertices: Seq<ExportablePDGNode>, v: int) -> int {
    file_leader_from(vertices, v, 0)
}

/// A number for the line and the group time of a vertex, one for each pair.
pub open spec fn place_code(v: ExportablePDGNode) -> int {
    v.line * 0x2_0000_0000_0000_0000 + (group_time(v) + 0x8000_0000_0000_0000)
}

/// The leader of a vertex stands at its place, and no vertex before the leader does.
pub proof fn lemma_leader(vertices: Seq<ExportablePDGNode>, v: int, start: int)
    requires
        0 <= start <= v < vertices.len(),
    ensures
        start <= leader_from(vertices, v, start) <= v,
        same_place(vertices[leader_from(vertices, v, start)], vertices[v]),
        forall|u: int|
            start <= u < leader_from(vertices, v, start) ==> !same_place(vertices[u], vertices[v]),
    decreases v - start,
{
    if start < v && !same_place(vertices[start], vertices[v]) {
        lemma_leader(vertices, v, start + 1);
    }
}

/// The file leader of a vertex lies in its file, and no vertex before the leader does.
pub proof fn lemma_file_leader(vertices: Seq<ExportablePDGNode>, v: int, start: int)
    requires
        0 <= start <= v < vertices.len(),
    ensures
        start <= file_leader_from(vertices, v, start) <= v,
        vertices[file_leader_from(vertices, v, start)].file@ == vertices[v].file@,
        forall|u: int|
            start <= u < file_leader_from(vertices, v, start) ==> vertices[u].file@
                != vertices[v].file@,
    decreases v - start,
{
    if start < v && vertices[start].file@ != vertices[v].file@ {
        lemma_file_leader(vertices, v, start + 1);
    }
}

/// The leader of `v` is the vertex at its place before which none stands there.
pub proof fn lemma_leader_is(vertices: Seq<ExportablePDGNode>, v: int, e: int)
    requires
        0 <= e <= v < vertices.len(),
        same_place(vertices[e], vertices[v]),
        forall|u: int| 0 <= u < e ==> !same_place(vertices[u], vertices[v]),
    ensures
        leader(vertices, v) == e,
{
    lemma_leader(vertices, v, 0);
}

/// The first vertex of the file of `v` is the vertex of that file before
/// which none lies in it.
pub proof fn lemma_file_leader_is(vertices: Seq<ExportablePDGNode>, v: int, e: int)
    requires
        0 <= e <= v < vertices.len(),
        vertices[e].file@ == vertices[v].file@,
        forall|u: int| 0 <= u < e ==> vertices[u].file@ != vertices[v].file@,
    ensures
        file_leader(vertices, v) == e,
{
    lemma_file_leader(vertices, v, 0);
}

/// The vertices of one file that were seen, each place with its first vertex.
pub struct FilePlaces {
    /// The first vertex of the file.
    pub first: usize,
    /// For the code of every place the first vertex that stands there.
    pub places: HashMap<u128, usize>,
}

/// Whether the file of vertex `u` has its table.
pub open spec fn has_table(vertices: Seq<ExportablePDGNode>, tables: Seq<FilePlaces>, u: int) -> bool {
    exists|k: int|
        0 <= k < tables.len() && (#[trigger] tables[k]).first == file_leader(vertices, u)
}

/// What the tables hold once the vertices below `v` are seen.
pub open spec fn tables_ok(vertices: Seq<ExportablePDGNode>, tables: Seq<FilePlaces>, v: int) -> bool {
    &&& forall|k: int|
        0 <= k < tables.len() ==> (#[trigger] tables[k]).first < v && file_leader(
            vertices,
            tables[k].first as int,
        ) == tables[k].first
    &&& forall|a: int, b: int|
        0 <= a < b < tables.len() ==> (#[trigger] tables[a]).first != (#[trigger] tables[b]).first
    &&& forall|u: int| 0 <= u < v ==> #[trigger] has_table(vertices, tables, u)
    &&& forall|k: int, c: u128|
        0 <= k < tables.len() && #[trigger] tables[k].places@.contains_key(c) ==> {
            let e = tables[k].places@[c];
            &&& e < v
            &&& file_leader(vertices, e as int) == tables[k].first
            &&& place_code(vertices[e as int]) == c
            &&& leader(vertices, e as int) == e
        }
    &&& forall|u: int, k: int|
        0 <= u < v && 0 <= k < tables.len() && (#[trigger] tables[k]).first == #[trigger] file_leader(
            vertices,
            u,
        ) ==> tables[k].places@.contains_key(place_code(vertices[u]) as u128)
            && tables[k].places@[place_code(vertices[u]) as u128] == leader(vertices, u)
}

fn place_code_of(v: &ExportablePDGNode) -> (c: u128)
    ensures
        c == place_code(*v),
{
    let time: i128 = if v.clocked {
        v.timestamp as i128
    } else {
        v.timestamp as i128 + 1
    };
    let shifted: u128 = (time + 0x8000_0000_0000_0000i128) as u128;
    (v.line as u128) * 0x2_0000_0000_0000_0000u128 + shifted
}

/// For every vertex its leader: the first vertex of the same file, line
/// and group time.
pub fn group_leaders(vertices: &Vec<ExportablePDGNode>) -> (leaders: Vec<usize>)
    ensures
        leaders.len() == vertices.len(),
        forall|v: int| 0 <= v < vertices.len() ==> #[trigger] leaders[v] == leader(vertices@, v),
{
    let mut leaders: Vec<usize> = Vec::new();
    let mut tables: Vec<FilePlaces> = Vec::new();
    let mut v: usize = 0;
    while v < vertices.len()
        invariant
            v <= vertices.len(),
            leaders.len() == v,
            forall|u: int| 0 <= u < v ==> #[trigger] leaders[u] == leader(vertices@, u),
            tables_ok(vertices@, tables@, v as int),
        decreases vertices.len() - v,
    {
        let ghost vs = vertices@;
        let ghost before = tables@;
        let code = place_code_of(&vertices[v]);
        // The table of the file, if a vertex of the file was seen.
        let mut k: usize = 0;
        let mut found = false;
        while k < tables.len()
            invariant_except_break
                !found,
            invariant
                k <= tables.len(),
                v < vertices.len(),
                tables@ == before,
                vs == vertices@,
                tables_ok(vs, tables@, v as int),
                forall|j: int| 0 <= j < k ==> vs[tables[j].first as int].file@ != vs[v as int].file@,
            ensures
                k <= tables.len(),
                found ==> k < tables.len() && vs[tables[k as int].first as int].file@
                    == vs[v as int].file@,
                !found ==> forall|j: int|
                    0 <= j < tables.len() ==> vs[tables[j].first as int].file@
                        != vs[v as int].file@,
            decreases tables.len() - k,
        {
            if same_text(vertices[tables[k].first].file.as_str(), vertices[v].file.as_str()) {
                found = true;
                break ;
            }
            k = k + 1;
        }
        let mine: usize;
        if found {
            proof {
                // The first vertex of the table is the first of the file of `v`.
                let f = tables[k as int].first as int;
                lemma_file_leader(vs, f, 0);
                lemma_file_leader_is(vs, v as int, f);
            }
            let known = match tables[k].places.get(&code) {
                Some(e) => Some(*e),
                None => None,
            };
            match known {
                Some(e) => {
                    proof {
                        lemma_leader(vs, e as int, 0);
                        lemma_same_code(vs[e as int], vs[v as int]);
                        lemma_file_leader(vs, e as int, 0);
                        lemma_leader_is(vs, v as int, e as int);
                    }
                    mine = e;
                },
                None => {
                    proof {
                        assert forall|u: int| 0 <= u < v implies !same_place(vs[u], vs[v as int]) by {
                            if same_place(vs[u], vs[v as int]) {
                                lemma_file_leader(vs, u, 0);
                                lemma_file_leader_is(vs, u, tables[k as int].first as int);
                                assert(tables[k as int].first == file_leader(vs, u));
                                lemma_same_code(vs[u], vs[v as int]);
                            }
                        }
                        lemma_leader_is(vs, v as int, v as int);
                    }
                    tables[k].places.insert(code, v);
                    mine = v;
                },
            }
        } else {
            proof {
                assert forall|u: int| 0 <= u < v implies vs[u].file@ != vs[v as int].file@ by {
                    assert(has_table(vs, tables@, u));
                    let j = choose|j: int|
                        0 <= j < tables.len() && (#[trigger] tables[j]).first == file_leader(vs, u);
                    lemma_file_leader(vs, u, 0);
                }
                lemma_file_leader_is(vs, v as int, v as int);
                assert forall|u: int| 0 <= u < v implies !same_place(vs[u], vs[v as int]) by {}
                lemma_leader_is(vs, v as int, v as int);
            }
            let mut places: HashMap<u128, usize> = HashMap::new();
            places.insert(code, v);
            tables.push(FilePlaces { first: v, places });
            mine = v;
        }
        leaders.push(mine);
        proof {
            lemma_tables_step(vs, before, tables@, v as int, k as int, found, mine as int);
        }
        v = v + 1;
    }
    leaders
}

/// Vertices at one place have one code, and vertices of one line and code stand at one time.
pub proof fn lemma_same_code(a: ExportablePDGNode, b: ExportablePDGNode)
    ensures
        place_code(a) == place_code(b) <==> (a.line == b.line && group_time(a) == group_time(b)),
        0 <= place_code(a) < 0x2_0000_0000_0000_0000_0000_0000,
{
}

/// The tables stay in order when vertex `v` is entered.
pub proof fn lemma_tables_step(
    vs: Seq<ExportablePDGNode>,
    before: Seq<FilePlaces>,
    after: Seq<FilePlaces>,
    v: int,
    k: int,
    found: bool,
    mine: int,
)
    requires
        0 <= v < vs.len(),
        v <= usize::MAX,
        tables_ok(vs, before, v),
        mine == leader(vs, v),
        found ==> {
            &&& 0 <= k < before.len()
            &&& after.len() == before.len()
            &&& before[k].first == file_leader(vs, v)
            &&& after[k].first == before[k].first
            &&& forall|j: int| 0 <= j < before.len() && j != k ==> after[j] == before[j]
            &&& (after[k].places@ == before[k].places@ && before[k].places@.contains_key(
                place_code(vs[v]) as u128,
            ) && before[k].places@[place_code(vs[v]) as u128] == mine) || (mine == v
                && !before[k].places@.contains_key(place_code(vs[v]) as u128)
                && after[k].places@ == before[k].places@.insert(
                place_code(vs[v]) as u128,
                v as usize,
            ))
        },
        !found ==> {
            &&& mine == v
            &&& file_leader(vs, v) == v
            &&& after.len() == before.len() + 1
            &&& forall|j: int| 0 <= j < before.len() ==> after[j] == before[j]
            &&& after[before.len() as int].first == v
            &&& after[before.len() as int].places@ == Map::<u128, usize>::empty().insert(
                place_code(vs[v]) as u128,
                v as usize,
            )
        },
    ensures
        tables_ok(vs, after, v + 1),
{
    let code = place_code(vs[v]) as u128;
    lemma_same_code(vs[v], vs[v]);
    assert forall|k2: int| 0 <= k2 < after.len() implies (#[trigger] after[k2]).first < v + 1
        && file_leader(vs, after[k2].first as int) == after[k2].first by {
        if k2 < before.len() {
            assert(before[k2].first < v);
            if found && k2 != k {
                assert(after[k2] == before[k2]);
            }
        }
    }
    assert forall|a: int, b: int| 0 <= a < b < after.len() implies (#[trigger] after[a]).first != (
    #[trigger] after[b]).first by {
        if found {
            assert(after[a].first == before[a].first);
            assert(after[b].first == before[b].first);
        } else if b < before.len() {
            assert(after[a] == before[a] && after[b] == before[b]);
        } else {
            assert(after[a] == before[a]);
            assert(before[a].first < v);
        }
    }
    assert forall|u: int| 0 <= u < v + 1 implies #[trigger] has_table(vs, after, u) by {
        if u < v {
            assert(has_table(vs, before, u));
            let k2 = choose|k2: int|
                0 <= k2 < before.len() && (#[trigger] before[k2]).first == file_leader(vs, u);
            if found && k2 != k {
                assert(after[k2] == before[k2]);
            }
            assert(after[k2].first == file_leader(vs, u));
        } else if found {
            assert(after[k].first == file_leader(vs, u));
        } else {
            assert(after[before.len() as int].first == file_leader(vs, u));
        }
    }
    assert forall|k2: int, c: u128|
        0 <= k2 < after.len() && #[trigger] after[k2].places@.contains_key(c) implies {
        let e = after[k2].places@[c];
        &&& e < v + 1
        &&& file_leader(vs, e as int) == after[k2].first
        &&& place_code(vs[e as int]) == c
        &&& leader(vs, e as int) == e
    } by {
        if found {
            if k2 != k {
                assert(after[k2] == before[k2]);
                assert(before[k2].places@.contains_key(c));
            } else if c == code && !before[k].places@.contains_key(code) {
                assert(after[k2].places@[c] == v);
            } else {
                assert(before[k2].places@.contains_key(c));
                assert(after[k2].places@[c] == before[k2].places@[c]);
            }
        } else {
            if k2 < before.len() {
                assert(after[k2] == before[k2]);
                assert(before[k2].places@.contains_key(c));
            } else {
                assert(c == code);
                assert(after[k2].places@[c] == v);
            }
        }
    }
    assert forall|u: int, k2: int|
        0 <= u < v + 1 && 0 <= k2 < after.len() && (#[trigger] after[k2]).first
            == #[trigger] file_leader(vs, u) implies after[k2].places@.contains_key(
        place_code(vs[u]) as u128,
    ) && after[k2].places@[place_code(vs[u]) as u128] == leader(vs, u) by {
        lemma_same_code(vs[u], vs[v]);
        lemma_file_leader(vs, u, 0);
        let cu = place_code(vs[u]) as u128;
        if found {
            if k2 != k {
                assert(after[k2] == before[k2]);
                if u == v {
                    // No file has two tables.
                    assert(before[k2].first == before[k].first);
                    if k2 < k {
                        assert(before[k2].first != before[k].first);
                    } else {
                        assert(before[k].first != before[k2].first);
                    }
                } else {
                    assert(before[k2].first == file_leader(vs, u));
                }
            } else {
                if u < v {
                    assert(before[k].first == file_leader(vs, u));
                    assert(before[k].places@.contains_key(cu));
                }
            }
        } else {
            if k2 < before.len() {
                assert(after[k2] == before[k2]);
                assert(before[k2].first < v);
                if u < v {
                    assert(before[k2].first == file_leader(vs, u));
                }
            } else {
                assert(after[k2].first == v);
                assert(u == v);
            }
        }
    }
}

} // verus!
