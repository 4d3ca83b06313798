//! Statements that are equal in every field: each stands under the first
//! statement that equals it.

use vstd::prelude::*;
use vstd::string::*;
use crate::interning::index_texts;
use crate::pdg_spec::{PDGSpecCondition, PDGSpecNode, PDGSpecRelatedSignal};
use crate::text::{lemma_representative, representative, same_text};

verus! {

/// The first vertex at or after `start` that equals vertex `v` in every field.
pub open spec fn class_from(vertices: Seq<PDGSpecNode>, v: int, start: int) -> int
    decreases v - start,
{
    if start >= v {
        v
    } else if vertices[start].deep_view() == vertices[v].deep_view() {
        start
    } else {
        class_from(vertices, v, start + 1)
    }
}

/// The class of vertex `v`: the first vertex that equals it in every field.
pub open spec fn class_of(vertices: Seq<PDGSpecNode>, v: int) -> int {
    class_from(vertices, v, 0)
}

/// The class of a vertex is a vertex equal to it, and no vertex before the class equals
/// it.
pub proof fn lemma_class(vertices: Seq<PDGSpecNode>, v: int, start: int)
    requires
        0 <= start <= v < vertices.len(),
    ensures
        start <= class_from(vertices, v, start) <= v,
        vertices[class_from(vertices, v, start)].deep_view() == vertices[v].deep_view(),
        forall|u: int|
            start <= u < class_from(vertices, v, start) ==> vertices[u].deep_view()
                != vertices[v].deep_view(),
    decreases v - start,
{
    if start < v && vertices[start].deep_view() != vertices[v].deep_view() {
        lemma_class(vertices, v, start + 1);
    }
}

/// The class of `v` is the vertex equal to it before which none equals it.
pub proof fn lemma_class_is(vertices: Seq<PDGSpecNode>, v: int, e: int)
    requires
        0 <= e <= v < vertices.len(),
        vertices[e].deep_view() == vertices[v].deep_view(),
        forall|u: int| 0 <= u < e ==> vertices[u].deep_view() != vertices[v].deep_view(),
    ensures
        class_of(vertices, v) == e,
{
    lemma_class(vertices, v, 0);
}

/// Tests whether two lists of texts are equal.
pub fn same_texts(a: &Vec<String>, b: &Vec<String>) -> (r: bool)
    ensures
        r == (a.deep_view() == b.deep_view()),
{
    if a.len() != b.len() {
        assert(a.deep_view().len() != b.deep_view().len());
        return false;
    }
    let mut i: usize = 0;
    while i < a.len()
        invariant
            i <= a.len(),
            a.len() == b.len(),
            forall|k: int| 0 <= k < i ==> a[k]@ == b[k]@,
        decreases a.len() - i,
    {
        if !same_text(a[i].as_str(), b[i].as_str()) {
            assert(a.deep_view()[i as int] != b.deep_view()[i as int]);
            return false;
        }
        i = i + 1;
    }
    assert(a.deep_view() =~= b.deep_view());
    true
}

fn same_numbers(a: &Vec<u64>, b: &Vec<u64>) -> (r: bool)
    ensures
        r == (a@ == b@),
{
    if a.len() != b.len() {
        return false;
    }
    let mut i: usize = 0;
    while i < a.len()
        invariant
            i <= a.len(),
            a.len() == b.len(),
            forall|k: int| 0 <= k < i ==> a[k] == b[k],
        decreases a.len() - i,
    {
        if a[i] != b[i] {
            return false;
        }
        i = i + 1;
    }
    assert(a@ =~= b@);
    true
}

/// Tests whether two conditions are equal, or both absent.
pub fn same_condition(a: &Option<PDGSpecCondition>, b: &Option<PDGSpecCondition>) -> (r: bool)
    ensures
        r == (a.deep_view() == b.deep_view()),
{
    match (a, b) {
        (Some(x), Some(y)) => same_texts(&x.probe_name, &y.probe_name) && same_numbers(
            &x.probe_value,
            &y.probe_value,
        ),
        (None, None) => true,
        _ => false,
    }
}

/// Tests whether two statements name one signal, or both none.
pub fn same_signal(a: &Option<PDGSpecRelatedSignal>, b: &Option<PDGSpecRelatedSignal>) -> (r: bool)
    ensures
        r == (a.deep_view() == b.deep_view()),
{
    match (a, b) {
        (Some(x), Some(y)) => same_text(x.signal_path.as_str(), y.signal_path.as_str())
            && same_text(x.field_path.as_str(), y.field_path.as_str()),
        (None, None) => true,
        _ => false,
    }
}

/// Tests whether two optional texts are equal.
pub fn same_symbol(a: &Option<String>, b: &Option<String>) -> (r: bool)
    ensures
        r == (a.deep_view() == b.deep_view()),
{
    match (a, b) {
        (Some(x), Some(y)) => same_text(x.as_str(), y.as_str()),
        (None, None) => true,
        _ => false,
    }
}

/// Tests whether two statements are equal in every field.
pub fn same_node(a: &PDGSpecNode, b: &PDGSpecNode) -> (r: bool)
    ensures
        r == (a.deep_view() == b.deep_view()),
{
    a.line == b.line && a.char == b.char && a.kind == b.kind && a.clocked == b.clocked
        && a.is_chisel_statement == b.is_chisel_statement && a.assign_delay == b.assign_delay
        && same_text(a.file.as_str(), b.file.as_str()) && same_text(a.name.as_str(), b.name.as_str())
        && same_signal(&a.related_signal, &b.related_signal) && same_symbol(
        &a.assigns_to,
        &b.assigns_to,
    ) && same_condition(&a.condition, &b.condition)
}

/// The names of the vertices, as keys.
pub open spec fn name_keys(vertices: Seq<PDGSpecNode>) -> Seq<Option<Seq<char>>> {
    Seq::new(vertices.len(), |v: int| Some(vertices[v].name@))
}

/// What the lists hold once the vertices below `v` are seen: under the
/// first vertex of every name the vertices of that name that are the
/// first of their class.
pub open spec fn lists_ok(vertices: Seq<PDGSpecNode>, members: Seq<Vec<usize>>, v: int) -> bool {
    let keys = name_keys(vertices);
    &&& members.len() == vertices.len()
    &&& forall|r: int, q: int|
        0 <= r < members.len() && 0 <= q < members[r].len() ==> {
            let u = #[trigger] members[r][q];
            &&& u < v
            &&& representative(keys, u as int) == Some(r)
            &&& class_of(vertices, u as int) == u
        }
    &&& forall|u: int|
        0 <= u < v && #[trigger] class_of(vertices, u) == u ==> members[representative(keys, u)->0]@.contains(
            u as usize,
        )
}

/// For every vertex its class.
pub fn classes(vertices: &Vec<PDGSpecNode>) -> (r: Vec<usize>)
    ensures
        r.len() == vertices.len(),
        forall|v: int| 0 <= v < vertices.len() ==> #[trigger] r[v] == class_of(vertices@, v),
{
    let n = vertices.len();
    let ghost vs = vertices@;
    let ghost keys = name_keys(vs);
    let mut names: Vec<Option<String>> = Vec::new();
    let mut i: usize = 0;
    while i < n
        invariant
            i <= n,
            n == vertices.len(),
            names.len() == i,
            forall|k: int| 0 <= k < i ==> (#[trigger] names[k]).deep_view() == Some(vertices[k].name@),
        decreases n - i,
    {
        names.push(Some(vertices[i].name.clone()));
        i = i + 1;
    }
    assert(names.deep_view() =~= keys);
    let (_, reps) = index_texts(&names);
    let mut members: Vec<Vec<usize>> = Vec::new();
    let mut m: usize = 0;
    while m < n
        invariant
            m <= n,
            members.len() == m,
            forall|k: int| 0 <= k < m ==> (#[trigger] members[k]).len() == 0,
        decreases n - m,
    {
        members.push(Vec::new());
        m = m + 1;
    }
    let mut r: Vec<usize> = Vec::new();
    let mut v: usize = 0;
    while v < n
        invariant
            v <= n,
            n == vertices.len(),
            vs == vertices@,
            keys == name_keys(vs),
            names.deep_view() == keys,
            reps.len() == n,
            forall|k: int|
                0 <= k < n ==> (#[trigger] reps[k] matches Some(x) ==> representative(keys, k)
                    == Some(x as int)),
            forall|k: int| 0 <= k < n ==> (#[trigger] reps[k] is None ==> representative(keys, k) is None),
            r.len() == v,
            forall|u: int| 0 <= u < v ==> #[trigger] r[u] == class_of(vs, u),
            lists_ok(vs, members@, v as int),
        decreases n - v,
    {
        proof {
            lemma_representative(keys, v as int, v as int);
        }
        let name_rep = match reps[v] {
            Some(x) => x,
            None => v,
        };
        let ghost before = members@;
        let mut found: Option<usize> = None;
        let mut q: usize = 0;
        while q < members[name_rep].len()
            invariant_except_break
                found is None,
            invariant
                q <= members[name_rep as int].len(),
                v < n,
                n == vertices.len(),
                vs == vertices@,
                name_rep < n,
                members@ == before,
                lists_ok(vs, members@, v as int),
                forall|k: int|
                    0 <= k < q ==> vs[members[name_rep as int][k] as int].deep_view()
                        != vs[v as int].deep_view(),
            ensures
                found matches Some(u) ==> u < v && class_of(vs, u as int) == u
                    && vs[u as int].deep_view() == vs[v as int].deep_view(),
                found is None ==> forall|k: int|
                    0 <= k < members[name_rep as int].len() ==> vs[members[name_rep as int][k] as int].deep_view()
                        != vs[v as int].deep_view(),
            decreases members[name_rep as int].len() - q,
        {
            let u = members[name_rep][q];
            if same_node(&vertices[u], &vertices[v]) {
                found = Some(u);
                break ;
            }
            q = q + 1;
        }
        let mine = match found {
            Some(u) => {
                proof {
                    lemma_class(vs, u as int, 0);
                    lemma_class_is(vs, v as int, u as int);
                }
                u
            },
            None => {
                proof {
                    assert forall|w: int| 0 <= w < v implies vs[w].deep_view() != vs[v as int].deep_view() by {
                        if vs[w].deep_view() == vs[v as int].deep_view() {
                            lemma_class(vs, w, 0);
                            let c = class_of(vs, w);
                            lemma_class(vs, c, 0);
                            lemma_class_is(vs, c, c);
                            assert(class_of(vs, c) == c);
                            lemma_representative(keys, c, v as int);
                            assert(before[name_rep as int]@.contains(c as usize));
                            let k = choose|k: int|
                                0 <= k < before[name_rep as int].len() && before[name_rep as int][k]
                                    == c as usize;
                            assert(vs[members[name_rep as int][k] as int].deep_view()
                                != vs[v as int].deep_view());
                        }
                    }
                    lemma_class_is(vs, v as int, v as int);
                }
                members[name_rep].push(v);
                v
            },
        };
        r.push(mine);
        proof {
            let after = members@;
            assert forall|x: int, y: int|
                0 <= x < after.len() && 0 <= y < after[x].len() implies {
                let u = #[trigger] after[x][y];
                &&& u < v + 1
                &&& representative(keys, u as int) == Some(x)
                &&& class_of(vs, u as int) == u
            } by {
                if found is None && x == name_rep && y == after[x].len() - 1 {
                } else {
                    assert(after[x][y] == before[x][y]);
                }
            }
            assert forall|u: int| 0 <= u < v + 1 && #[trigger] class_of(vs, u) == u implies after[representative(
                keys,
                u,
            )->0]@.contains(u as usize) by {
                lemma_representative(keys, u, u);
                let x = representative(keys, u)->0;
                if u < v {
                    assert(before[x]@.contains(u as usize));
                    let k = choose|k: int| 0 <= k < before[x].len() && before[x][k] == u as usize;
                    assert(after[x]@[k] == u as usize);
                } else {
                    assert(found is None);
                    assert(after[x]@[after[x].len() - 1] == v);
                }
            }
        }
        v = v + 1;
    }
    r
}

} // verus!
