//! A static graph by the lines of its source: the statements of one
//! line of one file become one vertex.

use vstd::prelude::*;
use vstd::string::*;
use crate::classes::{class_from, classes, same_condition};
use crate::merging::{file_name, file_name_of, first_occurrences};
use crate::pdg_spec::{
    EdgeView, NodeView, PDGSpec, PDGSpecCondition, PDGSpecEdge, PDGSpecEdgeKind, PDGSpecNode,
    PDGSpecNodeKind,
};
use crate::slicing::{edges_closed, keep_marked, marked_items};
use crate::text::clone_strings;
use crate::translation::{decimal, decimal_text};

verus! {

/// Whether two statements stand on one line of one file.
pub open spec fn same_line(a: PDGSpecNode, b: PDGSpecNode) -> bool {
    a.file@ == b.file@ && a.line == b.line
}

/// The first vertex at or after `start` that stands on the line of vertex `v`.
pub open spec fn line_leader_from(vertices: Seq<PDGSpecNode>, v: int, start: int) -> int
    decreases v - start,
{
    if start >= v {
        v
    } else if same_line(vertices[start], vertices[v]) {
        start
    } else {
        line_leader_from(vertices, v, start + 1)
    }
}

/// The first vertex that stands on the line of vertex `v`.
pub open spec fn line_leader(vertices: Seq<PDGSpecNode>, v: int) -> int {
    line_leader_from(vertices, v, 0)
}

/// How many of the first `upto` vertices are the first of their line.
pub open spec fn lines_below(vertices: Seq<PDGSpecNode>, upto: int) -> int
    decreases upto,
{
    if upto <= 0 {
        0
    } else {
        lines_below(vertices, upto - 1) + if line_leader(vertices, upto - 1) == upto - 1 {
            1int
        } else {
            0int
        }
    }
}

/// The number of the line of vertex `v`: lines are numbered in the
/// order in which their first vertices stand.
pub open spec fn line_number(vertices: Seq<PDGSpecNode>, v: int) -> int {
    lines_below(vertices, line_leader(vertices, v))
}

/// For every vertex whether it is the first of its line.
pub open spec fn first_marks(vertices: Seq<PDGSpecNode>) -> Seq<bool> {
    Seq::new(vertices.len(), |v: int| line_leader(vertices, v) == v)
}

/// A statement that holds the file and the line of `v` and nothing else of it.
pub open spec fn card_of(v: PDGSpecNode) -> PDGSpecNode {
    PDGSpecNode {
        file: v.file,
        line: v.line,
        char: 0,
        name: v.file,
        kind: PDGSpecNodeKind::Definition,
        clocked: false,
        related_signal: None,
        assigns_to: None,
        is_chisel_statement: false,
        condition: None,
        assign_delay: 0,
    }
}

proof fn lemma_cards(vertices: Seq<PDGSpecNode>, cards: Seq<PDGSpecNode>, v: int, start: int)
    requires
        cards.len() == vertices.len(),
        forall|u: int| 0 <= u < vertices.len() ==> (#[trigger] cards[u]).deep_view() == card_of(
            vertices[u],
        ).deep_view(),
        0 <= start <= v < vertices.len(),
    ensures
        class_from(cards, v, start) == line_leader_from(vertices, v, start),
    decreases v - start,
{
    if start < v {
        assert(cards[start].deep_view() == card_of(vertices[start]).deep_view());
        assert(cards[v].deep_view() == card_of(vertices[v]).deep_view());
        lemma_cards(vertices, cards, v, start + 1);
    }
}

/// The first vertex of a line stands on the line, and no vertex before it does.
pub proof fn lemma_line_leader(vertices: Seq<PDGSpecNode>, v: int, start: int)
    requires
        0 <= start <= v < vertices.len(),
    ensures
        start <= line_leader_from(vertices, v, start) <= v,
        same_line(vertices[line_leader_from(vertices, v, start)], vertices[v]),
        forall|u: int|
            start <= u < line_leader_from(vertices, v, start) ==> !same_line(
                vertices[u],
                vertices[v],
            ),
    decreases v - start,
{
    if start < v && !same_line(vertices[start], vertices[v]) {
        lemma_line_leader(vertices, v, start + 1);
    }
}

/// The first vertex of a line is its own leader.
pub proof fn lemma_leader_leads(vertices: Seq<PDGSpecNode>, v: int)
    requires
        0 <= v < vertices.len(),
    ensures
        line_leader(vertices, line_leader(vertices, v)) == line_leader(vertices, v),
{
    lemma_line_leader(vertices, v, 0);
    let l = line_leader(vertices, v);
    lemma_line_leader(vertices, l, 0);
}

/// The count of lines grows with the vertices and never exceeds their number.
pub proof fn lemma_lines_below(vertices: Seq<PDGSpecNode>, a: int, b: int)
    requires
        0 <= a <= b,
    ensures
        0 <= lines_below(vertices, a) <= lines_below(vertices, b) <= b,
        lines_below(vertices, a) <= a,
    decreases b,
{
    if a < b {
        lemma_lines_below(vertices, a, b - 1);
    } else if b > 0 {
        lemma_lines_below(vertices, a - 1, b - 1);
    }
}

/// For every vertex the first vertex of its line.
fn line_leaders(vertices: &Vec<PDGSpecNode>) -> (r: Vec<usize>)
    ensures
        r.len() == vertices.len(),
        forall|v: int| 0 <= v < vertices.len() ==> #[trigger] r[v] == line_leader(vertices@, v),
{
    let mut cards: Vec<PDGSpecNode> = Vec::new();
    let mut i: usize = 0;
    while i < vertices.len()
        invariant
            i <= vertices.len(),
            cards.len() == i,
            forall|u: int| 0 <= u < i ==> (#[trigger] cards[u]).deep_view() == card_of(
                vertices[u],
            ).deep_view(),
        decreases vertices.len() - i,
    {
        let v = &vertices[i];
        cards.push(
            PDGSpecNode {
                file: v.file.clone(),
                line: v.line,
                char: 0,
                name: v.file.clone(),
                kind: PDGSpecNodeKind::Definition,
                clocked: false,
                related_signal: None,
                assigns_to: None,
                is_chisel_statement: false,
                condition: None,
                assign_delay: 0,
            },
        );
        i = i + 1;
    }
    let r = classes(&cards);
    proof {
        assert forall|v: int| 0 <= v < vertices.len() implies #[trigger] r[v] == line_leader(
            vertices@,
            v,
        ) by {
            lemma_cards(vertices@, cards@, v, 0);
        }
    }
    r
}

/// The numbers of the lines of all vertices, and for every vertex
/// whether it is the first of its line.
fn number_lines(vertices: &Vec<PDGSpecNode>, leaders: &Vec<usize>) -> (r: (Vec<u32>, Vec<bool>))
    requires
        vertices.len() <= u32::MAX,
        leaders.len() == vertices.len(),
        forall|v: int| 0 <= v < vertices.len() ==> #[trigger] leaders[v] == line_leader(vertices@, v),
    ensures
        r.0.len() == vertices.len(),
        forall|v: int| 0 <= v < vertices.len() ==> #[trigger] r.0[v] == line_number(vertices@, v),
        r.1@ == first_marks(vertices@),
{
    let ghost vs = vertices@;
    let n = vertices.len();
    let mut numbers: Vec<u32> = Vec::new();
    let mut marks: Vec<bool> = Vec::new();
    let mut count: u32 = 0;
    let mut v: usize = 0;
    while v < n
        invariant
            v <= n,
            n == vertices.len(),
            n <= u32::MAX,
            vs == vertices@,
            leaders.len() == n,
            forall|u: int| 0 <= u < n ==> #[trigger] leaders[u] == line_leader(vs, u),
            numbers.len() == v,
            marks.len() == v,
            count == lines_below(vs, v as int),
            forall|u: int| 0 <= u < v ==> #[trigger] numbers[u] == line_number(vs, u),
            forall|u: int| 0 <= u < v ==> #[trigger] marks[u] == (line_leader(vs, u) == u),
        decreases n - v,
    {
        proof {
            lemma_line_leader(vs, v as int, 0);
            lemma_leader_leads(vs, v as int);
            lemma_lines_below(vs, v as int, v as int);
        }
        let l = leaders[v];
        if l == v {
            numbers.push(count);
            marks.push(true);
            count = count + 1;
        } else {
            assert(numbers[l as int] == line_number(vs, l as int));
            numbers.push(numbers[l]);
            marks.push(false);
        }
        v = v + 1;
    }
    assert(marks@ =~= first_marks(vs));
    (numbers, marks)
}

/// The number of the line of every vertex.
pub open spec fn line_numbers(vertices: Seq<PDGSpecNode>) -> Seq<u32> {
    Seq::new(vertices.len(), |v: int| line_number(vertices, v) as u32)
}

/// An edge between the lines of its ends.
pub open spec fn moved(e: EdgeView, numbers: Seq<u32>) -> EdgeView {
    EdgeView { from: numbers[e.from as int], to: numbers[e.to as int], ..e }
}

/// The first `upto` edges between the lines of their ends, without
/// those that stay on one line.
pub open spec fn moved_edges(edges: Seq<EdgeView>, numbers: Seq<u32>, upto: int) -> Seq<EdgeView>
    decreases upto,
{
    if upto <= 0 {
        seq![]
    } else {
        let rest = moved_edges(edges, numbers, upto - 1);
        let e = moved(edges[upto - 1], numbers);
        if e.from != e.to {
            rest.push(e)
        } else {
            rest
        }
    }
}

/// Whether a clocked data edge joins two vertices whose lines both
/// have the number `own`.
pub open spec fn loops_back(edges: Seq<EdgeView>, numbers: Seq<u32>, own: u32, upto: int) -> bool {
    exists|k: int|
        0 <= k < upto && numbers[(#[trigger] edges[k]).to as int] == own
            && numbers[edges[k].from as int] == own && edges[k].clocked && edges[k].kind
            == PDGSpecEdgeKind::Data
}

/// A clocked data edge from `own` to itself.
pub open spec fn self_edge(own: u32) -> EdgeView {
    EdgeView { from: own, to: own, kind: PDGSpecEdgeKind::Data, clocked: true, condition: None }
}

/// For every one among the first `upto` vertices that is the first of
/// its line and whose position is the number of a line with a clocked
/// data edge inside it, an edge from that position to itself.
pub open spec fn self_edges(
    vertices: Seq<PDGSpecNode>,
    edges: Seq<EdgeView>,
    numbers: Seq<u32>,
    upto: int,
) -> Seq<EdgeView>
    decreases upto,
{
    if upto <= 0 {
        seq![]
    } else {
        let rest = self_edges(vertices, edges, numbers, upto - 1);
        if line_leader(vertices, upto - 1) == upto - 1 && loops_back(
            edges,
            numbers,
            (upto - 1) as u32,
            edges.len() as int,
        ) {
            rest.push(self_edge((upto - 1) as u32))
        } else {
            rest
        }
    }
}

/// The edges of the graph by lines: every edge between two lines once,
/// then the edges of lines to themselves.
pub open spec fn line_edges(vertices: Seq<PDGSpecNode>, edges: Seq<EdgeView>) -> Seq<EdgeView> {
    let numbers = line_numbers(vertices);
    let between = moved_edges(edges, numbers, edges.len() as int);
    first_occurrences(between, between.len() as int) + self_edges(
        vertices,
        edges,
        numbers,
        vertices.len() as int,
    )
}

/// Whether one of the first `upto` vertices stands on the line of `leader` and has the kind `kind`.
pub open spec fn line_has(
    vertices: Seq<PDGSpecNode>,
    leader: int,
    kind: PDGSpecNodeKind,
    upto: int,
) -> bool {
    exists|v: int|
        0 <= v < upto && line_leader(vertices, v) == leader && (#[trigger] vertices[v]).kind == kind
}

/// The kind of a line: input or output if one of its statements is,
/// else a connection if one is a connection or a data definition, else
/// control flow if one is, else a definition.
pub open spec fn line_kind(vertices: Seq<PDGSpecNode>, leader: int) -> PDGSpecNodeKind {
    let n = vertices.len() as int;
    if line_has(vertices, leader, PDGSpecNodeKind::IO, n) {
        PDGSpecNodeKind::IO
    } else if line_has(vertices, leader, PDGSpecNodeKind::DataDefinition, n) || line_has(
        vertices,
        leader,
        PDGSpecNodeKind::Connection,
        n,
    ) {
        PDGSpecNodeKind::Connection
    } else if line_has(vertices, leader, PDGSpecNodeKind::ControlFlow, n) {
        PDGSpecNodeKind::ControlFlow
    } else {
        PDGSpecNodeKind::Definition
    }
}

/// The vertex that the line of `leader` becomes: its first statement
/// under the name of file and line, with the kind of the line.
pub open spec fn line_vertex(vertices: Seq<PDGSpecNode>, leader: int) -> NodeView {
    let first = vertices[leader].deep_view();
    NodeView {
        name: file_name(first.file) + ":"@ + decimal(first.line as nat),
        kind: line_kind(vertices, leader),
        ..first
    }
}

/// The vertices of the graph by lines, in the order of their first statements.
pub open spec fn line_vertices(vertices: Seq<PDGSpecNode>) -> Seq<NodeView> {
    marked_items(
        Seq::new(vertices.len(), |v: int| line_vertex(vertices, v)),
        first_marks(vertices),
        vertices.len() as int,
    )
}

/// The positions among the first `upto` that carry a mark, ascending.
pub open spec fn marked_places(marks: Seq<bool>, upto: int) -> Seq<usize>
    decreases upto,
{
    if upto <= 0 {
        seq![]
    } else if marks[upto - 1] {
        marked_places(marks, upto - 1).push((upto - 1) as usize)
    } else {
        marked_places(marks, upto - 1)
    }
}

proof fn lemma_marked_places<T>(items: Seq<T>, marks: Seq<bool>, upto: int)
    requires
        0 <= upto <= items.len(),
        upto <= usize::MAX,
    ensures
        marked_items(items, marks, upto).len() == marked_places(marks, upto).len(),
        forall|i: int|
            0 <= i < marked_places(marks, upto).len() ==> (#[trigger] marked_places(marks, upto)[i])
                < upto && marks[marked_places(marks, upto)[i] as int] && marked_items(
                items,
                marks,
                upto,
            )[i] == items[marked_places(marks, upto)[i] as int],
    decreases upto,
{
    if upto > 0 {
        lemma_marked_places(items, marks, upto - 1);
    }
}

fn clone_numbers(v: &Vec<u64>) -> (r: Vec<u64>)
    ensures
        r@ == v@,
{
    let mut r: Vec<u64> = Vec::new();
    let mut i: usize = 0;
    while i < v.len()
        invariant
            i <= v.len(),
            r@ == v@.take(i as int),
        decreases v.len() - i,
    {
        r.push(v[i]);
        assert(v@.take(i + 1) =~= v@.take(i as int).push(v[i as int]));
        i = i + 1;
    }
    assert(v@.take(v.len() as int) =~= v@);
    r
}

fn clone_edge(e: &PDGSpecEdge) -> (r: PDGSpecEdge)
    ensures
        r.deep_view() == e.deep_view(),
{
    PDGSpecEdge {
        from: e.from,
        to: e.to,
        kind: e.kind,
        clocked: e.clocked,
        condition: match &e.condition {
            Some(c) => Some(
                PDGSpecCondition {
                    probe_name: clone_strings(&c.probe_name),
                    probe_value: clone_numbers(&c.probe_value),
                },
            ),
            None => None,
        },
    }
}

/// Tests whether two edges are equal in every field.
pub fn same_edge(a: &PDGSpecEdge, b: &PDGSpecEdge) -> (r: bool)
    ensures
        r == (a.deep_view() == b.deep_view()),
{
    a.from == b.from && a.to == b.to && a.kind == b.kind && a.clocked == b.clocked
        && same_condition(&a.condition, &b.condition)
}

/// The edges between lines, each once.
fn edges_between(edges: &Vec<PDGSpecEdge>, numbers: &Vec<u32>) -> (r: Vec<PDGSpecEdge>)
    requires
        edges_closed(edges@, numbers.len() as int),
    ensures
        r.deep_view() == first_occurrences(
            moved_edges(edges.deep_view(), numbers@, edges.len() as int),
            moved_edges(edges.deep_view(), numbers@, edges.len() as int).len() as int,
        ),
{
    let ghost es = edges.deep_view();
    let ghost wanted = moved_edges(es, numbers@, edges.len() as int);
    let mut r: Vec<PDGSpecEdge> = Vec::new();
    let ghost mut seen: int = 0;
    assert(r.deep_view() =~= first_occurrences(moved_edges(es, numbers@, 0), 0));
    let mut k: usize = 0;
    while k < edges.len()
        invariant
            k <= edges.len(),
            es == edges.deep_view(),
            edges_closed(edges@, numbers.len() as int),
            seen == moved_edges(es, numbers@, k as int).len(),
            r.deep_view() == first_occurrences(moved_edges(es, numbers@, k as int), seen),
        decreases edges.len() - k,
    {
        let e = &edges[k];
        assert(es[k as int] == e.deep_view());
        let from = numbers[e.from as usize];
        let to = numbers[e.to as usize];
        let ghost before = moved_edges(es, numbers@, k as int);
        let ghost after = moved_edges(es, numbers@, k + 1);
        if from != to {
            let mut edge = clone_edge(e);
            edge.from = from;
            edge.to = to;
            assert(edge.deep_view() == moved(es[k as int], numbers@));
            assert(after == before.push(edge.deep_view()));
            proof {
                lemma_occurrences_prefix(before, after, seen);
            }
            let ghost kept = r.deep_view();
            let mut known = false;
            let mut q: usize = 0;
            while q < r.len()
                invariant_except_break
                    !known,
                invariant
                    q <= r.len(),
                    kept == r.deep_view(),
                    forall|j: int| 0 <= j < q ==> kept[j] != edge.deep_view(),
                ensures
                    known == kept.contains(edge.deep_view()),
                decreases r.len() - q,
            {
                assert(kept[q as int] == r[q as int].deep_view());
                if same_edge(&r[q], &edge) {
                    known = true;
                    break ;
                }
                q = q + 1;
            }
            if !known {
                r.push(edge);
                assert(r.deep_view() =~= kept.push(after[seen]));
            }
            proof {
                seen = seen + 1;
            }
        }
        k = k + 1;
    }
    r
}

/// The first occurrences among a prefix of a list are those among the
/// same prefix of a longer list.
proof fn lemma_occurrences_prefix<T>(a: Seq<T>, b: Seq<T>, upto: int)
    requires
        0 <= upto <= a.len() <= b.len(),
        forall|i: int| 0 <= i < a.len() ==> a[i] == b[i],
    ensures
        first_occurrences(a, upto) == first_occurrences(b, upto),
    decreases upto,
{
    if upto > 0 {
        lemma_occurrences_prefix(a, b, upto - 1);
    }
}

/// The edges of lines to themselves.
fn edges_inside(
    vertices: &Vec<PDGSpecNode>,
    edges: &Vec<PDGSpecEdge>,
    numbers: &Vec<u32>,
    marks: &Vec<bool>,
) -> (r: Vec<PDGSpecEdge>)
    requires
        vertices.len() <= u32::MAX,
        numbers.len() == vertices.len(),
        marks@ == first_marks(vertices@),
        edges_closed(edges@, vertices.len() as int),
    ensures
        r.deep_view() == self_edges(
            vertices@,
            edges.deep_view(),
            numbers@,
            vertices.len() as int,
        ),
{
    let ghost vs = vertices@;
    let ghost es = edges.deep_view();
    let n = vertices.len();
    let mut r: Vec<PDGSpecEdge> = Vec::new();
    assert(r.deep_view() =~= self_edges(vs, es, numbers@, 0));
    let mut v: usize = 0;
    while v < n
        invariant
            v <= n,
            n == vertices.len(),
            n <= u32::MAX,
            vs == vertices@,
            es == edges.deep_view(),
            numbers.len() == n,
            marks@ == first_marks(vs),
            edges_closed(edges@, n as int),
            r.deep_view() == self_edges(vs, es, numbers@, v as int),
        decreases n - v,
    {
        if marks[v] {
            let own = v as u32;
            let mut found = false;
            let mut k: usize = 0;
            while k < edges.len()
                invariant_except_break
                    !found,
                invariant
                    k <= edges.len(),
                    es == edges.deep_view(),
                    numbers.len() == n,
                    edges_closed(edges@, n as int),
                    !loops_back(es, numbers@, own, k as int),
                ensures
                    found == loops_back(es, numbers@, own, edges.len() as int),
                decreases edges.len() - k,
            {
                let e = &edges[k];
                assert(es[k as int] == e.deep_view());
                if numbers[e.to as usize] == own && numbers[e.from as usize] == own && e.clocked
                    && e.kind == PDGSpecEdgeKind::Data {
                    found = true;
                    break ;
                }
                k = k + 1;
            }
            if found {
                let ghost before = r.deep_view();
                r.push(
                    PDGSpecEdge {
                        from: own,
                        to: own,
                        kind: PDGSpecEdgeKind::Data,
                        clocked: true,
                        condition: None,
                    },
                );
                assert(r.deep_view() =~= before.push(self_edge(own)));
            }
        }
        v = v + 1;
    }
    r
}

/// The kind of the line of every vertex that is the first of its line.
fn line_kinds(vertices: &Vec<PDGSpecNode>, leaders: &Vec<usize>) -> (r: Vec<PDGSpecNodeKind>)
    requires
        leaders.len() == vertices.len(),
        forall|v: int| 0 <= v < vertices.len() ==> #[trigger] leaders[v] == line_leader(vertices@, v),
    ensures
        r.len() == vertices.len(),
        forall|v: int| 0 <= v < vertices.len() ==> #[trigger] r[v] == line_kind(vertices@, v),
{
    let ghost vs = vertices@;
    let n = vertices.len();
    let mut io: Vec<bool> = Vec::new();
    let mut data: Vec<bool> = Vec::new();
    let mut cond: Vec<bool> = Vec::new();
    let mut i: usize = 0;
    while i < n
        invariant
            i <= n,
            io.len() == i,
            data.len() == i,
            cond.len() == i,
            forall|u: int| 0 <= u < i ==> !(#[trigger] io[u]),
            forall|u: int| 0 <= u < i ==> !(#[trigger] data[u]),
            forall|u: int| 0 <= u < i ==> !(#[trigger] cond[u]),
        decreases n - i,
    {
        io.push(false);
        data.push(false);
        cond.push(false);
        i = i + 1;
    }
    let mut v: usize = 0;
    while v < n
        invariant
            v <= n,
            n == vertices.len(),
            vs == vertices@,
            leaders.len() == n,
            forall|u: int| 0 <= u < n ==> #[trigger] leaders[u] == line_leader(vs, u),
            io.len() == n,
            data.len() == n,
            cond.len() == n,
            forall|l: int|
                0 <= l < n ==> #[trigger] io[l] == line_has(vs, l, PDGSpecNodeKind::IO, v as int),
            forall|l: int|
                0 <= l < n ==> #[trigger] data[l] == (line_has(
                    vs,
                    l,
                    PDGSpecNodeKind::DataDefinition,
                    v as int,
                ) || line_has(vs, l, PDGSpecNodeKind::Connection, v as int)),
            forall|l: int|
                0 <= l < n ==> #[trigger] cond[l] == line_has(
                    vs,
                    l,
                    PDGSpecNodeKind::ControlFlow,
                    v as int,
                ),
        decreases n - v,
    {
        proof {
            lemma_line_leader(vs, v as int, 0);
        }
        let l = leaders[v];
        let kind = vertices[v].kind;
        match kind {
            PDGSpecNodeKind::IO => {
                io.set(l, true);
            },
            PDGSpecNodeKind::DataDefinition => {
                data.set(l, true);
            },
            PDGSpecNodeKind::Connection => {
                data.set(l, true);
            },
            PDGSpecNodeKind::ControlFlow => {
                cond.set(l, true);
            },
            PDGSpecNodeKind::Definition => {},
        }
        proof {
            assert forall|x: int, k: PDGSpecNodeKind| 0 <= x < n implies #[trigger] line_has(
                vs,
                x,
                k,
                v + 1,
            ) == (line_has(vs, x, k, v as int) || (x == l && k == kind)) by {
                if line_has(vs, x, k, v + 1) {
                    let w = choose|w: int|
                        0 <= w < v + 1 && line_leader(vs, w) == x && (#[trigger] vs[w]).kind == k;
                    if w < v {
                        assert(line_has(vs, x, k, v as int));
                    }
                }
                if line_has(vs, x, k, v as int) {
                    let w = choose|w: int|
                        0 <= w < v && line_leader(vs, w) == x && (#[trigger] vs[w]).kind == k;
                    assert(vs[w].kind == k);
                }
                if x == l && k == kind {
                    assert(vs[v as int].kind == k);
                }
            }
        }
        v = v + 1;
    }
    let mut r: Vec<PDGSpecNodeKind> = Vec::new();
    let mut l: usize = 0;
    while l < n
        invariant
            l <= n,
            n == vertices.len(),
            vs == vertices@,
            io.len() == n,
            data.len() == n,
            cond.len() == n,
            forall|x: int|
                0 <= x < n ==> #[trigger] io[x] == line_has(vs, x, PDGSpecNodeKind::IO, n as int),
            forall|x: int|
                0 <= x < n ==> #[trigger] data[x] == (line_has(
                    vs,
                    x,
                    PDGSpecNodeKind::DataDefinition,
                    n as int,
                ) || line_has(vs, x, PDGSpecNodeKind::Connection, n as int)),
            forall|x: int|
                0 <= x < n ==> #[trigger] cond[x] == line_has(
                    vs,
                    x,
                    PDGSpecNodeKind::ControlFlow,
                    n as int,
                ),
            r.len() == l,
            forall|x: int| 0 <= x < l ==> #[trigger] r[x] == line_kind(vs, x),
        decreases n - l,
    {
        let kind = if io[l] {
            PDGSpecNodeKind::IO
        } else if data[l] {
            PDGSpecNodeKind::Connection
        } else if cond[l] {
            PDGSpecNodeKind::ControlFlow
        } else {
            PDGSpecNodeKind::Definition
        };
        r.push(kind);
        l = l + 1;
    }
    r
}

/// Groups the statements of a graph by the lines of the source. Every
/// line of a file becomes one vertex: its first statement under the name
/// of file and line, with the kind of the line. The lines stand in the
/// order of their first statements. An edge between two lines is kept
/// once; an edge inside a line is dropped. Behind them stands a clocked
/// data edge from a first statement to itself, where its position is the
/// number of a line that holds a clocked data edge. Predicates and
/// control flow stay as they are.
pub fn pdg_convert(pdg: PDGSpec) -> (r: PDGSpec)
    requires
        pdg.vertices.len() <= u32::MAX,
        edges_closed(pdg.edges@, pdg.vertices.len() as int),
    ensures
        r.vertices.deep_view() == line_vertices(pdg.vertices@),
        r.edges.deep_view() == line_edges(pdg.vertices@, pdg.edges.deep_view()),
        r.predicates == pdg.predicates,
        r.cfg == pdg.cfg,
{
    let ghost vs = pdg.vertices@;
    let n = pdg.vertices.len();
    let leaders = line_leaders(&pdg.vertices);
    let (numbers, marks) = number_lines(&pdg.vertices, &leaders);
    let kinds = line_kinds(&pdg.vertices, &leaders);
    proof {
        assert forall|v: int| 0 <= v < n implies #[trigger] numbers[v] == line_numbers(vs)[v] by {
            lemma_line_leader(vs, v, 0);
            lemma_lines_below(vs, line_leader(vs, v), n as int);
        }
        assert(numbers@ =~= line_numbers(vs));
    }
    let mut edges = edges_between(&pdg.edges, &numbers);
    let mut inside = edges_inside(&pdg.vertices, &pdg.edges, &numbers, &marks);
    let ghost between = edges.deep_view();
    let ghost own = inside.deep_view();
    edges.append(&mut inside);
    assert(edges.deep_view() =~= between + own);
    let mut places: Vec<usize> = Vec::new();
    let mut v: usize = 0;
    while v < n
        invariant
            v <= n,
            marks.len() == n,
            places@ == marked_places(marks@, v as int),
        decreases n - v,
    {
        if marks[v] {
            places.push(v);
        }
        v = v + 1;
    }
    let PDGSpec { vertices, edges: _, predicates, cfg } = pdg;
    let mut firsts = keep_marked(vertices, &marks);
    let ghost cards = Seq::new(n as nat, |v: int| line_vertex(vs, v));
    proof {
        lemma_marked_places(vs, marks@, n as int);
        lemma_marked_places(cards, marks@, n as int);
    }
    let ghost start = firsts@;
    let mut i: usize = 0;
    while i < firsts.len()
        invariant
            i <= firsts.len(),
            firsts.len() == places.len(),
            firsts.len() == start.len(),
            kinds.len() == n,
            n == vs.len(),
            forall|x: int| 0 <= x < n ==> #[trigger] kinds[x] == line_kind(vs, x),
            forall|x: int|
                0 <= x < places.len() ==> (#[trigger] places[x]) < n && start[x] == vs[places[x] as int],
            forall|x: int| 0 <= x < i ==> (#[trigger] firsts[x]).deep_view() == line_vertex(
                vs,
                places[x] as int,
            ),
            forall|x: int| i <= x < firsts.len() ==> #[trigger] firsts[x] == start[x],
        decreases firsts.len() - i,
    {
        proof {
            reveal_strlit(":");
        }
        let name = file_name_of(firsts[i].file.as_str()).concat(":").concat(
            decimal_text(firsts[i].line as u128).as_str(),
        );
        let kind = kinds[places[i]];
        firsts[i].name = name;
        firsts[i].kind = kind;
        i = i + 1;
    }
    proof {
        let wanted = line_vertices(vs);
        assert(firsts.deep_view().len() == wanted.len());
        assert forall|x: int| 0 <= x < wanted.len() implies firsts.deep_view()[x] == wanted[x] by {
            assert(firsts.deep_view()[x] == firsts[x].deep_view());
        }
        assert(firsts.deep_view() =~= wanted);
    }
    PDGSpec { vertices: firsts, edges, predicates, cfg }
}

} // verus!
