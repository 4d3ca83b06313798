//! From parts to a smaller graph: every part becomes one vertex, every
//! edge between two parts one edge.

use itertools::Itertools;
use vstd::prelude::*;
use vstd::string::*;
use crate::pdg_spec::{
    ExportNodeView, ExportablePDGEdge, ExportablePDGNode, PDGSpecEdgeKind, PDGSpecNodeKind,
    PDGSpecRelatedSignal,
};
use crate::redirect::edges_within;
use crate::text::{clone_strings, split, split_on};
use crate::translation::{decimal, decimal_text, lemma_split_some, signed_decimal};

verus! {

/// The part of every vertex after the members of part `g` are entered.
pub open spec fn enter_part(map: Seq<Option<u32>>, group: Seq<usize>, g: int, upto: int) -> Seq<
    Option<u32>,
>
    decreases upto,
{
    if upto <= 0 {
        map
    } else {
        enter_part(map, group, g, upto - 1).update(group[upto - 1] as int, Some(g as u32))
    }
}

/// For every one of `n` vertices the part that it is a member of, once
/// the first `upto` parts are entered; a vertex of no part has none.
pub open spec fn part_map(groups: Seq<Seq<usize>>, n: nat, upto: int) -> Seq<Option<u32>>
    decreases upto,
{
    if upto <= 0 {
        Seq::new(n, |v: int| None::<u32>)
    } else {
        enter_part(
            part_map(groups, n, upto - 1),
            groups[upto - 1],
            upto - 1,
            groups[upto - 1].len() as int,
        )
    }
}

/// Entering a part keeps the size of the map, and its numbers below the limit.
pub proof fn lemma_enter_part(map: Seq<Option<u32>>, group: Seq<usize>, g: int, upto: int, limit: int)
    requires
        0 <= upto <= group.len(),
        0 <= g < limit <= u32::MAX,
        forall|j: int| 0 <= j < group.len() ==> (#[trigger] group[j]) < map.len(),
        forall|v: int| 0 <= v < map.len() ==> (#[trigger] map[v] matches Some(x) ==> x < limit),
    ensures
        enter_part(map, group, g, upto).len() == map.len(),
        forall|v: int|
            0 <= v < map.len() ==> (#[trigger] enter_part(map, group, g, upto)[v] matches Some(x)
                ==> x < limit),
    decreases upto,
{
    if upto > 0 {
        lemma_enter_part(map, group, g, upto - 1, limit);
    }
}

/// For every vertex the part that it is a member of.
pub fn part_of(groups: &Vec<Vec<usize>>, n: usize) -> (map: Vec<Option<u32>>)
    requires
        groups.len() <= u32::MAX,
        forall|g: int, j: int|
            0 <= g < groups.len() && 0 <= j < groups[g].len() ==> (#[trigger] groups[g][j]) < n,
    ensures
        map@ == part_map(
            Seq::new(groups.len() as nat, |g: int| groups[g]@),
            n as nat,
            groups.len() as int,
        ),
        map.len() == n,
        forall|v: int| 0 <= v < n ==> (#[trigger] map[v] matches Some(x) ==> x < groups.len()),
{
    let ghost gs = Seq::new(groups.len() as nat, |g: int| groups[g]@);
    let mut map: Vec<Option<u32>> = Vec::new();
    let mut v: usize = 0;
    while v < n
        invariant
            v <= n,
            map.len() == v,
            forall|u: int| 0 <= u < v ==> #[trigger] map[u] is None,
        decreases n - v,
    {
        map.push(None);
        v = v + 1;
    }
    assert(map@ =~= part_map(gs, n as nat, 0));
    let mut g: usize = 0;
    while g < groups.len()
        invariant
            g <= groups.len(),
            groups.len() <= u32::MAX,
            gs == Seq::new(groups.len() as nat, |g: int| groups[g]@),
            map.len() == n,
            forall|a: int, j: int|
                0 <= a < groups.len() && 0 <= j < groups[a].len() ==> (#[trigger] groups[a][j]) < n,
            forall|v: int| 0 <= v < n ==> (#[trigger] map[v] matches Some(x) ==> x < groups.len()),
            map@ == part_map(gs, n as nat, g as int),
        decreases groups.len() - g,
    {
        let group = &groups[g];
        let ghost before = map@;
        assert(gs[g as int] == group@);
        let mut j: usize = 0;
        while j < group.len()
            invariant
                j <= group.len(),
                g < groups.len(),
                groups.len() <= u32::MAX,
                group == &groups[g as int],
                map.len() == n,
                before.len() == n,
                forall|j: int| 0 <= j < group.len() ==> (#[trigger] group[j]) < n,
                forall|v: int| 0 <= v < n ==> (#[trigger] before[v] matches Some(x) ==> x < groups.len()),
                map@ == enter_part(before, group@, g as int, j as int),
            decreases group.len() - j,
        {
            map.set(group[j], Some(g as u32));
            j = j + 1;
        }
        proof {
            lemma_enter_part(before, group@, g as int, group.len() as int, groups.len() as int);
        }
        g = g + 1;
    }
    map
}

/// The edges between parts that the first `upto` edges give: an edge both
/// of whose ends are members of parts, and of different ones, leads from
/// the part of the one to the part of the other.
pub open spec fn between_parts(edges: Seq<ExportablePDGEdge>, map: Seq<Option<u32>>, upto: int)
    -> Seq<ExportablePDGEdge>
    decreases upto,
{
    if upto <= 0 {
        seq![]
    } else {
        let rest = between_parts(edges, map, upto - 1);
        let e = edges[upto - 1];
        match (map[e.from as int], map[e.to as int]) {
            (Some(from), Some(to)) => if from != to {
                rest.push(ExportablePDGEdge { from, to, kind: e.kind, clocked: e.clocked })
            } else {
                rest
            },
            _ => rest,
        }
    }
}

/// No edge between parts leads from a part to itself.
pub proof fn lemma_between_parts(edges: Seq<ExportablePDGEdge>, map: Seq<Option<u32>>, upto: int)
    ensures
        forall|k: int|
            0 <= k < between_parts(edges, map, upto).len() ==> (#[trigger] between_parts(
                edges,
                map,
                upto,
            )[k]).from != between_parts(edges, map, upto)[k].to,
    decreases upto,
{
    if upto > 0 {
        lemma_between_parts(edges, map, upto - 1);
        let rest = between_parts(edges, map, upto - 1);
        let all = between_parts(edges, map, upto);
        assert forall|k: int| 0 <= k < all.len() implies (#[trigger] all[k]).from != all[k].to by {
            if k < rest.len() {
                assert(all[k] == rest[k]);
            }
        }
    }
}

/// The edges between the parts of a graph.
pub fn outgoing_edges(edges: &Vec<ExportablePDGEdge>, map: &Vec<Option<u32>>, limit: usize) -> (r:
    Vec<ExportablePDGEdge>)
    requires
        edges_within(edges@, map.len() as int),
        forall|v: int| 0 <= v < map.len() ==> (#[trigger] map[v] matches Some(x) ==> x < limit),
    ensures
        r@ == between_parts(edges@, map@, edges.len() as int),
        edges_within(r@, limit as int),
{
    let mut r: Vec<ExportablePDGEdge> = Vec::new();
    let mut k: usize = 0;
    while k < edges.len()
        invariant
            k <= edges.len(),
            edges_within(edges@, map.len() as int),
            forall|v: int| 0 <= v < map.len() ==> (#[trigger] map[v] matches Some(x) ==> x < limit),
            r@ == between_parts(edges@, map@, k as int),
            edges_within(r@, limit as int),
        decreases edges.len() - k,
    {
        let e = edges[k];
        let ghost before = r@;
        match (map[e.from as usize], map[e.to as usize]) {
            (Some(from), Some(to)) => {
                if from != to {
                    r.push(ExportablePDGEdge { from, to, kind: e.kind, clocked: e.clocked });
                    assert forall|q: int| 0 <= q < r@.len() implies (#[trigger] r@[q]).from < limit
                        && r@[q].to < limit by {
                        if q < before.len() {
                            assert(r@[q] == before[q]);
                        }
                    }
                }
            },
            _ => {},
        }
        k = k + 1;
    }
    r
}

/// A number for every edge, one for each.
pub open spec fn edge_code(e: ExportablePDGEdge) -> int {
    ((e.from * 0x1_0000_0000 + e.to) * 4 + (match e.kind {
        PDGSpecEdgeKind::Data => 0int,
        PDGSpecEdgeKind::Conditional => 1int,
        PDGSpecEdgeKind::Declaration => 2int,
        PDGSpecEdgeKind::Index => 3int,
    })) * 2 + (if e.clocked {
        1int
    } else {
        0int
    })
}

/// The number of an edge.
pub fn encode_edge(e: ExportablePDGEdge) -> (c: u128)
    ensures
        c == edge_code(e),
{
    let kind: u128 = match e.kind {
        PDGSpecEdgeKind::Data => 0,
        PDGSpecEdgeKind::Conditional => 1,
        PDGSpecEdgeKind::Declaration => 2,
        PDGSpecEdgeKind::Index => 3,
    };
    let clocked: u128 = if e.clocked {
        1
    } else {
        0
    };
    ((e.from as u128 * 0x1_0000_0000u128 + e.to as u128) * 4 + kind) * 2 + clocked
}

/// The edge of a number.
pub fn decode_edge(c: u128) -> (e: ExportablePDGEdge)
    ensures
        forall|x: ExportablePDGEdge| edge_code(x) == c ==> e == x,
{
    let clocked = c % 2 == 1;
    let rest = c / 2;
    let code = rest % 4;
    let ends = rest / 4;
    let to = (ends % 0x1_0000_0000u128) as u32;
    let from = ((ends / 0x1_0000_0000u128) % 0x1_0000_0000u128) as u32;
    let kind = if code == 0 {
        PDGSpecEdgeKind::Data
    } else if code == 1 {
        PDGSpecEdgeKind::Conditional
    } else if code == 2 {
        PDGSpecEdgeKind::Declaration
    } else {
        PDGSpecEdgeKind::Index
    };
    ExportablePDGEdge { from, to, kind, clocked }
}

/// The entries among the first `upto` of `s` that no entry before them equals, in order.
pub open spec fn first_occurrences<T>(s: Seq<T>, upto: int) -> Seq<T>
    decreases upto,
{
    if upto <= 0 {
        seq![]
    } else {
        let rest = first_occurrences(s, upto - 1);
        if rest.contains(s[upto - 1]) {
            rest
        } else {
            rest.push(s[upto - 1])
        }
    }
}

/// Calls `Itertools::unique` of the crate itertools on the numbers `keys`:
/// what comes back are the numbers that no number before them equals, in
/// the order in which they stand in `keys`.
#[verifier::external_body]
fn unique_numbers(keys: Vec<u128>) -> (r: Vec<u128>)
    ensures
        r@ == first_occurrences(keys@, keys.len() as int),
{
    keys.into_iter().unique().collect()
}

/// What `first_occurrences` keeps of a prefix are the entries of the prefix.
pub proof fn lemma_first_occurrences<T>(s: Seq<T>, upto: int, x: T)
    requires
        0 <= upto <= s.len(),
    ensures
        first_occurrences(s, upto).contains(x) <==> exists|k: int| 0 <= k < upto && s[k] == x,
    decreases upto,
{
    if upto > 0 {
        lemma_first_occurrences(s, upto - 1, x);
        let rest = first_occurrences(s, upto - 1);
        let all = first_occurrences(s, upto);
        if rest.contains(x) {
            let j = choose|j: int| 0 <= j < rest.len() && rest[j] == x;
            assert(all[j] == x);
        }
        if all.contains(x) && !rest.contains(x) {
            let j = choose|j: int| 0 <= j < all.len() && all[j] == x;
            if j < rest.len() {
                assert(rest[j] == x);
            }
            assert(s[upto - 1] == x);
        }
        if s[upto - 1] == x && !rest.contains(x) {
            assert(all[rest.len() as int] == x);
        }
    }
}

/// What `first_occurrences` keeps holds no entry twice.
pub proof fn lemma_occurrences_once<T>(s: Seq<T>, upto: int)
    requires
        0 <= upto <= s.len(),
    ensures
        forall|i: int, j: int|
            0 <= i < j < first_occurrences(s, upto).len() ==> first_occurrences(s, upto)[i]
                != first_occurrences(s, upto)[j],
    decreases upto,
{
    if upto > 0 {
        lemma_occurrences_once(s, upto - 1);
        let rest = first_occurrences(s, upto - 1);
        let all = first_occurrences(s, upto);
        assert forall|i: int, j: int| 0 <= i < j < all.len() implies all[i] != all[j] by {
            if j < rest.len() {
                assert(all[i] == rest[i] && all[j] == rest[j]);
            } else {
                assert(all[i] == rest[i]);
                assert(rest.contains(rest[i]));
            }
        }
    }
}

/// Taking the first occurrences of the numbers of edges gives the numbers
/// of the first occurrences of the edges.
pub proof fn lemma_unique_codes(edges: Seq<ExportablePDGEdge>, codes: Seq<u128>, upto: int)
    requires
        0 <= upto <= edges.len(),
        codes.len() == edges.len(),
        forall|k: int| 0 <= k < edges.len() ==> #[trigger] codes[k] == edge_code(edges[k]),
    ensures
        first_occurrences(codes, upto).len() == first_occurrences(edges, upto).len(),
        forall|j: int|
            0 <= j < first_occurrences(edges, upto).len() ==> #[trigger] first_occurrences(
                codes,
                upto,
            )[j] == edge_code(first_occurrences(edges, upto)[j]),
    decreases upto,
{
    if upto > 0 {
        lemma_unique_codes(edges, codes, upto - 1);
        lemma_first_occurrences(codes, upto - 1, codes[upto - 1]);
        lemma_first_occurrences(edges, upto - 1, edges[upto - 1]);
        lemma_codes_differ();
        let rc = first_occurrences(codes, upto - 1);
        let re = first_occurrences(edges, upto - 1);
        let c = codes[upto - 1];
        let e = edges[upto - 1];
        if rc.contains(c) {
            let k = choose|k: int| 0 <= k < upto - 1 && codes[k] == c;
            assert(edges[k] == e);
        }
        if re.contains(e) {
            let k = choose|k: int| 0 <= k < upto - 1 && edges[k] == e;
            assert(codes[k] == c);
        }
    }
}

/// Different edges have different numbers.
pub proof fn lemma_codes_differ()
    ensures
        forall|a: ExportablePDGEdge, b: ExportablePDGEdge|
            #[trigger] edge_code(a) == #[trigger] edge_code(b) ==> a == b,
{
    assert forall|a: ExportablePDGEdge, b: ExportablePDGEdge|
        #[trigger] edge_code(a) == #[trigger] edge_code(b) implies a == b by {
        let ka = match a.kind {
            PDGSpecEdgeKind::Data => 0int,
            PDGSpecEdgeKind::Conditional => 1int,
            PDGSpecEdgeKind::Declaration => 2int,
            PDGSpecEdgeKind::Index => 3int,
        };
        let kb = match b.kind {
            PDGSpecEdgeKind::Data => 0int,
            PDGSpecEdgeKind::Conditional => 1int,
            PDGSpecEdgeKind::Declaration => 2int,
            PDGSpecEdgeKind::Index => 3int,
        };
        assert(a.clocked == b.clocked);
        assert(ka == kb);
        assert(a.from == b.from && a.to == b.to);
    }
}

/// The edges that no edge before them equals, in order.
pub fn unique_edges(edges: &Vec<ExportablePDGEdge>) -> (r: Vec<ExportablePDGEdge>)
    ensures
        r@ == first_occurrences(edges@, edges.len() as int),
{
    let mut codes: Vec<u128> = Vec::new();
    let mut k: usize = 0;
    while k < edges.len()
        invariant
            k <= edges.len(),
            codes.len() == k,
            forall|j: int| 0 <= j < k ==> #[trigger] codes[j] == edge_code(edges[j]),
        decreases edges.len() - k,
    {
        codes.push(encode_edge(edges[k]));
        k = k + 1;
    }
    let kept = unique_numbers(codes);
    proof {
        lemma_unique_codes(edges@, codes@, edges.len() as int);
    }
    let ghost wanted = first_occurrences(edges@, edges.len() as int);
    let mut r: Vec<ExportablePDGEdge> = Vec::new();
    let mut j: usize = 0;
    while j < kept.len()
        invariant
            j <= kept.len(),
            kept.len() == wanted.len(),
            forall|q: int| 0 <= q < wanted.len() ==> #[trigger] kept[q] == edge_code(wanted[q]),
            r@ == wanted.take(j as int),
        decreases kept.len() - j,
    {
        let e = decode_edge(kept[j]);
        assert(e == wanted[j as int]);
        r.push(e);
        assert(wanted.take(j + 1) =~= wanted.take(j as int).push(wanted[j as int]));
        j = j + 1;
    }
    assert(wanted.take(wanted.len() as int) =~= wanted);
    r
}

/// Whether a member of the part is of kind `kind`.
pub open spec fn has_kind(
    vertices: Seq<ExportablePDGNode>,
    group: Seq<usize>,
    kind: PDGSpecNodeKind,
) -> bool {
    exists|j: int| 0 <= j < group.len() && vertices[#[trigger] group[j] as int].kind == kind
}

/// The position in the part of its first member at or after `from` that is a source statement.
pub open spec fn first_chisel(vertices: Seq<ExportablePDGNode>, group: Seq<usize>, from: int)
    -> Option<int>
    decreases group.len() - from,
{
    if from < 0 || from >= group.len() {
        None
    } else if vertices[group[from] as int].is_chisel_assignment {
        Some(from)
    } else {
        first_chisel(vertices, group, from + 1)
    }
}

/// The name of a file without the directories that lead to it.
pub open spec fn file_name(file: Seq<char>) -> Seq<char> {
    split_on(file, '/').last()
}

/// The kind of the vertex that a part becomes: that of its first source
/// statement; without one, input or output if a member is, else a
/// connection if a member is one or a data definition, else control flow
/// if a member is, else a definition.
pub open spec fn merged_kind(vertices: Seq<ExportablePDGNode>, group: Seq<usize>)
    -> PDGSpecNodeKind {
    match first_chisel(vertices, group, 0) {
        Some(j) => vertices[group[j] as int].kind,
        None => if has_kind(vertices, group, PDGSpecNodeKind::IO) {
            PDGSpecNodeKind::IO
        } else if has_kind(vertices, group, PDGSpecNodeKind::DataDefinition) || has_kind(
            vertices,
            group,
            PDGSpecNodeKind::Connection,
        ) {
            PDGSpecNodeKind::Connection
        } else if has_kind(vertices, group, PDGSpecNodeKind::ControlFlow) {
            PDGSpecNodeKind::ControlFlow
        } else {
            PDGSpecNodeKind::Definition
        },
    }
}

/// The name of the vertex that a part becomes: that of its first source
/// statement, in the long form with time and place; without one, file
/// name and line of the first member.
pub open spec fn merged_name(vertices: Seq<ExportablePDGNode>, group: Seq<usize>, verbose: bool)
    -> Seq<char> {
    let v0 = vertices[group[0] as int];
    match first_chisel(vertices, group, 0) {
        Some(j) => {
            let stmt = vertices[group[j] as int];
            if verbose {
                stmt.name@ + " at t="@ + signed_decimal(stmt.timestamp as int) + " ("@ + file_name(
                    v0.file@,
                ) + ":"@ + decimal(stmt.line as nat) + ")"@
            } else {
                stmt.name@
            }
        },
        None => file_name(v0.file@) + ":"@ + decimal(v0.line as nat),
    }
}

/// The vertex that a part becomes: its first member under the name and kind of the part.
pub open spec fn merged_vertex(vertices: Seq<ExportablePDGNode>, group: Seq<usize>, verbose: bool)
    -> ExportNodeView {
    ExportNodeView {
        name: merged_name(vertices, group, verbose),
        kind: merged_kind(vertices, group),
        ..vertices[group[0] as int].deep_view()
    }
}

/// The decimal text of a number with its sign.
pub fn signed_text(n: i64) -> (r: String)
    ensures
        r@ == signed_decimal(n as int),
{
    if n < 0 {
        let magnitude = decimal_text((-(n as i128)) as u128);
        proof {
            reveal_strlit("-");
        }
        let r = "-".to_owned().concat(magnitude.as_str());
        assert(r@ =~= seq!['-'] + magnitude@);
        r
    } else {
        decimal_text(n as u128)
    }
}

/// The name of a file without the directories that lead to it.
pub fn file_name_of(file: &str) -> (r: String)
    ensures
        r@ == file_name(file@),
{
    let mut parts = split(file, '/');
    proof {
        lemma_split_some(file@, '/');
    }
    let ghost all = parts.deep_view();
    assert(all.last() == parts[parts.len() - 1]@);
    parts.pop().unwrap()
}

/// A copy of a vertex.
pub fn clone_vertex(v: &ExportablePDGNode) -> (r: ExportablePDGNode)
    ensures
        r.deep_view() == v.deep_view(),
{
    ExportablePDGNode {
        file: v.file.clone(),
        line: v.line,
        char: v.char,
        name: v.name.clone(),
        kind: v.kind,
        clocked: v.clocked,
        related_signal: match &v.related_signal {
            Some(s) => Some(
                PDGSpecRelatedSignal {
                    signal_path: s.signal_path.clone(),
                    field_path: s.field_path.clone(),
                },
            ),
            None => None,
        },
        sim_data: match &v.sim_data {
            Some(s) => Some(s.clone()),
            None => None,
        },
        timestamp: v.timestamp,
        is_chisel_assignment: v.is_chisel_assignment,
        instance_path: clone_strings(&v.instance_path),
    }
}

fn group_has_kind(vertices: &Vec<ExportablePDGNode>, group: &Vec<usize>, kind: PDGSpecNodeKind)
    -> (r: bool)
    requires
        forall|j: int| 0 <= j < group.len() ==> (#[trigger] group[j]) < vertices.len(),
    ensures
        r == has_kind(vertices@, group@, kind),
{
    let mut j: usize = 0;
    while j < group.len()
        invariant
            j <= group.len(),
            forall|k: int| 0 <= k < group.len() ==> (#[trigger] group[k]) < vertices.len(),
            forall|k: int| 0 <= k < j ==> vertices[#[trigger] group[k] as int].kind != kind,
        decreases group.len() - j,
    {
        if vertices[group[j]].kind == kind {
            return true;
        }
        j = j + 1;
    }
    false
}

/// The vertex that a part becomes.
pub fn merge_part(vertices: &Vec<ExportablePDGNode>, group: &Vec<usize>, verbose_name: bool) -> (r:
    ExportablePDGNode)
    requires
        group.len() > 0,
        forall|j: int| 0 <= j < group.len() ==> (#[trigger] group[j]) < vertices.len(),
    ensures
        r.deep_view() == merged_vertex(vertices@, group@, verbose_name),
{
    let mut primary: Option<usize> = None;
    let mut j: usize = 0;
    while j < group.len()
        invariant_except_break
            primary is None,
            first_chisel(vertices@, group@, 0) == first_chisel(vertices@, group@, j as int),
        invariant
            j <= group.len(),
            forall|k: int| 0 <= k < group.len() ==> (#[trigger] group[k]) < vertices.len(),
        ensures
            primary matches Some(p) ==> p < group.len() && first_chisel(vertices@, group@, 0)
                == Some(p as int),
            primary is None ==> first_chisel(vertices@, group@, 0) is None,
        decreases group.len() - j,
    {
        if vertices[group[j]].is_chisel_assignment {
            primary = Some(j);
            break ;
        }
        j = j + 1;
    }
    let v0 = &vertices[group[0]];
    let filename = file_name_of(v0.file.as_str());
    let (kind, name) = match primary {
        Some(p) => {
            let stmt = &vertices[group[p]];
            let name = if verbose_name {
                stmt.name.clone().concat(" at t=").concat(
                    signed_text(stmt.timestamp).as_str(),
                ).concat(" (").concat(filename.as_str()).concat(":").concat(
                    decimal_text(stmt.line as u128).as_str(),
                ).concat(")")
            } else {
                stmt.name.clone()
            };
            (stmt.kind, name)
        },
        None => {
            let kind = if group_has_kind(vertices, group, PDGSpecNodeKind::IO) {
                PDGSpecNodeKind::IO
            } else if group_has_kind(vertices, group, PDGSpecNodeKind::DataDefinition)
                || group_has_kind(vertices, group, PDGSpecNodeKind::Connection) {
                PDGSpecNodeKind::Connection
            } else if group_has_kind(vertices, group, PDGSpecNodeKind::ControlFlow) {
                PDGSpecNodeKind::ControlFlow
            } else {
                PDGSpecNodeKind::Definition
            };
            let name = filename.concat(":").concat(decimal_text(v0.line as u128).as_str());
            (kind, name)
        },
    };
    let copy = clone_vertex(v0);
    ExportablePDGNode {
        file: copy.file,
        line: copy.line,
        char: copy.char,
        name,
        kind,
        clocked: copy.clocked,
        related_signal: copy.related_signal,
        sim_data: copy.sim_data,
        timestamp: copy.timestamp,
        is_chisel_assignment: copy.is_chisel_assignment,
        instance_path: copy.instance_path,
    }
}

/// The vertices that the parts become, in the order of the parts.
pub open spec fn merged_vertices(
    vertices: Seq<ExportablePDGNode>,
    groups: Seq<Seq<usize>>,
    verbose: bool,
) -> Seq<ExportNodeView> {
    Seq::new(groups.len(), |g: int| merged_vertex(vertices, groups[g], verbose))
}

/// The vertices that the parts become.
pub fn merge_vertices(
    vertices: &Vec<ExportablePDGNode>,
    groups: &Vec<Vec<usize>>,
    verbose_name: bool,
) -> (r: Vec<ExportablePDGNode>)
    requires
        forall|g: int, j: int|
            0 <= g < groups.len() && 0 <= j < groups[g].len() ==> (#[trigger] groups[g][j])
                < vertices.len(),
        forall|g: int| 0 <= g < groups.len() ==> (#[trigger] groups[g]).len() > 0,
    ensures
        r.deep_view() == merged_vertices(
            vertices@,
            Seq::new(groups.len() as nat, |g: int| groups[g]@),
            verbose_name,
        ),
{
    let ghost gs = Seq::new(groups.len() as nat, |g: int| groups[g]@);
    let mut r: Vec<ExportablePDGNode> = Vec::new();
    let mut g: usize = 0;
    while g < groups.len()
        invariant
            g <= groups.len(),
            r.len() == g,
            gs == Seq::new(groups.len() as nat, |g: int| groups[g]@),
            forall|a: int, j: int|
                0 <= a < groups.len() && 0 <= j < groups[a].len() ==> (#[trigger] groups[a][j])
                    < vertices.len(),
            forall|a: int| 0 <= a < groups.len() ==> (#[trigger] groups[a]).len() > 0,
            forall|a: int|
                0 <= a < g ==> (#[trigger] r[a]).deep_view() == merged_vertex(
                    vertices@,
                    gs[a],
                    verbose_name,
                ),
        decreases groups.len() - g,
    {
        let group = &groups[g];
        assert(gs[g as int] == group@);
        r.push(merge_part(vertices, group, verbose_name));
        g = g + 1;
    }
    assert(r.deep_view() =~= merged_vertices(vertices@, gs, verbose_name));
    r
}

/// The edges `edges`, each with the clocked bit of the vertex that it leaves.
pub open spec fn with_source_clock(edges: Seq<ExportablePDGEdge>, clocked: Seq<bool>) -> Seq<
    ExportablePDGEdge,
> {
    Seq::new(
        edges.len(),
        |k: int| ExportablePDGEdge { clocked: clocked[edges[k].from as int], ..edges[k] },
    )
}

/// The clocked bits of a list of vertices.
pub open spec fn clocked_of(vertices: Seq<ExportNodeView>) -> Seq<bool> {
    Seq::new(vertices.len(), |v: int| vertices[v].clocked)
}

/// Gives every edge the clocked bit of the vertex that it leaves, and
/// keeps of equal edges the first.
pub fn merge_edges(edges: &Vec<ExportablePDGEdge>, vertices: &Vec<ExportablePDGNode>) -> (r: Vec<
    ExportablePDGEdge,
>)
    requires
        edges_within(edges@, vertices.len() as int),
    ensures
        r@ == first_occurrences(
            with_source_clock(edges@, clocked_of(vertices.deep_view())),
            edges.len() as int,
        ),
        edges_within(r@, vertices.len() as int),
{
    let mut fixed: Vec<ExportablePDGEdge> = Vec::new();
    let mut k: usize = 0;
    while k < edges.len()
        invariant
            k <= edges.len(),
            edges_within(edges@, vertices.len() as int),
            fixed.len() == k,
            forall|j: int|
                0 <= j < k ==> #[trigger] fixed[j] == (ExportablePDGEdge {
                    clocked: vertices[edges[j].from as int].clocked,
                    ..edges[j]
                }),
        decreases edges.len() - k,
    {
        let e = edges[k];
        fixed.push(
            ExportablePDGEdge {
                from: e.from,
                to: e.to,
                kind: e.kind,
                clocked: vertices[e.from as usize].clocked,
            },
        );
        k = k + 1;
    }
    assert(fixed@ =~= with_source_clock(edges@, clocked_of(vertices.deep_view())));
    let r = unique_edges(&fixed);
    proof {
        assert forall|q: int| 0 <= q < r@.len() implies (#[trigger] r@[q]).from < vertices.len()
            && r@[q].to < vertices.len() by {
            lemma_first_occurrences(fixed@, fixed.len() as int, r@[q]);
            assert(r@.contains(r@[q]));
            let j = choose|j: int| 0 <= j < fixed.len() && fixed@[j] == r@[q];
            assert(edges@[j].from < vertices.len());
        }
    }
    r
}

} // verus!
