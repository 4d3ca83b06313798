//! The vertices of an exported graph by the instances of the design that
//! they stand in: for every time a tree of groups, each of which is shown
//! as one vertex while it is collapsed.

use vstd::prelude::*;
use vstd::string::*;
use crate::classes::same_texts;
use crate::merging::{clone_vertex, first_occurrences};
use crate::pdg_spec::{ExportNodeView, ExportablePDG, ExportablePDGNode, PDGSpecNodeKind};
use crate::times::{
    index_times, lemma_time_listed, lemma_time_positions, stamps_of, time_positions, TimeIndex,
};
use crate::text::{clone_strings, same_text};

verus! {

/// A group of vertices: an instance of the design at one time.
#[derive(Debug)]
pub struct GraphNodeHierarchy {
    pub instance_name: String,
    /// Whether the members of the group are shown one by one.
    pub expanded: bool,
    /// The vertex that stands for the group while it is collapsed.
    pub pdg_node: ExportablePDGNode,
    /// The vertices that stand in the instance itself.
    pub node_indices: Vec<usize>,
    /// The groups of the instances inside this one.
    pub children: Vec<usize>,
    /// The group of the instance around this one.
    pub parent: Option<usize>,
    /// The number under which the group is drawn.
    pub group_id: usize,
}

/// Mathematical value of a [`GraphNodeHierarchy`].
pub struct GroupView {
    pub instance_name: Seq<char>,
    pub expanded: bool,
    pub pdg_node: ExportNodeView,
    pub node_indices: Seq<usize>,
    pub children: Seq<usize>,
    pub parent: Option<usize>,
    pub group_id: usize,
}

impl DeepView for GraphNodeHierarchy {
    type V = GroupView;

    open spec fn deep_view(&self) -> GroupView {
        GroupView {
            instance_name: self.instance_name@,
            expanded: self.expanded,
            pdg_node: self.pdg_node.deep_view(),
            node_indices: self.node_indices@,
            children: self.children@,
            parent: self.parent,
            group_id: self.group_id,
        }
    }
}

/// The vertex that stands for a group.
pub open spec fn group_node(name: Seq<char>, timestamp: i64, path: Seq<Seq<char>>)
    -> ExportNodeView {
    ExportNodeView {
        file: ""@,
        line: 0,
        char: 0,
        name,
        kind: PDGSpecNodeKind::Definition,
        clocked: false,
        related_signal: None,
        sim_data: None,
        timestamp,
        is_chisel_assignment: false,
        instance_path: path,
    }
}

/// Makes the vertex that stands for a group.
pub fn create_hier_pdg_node(name: String, timestamp: i64, instance_path: Vec<String>) -> (r:
    ExportablePDGNode)
    ensures
        r.deep_view() == group_node(name@, timestamp, instance_path.deep_view()),
{
    proof {
        reveal_strlit("");
    }
    ExportablePDGNode {
        file: "".to_owned(),
        line: 0,
        char: 0,
        name,
        kind: PDGSpecNodeKind::Definition,
        clocked: false,
        related_signal: None,
        sim_data: None,
        timestamp,
        is_chisel_assignment: false,
        instance_path,
    }
}

/// The groups of a list refer to groups of the list, every group stands
/// behind the group around it, and the members are among `n` vertices.
pub open spec fn groups_wf(groups: Seq<GroupView>, n: int) -> bool {
    forall|g: int|
        0 <= g < groups.len() ==> {
            &&& ((#[trigger] groups[g]).parent matches Some(p) ==> p < g)
            &&& forall|j: int|
                0 <= j < groups[g].children.len() ==> (#[trigger] groups[g].children[j])
                    < groups.len()
            &&& forall|j: int|
                0 <= j < groups[g].node_indices.len() ==> (#[trigger] groups[g].node_indices[j]) < n
        }
}

/// The first group at or after position `from` among those inside `parent` that has the name `name`.
pub open spec fn child_from(groups: Seq<GroupView>, parent: int, name: Seq<char>, from: int)
    -> Option<usize>
    decreases groups[parent].children.len() - from,
{
    let list = groups[parent].children;
    if from < 0 || from >= list.len() {
        None
    } else if groups[list[from] as int].instance_name == name {
        Some(list[from])
    } else {
        child_from(groups, parent, name, from + 1)
    }
}

/// The first group inside `parent` that has the name `name`.
pub open spec fn child_named(groups: Seq<GroupView>, parent: int, name: Seq<char>) -> Option<
    usize,
> {
    child_from(groups, parent, name, 0)
}

/// The number under which the group at position `index` is drawn: the
/// groups are numbered from `offset` on, and the numbers wrap around at
/// the end of their type.
pub open spec fn group_number(offset: usize, index: int) -> usize {
    offset.wrapping_add(index as usize)
}

/// The list with a new, collapsed group named `name` inside `parent`.
pub open spec fn with_child(
    groups: Seq<GroupView>,
    parent: int,
    name: Seq<char>,
    timestamp: i64,
    offset: usize,
) -> Seq<GroupView> {
    groups.update(
        parent,
        GroupView {
            children: groups[parent].children.push(groups.len() as usize),
            ..groups[parent]
        },
    ).push(
        GroupView {
            instance_name: name,
            expanded: false,
            pdg_node: group_node(
                "module_"@ + name,
                timestamp,
                groups[parent].pdg_node.instance_path.push(name),
            ),
            node_indices: seq![],
            children: seq![],
            parent: Some(parent as usize),
            group_id: group_number(offset, groups.len() as int),
        },
    )
}

/// The list with a new, expanded group for the whole design at a time.
pub open spec fn with_top(groups: Seq<GroupView>, timestamp: i64, offset: usize) -> Seq<GroupView> {
    groups.push(
        GroupView {
            instance_name: "top"@,
            expanded: true,
            pdg_node: group_node("module_top"@, timestamp, seq![]),
            node_indices: seq![],
            children: seq![],
            parent: None,
            group_id: group_number(offset, groups.len() as int),
        },
    )
}

/// Where a walk along the first `upto` parts of `path` arrives that
/// starts at group `at` and makes every group that it does not find: the
/// list of groups then, and the group arrived at.
pub open spec fn descend(
    groups: Seq<GroupView>,
    at: int,
    path: Seq<Seq<char>>,
    upto: int,
    timestamp: i64,
    offset: usize,
) -> (Seq<GroupView>, int)
    decreases upto,
{
    if upto <= 0 {
        (groups, at)
    } else {
        let (g, a) = descend(groups, at, path, upto - 1, timestamp, offset);
        match child_named(g, a, path[upto - 1]) {
            Some(c) => (g, c as int),
            None => (with_child(g, a, path[upto - 1], timestamp, offset), g.len() as int),
        }
    }
}

/// The list after a path is entered below group `top`: nothing changes
/// for a path that is empty or ends in an empty name; else the groups
/// that lead to its last part are found or made, and a group for the last
/// part is made inside them.
pub open spec fn enter_path(
    groups: Seq<GroupView>,
    top: int,
    path: Seq<Seq<char>>,
    timestamp: i64,
    offset: usize,
) -> Seq<GroupView> {
    if path.len() == 0 || path.last().len() == 0 {
        groups
    } else {
        let (g, a) = descend(groups, top, path, path.len() - 1, timestamp, offset);
        with_child(g, a, path.last(), timestamp, offset)
    }
}

/// Every vertex that has a group is a member of that group.
pub open spec fn members_ok(h: HierarchyView) -> bool {
    forall|v: int|
        0 <= v < h.lookup.len() ==> ((#[trigger] h.lookup[v]) matches Some(g) ==> g < h.groups.len()
            && h.groups[g as int].node_indices.contains(v as usize))
}

/// The groups of `before` are groups of `after` with the same members.
pub open spec fn members_kept(before: Seq<GroupView>, after: Seq<GroupView>) -> bool {
    &&& before.len() <= after.len()
    &&& forall|g: int|
        0 <= g < before.len() ==> (#[trigger] after[g]).node_indices == before[g].node_indices
}

fn find_child(groups: &Vec<GraphNodeHierarchy>, parent: usize, name: &str) -> (r: Option<usize>)
    requires
        parent < groups.len(),
        forall|j: int|
            0 <= j < groups[parent as int].children.len() ==> (
            #[trigger] groups[parent as int].children[j]) < groups.len(),
    ensures
        r == child_named(groups.deep_view(), parent as int, name@),
        r matches Some(c) ==> c < groups.len(),
{
    let ghost gs = groups.deep_view();
    let list = &groups[parent].children;
    assert(list@ == gs[parent as int].children);
    let mut j: usize = 0;
    while j < list.len()
        invariant
            j <= list.len(),
            parent < groups.len(),
            gs == groups.deep_view(),
            forall|k: int| 0 <= k < list.len() ==> (#[trigger] list[k]) < groups.len(),
            list@ == gs[parent as int].children,
            child_named(gs, parent as int, name@) == child_from(gs, parent as int, name@, j as int),
        decreases list.len() - j,
    {
        let c = list[j];
        assert(c == gs[parent as int].children[j as int]);
        assert(gs[c as int] == groups[c as int].deep_view());
        if same_text(groups[c].instance_name.as_str(), name) {
            return Some(c);
        }
        j = j + 1;
    }
    None
}

fn add_child(
    groups: &mut Vec<GraphNodeHierarchy>,
    parent: usize,
    name: &String,
    timestamp: i64,
    offset: usize,
    Ghost(n): Ghost<int>,
)
    requires
        parent < old(groups).len(),
        groups_wf(old(groups).deep_view(), n),
    ensures
        final(groups).deep_view() == with_child(
            old(groups).deep_view(),
            parent as int,
            name@,
            timestamp,
            offset,
        ),
        final(groups).len() == old(groups).len() + 1,
        groups_wf(final(groups).deep_view(), n),
        members_kept(old(groups).deep_view(), final(groups).deep_view()),
{
    let ghost before = groups.deep_view();
    let id = groups.len();
    let mut path = clone_strings(&groups[parent].pdg_node.instance_path);
    path.push(name.clone());
    assert(path.deep_view() =~= before[parent as int].pdg_node.instance_path.push(name@));
    proof {
        reveal_strlit("module_");
    }
    let node = GraphNodeHierarchy {
        instance_name: name.clone(),
        expanded: false,
        pdg_node: create_hier_pdg_node(
            "module_".to_owned().concat(name.as_str()),
            timestamp,
            path,
        ),
        node_indices: Vec::new(),
        children: Vec::new(),
        parent: Some(parent),
        group_id: offset.wrapping_add(id),
    };
    groups[parent].children.push(id);
    groups.push(node);
    proof {
        let after = groups.deep_view();
        let wanted = with_child(before, parent as int, name@, timestamp, offset);
        assert(after.len() == wanted.len());
        assert forall|g: int| 0 <= g < after.len() implies after[g] == wanted[g] by {
            if g < before.len() && g != parent {
                assert(after[g] == groups[g].deep_view());
                assert(before[g] == old(groups)[g].deep_view());
            }
        }
        assert(after =~= wanted);
        assert forall|g: int| 0 <= g < after.len() implies {
            &&& ((#[trigger] after[g]).parent matches Some(p) ==> p < g)
            &&& forall|j: int|
                0 <= j < after[g].children.len() ==> (#[trigger] after[g].children[j]) < after.len()
            &&& forall|j: int|
                0 <= j < after[g].node_indices.len() ==> (#[trigger] after[g].node_indices[j]) < n
        } by {
            if g < before.len() {
                assert(before[g].node_indices == after[g].node_indices);
                assert forall|j: int| 0 <= j < after[g].children.len() implies (
                #[trigger] after[g].children[j]) < after.len() by {
                    if j < before[g].children.len() {
                        assert(after[g].children[j] == before[g].children[j]);
                    }
                }
            }
        }
    }
}

/// The groups of a graph: for every time a tree, and for every vertex the group that it stands in.
#[derive(Debug)]
pub struct NodeHierarchy {
    /// The groups, each behind the group around it.
    pub groups: Vec<GraphNodeHierarchy>,
    /// For every time from zero on the group of the whole design.
    pub tops: Vec<usize>,
    /// For every vertex the group that it stands in, if it has one.
    pub lookup: Vec<Option<usize>>,
}

/// Mathematical value of a [`NodeHierarchy`].
pub struct HierarchyView {
    pub groups: Seq<GroupView>,
    pub tops: Seq<usize>,
    pub lookup: Seq<Option<usize>>,
}

impl DeepView for NodeHierarchy {
    type V = HierarchyView;

    open spec fn deep_view(&self) -> HierarchyView {
        HierarchyView {
            groups: self.groups.deep_view(),
            tops: self.tops@,
            lookup: self.lookup@,
        }
    }
}

/// The groups fit each other and a graph of `n` vertices.
pub open spec fn hierarchy_wf(h: HierarchyView, n: int) -> bool {
    &&& groups_wf(h.groups, n)
    &&& h.lookup.len() == n
    &&& forall|t: int| 0 <= t < h.tops.len() ==> (#[trigger] h.tops[t]) < h.groups.len()
    &&& forall|v: int|
        0 <= v < n ==> ((#[trigger] h.lookup[v]) matches Some(g) ==> g < h.groups.len())
}

/// The instance paths of the vertices `members`.
pub open spec fn paths_of(vertices: Seq<ExportNodeView>, members: Seq<usize>) -> Seq<
    Seq<Seq<char>>,
> {
    Seq::new(members.len(), |j: int| vertices[members[j] as int].instance_path)
}

/// The length of the longest among the first `upto` paths.
pub open spec fn longest(paths: Seq<Seq<Seq<char>>>, upto: int) -> int
    decreases upto,
{
    if upto <= 0 {
        0
    } else {
        let rest = longest(paths, upto - 1);
        if paths[upto - 1].len() > rest {
            paths[upto - 1].len() as int
        } else {
            rest
        }
    }
}

/// The list after those of the first `upto` paths that have `len` parts are entered.
pub open spec fn enter_length(
    groups: Seq<GroupView>,
    top: int,
    paths: Seq<Seq<Seq<char>>>,
    len: int,
    upto: int,
    timestamp: i64,
    offset: usize,
) -> Seq<GroupView>
    decreases upto,
{
    if upto <= 0 {
        groups
    } else {
        let rest = enter_length(groups, top, paths, len, upto - 1, timestamp, offset);
        if paths[upto - 1].len() == len {
            enter_path(rest, top, paths[upto - 1], timestamp, offset)
        } else {
            rest
        }
    }
}

/// The list after the paths with fewer than `upto` parts are entered:
/// shorter paths first, paths of one length in their order.
pub open spec fn enter_lengths(
    groups: Seq<GroupView>,
    top: int,
    paths: Seq<Seq<Seq<char>>>,
    upto: int,
    timestamp: i64,
    offset: usize,
) -> Seq<GroupView>
    decreases upto,
{
    if upto <= 0 {
        groups
    } else {
        enter_length(
            enter_lengths(groups, top, paths, upto - 1, timestamp, offset),
            top,
            paths,
            upto - 1,
            paths.len() as int,
            timestamp,
            offset,
        )
    }
}

/// The group in which a vertex with the path `path` stands, looked for
/// from part `from` on and from group `at` down: empty parts are passed
/// over, and the walk ends where a part names no group.
pub open spec fn settle(groups: Seq<GroupView>, at: int, path: Seq<Seq<char>>, from: int) -> int
    decreases path.len() - from,
{
    if from < 0 || from >= path.len() {
        at
    } else if path[from].len() == 0 {
        settle(groups, at, path, from + 1)
    } else {
        match child_named(groups, at, path[from]) {
            Some(c) => settle(groups, c as int, path, from + 1),
            None => at,
        }
    }
}

/// The groups after vertex `v` with the path `path` has found its place below `top`.
pub open spec fn place(h: HierarchyView, top: int, v: usize, path: Seq<Seq<char>>)
    -> HierarchyView {
    let g = settle(h.groups, top, path, 0);
    HierarchyView {
        groups: h.groups.update(
            g,
            GroupView { node_indices: h.groups[g].node_indices.push(v), ..h.groups[g] },
        ),
        lookup: h.lookup.update(v as int, Some(g as usize)),
        ..h
    }
}

/// The groups after the first `upto` of the vertices `members` have found their places.
pub open spec fn place_all(
    h: HierarchyView,
    top: int,
    vertices: Seq<ExportNodeView>,
    members: Seq<usize>,
    upto: int,
) -> HierarchyView
    decreases upto,
{
    if upto <= 0 {
        h
    } else {
        place(
            place_all(h, top, vertices, members, upto - 1),
            top,
            members[upto - 1],
            vertices[members[upto - 1] as int].instance_path,
        )
    }
}

/// The time stamps of vertices.
pub open spec fn stamps(vertices: Seq<ExportNodeView>) -> Seq<i64> {
    Seq::new(vertices.len(), |v: int| vertices[v].timestamp)
}

/// The groups after the tree of the time `t` is added: a group for the
/// whole design, below it a group for every instance path of a vertex of
/// that time, each path once, and in the groups the vertices.
pub open spec fn slot(h: HierarchyView, vertices: Seq<ExportNodeView>, t: i64, offset: usize)
    -> HierarchyView {
    let top = h.groups.len() as int;
    let members = time_positions(stamps(vertices), t, vertices.len() as int);
    let paths = first_occurrences(paths_of(vertices, members), members.len() as int);
    let entered = enter_lengths(
        with_top(h.groups, t, offset),
        top,
        paths,
        longest(paths, paths.len() as int) + 1,
        t,
        offset,
    );
    place_all(
        HierarchyView { groups: entered, tops: h.tops.push(top as usize), lookup: h.lookup },
        top,
        vertices,
        members,
        members.len() as int,
    )
}

/// The groups with the trees of the times below `upto`.
pub open spec fn slots(vertices: Seq<ExportNodeView>, upto: int, offset: usize) -> HierarchyView
    decreases upto,
{
    if upto <= 0 {
        HierarchyView {
            groups: seq![],
            tops: seq![],
            lookup: Seq::new(vertices.len(), |v: int| None),
        }
    } else {
        slot(slots(vertices, upto - 1, offset), vertices, (upto - 1) as i64, offset)
    }
}

/// The latest of the first `upto` time stamps, and -1 if none is above that.
pub open spec fn newest(vertices: Seq<ExportNodeView>, upto: int) -> int
    decreases upto,
{
    if upto <= 0 {
        -1
    } else {
        let rest = newest(vertices, upto - 1);
        if vertices[upto - 1].timestamp > rest {
            vertices[upto - 1].timestamp as int
        } else {
            rest
        }
    }
}

/// The number from which the groups of a graph of `n` vertices are numbered.
pub open spec fn first_number(n: usize) -> usize {
    n.wrapping_mul(5)
}

/// The groups of a graph: a tree for every time from zero to the latest.
pub open spec fn hierarchy_of(vertices: Seq<ExportNodeView>) -> HierarchyView {
    slots(
        vertices,
        newest(vertices, vertices.len() as int) + 1,
        first_number(vertices.len() as usize),
    )
}

fn enter(
    groups: &mut Vec<GraphNodeHierarchy>,
    top: usize,
    path: &Vec<String>,
    timestamp: i64,
    offset: usize,
    Ghost(n): Ghost<int>,
)
    requires
        top < old(groups).len(),
        groups_wf(old(groups).deep_view(), n),
    ensures
        final(groups).deep_view() == enter_path(
            old(groups).deep_view(),
            top as int,
            path.deep_view(),
            timestamp,
            offset,
        ),
        final(groups).len() >= old(groups).len(),
        groups_wf(final(groups).deep_view(), n),
        members_kept(old(groups).deep_view(), final(groups).deep_view()),
{
    let ghost start = groups.deep_view();
    let ghost p = path.deep_view();
    if path.len() == 0 {
        return ;
    }
    let parts = path.len() - 1;
    assert(p.last() == path[parts as int]@);
    if path[parts].as_str().unicode_len() == 0 {
        return ;
    }
    let mut cur = top;
    let mut k: usize = 0;
    while k < parts
        invariant
            k <= parts,
            parts == path.len() - 1,
            p == path.deep_view(),
            cur < groups.len(),
            groups.len() >= old(groups).len(),
            groups_wf(groups.deep_view(), n),
            members_kept(start, groups.deep_view()),
            (groups.deep_view(), cur as int) == descend(
                start,
                top as int,
                p,
                k as int,
                timestamp,
                offset,
            ),
        decreases parts - k,
    {
        assert(p[k as int] == path[k as int]@);
        proof {
            let gs = groups.deep_view();
            assert(gs[cur as int] == groups[cur as int].deep_view());
            assert forall|j: int| 0 <= j < groups[cur as int].children.len() implies (
            #[trigger] groups[cur as int].children[j]) < groups.len() by {
                assert(gs[cur as int].children[j] < gs.len());
            }
        }
        match find_child(groups, cur, path[k].as_str()) {
            Some(c) => {
                cur = c;
            },
            None => {
                add_child(groups, cur, &path[k], timestamp, offset, Ghost(n));
                cur = groups.len() - 1;
            },
        }
        k = k + 1;
    }
    add_child(groups, cur, &path[parts], timestamp, offset, Ghost(n));
}

fn distinct_paths(vertices: &Vec<ExportablePDGNode>, members: &Vec<usize>) -> (r: Vec<Vec<String>>)
    requires
        forall|j: int| 0 <= j < members.len() ==> (#[trigger] members[j]) < vertices.len(),
    ensures
        r.deep_view() == first_occurrences(
            paths_of(vertices.deep_view(), members@),
            members.len() as int,
        ),
{
    let ghost all = paths_of(vertices.deep_view(), members@);
    let mut r: Vec<Vec<String>> = Vec::new();
    assert(r.deep_view() =~= first_occurrences(all, 0));
    let mut j: usize = 0;
    while j < members.len()
        invariant
            j <= members.len(),
            forall|k: int| 0 <= k < members.len() ==> (#[trigger] members[k]) < vertices.len(),
            all == paths_of(vertices.deep_view(), members@),
            r.deep_view() == first_occurrences(all, j as int),
        decreases members.len() - j,
    {
        let path = &vertices[members[j]].instance_path;
        assert(vertices.deep_view()[members[j as int] as int] == vertices[members[j as int] as int].deep_view());
        assert(path.deep_view() == all[j as int]);
        let ghost before = r.deep_view();
        let mut known = false;
        let mut q: usize = 0;
        while q < r.len()
            invariant_except_break
                !known,
            invariant
                q <= r.len(),
                before == r.deep_view(),
                forall|k: int| 0 <= k < q ==> before[k] != path.deep_view(),
            ensures
                known == before.contains(path.deep_view()),
            decreases r.len() - q,
        {
            assert(before[q as int] == r[q as int].deep_view());
            if same_texts(&r[q], path) {
                known = true;
                break ;
            }
            q = q + 1;
        }
        if !known {
            r.push(clone_strings(path));
            assert(r.deep_view() =~= before.push(all[j as int]));
        }
        j = j + 1;
    }
    r
}

fn find_place(groups: &Vec<GraphNodeHierarchy>, top: usize, path: &Vec<String>, Ghost(n): Ghost<int>)
    -> (g: usize)
    requires
        top < groups.len(),
        groups_wf(groups.deep_view(), n),
    ensures
        g < groups.len(),
        g == settle(groups.deep_view(), top as int, path.deep_view(), 0),
{
    let ghost gs = groups.deep_view();
    let ghost p = path.deep_view();
    let mut cur = top;
    let mut k: usize = 0;
    while k < path.len()
        invariant
            k <= path.len(),
            cur < groups.len(),
            gs == groups.deep_view(),
            p == path.deep_view(),
            groups_wf(gs, n),
            settle(gs, top as int, p, 0) == settle(gs, cur as int, p, k as int),
        decreases path.len() - k,
    {
        assert(p[k as int] == path[k as int]@);
        if path[k].as_str().unicode_len() != 0 {
            assert(gs[cur as int] == groups[cur as int].deep_view());
            assert(gs.len() == groups.len());
            match find_child(groups, cur, path[k].as_str()) {
                Some(c) => {
                    cur = c;
                },
                None => {
                    return cur;
                },
            }
        }
        k = k + 1;
    }
    cur
}

fn add_slot(
    h: &mut NodeHierarchy,
    vertices: &Vec<ExportablePDGNode>,
    times: &TimeIndex,
    t: i64,
    offset: usize,
)
    requires
        times.holds(stamps_of(vertices@), vertices.len() as int),
        hierarchy_wf(old(h).deep_view(), vertices.len() as int),
        members_ok(old(h).deep_view()),
    ensures
        final(h).deep_view() == slot(old(h).deep_view(), vertices.deep_view(), t, offset),
        hierarchy_wf(final(h).deep_view(), vertices.len() as int),
        members_ok(final(h).deep_view()),
        forall|v: int|
            0 <= v < vertices.len() && ((#[trigger] old(h).lookup[v]) is Some
                || vertices[v].timestamp == t) ==> final(h).lookup[v] is Some,
{
    let ghost vs = vertices.deep_view();
    let ghost h0 = h.deep_view();
    let n = vertices.len();
    let ghost m = n as int;
    let top = h.groups.len();
    proof {
        reveal_strlit("top");
        reveal_strlit("module_top");
    }
    let path: Vec<String> = Vec::new();
    assert(path.deep_view() =~= seq![]);
    h.groups.push(
        GraphNodeHierarchy {
            instance_name: "top".to_owned(),
            expanded: true,
            pdg_node: create_hier_pdg_node("module_top".to_owned(), t, path),
            node_indices: Vec::new(),
            children: Vec::new(),
            parent: None,
            group_id: offset.wrapping_add(top),
        },
    );
    h.tops.push(top);
    let ghost g1 = h.groups.deep_view();
    proof {
        let wanted = with_top(h0.groups, t, offset);
        assert(g1.len() == wanted.len());
        assert forall|g: int| 0 <= g < g1.len() implies g1[g] == wanted[g] by {
            assert(g1[g] == h.groups[g].deep_view());
            if g < top {
                assert(h0.groups[g] == old(h).groups[g].deep_view());
            } else {
                assert(g1[g].node_indices =~= seq![]);
                assert(g1[g].children =~= seq![]);
            }
        }
        assert(g1 =~= wanted);
        assert(members_kept(h0.groups, g1)) by {
            assert forall|g: int| 0 <= g < h0.groups.len() implies (#[trigger] g1[g]).node_indices
                == h0.groups[g].node_indices by {
                assert(g1[g] == wanted[g]);
            }
        }
        assert forall|g: int| 0 <= g < g1.len() implies {
            &&& ((#[trigger] g1[g]).parent matches Some(p) ==> p < g)
            &&& forall|j: int|
                0 <= j < g1[g].children.len() ==> (#[trigger] g1[g].children[j]) < g1.len()
            &&& forall|j: int|
                0 <= j < g1[g].node_indices.len() ==> (#[trigger] g1[g].node_indices[j]) < m
        } by {
            if g < top {
                assert(g1[g] == h0.groups[g]);
                assert forall|j: int| 0 <= j < g1[g].children.len() implies (
                #[trigger] g1[g].children[j]) < g1.len() by {
                    assert(h0.groups[g].children[j] < h0.groups.len());
                }
            }
        }
    }
    let empty: Vec<usize> = Vec::new();
    let members: &Vec<usize> = match times.at(t, Ghost(stamps_of(vertices@)), Ghost(vertices.len() as int)) {
        Some(list) => list,
        None => &empty,
    };
    proof {
        assert(stamps_of(vertices@) =~= stamps(vs));
        lemma_time_positions(stamps(vs), t, m);
        assert(members@ =~= time_positions(stamps(vs), t, m));
    }
    let paths = distinct_paths(vertices, members);
    let ghost ps = paths.deep_view();
    let mut most: usize = 0;
    let mut i: usize = 0;
    while i < paths.len()
        invariant
            i <= paths.len(),
            ps == paths.deep_view(),
            most == longest(ps, i as int),
        decreases paths.len() - i,
    {
        assert(ps[i as int].len() == paths[i as int].len());
        if paths[i].len() > most {
            most = paths[i].len();
        }
        i = i + 1;
    }
    let mut len: usize = 0;
    loop
        invariant_except_break
            len <= most,
            h.groups.deep_view() == enter_lengths(g1, top as int, ps, len as int, t, offset),
        invariant
            ps == paths.deep_view(),
            top < h.groups.len(),
            groups_wf(h.groups.deep_view(), m),
            members_kept(h0.groups, h.groups.deep_view()),
            h.tops@ == h0.tops.push(top),
            h.lookup@ == h0.lookup,
        ensures
            h.groups.deep_view() == enter_lengths(g1, top as int, ps, most + 1, t, offset),
        decreases most - len,
    {
        let ghost start = h.groups.deep_view();
        let mut q: usize = 0;
        while q < paths.len()
            invariant
                q <= paths.len(),
                ps == paths.deep_view(),
                top < h.groups.len(),
                groups_wf(h.groups.deep_view(), m),
                members_kept(h0.groups, h.groups.deep_view()),
                h.tops@ == h0.tops.push(top),
                h.lookup@ == h0.lookup,
                h.groups.deep_view() == enter_length(
                    start,
                    top as int,
                    ps,
                    len as int,
                    q as int,
                    t,
                    offset,
                ),
            decreases paths.len() - q,
        {
            assert(ps[q as int] == paths[q as int].deep_view());
            if paths[q].len() == len {
                let ghost inner = h.groups.deep_view();
                enter(&mut h.groups, top, &paths[q], t, offset, Ghost(m));
                assert(members_kept(h0.groups, h.groups.deep_view())) by {
                    let now = h.groups.deep_view();
                    assert forall|g: int| 0 <= g < h0.groups.len() implies (
                    #[trigger] now[g]).node_indices == h0.groups[g].node_indices by {
                        assert(inner[g].node_indices == h0.groups[g].node_indices);
                    }
                }
            }
            q = q + 1;
        }
        if len == most {
            break ;
        }
        len = len + 1;
    }
    let ghost entered = HierarchyView {
        groups: h.groups.deep_view(),
        tops: h0.tops.push(top),
        lookup: h0.lookup,
    };
    assert(h.deep_view() == entered);
    proof {
        assert forall|v: int| 0 <= v < entered.lookup.len() implies ((
        #[trigger] entered.lookup[v]) matches Some(g) ==> g < entered.groups.len()
            && entered.groups[g as int].node_indices.contains(v as usize)) by {
            if h0.lookup[v] is Some {
                let g = h0.lookup[v]->0;
                assert(h0.groups[g as int].node_indices.contains(v as usize));
                assert(entered.groups[g as int].node_indices == h0.groups[g as int].node_indices);
            }
        }
        lemma_time_positions(stamps(vs), t, m);
    }
    let mut j: usize = 0;
    while j < members.len()
        invariant
            j <= members.len(),
            n == vertices.len(),
            m == n,
            vs == vertices.deep_view(),
            top < h.groups.len(),
            forall|k: int| 0 <= k < members.len() ==> (#[trigger] members[k]) < n,
            groups_wf(h.groups.deep_view(), m),
            h0.lookup.len() == n,
            h.lookup.len() == n,
            h.tops@ == h0.tops.push(top),
            forall|v: int|
                0 <= v < n ==> ((#[trigger] h.lookup[v]) matches Some(g) ==> g < h.groups.len()),
            members_ok(h.deep_view()),
            forall|v: int|
                0 <= v < n && (#[trigger] h0.lookup[v]) is Some ==> h.lookup[v] is Some,
            forall|k: int| 0 <= k < j ==> h.lookup[(#[trigger] members[k]) as int] is Some,
            h.deep_view() == place_all(entered, top as int, vs, members@, j as int),
        decreases members.len() - j,
    {
        let v = members[j];
        let ghost before = h.deep_view();
        let ghost path = vs[v as int].instance_path;
        assert(path == vertices[v as int].instance_path.deep_view()) by {
            assert(vs[v as int] == vertices[v as int].deep_view());
        }
        let g = find_place(&h.groups, top, &vertices[v].instance_path, Ghost(m));
        h.groups[g].node_indices.push(v);
        h.lookup.set(v, Some(g));
        proof {
            let after = h.deep_view();
            let wanted = place(before, top as int, v, path);
            assert(after.groups.len() == wanted.groups.len());
            assert forall|x: int| 0 <= x < after.groups.len() implies after.groups[x]
                == wanted.groups[x] by {
                assert(after.groups[x] == h.groups[x].deep_view());
                if x != g {
                    assert(before.groups[x] == wanted.groups[x]);
                }
            }
            assert(after.groups =~= wanted.groups);
            assert(after.lookup =~= wanted.lookup);
            assert(after == wanted);
            assert forall|x: int| 0 <= x < after.lookup.len() implies ((
            #[trigger] after.lookup[x]) matches Some(y) ==> y < after.groups.len()
                && after.groups[y as int].node_indices.contains(x as usize)) by {
                if x == v {
                    let list = after.groups[g as int].node_indices;
                    assert(list[list.len() - 1] == v);
                } else if before.lookup[x] is Some {
                    let y = before.lookup[x]->0;
                    let old_list = before.groups[y as int].node_indices;
                    assert(old_list.contains(x as usize));
                    let k = choose|k: int| 0 <= k < old_list.len() && old_list[k] == x as usize;
                    assert(after.groups[y as int].node_indices[k] == x as usize);
                }
            }
            assert forall|k: int| 0 <= k < j + 1 implies h.lookup[(#[trigger] members[k]) as int]
                is Some by {
                if k < j {
                    assert(before.lookup[members[k] as int] is Some);
                }
            }
            assert forall|x: int| 0 <= x < after.groups.len() implies {
                &&& ((#[trigger] after.groups[x]).parent matches Some(p) ==> p < x)
                &&& forall|c: int|
                    0 <= c < after.groups[x].children.len() ==> (
                    #[trigger] after.groups[x].children[c]) < after.groups.len()
                &&& forall|c: int|
                    0 <= c < after.groups[x].node_indices.len() ==> (
                    #[trigger] after.groups[x].node_indices[c]) < m
            } by {
                assert(before.groups[x].parent == after.groups[x].parent);
                assert(before.groups[x].children == after.groups[x].children);
                assert forall|c: int| 0 <= c < after.groups[x].children.len() implies (
                #[trigger] after.groups[x].children[c]) < after.groups.len() by {
                    assert(before.groups[x].children[c] < before.groups.len());
                }
                assert forall|c: int| 0 <= c < after.groups[x].node_indices.len() implies (
                #[trigger] after.groups[x].node_indices[c]) < m by {
                    if c < before.groups[x].node_indices.len() {
                        assert(after.groups[x].node_indices[c] == before.groups[x].node_indices[c]);
                    }
                }
            }
        }
        j = j + 1;
    }
    proof {
        let after = h.deep_view();
        assert forall|k: int| 0 <= k < after.tops.len() implies (#[trigger] after.tops[k])
            < after.groups.len() by {
            if k < h0.tops.len() {
                assert(after.tops[k] == h0.tops[k]);
            }
        }
        assert forall|v: int|
            0 <= v < vertices.len() && ((#[trigger] old(h).lookup[v]) is Some
                || vertices[v].timestamp == t) implies h.lookup[v] is Some by {
            if old(h).lookup[v] is Some {
                assert(h0.lookup[v] is Some);
            } else {
                assert(vs[v] == vertices[v].deep_view());
                assert(stamps(vs)[v] == t);
                lemma_time_listed(stamps(vs), m, v);
                let k = choose|k: int| 0 <= k < members.len() && members[k] == v as usize;
                assert(h.lookup[members[k] as int] is Some);
            }
        }
    }
}

/// Groups the vertices of a graph by the instances of the design: for
/// every time from zero to the latest a tree with a group for every
/// instance that a vertex of the time stands in, and the vertices in
/// their groups. Only the group of the whole design starts expanded.
pub fn build_node_hierarchy(dpdg: &ExportablePDG) -> (h: NodeHierarchy)
    ensures
        h.deep_view() == hierarchy_of(dpdg.vertices.deep_view()),
        hierarchy_wf(h.deep_view(), dpdg.vertices.len() as int),
        members_ok(h.deep_view()),
        forall|v: int|
            0 <= v < dpdg.vertices.len() && (#[trigger] dpdg.vertices[v]).timestamp >= 0
                ==> h.lookup[v] is Some,
{
    let ghost vs = dpdg.vertices.deep_view();
    let n = dpdg.vertices.len();
    let offset = n.wrapping_mul(5);
    let times = index_times(&dpdg.vertices);
    let mut last: i64 = -1;
    let mut lookup: Vec<Option<usize>> = Vec::new();
    let mut v: usize = 0;
    while v < n
        invariant
            v <= n,
            n == dpdg.vertices.len(),
            vs == dpdg.vertices.deep_view(),
            lookup.len() == v,
            forall|u: int| 0 <= u < v ==> (#[trigger] lookup[u]) is None,
            forall|u: int| 0 <= u < v ==> (#[trigger] dpdg.vertices[u]).timestamp <= last,
            last == newest(vs, v as int),
        decreases n - v,
    {
        lookup.push(None);
        assert(vs[v as int] == dpdg.vertices[v as int].deep_view());
        if dpdg.vertices[v].timestamp > last {
            last = dpdg.vertices[v].timestamp;
        }
        v = v + 1;
    }
    let mut h = NodeHierarchy { groups: Vec::new(), tops: Vec::new(), lookup };
    proof {
        let start = slots(vs, 0, offset);
        assert(h.deep_view().groups =~= start.groups);
        assert(h.deep_view().tops =~= start.tops);
        assert(h.deep_view().lookup =~= start.lookup);
    }
    if last >= 0 {
        let mut t: i64 = 0;
        loop
            invariant_except_break
                0 <= t <= last,
                h.deep_view() == slots(vs, t as int, offset),
                forall|v: int|
                    0 <= v < n && 0 <= (#[trigger] dpdg.vertices[v]).timestamp < t
                        ==> h.lookup[v] is Some,
            invariant
                n == dpdg.vertices.len(),
                vs == dpdg.vertices.deep_view(),
                times.holds(stamps_of(dpdg.vertices@), n as int),
                hierarchy_wf(h.deep_view(), n as int),
                members_ok(h.deep_view()),
            ensures
                h.deep_view() == slots(vs, last + 1, offset),
                forall|v: int|
                    0 <= v < n && 0 <= (#[trigger] dpdg.vertices[v]).timestamp <= last
                        ==> h.lookup[v] is Some,
            decreases last - t,
        {
            let ghost before = h.lookup@;
            add_slot(&mut h, &dpdg.vertices, &times, t, offset);
            assert forall|v: int|
                0 <= v < n && 0 <= (#[trigger] dpdg.vertices[v]).timestamp <= t implies h.lookup[v]
                is Some by {
                if dpdg.vertices[v].timestamp < t {
                    assert(before[v] is Some);
                }
            }
            if t == last {
                break ;
            }
            t = t + 1;
        }
    }
    h
}

/// The outermost collapsed group among group `g` and the groups around it.
pub open spec fn highest(groups: Seq<GroupView>, g: int) -> Option<int>
    decreases g,
{
    let above = match groups[g].parent {
        Some(p) => if p < g {
            highest(groups, p as int)
        } else {
            None
        },
        None => None,
    };
    match above {
        Some(x) => Some(x),
        None => if groups[g].expanded {
            None
        } else {
            Some(g)
        },
    }
}

/// Finds the outermost collapsed group among a group and the groups around it.
pub fn highest_collapsed(h: &NodeHierarchy, group: usize) -> (r: Option<usize>)
    requires
        group < h.groups.len(),
        hierarchy_wf(h.deep_view(), h.lookup.len() as int),
    ensures
        match r {
            Some(g) => g < h.groups.len() && highest(h.groups.deep_view(), group as int) == Some(
                g as int,
            ),
            None => highest(h.groups.deep_view(), group as int) is None,
        },
{
    let ghost gs = h.groups.deep_view();
    let mut cur = group;
    let mut best: Option<usize> = None;
    loop
        invariant_except_break
            highest(gs, group as int) == match highest(gs, cur as int) {
                Some(x) => Some(x),
                None => match best {
                    Some(b) => Some(b as int),
                    None => None,
                },
            },
        invariant
            cur < h.groups.len(),
            gs == h.groups.deep_view(),
            groups_wf(gs, h.lookup.len() as int),
            best matches Some(b) ==> b < h.groups.len(),
        ensures
            highest(gs, group as int) == match best {
                Some(b) => Some(b as int),
                None => None,
            },
        decreases cur,
    {
        assert(gs[cur as int] == h.groups[cur as int].deep_view());
        match h.groups[cur].parent {
            Some(p) => {
                if !h.groups[cur].expanded {
                    best = Some(cur);
                }
                cur = p;
            },
            None => {
                if !h.groups[cur].expanded {
                    best = Some(cur);
                }
                break ;
            },
        }
    }
    best
}

/// The vertex that is shown in place of the members of a group: that of
/// the outermost collapsed group among the group and the groups around
/// it; none if all of them are expanded.
pub fn get_highest_hier_node(h: &NodeHierarchy, group: usize) -> (r: Option<ExportablePDGNode>)
    requires
        group < h.groups.len(),
        hierarchy_wf(h.deep_view(), h.lookup.len() as int),
    ensures
        match highest(h.groups.deep_view(), group as int) {
            Some(g) => r.deep_view() == Some(h.groups.deep_view()[g].pdg_node),
            None => r is None,
        },
{
    match highest_collapsed(h, group) {
        Some(g) => {
            assert(h.groups.deep_view()[g as int] == h.groups[g as int].deep_view());
            Some(clone_vertex(&h.groups[g].pdg_node))
        },
        None => None,
    }
}

/// The group that a walk along the parts of `path` from part `from` on arrives at from group `at`.
pub open spec fn walk_down(groups: Seq<GroupView>, at: int, path: Seq<Seq<char>>, from: int)
    -> Option<int>
    decreases path.len() - from,
{
    if from < 0 || from >= path.len() {
        Some(at)
    } else {
        match child_named(groups, at, path[from]) {
            Some(c) => walk_down(groups, c as int, path, from + 1),
            None => None,
        }
    }
}

/// The group that the path `path` names at the time `timestamp`: none
/// for an empty path, a path that starts with an empty name, a time
/// without a tree, or a path that leads to no group.
pub open spec fn toggle_target(h: HierarchyView, path: Seq<Seq<char>>, timestamp: i64) -> Option<
    int,
> {
    if path.len() > 0 && path[0].len() > 0 && 0 <= timestamp < h.tops.len() {
        walk_down(h.groups, h.tops[timestamp as int] as int, path, 0)
    } else {
        None
    }
}

/// The groups with group `g` expanded if it was collapsed, and collapsed if it was expanded.
pub open spec fn toggled(h: HierarchyView, g: int) -> HierarchyView {
    HierarchyView {
        groups: h.groups.update(g, GroupView { expanded: !h.groups[g].expanded, ..h.groups[g] }),
        ..h
    }
}

/// Expands or collapses the group that a path names at a time, and says
/// whether there was such a group.
pub fn toggle_module(h: &mut NodeHierarchy, instance_path: &Vec<String>, timestamp: i64) -> (changed:
    bool)
    requires
        hierarchy_wf(old(h).deep_view(), old(h).lookup.len() as int),
    ensures
        match toggle_target(old(h).deep_view(), instance_path.deep_view(), timestamp) {
            Some(g) => changed && final(h).deep_view() == toggled(old(h).deep_view(), g),
            None => !changed && final(h).deep_view() == old(h).deep_view(),
        },
        hierarchy_wf(final(h).deep_view(), final(h).lookup.len() as int),
{
    let ghost h0 = h.deep_view();
    let ghost p = instance_path.deep_view();
    let ghost m = h.lookup.len() as int;
    if instance_path.len() == 0 {
        return false;
    }
    assert(p[0] == instance_path[0]@);
    if instance_path[0].as_str().unicode_len() == 0 {
        return false;
    }
    if timestamp < 0 || h.tops.len() as u128 <= timestamp as u128 {
        return false;
    }
    let top = h.tops[timestamp as usize];
    let mut cur = top;
    let mut k: usize = 0;
    while k < instance_path.len()
        invariant
            k <= instance_path.len(),
            cur < h.groups.len(),
            h.deep_view() == h0,
            p == instance_path.deep_view(),
            m == h.lookup.len(),
            hierarchy_wf(h0, m),
            toggle_target(h0, p, timestamp) == walk_down(h0.groups, top as int, p, 0),
            walk_down(h0.groups, top as int, p, 0) == walk_down(h0.groups, cur as int, p, k as int),
        decreases instance_path.len() - k,
    {
        proof {
            assert(p[k as int] == instance_path[k as int]@);
            assert(h0.groups[cur as int] == h.groups[cur as int].deep_view());
            assert forall|j: int| 0 <= j < h.groups[cur as int].children.len() implies (
            #[trigger] h.groups[cur as int].children[j]) < h.groups.len() by {
                assert(h0.groups[cur as int].children[j] < h0.groups.len());
            }
        }
        match find_child(&h.groups, cur, instance_path[k].as_str()) {
            Some(c) => {
                cur = c;
            },
            None => {
                assert(walk_down(h0.groups, cur as int, p, k as int) is None);
                return false;
            },
        }
        k = k + 1;
    }
    let now = h.groups[cur].expanded;
    h.groups[cur].expanded = !now;
    proof {
        let after = h.deep_view();
        let wanted = toggled(h0, cur as int);
        assert(h0.groups[cur as int] == old(h).groups[cur as int].deep_view());
        assert(after.groups.len() == wanted.groups.len());
        assert forall|x: int| 0 <= x < after.groups.len() implies after.groups[x]
            == wanted.groups[x] by {
            assert(after.groups[x] == h.groups[x].deep_view());
            assert(h0.groups[x] == old(h).groups[x].deep_view());
        }
        assert(after.groups =~= wanted.groups);
        assert forall|x: int| 0 <= x < after.groups.len() implies {
            &&& ((#[trigger] after.groups[x]).parent matches Some(q) ==> q < x)
            &&& forall|c: int|
                0 <= c < after.groups[x].children.len() ==> (
                #[trigger] after.groups[x].children[c]) < after.groups.len()
            &&& forall|c: int|
                0 <= c < after.groups[x].node_indices.len() ==> (
                #[trigger] after.groups[x].node_indices[c]) < m
        } by {
            assert(h0.groups[x].parent == after.groups[x].parent);
            assert(h0.groups[x].children == after.groups[x].children);
            assert(h0.groups[x].node_indices == after.groups[x].node_indices);
            assert forall|c: int| 0 <= c < after.groups[x].children.len() implies (
            #[trigger] after.groups[x].children[c]) < after.groups.len() by {
                assert(h0.groups[x].children[c] < h0.groups.len());
            }
            assert forall|c: int| 0 <= c < after.groups[x].node_indices.len() implies (
            #[trigger] after.groups[x].node_indices[c]) < m by {
                assert(h0.groups[x].node_indices[c] < m);
            }
        }
    }
    true
}

} // verus!
