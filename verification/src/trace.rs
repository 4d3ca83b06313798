//! A recorded simulation as plain data: the declarations of its header and
//! the commands of its body.

use vstd::prelude::*;
use vstd::string::*;
use vstd::arithmetic::div_mod::{lemma_add_mod_noop, lemma_mul_mod_noop_right, lemma_small_mod};
use crate::text::{dotted, has_prefix, join_dotted, same_text, starts_with};

verus! {

/// A four-valued logic level.
#[derive(Clone, Copy, Debug, PartialEq, Eq, Hash, Structural)]
pub enum LogicValue {
    V0,
    V1,
    X,
    Z,
}

/// A change of a scalar signal that is neither clock, reset nor probe.
#[derive(Clone, Copy, Debug, PartialEq, Eq, Structural)]
pub struct ValueChange {
    pub id: u64,
    pub value: LogicValue,
}

/// One command of the body of a trace.
#[derive(Debug)]
pub enum TraceCommand {
    /// Simulation time advances.
    Timestamp(u64),
    /// The signal with this identifier takes a scalar value.
    ChangeScalar(u64, LogicValue),
    /// The signal with this identifier takes a vector value, first bit most significant.
    ChangeVector(u64, Vec<LogicValue>),
    /// Any other command; the reader passes over it.
    Other,
}

/// A declared variable: its name inside its scope and the identifier that
/// the body uses for it.
#[derive(Debug)]
pub struct Var {
    pub reference: String,
    pub code: u64,
}

/// A declared scope and what it holds.
#[derive(Debug)]
pub struct Scope {
    pub identifier: String,
    pub items: Vec<ScopeItem>,
}

/// An entry of a scope.
#[derive(Debug)]
pub enum ScopeItem {
    Scope(Scope),
    Var(Var),
    Other,
}

/// The declarations of a trace.
#[derive(Debug)]
pub struct Header {
    pub items: Vec<ScopeItem>,
}

/// A probe signal: its identifier and its dotted path below the scope root.
#[derive(Debug)]
pub struct Probe {
    pub code: u64,
    pub path: String,
}

impl DeepView for Probe {
    type V = (u64, Seq<char>);

    open spec fn deep_view(&self) -> (u64, Seq<char>) {
        (self.code, self.path@)
    }
}

/// Two to the power 64.
pub open spec fn word_modulus() -> int {
    0x1_0000_0000_0000_0000
}

/// The number that a bit vector spells, first bit most significant; only `V1` counts as one.
pub open spec fn bits_value(bits: Seq<LogicValue>) -> nat
    decreases bits.len(),
{
    if bits.len() == 0 {
        0
    } else {
        2 * bits_value(bits.drop_last()) + (if bits.last() == LogicValue::V1 {
            1nat
        } else {
            0nat
        })
    }
}

/// The unsigned value of a bit vector, truncated to its low 64 bits.
pub fn bitvector_to_unsigned(input_vec: &Vec<LogicValue>) -> (val: u64)
    ensures
        val as int == bits_value(input_vec@) as int % word_modulus(),
{
    let mut val: u64 = 0;
    let mut i: usize = 0;
    proof {
        assert(input_vec@.take(0) == Seq::<LogicValue>::empty());
        lemma_small_mod(0, word_modulus() as nat);
    }
    while i < input_vec.len()
        invariant
            i <= input_vec.len(),
            val as int == bits_value(input_vec@.take(i as int)) as int % word_modulus(),
        decreases input_vec.len() - i,
    {
        let bit: u128 = if input_vec[i] == LogicValue::V1 {
            1
        } else {
            0
        };
        let wide: u128 = (val as u128 * 2 + bit) % 0x1_0000_0000_0000_0000u128;
        proof {
            let prev = bits_value(input_vec@.take(i as int)) as int;
            let m = word_modulus();
            assert(input_vec@.take(i + 1).drop_last() == input_vec@.take(i as int));
            assert(input_vec@.take(i + 1).last() == input_vec@[i as int]);
            assert(bits_value(input_vec@.take(i + 1)) as int == 2 * prev + bit);
            lemma_mul_mod_noop_right(2, prev, m);
            lemma_add_mod_noop(2 * prev, bit as int, m);
            lemma_add_mod_noop(2 * (prev % m), bit as int, m);
            assert(wide as int == (2 * prev + bit) % m);
        }
        val = wide as u64;
        i = i + 1;
    }
    assert(input_vec@.take(i as int) == input_vec@);
    val
}

/// The scalar value of a probe: one for `V1`, zero for every other level.
pub open spec fn scalar_value(v: LogicValue) -> u64 {
    if v == LogicValue::V1 {
        1
    } else {
        0
    }
}

/// Whether `item` is a scope called `name`.
pub open spec fn is_scope_named(item: ScopeItem, name: Seq<char>) -> bool {
    item matches ScopeItem::Scope(s) && s.identifier@ == name
}

/// Whether `item` is a variable called `name`.
pub open spec fn is_var_named(item: ScopeItem, name: Seq<char>) -> bool {
    item matches ScopeItem::Var(v) && v.reference@ == name
}

/// The position of the first scope called `name` at or after `start`.
pub open spec fn first_scope(items: Seq<ScopeItem>, name: Seq<char>, start: int) -> Option<int>
    decreases items.len() - start,
{
    if start < 0 || start >= items.len() {
        None
    } else if is_scope_named(items[start], name) {
        Some(start)
    } else {
        first_scope(items, name, start + 1)
    }
}

/// The position of the first variable called `name` at or after `start`.
pub open spec fn first_var(items: Seq<ScopeItem>, name: Seq<char>, start: int) -> Option<int>
    decreases items.len() - start,
{
    if start < 0 || start >= items.len() {
        None
    } else if is_var_named(items[start], name) {
        Some(start)
    } else {
        first_var(items, name, start + 1)
    }
}

/// The entries of the scope reached from `items` along `path`, taking at
/// each step the first scope of that name.
pub open spec fn descend(items: Seq<ScopeItem>, path: Seq<Seq<char>>) -> Option<Seq<ScopeItem>>
    decreases path.len(),
{
    if path.len() == 0 {
        Some(items)
    } else {
        match first_scope(items, path[0], 0) {
            Some(i) => descend(items[i]->Scope_0.items@, path.drop_first()),
            None => None,
        }
    }
}

/// The entries of the scope at a non-empty `path`; the empty path names no scope.
pub open spec fn scope_at(items: Seq<ScopeItem>, path: Seq<Seq<char>>) -> Option<Seq<ScopeItem>> {
    if path.len() == 0 {
        None
    } else {
        descend(items, path)
    }
}

/// The identifier of the variable at `path`: the first variable called
/// `path.last()` in the scope at the path before it.
pub open spec fn var_at(items: Seq<ScopeItem>, path: Seq<Seq<char>>) -> Option<u64> {
    if path.len() == 0 {
        None
    } else {
        match descend(items, path.drop_last()) {
            Some(parent) => match first_var(parent, path.last(), 0) {
                Some(i) => Some(parent[i]->Var_0.code),
                None => None,
            },
            None => None,
        }
    }
}

fn find_scope_index(items: &Vec<ScopeItem>, name: &str) -> (r: Option<usize>)
    ensures
        r matches Some(i) ==> first_scope(items@, name@, 0) == Some(i as int) && i < items.len()
            && is_scope_named(items@[i as int], name@),
        r is None ==> first_scope(items@, name@, 0) is None,
{
    let mut i: usize = 0;
    while i < items.len()
        invariant
            i <= items.len(),
            first_scope(items@, name@, 0) == first_scope(items@, name@, i as int),
        decreases items.len() - i,
    {
        match &items[i] {
            ScopeItem::Scope(s) => {
                if same_text(s.identifier.as_str(), name) {
                    return Some(i);
                }
            },
            _ => {},
        }
        i = i + 1;
    }
    None
}

fn find_var_index(items: &Vec<ScopeItem>, name: &str) -> (r: Option<usize>)
    ensures
        r matches Some(i) ==> first_var(items@, name@, 0) == Some(i as int) && i < items.len()
            && is_var_named(items@[i as int], name@),
        r is None ==> first_var(items@, name@, 0) is None,
{
    let mut i: usize = 0;
    while i < items.len()
        invariant
            i <= items.len(),
            first_var(items@, name@, 0) == first_var(items@, name@, i as int),
        decreases items.len() - i,
    {
        match &items[i] {
            ScopeItem::Var(v) => {
                if same_text(v.reference.as_str(), name) {
                    return Some(i);
                }
            },
            _ => {},
        }
        i = i + 1;
    }
    None
}

fn descend_to<'a>(items: &'a Vec<ScopeItem>, path: &Vec<String>, len: usize) -> (r: Option<
    &'a Vec<ScopeItem>,
>)
    requires
        len <= path.len(),
    ensures
        r matches Some(found) ==> descend(items@, path.deep_view().take(len as int)) == Some(
            found@,
        ),
        r is None ==> descend(items@, path.deep_view().take(len as int)) is None,
{
    let ghost names = path.deep_view().take(len as int);
    let mut cur: &'a Vec<ScopeItem> = items;
    let mut k: usize = 0;
    proof {
        assert(names.skip(0) == names);
    }
    while k < len
        invariant
            k <= len <= path.len(),
            names == path.deep_view().take(len as int),
            descend(items@, names) == descend(cur@, names.skip(k as int)),
        decreases len - k,
    {
        let ghost rest = names.skip(k as int);
        assert(rest[0] == path[k as int]@);
        assert(rest.drop_first() == names.skip(k + 1));
        match find_scope_index(cur, path[k].as_str()) {
            Some(i) => {
                match &cur[i] {
                    ScopeItem::Scope(s) => {
                        cur = &s.items;
                    },
                    _ => {
                        return None;
                    },
                }
            },
            None => {
                return None;
            },
        }
        k = k + 1;
    }
    assert(names.skip(len as int).len() == 0);
    Some(cur)
}

impl Header {
    /// The entries of the scope at `path`, if the path is not empty and leads to one.
    pub fn find_scope<'a>(&'a self, path: &Vec<String>) -> (r: Option<&'a Vec<ScopeItem>>)
        ensures
            r matches Some(found) ==> scope_at(self.items@, path.deep_view()) == Some(found@),
            r is None ==> scope_at(self.items@, path.deep_view()) is None,
    {
        if path.len() == 0 {
            return None;
        }
        assert(path.deep_view().take(path.len() as int) == path.deep_view());
        descend_to(&self.items, path, path.len())
    }

    /// The scope at `path`, if the path is not empty and leads to one.
    pub fn find_scope_entry<'a>(&'a self, path: &Vec<String>) -> (r: Option<&'a Scope>)
        ensures
            path.len() > 0 ==> match r {
                Some(scope) => first_scope_path(self.items@, path.deep_view()) == Some(*scope),
                None => first_scope_path(self.items@, path.deep_view()) is None,
            },
            path.len() == 0 ==> (r is None),
    {
        if path.len() == 0 {
            return None;
        }
        let last = path.len() - 1;
        assert(path.deep_view().take(last as int) == path.deep_view().drop_last());
        assert(path.deep_view().last() == path[last as int]@);
        match descend_to(&self.items, path, last) {
            Some(parent) => match find_scope_index(parent, path[last].as_str()) {
                Some(i) => match &parent[i] {
                    ScopeItem::Scope(s) => Some(s),
                    _ => None,
                },
                None => None,
            },
            None => None,
        }
    }

    /// The identifier of the variable at `path`.
    pub fn find_var(&self, path: &Vec<String>) -> (r: Option<u64>)
        ensures
            r == var_at(self.items@, path.deep_view()),
    {
        if path.len() == 0 {
            return None;
        }
        let last = path.len() - 1;
        assert(path.deep_view().take(last as int) == path.deep_view().drop_last());
        assert(path.deep_view().last() == path[last as int]@);
        match descend_to(&self.items, path, last) {
            Some(parent) => match find_var_index(parent, path[last].as_str()) {
                Some(i) => match &parent[i] {
                    ScopeItem::Var(v) => Some(v.code),
                    _ => None,
                },
                None => None,
            },
            None => None,
        }
    }
}

/// The probes that one entry declares, paths taken below `prefix`: a
/// variable whose name begins with `probe_`, or every probe inside a scope.
pub open spec fn item_probes(item: &ScopeItem, prefix: Seq<char>) -> Seq<(u64, Seq<char>)>
    decreases item, 0int,
{
    match item {
        ScopeItem::Scope(s) => items_probes(
            &s.items,
            dotted(prefix, s.identifier@),
            s.items.len() as int,
        ),
        ScopeItem::Var(v) => if has_prefix(v.reference@, "probe_"@) {
            seq![(v.code, dotted(prefix, v.reference@))]
        } else {
            seq![]
        },
        ScopeItem::Other => seq![],
    }
}

/// The probes that the first `upto` entries declare, in order.
pub open spec fn items_probes(items: &Vec<ScopeItem>, prefix: Seq<char>, upto: int) -> Seq<
    (u64, Seq<char>),
>
    decreases items, upto,
{
    if upto <= 0 || upto > items.len() {
        seq![]
    } else {
        items_probes(items, prefix, upto - 1) + item_probes(&items[upto - 1], prefix)
    }
}

fn collect_probes(items: &Vec<ScopeItem>, prefix: &str, out: &mut Vec<Probe>)
    ensures
        final(out).deep_view() == old(out).deep_view() + items_probes(
            items,
            prefix@,
            items.len() as int,
        ),
    decreases items,
{
    let mut i: usize = 0;
    proof {
        assert(out.deep_view() + Seq::<(u64, Seq<char>)>::empty() == out.deep_view());
    }
    while i < items.len()
        invariant
            i <= items.len(),
            out.deep_view() == old(out).deep_view() + items_probes(items, prefix@, i as int),
        decreases items.len() - i,
    {
        let ghost before = out.deep_view();
        let ghost done = items_probes(items, prefix@, i as int);
        match &items[i] {
            ScopeItem::Scope(s) => {
                let inner = join_dotted(prefix, s.identifier.as_str());
                collect_probes(&s.items, inner.as_str(), out);
            },
            ScopeItem::Var(v) => {
                if starts_with(v.reference.as_str(), "probe_") {
                    let path = join_dotted(prefix, v.reference.as_str());
                    out.push(Probe { code: v.code, path });
                    assert(out.deep_view() == before + seq![(v.code, dotted(prefix@, v.reference@))]);
                }
            },
            ScopeItem::Other => {},
        }
        proof {
            let added = item_probes(&items[i as int], prefix@);
            assert(out.deep_view() == before + added);
            assert(old(out).deep_view() + done + added == old(out).deep_view() + (done + added));
        }
        i = i + 1;
    }
}

/// The probes below the scope at `root_scope`; none if that scope is missing.
pub open spec fn probes_below(items: Seq<ScopeItem>, root_scope: Seq<Seq<char>>) -> Seq<
    (u64, Seq<char>),
> {
    if root_scope.len() == 0 {
        seq![]
    } else {
        match first_scope_path(items, root_scope) {
            Some(scope) => items_probes(&scope.items, Seq::empty(), scope.items.len() as int),
            None => seq![],
        }
    }
}

/// The scope at a non-empty `path`.
pub open spec fn first_scope_path(items: Seq<ScopeItem>, path: Seq<Seq<char>>) -> Option<Scope> {
    match descend(items, path.drop_last()) {
        Some(parent) => match first_scope(parent, path.last(), 0) {
            Some(i) => Some(parent[i]->Scope_0),
            None => None,
        },
        None => None,
    }
}

/// Every variable below the scope at `root_scope` whose name begins with
/// `probe_`, with its identifier and its dotted path below that scope.
pub fn find_probes(header: &Header, root_scope: &Vec<String>) -> (probes: Vec<Probe>)
    ensures
        probes.deep_view() == probes_below(header.items@, root_scope.deep_view()),
{
    let mut probes: Vec<Probe> = Vec::new();
    assert(probes.deep_view() == Seq::<(u64, Seq<char>)>::empty());
    if root_scope.len() == 0 {
        return probes;
    }
    let last = root_scope.len() - 1;
    assert(root_scope.deep_view().take(last as int) == root_scope.deep_view().drop_last());
    assert(root_scope.deep_view().last() == root_scope[last as int]@);
    match descend_to(&header.items, root_scope, last) {
        Some(parent) => match find_scope_index(parent, root_scope[last].as_str()) {
            Some(i) => match &parent[i] {
                ScopeItem::Scope(s) => {
                    proof {
                        reveal_strlit("");
                        assert(""@ == Seq::<char>::empty());
                        assert(Seq::<(u64, Seq<char>)>::empty() + items_probes(
                            &s.items,
                            Seq::empty(),
                            s.items.len() as int,
                        ) == items_probes(&s.items, Seq::empty(), s.items.len() as int));
                    }
                    collect_probes(&s.items, "", &mut probes);
                },
                _ => {},
            },
            None => {},
        },
        None => {},
    }
    probes
}

} // verus!
