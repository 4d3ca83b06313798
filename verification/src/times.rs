//! The vertices of a graph listed by their time stamps.

use std::collections::HashMap;
use vstd::prelude::*;
use vstd::std_specs::hash::*;
use crate::pdg_spec::ExportablePDGNode;

verus! {

broadcast use group_hash_axioms;

/// The positions among the first `upto` of `times` that hold the time `t`, ascending.
pub open spec fn time_positions(times: Seq<i64>, t: i64, upto: int) -> Seq<usize>
    decreases upto,
{
    if upto <= 0 {
        seq![]
    } else if times[upto - 1] == t {
        time_positions(times, t, upto - 1).push((upto - 1) as usize)
    } else {
        time_positions(times, t, upto - 1)
    }
}

/// The positions listed for a time lie below `upto`, hold that time and ascend.
pub proof fn lemma_time_positions(times: Seq<i64>, t: i64, upto: int)
    requires
        0 <= upto <= times.len() <= usize::MAX,
    ensures
        forall|j: int|
            0 <= j < time_positions(times, t, upto).len() ==> (#[trigger] time_positions(
                times,
                t,
                upto,
            )[j]) < upto && times[time_positions(times, t, upto)[j] as int] == t,
        forall|i: int, j: int|
            0 <= i < j < time_positions(times, t, upto).len() ==> time_positions(times, t, upto)[i]
                < time_positions(times, t, upto)[j],
    decreases upto,
{
    if upto > 0 {
        lemma_time_positions(times, t, upto - 1);
        let rest = time_positions(times, t, upto - 1);
        let all = time_positions(times, t, upto);
        assert forall|j: int| 0 <= j < all.len() implies (#[trigger] all[j]) < upto && times[all[j] as int]
            == t by {
            if j < rest.len() {
                assert(all[j] == rest[j]);
            }
        }
        assert forall|i: int, j: int| 0 <= i < j < all.len() implies all[i] < all[j] by {
            assert(all[i] == rest[i]);
            if j < rest.len() {
                assert(all[j] == rest[j]);
            }
        }
    }
}

/// Every position below `upto` that holds a time is listed for it.
pub proof fn lemma_time_listed(times: Seq<i64>, upto: int, i: int)
    requires
        0 <= i < upto <= times.len() <= usize::MAX,
    ensures
        time_positions(times, times[i], upto).contains(i as usize),
    decreases upto,
{
    let t = times[i];
    let all = time_positions(times, t, upto);
    if i == upto - 1 {
        assert(all[all.len() - 1] == i as usize);
    } else {
        lemma_time_listed(times, upto - 1, i);
        let rest = time_positions(times, t, upto - 1);
        let j = choose|j: int| 0 <= j < rest.len() && rest[j] == i as usize;
        assert(all[j] == i as usize);
    }
}

/// What is listed of the first `upto` time stamps depends on these alone.
pub proof fn lemma_time_prefix(a: Seq<i64>, b: Seq<i64>, t: i64, upto: int)
    requires
        0 <= upto <= a.len(),
        upto <= b.len(),
        forall|i: int| 0 <= i < upto ==> a[i] == b[i],
    ensures
        time_positions(a, t, upto) == time_positions(b, t, upto),
    decreases upto,
{
    if upto > 0 {
        lemma_time_prefix(a, b, t, upto - 1);
    }
}

/// The vertices of a graph by their time stamps.
#[derive(Debug)]
pub struct TimeIndex {
    /// For every time stamp the place of its list.
    pub index: HashMap<i64, usize>,
    /// The lists of vertices, each ascending.
    pub lists: Vec<Vec<usize>>,
}

impl TimeIndex {
    /// The lists hold, for the first `upto` of the time stamps `times`, the positions of each.
    pub open spec fn holds(&self, times: Seq<i64>, upto: int) -> bool {
        &&& forall|t: i64| #[trigger]
            self.index@.contains_key(t) ==> self.index@[t] < self.lists.len()
                && self.lists[self.index@[t] as int]@ == time_positions(times, t, upto)
                && time_positions(times, t, upto).len() > 0
        &&& forall|t: i64|
            !self.index@.contains_key(t) ==> (#[trigger] time_positions(times, t, upto)).len() == 0
        &&& forall|a: i64, b: i64|
            #[trigger] self.index@.contains_key(a) && #[trigger] self.index@.contains_key(b) && a
                != b ==> self.index@[a] != self.index@[b]
    }

    /// An index of no vertices.
    pub fn new() -> (r: TimeIndex)
        ensures
            forall|times: Seq<i64>| r.holds(times, 0),
    {
        TimeIndex { index: HashMap::new(), lists: Vec::new() }
    }

    /// The vertices with the time stamp `t`, ascending.
    pub(crate) fn at(&self, t: i64, Ghost(times): Ghost<Seq<i64>>, Ghost(upto): Ghost<int>) -> (list:
        Option<&Vec<usize>>)
        requires
            self.holds(times, upto),
        ensures
            match list {
                Some(l) => l@ == time_positions(times, t, upto),
                None => time_positions(times, t, upto).len() == 0,
            },
    {
        match self.index.get(&t) {
            Some(place) => Some(&self.lists[*place]),
            None => None,
        }
    }

    /// Lists vertex `v`, which has the time stamp `t`.
    pub(crate) fn enter(&mut self, t: i64, v: usize, Ghost(times): Ghost<Seq<i64>>)
        requires
            old(self).holds(times, v as int),
            v < times.len(),
            times[v as int] == t,
        ensures
            final(self).holds(times, v + 1),
    {
        let ghost before = *self;
        let place = match self.index.get(&t) {
            Some(p) => Some(*p),
            None => None,
        };
        match place {
            Some(p) => {
                self.lists[p].push(v);
                proof {
                    assert forall|u: i64| #[trigger]
                        self.index@.contains_key(u) implies self.index@[u] < self.lists.len()
                        && self.lists[self.index@[u] as int]@ == time_positions(times, u, v + 1)
                        && time_positions(times, u, v + 1).len() > 0 by {
                        assert(before.index@.contains_key(u));
                        if u != t {
                            assert(before.index@[u] != before.index@[t]);
                        }
                    }
                    assert forall|u: i64| !self.index@.contains_key(u) implies (
                    #[trigger] time_positions(times, u, v + 1)).len() == 0 by {
                        assert(time_positions(times, u, v as int).len() == 0);
                    }
                    assert forall|a: i64, b: i64|
                        #[trigger] self.index@.contains_key(a) && #[trigger] self.index@.contains_key(
                            b,
                        ) && a != b implies self.index@[a] != self.index@[b] by {
                        assert(before.index@.contains_key(a) && before.index@.contains_key(b));
                    }
                }
            },
            None => {
                let mut fresh: Vec<usize> = Vec::new();
                fresh.push(v);
                self.index.insert(t, self.lists.len());
                self.lists.push(fresh);
                proof {
                    assert(time_positions(times, t, v as int).len() == 0);
                    assert forall|u: i64| !self.index@.contains_key(u) implies (
                    #[trigger] time_positions(times, u, v + 1)).len() == 0 by {
                        assert(!before.index@.contains_key(u));
                        assert(time_positions(times, u, v as int).len() == 0);
                    }
                    assert forall|u: i64| #[trigger]
                        self.index@.contains_key(u) implies self.index@[u] < self.lists.len()
                        && self.lists[self.index@[u] as int]@ == time_positions(times, u, v + 1)
                        && time_positions(times, u, v + 1).len() > 0 by {
                        if u != t {
                            assert(before.index@.contains_key(u));
                            assert(self.lists[self.index@[u] as int]
                                == before.lists[before.index@[u] as int]);
                        }
                    }
                    assert forall|a: i64, b: i64|
                        #[trigger] self.index@.contains_key(a) && #[trigger] self.index@.contains_key(
                            b,
                        ) && a != b implies self.index@[a] != self.index@[b] by {
                        if a != t && b != t {
                            assert(before.index@.contains_key(a) && before.index@.contains_key(b));
                        }
                    }
                }
            },
        }
    }
}

/// The time stamps of the vertices of a graph.
pub open spec fn stamps_of(vertices: Seq<ExportablePDGNode>) -> Seq<i64> {
    Seq::new(vertices.len(), |v: int| vertices[v].timestamp)
}

/// Lists the vertices of a graph by their time stamps.
pub fn index_times(vertices: &Vec<ExportablePDGNode>) -> (r: TimeIndex)
    ensures
        r.holds(stamps_of(vertices@), vertices.len() as int),
{
    let ghost times = stamps_of(vertices@);
    let mut r = TimeIndex::new();
    let mut v: usize = 0;
    while v < vertices.len()
        invariant
            v <= vertices.len(),
            times == stamps_of(vertices@),
            r.holds(times, v as int),
        decreases vertices.len() - v,
    {
        r.enter(vertices[v].timestamp, v, Ghost(times));
        v = v + 1;
    }
    r
}

} // verus!
