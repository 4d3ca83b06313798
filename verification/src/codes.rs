//! Finding the entries of a list by the identifier that they carry.

use std::collections::HashMap;
use vstd::prelude::*;
use vstd::std_specs::hash::*;

verus! {

broadcast use group_hash_axioms;

/// The positions among the first `upto` of `codes` that hold `code`, ascending.
pub open spec fn code_positions(codes: Seq<u64>, code: u64, upto: int) -> Seq<usize>
    decreases upto,
{
    if upto <= 0 {
        seq![]
    } else if codes[upto - 1] == code {
        code_positions(codes, code, upto - 1).push((upto - 1) as usize)
    } else {
        code_positions(codes, code, upto - 1)
    }
}

/// The positions listed for an identifier lie below `upto` and hold that identifier.
pub proof fn lemma_code_positions(codes: Seq<u64>, code: u64, upto: int)
    requires
        0 <= upto <= codes.len() <= usize::MAX,
    ensures
        forall|j: int|
            0 <= j < code_positions(codes, code, upto).len() ==> (#[trigger] code_positions(
                codes,
                code,
                upto,
            )[j]) < upto && codes[code_positions(codes, code, upto)[j] as int] == code,
    decreases upto,
{
    if upto > 0 {
        lemma_code_positions(codes, code, upto - 1);
        let rest = code_positions(codes, code, upto - 1);
        let all = code_positions(codes, code, upto);
        assert forall|j: int| 0 <= j < all.len() implies (#[trigger] all[j]) < upto
            && codes[all[j] as int] == code by {
            if j < rest.len() {
                assert(all[j] == rest[j]);
            }
        }
    }
}

/// The entries of a list by their identifiers.
#[derive(Debug)]
pub struct CodeIndex {
    /// For every identifier the place of its list.
    pub index: HashMap<u64, usize>,
    /// The lists of positions, each ascending.
    pub lists: Vec<Vec<usize>>,
}

impl CodeIndex {
    /// The lists hold, for the first `upto` of the identifiers `codes`, the positions of each.
    pub open spec fn holds(&self, codes: Seq<u64>, upto: int) -> bool {
        &&& forall|c: u64| #[trigger]
            self.index@.contains_key(c) ==> self.index@[c] < self.lists.len()
                && self.lists[self.index@[c] as int]@ == code_positions(codes, c, upto)
                && code_positions(codes, c, upto).len() > 0
        &&& forall|c: u64|
            !self.index@.contains_key(c) ==> (#[trigger] code_positions(codes, c, upto)).len() == 0
        &&& forall|a: u64, b: u64|
            #[trigger] self.index@.contains_key(a) && #[trigger] self.index@.contains_key(b) && a
                != b ==> self.index@[a] != self.index@[b]
    }

    /// Every list that the index names exists.
    pub open spec fn in_range(&self) -> bool {
        forall|c: u64| #[trigger] self.index@.contains_key(c) ==> self.index@[c] < self.lists.len()
    }

    /// The positions of the identifier `code`, if it has any.
    pub fn at(&self, code: u64) -> (list: Option<&Vec<usize>>)
        requires
            self.in_range(),
        ensures
            match list {
                Some(l) => self.index@.contains_key(code) && l == &self.lists[self.index@[code] as int],
                None => !self.index@.contains_key(code),
            },
    {
        match self.index.get(&code) {
            Some(place) => Some(&self.lists[*place]),
            None => None,
        }
    }

    /// An index of nothing.
    pub fn new() -> (r: CodeIndex)
        ensures
            forall|codes: Seq<u64>| r.holds(codes, 0),
    {
        CodeIndex { index: HashMap::new(), lists: Vec::new() }
    }

    /// Enters position `v`, which carries the identifier `code`.
    pub(crate) fn enter(&mut self, code: u64, v: usize, Ghost(codes): Ghost<Seq<u64>>)
        requires
            old(self).holds(codes, v as int),
            v < codes.len(),
            codes[v as int] == code,
        ensures
            final(self).holds(codes, v + 1),
    {
        let ghost before = *self;
        let place = match self.index.get(&code) {
            Some(p) => Some(*p),
            None => None,
        };
        match place {
            Some(p) => {
                self.lists[p].push(v);
                proof {
                    assert forall|u: u64| #[trigger] self.index@.contains_key(u) implies self.index@[u]
                        < self.lists.len() && self.lists[self.index@[u] as int]@ == code_positions(
                        codes,
                        u,
                        v + 1,
                    ) && code_positions(codes, u, v + 1).len() > 0 by {
                        assert(before.index@.contains_key(u));
                        if u != code {
                            assert(before.index@[u] != before.index@[code]);
                        }
                    }
                    assert forall|u: u64| !self.index@.contains_key(u) implies (
                    #[trigger] code_positions(codes, u, v + 1)).len() == 0 by {
                        assert(code_positions(codes, u, v as int).len() == 0);
                    }
                    assert forall|a: u64, b: u64|
                        #[trigger] self.index@.contains_key(a) && #[trigger] self.index@.contains_key(
                            b,
                        ) && a != b implies self.index@[a] != self.index@[b] by {
                        assert(before.index@.contains_key(a) && before.index@.contains_key(b));
                    }
                }
            },
            None => {
                let mut fresh: Vec<usize> = Vec::new();
                fresh.push(v);
                self.index.insert(code, self.lists.len());
                self.lists.push(fresh);
                proof {
                    assert(code_positions(codes, code, v as int).len() == 0);
                    assert forall|u: u64| !self.index@.contains_key(u) implies (
                    #[trigger] code_positions(codes, u, v + 1)).len() == 0 by {
                        assert(!before.index@.contains_key(u));
                        assert(code_positions(codes, u, v as int).len() == 0);
                    }
                    assert forall|u: u64| #[trigger] self.index@.contains_key(u) implies self.index@[u]
                        < self.lists.len() && self.lists[self.index@[u] as int]@ == code_positions(
                        codes,
                        u,
                        v + 1,
                    ) && code_positions(codes, u, v + 1).len() > 0 by {
                        if u != code {
                            assert(before.index@.contains_key(u));
                            assert(self.lists[self.index@[u] as int]
                                == before.lists[before.index@[u] as int]);
                        }
                    }
                    assert forall|a: u64, b: u64|
                        #[trigger] self.index@.contains_key(a) && #[trigger] self.index@.contains_key(
                            b,
                        ) && a != b implies self.index@[a] != self.index@[b] by {
                        if a != code && b != code {
                            assert(before.index@.contains_key(a) && before.index@.contains_key(b));
                        }
                    }
                }
            },
        }
    }
}

} // verus!
