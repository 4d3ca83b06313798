//! Finding equal texts fast: an index from the hash of a text to the first
//! entries that hold a text of that hash.

use std::collections::HashMap;
use vstd::prelude::*;
use vstd::std_specs::hash::*;
use vstd::string::*;
use crate::text::{first_equal, lemma_first_equal, lemma_representative, representative, same_text};

verus! {

broadcast use group_hash_axioms;

/// The hash of a sequence of bytes.
pub open spec fn bytes_hash(b: Seq<u8>) -> u64
    decreases b.len(),
{
    if b.len() == 0 {
        7
    } else {
        ((bytes_hash(b.drop_last()) * 31 + b.last()) % 0xffff_ffff_ffff_ffc5) as u64
    }
}

/// The hash of a text: that of its bytes.
pub open spec fn text_hash(s: Seq<char>) -> u64 {
    bytes_hash(vstd::utf8::encode_utf8(s))
}

/// The hash of a text.
pub fn hash_text(s: &str) -> (h: u64)
    ensures
        h == text_hash(s@),
{
    let bytes = s.as_bytes();
    let mut h: u64 = 7;
    let mut i: usize = 0;
    assert(bytes@.take(0) =~= Seq::<u8>::empty());
    while i < bytes.len()
        invariant
            i <= bytes.len(),
            h == bytes_hash(bytes@.take(i as int)),
        decreases bytes.len() - i,
    {
        assert(bytes@.take(i + 1).drop_last() =~= bytes@.take(i as int));
        assert(bytes@.take(i + 1).last() == bytes@[i as int]);
        h = ((h as u128 * 31 + bytes[i] as u128) % 0xffff_ffff_ffff_ffc5u128) as u64;
        i = i + 1;
    }
    assert(bytes@.take(i as int) =~= bytes@);
    h
}

/// An index of the texts of a list.
#[derive(Debug)]
pub struct TextIndex {
    /// For every hash the place of its list.
    pub index: HashMap<u64, usize>,
    /// The lists: entries that are the first with their text, by hash.
    pub lists: Vec<Vec<usize>>,
}

impl TextIndex {
    /// The index holds the first `upto` entries of `keys`: every entry
    /// that is the first with its text stands in the list of its hash, and
    /// the lists hold nothing else.
    pub open spec fn holds(&self, keys: Seq<Option<Seq<char>>>, upto: int) -> bool {
        &&& forall|h: u64| #[trigger] self.index@.contains_key(h) ==> self.index@[h] < self.lists.len()
        &&& forall|a: u64, b: u64|
            #[trigger] self.index@.contains_key(a) && #[trigger] self.index@.contains_key(b) && a
                != b ==> self.index@[a] != self.index@[b]
        &&& forall|l: int, q: int|
            0 <= l < self.lists.len() && 0 <= q < self.lists[l].len() ==> {
                let j = #[trigger] self.lists[l][q];
                &&& j < upto
                &&& keys[j as int] is Some
                &&& representative(keys, j as int) == Some(j as int)
                &&& self.index@.contains_key(text_hash(keys[j as int]->0))
                &&& self.index@[text_hash(keys[j as int]->0)] == l
            }
        &&& forall|i: int|
            0 <= i < upto && keys[i] is Some && #[trigger] representative(keys, i) == Some(i) ==> {
                &&& self.index@.contains_key(text_hash(keys[i]->0))
                &&& self.lists[self.index@[text_hash(keys[i]->0)] as int]@.contains(i as usize)
            }
    }

    /// An index that holds nothing.
    pub fn new() -> (r: TextIndex)
        ensures
            forall|keys: Seq<Option<Seq<char>>>| r.holds(keys, 0),
    {
        TextIndex { index: HashMap::new(), lists: Vec::new() }
    }

    /// The first entry among those that the index holds whose text is `name`.
    fn lookup(&self, keys: &Vec<Option<String>>, name: &str, Ghost(upto): Ghost<int>) -> (r:
        Option<usize>)
        requires
            0 <= upto <= keys.len(),
            self.holds(keys.deep_view(), upto),
        ensures
            r matches Some(j) ==> j < upto && keys[j as int].deep_view() == Some(name@)
                && representative(keys.deep_view(), j as int) == Some(j as int),
            r is None ==> forall|i: int|
                0 <= i < upto ==> (#[trigger] keys.deep_view()[i]) != Some(name@),
    {
        let ghost ks = keys.deep_view();
        let h = hash_text(name);
        match self.index.get(&h) {
            Some(place) => {
                let list = &self.lists[*place];
                let mut q: usize = 0;
                while q < list.len()
                    invariant
                        q <= list.len(),
                        0 <= upto <= keys.len(),
                        ks == keys.deep_view(),
                        self.holds(ks, upto),
                        h == text_hash(name@),
                        self.index@.contains_key(h),
                        list == &self.lists[self.index@[h] as int],
                        forall|k: int| 0 <= k < q ==> ks[#[trigger] list[k] as int] != Some(name@),
                    decreases list.len() - q,
                {
                    let j = list[q];
                    assert(ks[j as int] == keys[j as int].deep_view());
                    match &keys[j] {
                        Some(text) => {
                            if same_text(text.as_str(), name) {
                                return Some(j);
                            }
                        },
                        None => {},
                    }
                    q = q + 1;
                }
                proof {
                    assert forall|i: int| 0 <= i < upto implies (#[trigger] ks[i]) != Some(name@) by {
                        if ks[i] == Some(name@) {
                            lemma_representative(ks, i, i);
                            let r = representative(ks, i)->0;
                            lemma_representative(ks, r, r);
                            assert(representative(ks, r) == Some(r));
                            assert(list@.contains(r as usize));
                            let k = choose|k: int| 0 <= k < list.len() && list[k] == r as usize;
                            assert(ks[list[k] as int] != Some(name@));
                        }
                    }
                }
                None
            },
            None => {
                proof {
                    assert forall|i: int| 0 <= i < upto implies (#[trigger] ks[i]) != Some(name@) by {
                        if ks[i] == Some(name@) {
                            lemma_representative(ks, i, i);
                            let r = representative(ks, i)->0;
                            lemma_representative(ks, r, r);
                            assert(representative(ks, r) == Some(r));
                        }
                    }
                }
                None
            },
        }
    }

    /// Enters entry `i`, which is the first with its text.
    pub fn enter(&mut self, keys: &Vec<Option<String>>, i: usize)
        requires
            i < keys.len(),
            old(self).holds(keys.deep_view(), i as int),
            keys[i as int] is Some,
            representative(keys.deep_view(), i as int) == Some(i as int),
        ensures
            final(self).holds(keys.deep_view(), i + 1),
    {
        let ghost ks = keys.deep_view();
        let ghost before = *self;
        assert(ks[i as int] == keys[i as int].deep_view());
        let h = match &keys[i] {
            Some(text) => hash_text(text.as_str()),
            None => 0,
        };
        let place = match self.index.get(&h) {
            Some(p) => Some(*p),
            None => None,
        };
        match place {
            Some(p) => {
                self.lists[p].push(i);
                proof {
                    assert forall|l: int, q: int|
                        0 <= l < self.lists.len() && 0 <= q < self.lists[l].len() implies {
                        let j = #[trigger] self.lists[l][q];
                        &&& j < i + 1
                        &&& ks[j as int] is Some
                        &&& representative(ks, j as int) == Some(j as int)
                        &&& self.index@.contains_key(text_hash(ks[j as int]->0))
                        &&& self.index@[text_hash(ks[j as int]->0)] == l
                    } by {
                        if l == p && q == self.lists[l].len() - 1 {
                        } else {
                            assert(self.lists[l][q] == before.lists[l][q]);
                        }
                    }
                    assert forall|x: int|
                        0 <= x < i + 1 && ks[x] is Some && #[trigger] representative(ks, x) == Some(
                            x,
                        ) implies self.index@.contains_key(text_hash(ks[x]->0))
                        && self.lists[self.index@[text_hash(ks[x]->0)] as int]@.contains(
                        x as usize,
                    ) by {
                        let l = self.index@[text_hash(ks[x]->0)] as int;
                        if x < i {
                            let old_list = before.lists[l]@;
                            assert(old_list.contains(x as usize));
                            let k = choose|k: int| 0 <= k < old_list.len() && old_list[k] == x as usize;
                            assert(self.lists[l]@[k] == x as usize);
                        } else {
                            assert(self.lists[l]@[self.lists[l].len() - 1] == i);
                        }
                    }
                }
            },
            None => {
                let mut fresh: Vec<usize> = Vec::new();
                fresh.push(i);
                self.index.insert(h, self.lists.len());
                self.lists.push(fresh);
                proof {
                    assert forall|l: int, q: int|
                        0 <= l < self.lists.len() && 0 <= q < self.lists[l].len() implies {
                        let j = #[trigger] self.lists[l][q];
                        &&& j < i + 1
                        &&& ks[j as int] is Some
                        &&& representative(ks, j as int) == Some(j as int)
                        &&& self.index@.contains_key(text_hash(ks[j as int]->0))
                        &&& self.index@[text_hash(ks[j as int]->0)] == l
                    } by {
                        if l < before.lists.len() {
                            assert(self.lists[l][q] == before.lists[l][q]);
                        }
                    }
                    assert forall|x: int|
                        0 <= x < i + 1 && ks[x] is Some && #[trigger] representative(ks, x) == Some(
                            x,
                        ) implies self.index@.contains_key(text_hash(ks[x]->0))
                        && self.lists[self.index@[text_hash(ks[x]->0)] as int]@.contains(
                        x as usize,
                    ) by {
                        if x < i {
                            let l = before.index@[text_hash(ks[x]->0)] as int;
                            assert(before.lists[l]@.contains(x as usize));
                            assert(self.lists[l] == before.lists[l]);
                        } else {
                            assert(self.lists[self.lists.len() - 1]@[0] == i);
                        }
                    }
                    assert forall|a: u64, b: u64|
                        #[trigger] self.index@.contains_key(a) && #[trigger] self.index@.contains_key(
                            b,
                        ) && a != b implies self.index@[a] != self.index@[b] by {
                        if a != h && b != h {
                            assert(before.index@.contains_key(a) && before.index@.contains_key(b));
                        }
                    }
                }
            },
        }
    }

    /// Passes over entry `i`, which holds no text or is not the first with its text.
    pub proof fn pass(&self, keys: Seq<Option<Seq<char>>>, i: int)
        requires
            0 <= i,
            self.holds(keys, i),
            keys[i] is None || representative(keys, i) != Some(i),
        ensures
            self.holds(keys, i + 1),
    {
    }
}

/// An index of the texts of `keys`, and for every entry the first entry with the same text.
pub fn index_texts(keys: &Vec<Option<String>>) -> (r: (TextIndex, Vec<Option<usize>>))
    ensures
        r.0.holds(keys.deep_view(), keys.len() as int),
        r.1.len() == keys.len(),
        forall|i: int|
            0 <= i < keys.len() ==> (#[trigger] r.1[i] matches Some(x) ==> representative(
                keys.deep_view(),
                i,
            ) == Some(x as int)),
        forall|i: int|
            0 <= i < keys.len() ==> (#[trigger] r.1[i] is None ==> representative(
                keys.deep_view(),
                i,
            ) is None),
{
    let ghost ks = keys.deep_view();
    let mut index = TextIndex::new();
    let mut reps: Vec<Option<usize>> = Vec::new();
    let mut i: usize = 0;
    while i < keys.len()
        invariant
            i <= keys.len(),
            ks == keys.deep_view(),
            reps.len() == i,
            index.holds(ks, i as int),
            forall|k: int|
                0 <= k < i ==> (#[trigger] reps[k] matches Some(x) ==> representative(ks, k)
                    == Some(x as int)),
            forall|k: int| 0 <= k < i ==> (#[trigger] reps[k] is None ==> representative(ks, k) is None),
        decreases keys.len() - i,
    {
        assert(ks[i as int] == keys[i as int].deep_view());
        match &keys[i] {
            Some(text) => {
                let found = index.lookup(keys, text.as_str(), Ghost(i as int));
                match found {
                    Some(j) => {
                        proof {
                            lemma_first_equal(ks, text@, 0);
                            lemma_representative(ks, j as int, i as int);
                            index.pass(ks, i as int);
                        }
                        reps.push(Some(j));
                    },
                    None => {
                        proof {
                            lemma_first_equal(ks, text@, 0);
                        }
                        index.enter(keys, i);
                        reps.push(Some(i));
                    },
                }
            },
            None => {
                proof {
                    index.pass(ks, i as int);
                }
                reps.push(None);
            },
        }
        i = i + 1;
    }
    (index, reps)
}

/// Looks `name` up among the texts of `keys`.
pub fn find_indexed(index: &TextIndex, keys: &Vec<Option<String>>, name: &str) -> (r: Option<usize>)
    requires
        index.holds(keys.deep_view(), keys.len() as int),
    ensures
        r matches Some(j) ==> j < keys.len() && first_equal(keys.deep_view(), name@, 0) == Some(
            j as int,
        ),
        r is None ==> first_equal(keys.deep_view(), name@, 0) is None,
{
    let r = index.lookup(keys, name, Ghost(keys.len() as int));
    proof {
        lemma_first_equal(keys.deep_view(), name@, 0);
    }
    r
}

} // verus!
