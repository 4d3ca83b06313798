//! Small operations on strings, stated over their characters.

use vstd::prelude::*;
use vstd::string::*;

verus! {

/// The first position at or after `start` at which `c` stands in `s`, or the
/// length of `s` if there is none.
pub open spec fn index_of(s: Seq<char>, c: char, start: int) -> int
    decreases s.len() - start,
{
    if start < 0 || start >= s.len() {
        s.len() as int
    } else if s[start] == c {
        start
    } else {
        index_of(s, c, start + 1)
    }
}

/// The pieces of `s` between the occurrences of `c`; a string without `c` is
/// its own single piece.
pub open spec fn split_on(s: Seq<char>, c: char) -> Seq<Seq<char>>
    decreases s.len(),
{
    let i = index_of(s, c, 0);
    if 0 <= i < s.len() {
        seq![s.subrange(0, i)] + split_on(s.subrange(i + 1, s.len() as int), c)
    } else {
        seq![s]
    }
}

/// `prefix` followed by a dot and `name`, or `name` alone under an empty prefix.
pub open spec fn dotted(prefix: Seq<char>, name: Seq<char>) -> Seq<char> {
    if prefix.len() == 0 {
        name
    } else {
        prefix + seq!['.'] + name
    }
}

/// Whether `s` begins with `p`.
pub open spec fn has_prefix(s: Seq<char>, p: Seq<char>) -> bool {
    p.len() <= s.len() && s.subrange(0, p.len() as int) == p
}

/// The index found for a character lies in the text or at its end, and no character
/// before it is the one looked for.
pub proof fn lemma_index_of_bounds(s: Seq<char>, c: char, start: int)
    requires
        0 <= start <= s.len(),
    ensures
        start <= index_of(s, c, start) <= s.len(),
        index_of(s, c, start) < s.len() ==> s[index_of(s, c, start)] == c,
        forall|j: int| start <= j < index_of(s, c, start) ==> s[j] != c,
    decreases s.len() - start,
{
    if start < s.len() && s[start] != c {
        lemma_index_of_bounds(s, c, start + 1);
    }
}

/// Finds the first occurrence of `c` in `s` at or after `start`.
pub fn find_char(s: &str, c: char, start: usize) -> (r: usize)
    requires
        start <= s@.len(),
    ensures
        r as int == index_of(s@, c, start as int),
        start <= r <= s@.len(),
{
    let n = s.unicode_len();
    let mut i = start;
    proof {
        lemma_index_of_bounds(s@, c, start as int);
    }
    while i < n
        invariant
            n == s@.len(),
            start <= i <= n,
            index_of(s@, c, start as int) == index_of(s@, c, i as int),
        decreases n - i,
    {
        if s.get_char(i) == c {
            return i;
        }
        i = i + 1;
    }
    i
}

/// Splits `s` at every occurrence of `c`.
pub fn split(s: &str, c: char) -> (parts: Vec<String>)
    ensures
        parts.deep_view() == split_on(s@, c),
{
    let n = s.unicode_len();
    let mut parts: Vec<String> = Vec::new();
    let mut start: usize = 0;
    proof {
        assert(s@.subrange(0, n as int) == s@);
        assert(parts.deep_view() == Seq::<Seq<char>>::empty());
        assert(Seq::<Seq<char>>::empty() + split_on(s@, c) == split_on(s@, c));
    }
    loop
        invariant
            n == s@.len(),
            start <= n,
            parts.deep_view() + split_on(s@.subrange(start as int, n as int), c) == split_on(s@, c),
        decreases n - start,
    {
        let ghost rest = s@.subrange(start as int, n as int);
        let rest_str = s.substring_char(start, n);
        let i = find_char(rest_str, c, 0);
        let ghost before = parts.deep_view();
        if i < n - start {
            let piece = rest_str.substring_char(0, i).to_owned();
            parts.push(piece);
            proof {
                assert(rest.subrange(i as int + 1, rest.len() as int) == s@.subrange(
                    start + i + 1,
                    n as int,
                ));
                assert(parts.deep_view() == before + seq![rest.subrange(0, i as int)]);
            }
            start = start + i + 1;
        } else {
            parts.push(rest_str.to_owned());
            proof {
                assert(parts.deep_view() == before + seq![rest]);
            }
            return parts;
        }
    }
}

/// Joins a scope prefix and a name with a dot.
pub fn join_dotted(prefix: &str, name: &str) -> (r: String)
    ensures
        r@ == dotted(prefix@, name@),
{
    if prefix.unicode_len() == 0 {
        name.to_owned()
    } else {
        proof {
            reveal_strlit(".");
        }
        let r = prefix.to_owned().concat(".").concat(name);
        assert(r@ == prefix@ + seq!['.'] + name@) by {
            assert("."@ == seq!['.']);
        }
        r
    }
}

/// Tests whether `s` begins with `p`.
pub fn starts_with(s: &str, p: &str) -> (r: bool)
    ensures
        r == has_prefix(s@, p@),
{
    let n = p.unicode_len();
    if s.unicode_len() < n {
        return false;
    }
    let mut i: usize = 0;
    while i < n
        invariant
            n == p@.len(),
            n <= s@.len(),
            i <= n,
            s@.subrange(0, i as int) == p@.subrange(0, i as int),
        decreases n - i,
    {
        if s.get_char(i) != p.get_char(i) {
            assert(s@.subrange(0, n as int)[i as int] != p@[i as int]);
            return false;
        }
        assert(s@.subrange(0, i + 1) == s@.subrange(0, i as int).push(s@[i as int]));
        assert(p@.subrange(0, i + 1) == p@.subrange(0, i as int).push(p@[i as int]));
        i = i + 1;
    }
    assert(p@.subrange(0, n as int) == p@);
    true
}

/// Tests whether two strings hold the same characters.
pub fn same_text(a: &str, b: &str) -> (r: bool)
    ensures
        r == (a@ == b@),
{
    let n = a.unicode_len();
    if b.unicode_len() != n {
        return false;
    }
    let r = starts_with(a, b);
    assert(a@.subrange(0, n as int) == a@);
    r
}

} // verus!

verus! {

/// The position of the first entry of `keys` at or after `start` that holds `key`.
pub open spec fn first_equal(keys: Seq<Option<Seq<char>>>, key: Seq<char>, start: int) -> Option<
    int,
>
    decreases keys.len() - start,
{
    if start < 0 || start >= keys.len() {
        None
    } else if keys[start] == Some(key) {
        Some(start)
    } else {
        first_equal(keys, key, start + 1)
    }
}

/// The representative of entry `i`: the first entry that holds the same
/// text, or nothing for an entry without text.
pub open spec fn representative(keys: Seq<Option<Seq<char>>>, i: int) -> Option<int> {
    match keys[i] {
        Some(key) => first_equal(keys, key, 0),
        None => None,
    }
}

/// The entry found for a text holds it, and no entry before it does; where none is
/// found, no entry holds it.
pub proof fn lemma_first_equal(keys: Seq<Option<Seq<char>>>, key: Seq<char>, start: int)
    requires
        0 <= start,
    ensures
        first_equal(keys, key, start) matches Some(j) ==> start <= j < keys.len() && keys[j]
            == Some(key) && forall|k: int| start <= k < j ==> keys[k] != Some(key),
        first_equal(keys, key, start) is None ==> forall|k: int|
            start <= k < keys.len() ==> keys[k] != Some(key),
    decreases keys.len() - start,
{
    if start < keys.len() && keys[start] != Some(key) {
        lemma_first_equal(keys, key, start + 1);
    }
}

/// Two entries have the same representative exactly when they hold the same text.
pub proof fn lemma_representative(keys: Seq<Option<Seq<char>>>, a: int, b: int)
    requires
        0 <= a < keys.len(),
        0 <= b < keys.len(),
    ensures
        representative(keys, a) is Some <==> keys[a] is Some,
        representative(keys, a) matches Some(r) ==> 0 <= r <= a && keys[r] == keys[a]
            && representative(keys, r) == Some(r),
        (keys[a] is Some && keys[a] == keys[b]) <==> (representative(keys, a) is Some
            && representative(keys, a) == representative(keys, b)),
{
    if keys[a] is Some {
        lemma_first_equal(keys, keys[a]->0, 0);
        let r = first_equal(keys, keys[a]->0, 0)->0;
        lemma_first_equal(keys, keys[r]->0, 0);
    }
    if keys[b] is Some {
        lemma_first_equal(keys, keys[b]->0, 0);
    }
}

/// A copy of a list of strings.
pub fn clone_strings(v: &Vec<String>) -> (r: Vec<String>)
    ensures
        r.deep_view() == v.deep_view(),
{
    let mut r: Vec<String> = Vec::new();
    let mut i: usize = 0;
    while i < v.len()
        invariant
            i <= v.len(),
            r.len() == i,
            forall|k: int| 0 <= k < i ==> r[k]@ == v[k]@,
        decreases v.len() - i,
    {
        r.push(v[i].clone());
        i = i + 1;
    }
    assert(r.deep_view() =~= v.deep_view());
    r
}

} // verus!

verus! {

/// The texts of `parts` in order, with a dot between neighbours.
pub open spec fn join_all(parts: Seq<Seq<char>>) -> Seq<char>
    decreases parts.len(),
{
    if parts.len() == 0 {
        seq![]
    } else if parts.len() == 1 {
        parts[0]
    } else {
        join_all(parts.drop_last()) + seq!['.'] + parts.last()
    }
}

/// Joins the strings of `parts` with dots.
pub fn join_with_dots(parts: &Vec<String>) -> (r: String)
    ensures
        r@ == join_all(parts.deep_view()),
{
    let mut r = String::new();
    let mut i: usize = 0;
    proof {
        assert(parts.deep_view().take(0) =~= Seq::<Seq<char>>::empty());
    }
    while i < parts.len()
        invariant
            i <= parts.len(),
            r@ == join_all(parts.deep_view().take(i as int)),
        decreases parts.len() - i,
    {
        proof {
            reveal_strlit(".");
            assert("."@ =~= seq!['.']);
            assert(parts.deep_view().take(i + 1).drop_last() =~= parts.deep_view().take(i as int));
            assert(parts.deep_view().take(i + 1).last() == parts[i as int]@);
        }
        if i > 0 {
            r = r.concat(".");
        }
        r = r.concat(parts[i].as_str());
        proof {
            if i == 0 {
                assert(Seq::<char>::empty() + parts[0]@ =~= parts[0]@);
            }
        }
        i = i + 1;
    }
    assert(parts.deep_view().take(i as int) =~= parts.deep_view());
    r
}

} // verus!
