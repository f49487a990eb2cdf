//! Association lists keyed by byte strings, with a `Map` view: the
//! verified stand-in for the hash maps a chain index needs.

use vstd::prelude::*;
use crate::util::bytes_eq;

verus! {

/// No two entries share a key.
pub open spec fn keys_unique<T>(s: Seq<(Vec<u8>, T)>) -> bool {
    forall|i: int, j: int| 0 <= i < j < s.len() ==> (#[trigger] s[i]).0@ != (#[trigger] s[j]).0@
}

/// The map an association list stands for.
pub open spec fn pairs_map<T: View>(s: Seq<(Vec<u8>, T)>) -> Map<Seq<u8>, T::V>
    decreases s.len(),
{
    if s.len() == 0 {
        Map::empty()
    } else {
        pairs_map(s.drop_last()).insert(s.last().0@, s.last().1@)
    }
}

/// Every entry of a unique list is in its map.
pub proof fn lemma_pairs_map_index<T: View>(s: Seq<(Vec<u8>, T)>, i: int)
    requires
        keys_unique(s),
        0 <= i < s.len(),
    ensures
        pairs_map(s).contains_key(s[i].0@),
        pairs_map(s)[s[i].0@] == s[i].1@,
    decreases s.len(),
{
    if i + 1 < s.len() {
        lemma_pairs_map_index(s.drop_last(), i);
    }
}

/// A key held by no entry is not in the map.
pub proof fn lemma_pairs_map_absent<T: View>(s: Seq<(Vec<u8>, T)>, k: Seq<u8>)
    requires
        forall|i: int| 0 <= i < s.len() ==> (#[trigger] s[i]).0@ != k,
    ensures
        !pairs_map(s).contains_key(k),
    decreases s.len(),
{
    if s.len() > 0 {
        lemma_pairs_map_absent(s.drop_last(), k);
    }
}

/// Appending a fresh key inserts it into the map.
pub proof fn lemma_pairs_map_push<T: View>(s: Seq<(Vec<u8>, T)>, p: (Vec<u8>, T))
    ensures
        pairs_map(s.push(p)) == pairs_map(s).insert(p.0@, p.1@),
{
    assert(s.push(p).drop_last() =~= s);
}

/// The index of the entry holding a key.
pub fn find_key<T>(v: &Vec<(Vec<u8>, T)>, k: &Vec<u8>) -> (r: Option<usize>)
    ensures
        r is Some ==> r->0 < v@.len() && v@[r->0 as int].0@ == k@,
        r is None ==> forall|i: int| 0 <= i < v@.len() ==> (#[trigger] v@[i]).0@ != k@,
{
    let mut i: usize = 0;
    while i < v.len()
        invariant
            i <= v@.len(),
            forall|j: int| 0 <= j < i ==> (#[trigger] v@[j]).0@ != k@,
        decreases v@.len() - i,
    {
        if bytes_eq(&v[i].0, k) {
            return Some(i);
        }
        i = i + 1;
    }
    None
}

/// What a lookup in the list's map yields, given uniqueness.
pub proof fn lemma_find_characterizes<T: View>(s: Seq<(Vec<u8>, T)>, k: Seq<u8>, r: Option<usize>)
    requires
        keys_unique(s),
        r is Some ==> r->0 < s.len() && s[r->0 as int].0@ == k,
        r is None ==> forall|i: int| 0 <= i < s.len() ==> (#[trigger] s[i]).0@ != k,
    ensures
        r is Some ==> pairs_map(s).contains_key(k) && pairs_map(s)[k] == s[r->0 as int].1@,
        r is None ==> !pairs_map(s).contains_key(k),
{
    match r {
        Some(i) => {
            lemma_pairs_map_index(s, i as int);
        },
        None => {
            lemma_pairs_map_absent(s, k);
        },
    }
}


/// Removing the entry that holds a key removes the key from the map.
pub proof fn lemma_pairs_map_remove<T: View>(s: Seq<(Vec<u8>, T)>, i: int)
    requires
        keys_unique(s),
        0 <= i < s.len(),
    ensures
        pairs_map(s.remove(i)) == pairs_map(s).remove(s[i].0@),
    decreases s.len(),
{
    if i == s.len() - 1 {
        assert(s.remove(i) =~= s.drop_last());
        lemma_pairs_map_absent(s.drop_last(), s[i].0@);
        assert(pairs_map(s).remove(s[i].0@) =~= pairs_map(s.drop_last()));
    } else {
        lemma_pairs_map_remove(s.drop_last(), i);
        assert(s.remove(i).drop_last() =~= s.drop_last().remove(i));
        assert(s.remove(i).last() == s.last());
        assert(pairs_map(s.remove(i)) =~= pairs_map(s).remove(s[i].0@));
    }
}

/// After removing the only entry with a key, no entry has it.
pub proof fn lemma_pairs_remove_key_absent<T>(s: Seq<(Vec<u8>, T)>, j: int)
    requires
        keys_unique(s),
        0 <= j < s.len(),
    ensures
        forall|i: int| 0 <= i < s.remove(j).len()
            ==> (#[trigger] s.remove(j)[i]).0@ != s[j].0@,
{
    let mid = s.remove(j);
    assert forall|i: int| 0 <= i < mid.len() implies (#[trigger] mid[i]).0@ != s[j].0@ by {
        if i < j {
            assert(mid[i] == s[i]);
        } else {
            assert(mid[i] == s[i + 1]);
        }
    }
}

} // verus!
