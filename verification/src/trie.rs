//! The Merkle-Patricia trie: the outside structure that turns a
//! key-value map into the canonical root hash committed in headers.
//!
//! The trie itself is an outside collection; its contents are named,
//! and the root is a function of the contents alone.

use vstd::prelude::*;

verus! {

#[verifier::external_type_specification]
#[verifier::external_body]
pub struct ExMemoryTrieMut(trie::MemoryTrieMut);

/// The key-value map a trie holds.
pub uninterp spec fn trie_contents(t: trie::MemoryTrieMut) -> Map<Seq<u8>, Seq<u8>>;

/// The canonical Merkle-Patricia root of a map.
pub uninterp spec fn trie_root_of(m: Map<Seq<u8>, Seq<u8>>) -> Seq<u8>;

/// The empty key-value map.
pub open spec fn empty_trie_map() -> Map<Seq<u8>, Seq<u8>> {
    Map::empty()
}

/// Relies on `trie::MemoryTrieMut::default`: a fresh, empty trie.
#[verifier::external_body]
pub fn trie_new() -> (r: trie::MemoryTrieMut)
    ensures
        trie_contents(r) == empty_trie_map(),
{
    trie::MemoryTrieMut::default()
}

/// Relies on `trie::TrieMut::insert` for `MemoryTrieMut`: binds the
/// key to the (nonempty) value.
#[verifier::external_body]
pub fn trie_insert(t: &mut trie::MemoryTrieMut, key: &[u8], value: &[u8])
    requires
        value@.len() > 0,
    ensures
        trie_contents(*final(t)) == trie_contents(*old(t)).insert(key@, value@),
{
    trie::TrieMut::insert(t, key, value)
}

/// Relies on `trie::TrieMut::delete` for `MemoryTrieMut`: unbinds the
/// key.
#[verifier::external_body]
pub fn trie_delete(t: &mut trie::MemoryTrieMut, key: &[u8])
    ensures
        trie_contents(*final(t)) == trie_contents(*old(t)).remove(key@),
{
    trie::TrieMut::delete(t, key)
}

/// Relies on `trie::TrieMut::get` for `MemoryTrieMut`: the value a
/// key is bound to.
#[verifier::external_body]
pub fn trie_get(t: &trie::MemoryTrieMut, key: &[u8]) -> (r: Option<Vec<u8>>)
    ensures
        r is Some <==> trie_contents(*t).contains_key(key@),
        r is Some ==> r->0@ == trie_contents(*t)[key@],
{
    trie::TrieMut::get(t, key)
}

/// Relies on `trie::TrieMut::root` for `MemoryTrieMut`: the 32-byte
/// Merkle-Patricia commitment, a function of the contents alone.
#[verifier::external_body]
pub fn trie_root(t: &trie::MemoryTrieMut) -> (r: Vec<u8>)
    ensures
        r@ == trie_root_of(trie_contents(*t)),
        r@.len() == 32,
{
    let h = trie::TrieMut::root(t);
    h.as_ref().to_vec()
}

} // verus!
