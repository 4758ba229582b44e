use vstd::prelude::*;
use crate::types::IndexedChecksumStore;
use crate::types::StrongEntry;

verus! {

/// multimap's MultiMap, declared so that its values can stand in fields
/// and signatures. The crate keeps one `Vec` of values per key inside a
/// `HashMap`.
#[verifier::external_type_specification]
#[verifier::external_body]
#[verifier::reject_recursive_types(K)]
#[verifier::reject_recursive_types(V)]
#[verifier::reject_recursive_types(S)]
pub struct ExMultiMap<K, V, S>(multimap::MultiMap<K, V, S>);

/// What a weak-hash index holds: for each weak checksum present, the
/// ordered list of (strong digest, chunk index) pairs inserted under it.
pub uninterp spec fn index_view(m: IndexedChecksumStore) -> Map<u32, Seq<(Seq<u8>, int)>>;

/// An index with nothing in it yet.
pub open spec fn empty_index() -> Map<u32, Seq<(Seq<u8>, int)>> {
    Map::empty()
}

/// Relies on multimap::MultiMap::new: the new multimap holds nothing.
#[verifier::external_body]
pub(crate) fn index_new() -> (r: IndexedChecksumStore)
    ensures
        index_view(r) == empty_index(),
{
    multimap::MultiMap::new()
}

/// Relies on multimap::MultiMap::insert: the value is pushed onto the
/// vector of an existing key, or a fresh one-element vector is made for a
/// new key; no other key changes.
#[verifier::external_body]
pub(crate) fn index_insert(m: &mut IndexedChecksumStore, k: u32, v: StrongEntry)
    ensures
        index_view(*final(m)) == index_view(*old(m)).insert(
            k,
            (if index_view(*old(m)).dom().contains(k) {
                index_view(*old(m))[k]
            } else {
                Seq::<(Seq<u8>, int)>::empty()
            }).push((v.0@, v.1 as int)),
        ),
{
    m.insert(k, v);
}

/// Relies on multimap::MultiMap::get_vec: the vector of values under the
/// key, when the key is present. The wrapper copies the vector out.
#[verifier::external_body]
pub(crate) fn index_get_vec(m: &IndexedChecksumStore, k: u32) -> (r: Option<Vec<StrongEntry>>)
    ensures
        (match r {
            Some(entries) => index_view(*m).dom().contains(k) && entries@.map_values(
                |p: StrongEntry| (p.0@, p.1 as int),
            ) == index_view(*m)[k],
            None => !index_view(*m).dom().contains(k),
        }),
{
    m.get_vec(&k).cloned()
}

} // verus!
