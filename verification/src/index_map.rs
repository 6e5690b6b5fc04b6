//! The insertion-ordered map of the `indexmap` crate, from text keys to
//! byte strings.
use vstd::prelude::*;

use crate::assoc::{lookup, upsert, without};

verus! {

/// A hash map that remembers the order in which its keys came.
#[verifier::external_type_specification]
#[verifier::external_body]
#[verifier::reject_recursive_types(K)]
#[verifier::reject_recursive_types(V)]
#[verifier::reject_recursive_types(S)]
pub struct ExIndexMap<K, V, S>(indexmap::IndexMap<K, V, S>);

/// The pairs that the map holds, in the map's order.
pub uninterp spec fn index_entries(m: indexmap::IndexMap<String, Vec<u8>>) -> Seq<
    (Seq<char>, Seq<u8>),
>;

/// `IndexMap::new` gives a map without entries.
#[verifier::external_body]
pub(crate) fn index_new() -> (m: indexmap::IndexMap<String, Vec<u8>>)
    ensures
        index_entries(m) == Seq::<(Seq<char>, Seq<u8>)>::empty(),
{
    indexmap::IndexMap::new()
}

/// `IndexMap::insert` updates the value in place where the key is
/// present, and adds the pair at the end where it is not.
#[verifier::external_body]
pub(crate) fn index_insert(
    m: &mut indexmap::IndexMap<String, Vec<u8>>,
    key: String,
    value: Vec<u8>,
)
    ensures
        index_entries(*final(m)) == upsert(index_entries(*old(m)), key@, value@),
{
    m.insert(key, value);
}

/// `IndexMap::shift_remove` takes the key's pair out, if there is one;
/// the others keep their order.
#[verifier::external_body]
pub(crate) fn index_shift_remove(m: &mut indexmap::IndexMap<String, Vec<u8>>, key: &str)
    ensures
        index_entries(*final(m)) == without(index_entries(*old(m)), key@),
{
    m.shift_remove(key);
}

/// `IndexMap::get` finds the value of a key, cloned here.
#[verifier::external_body]
pub(crate) fn index_get(m: &indexmap::IndexMap<String, Vec<u8>>, key: &str) -> (r: Option<Vec<u8>>)
    ensures
        r is Some <==> lookup(index_entries(*m), key@) is Some,
        r matches Some(v) ==> lookup(index_entries(*m), key@) == Some(v@),
{
    m.get(key).cloned()
}

/// `IndexMap::keys` walks the keys in the map's order, cloned here.
#[verifier::external_body]
pub(crate) fn index_keys(m: &indexmap::IndexMap<String, Vec<u8>>) -> (r: Vec<String>)
    ensures
        r@.map_values(|k: String| k@) == index_entries(*m).map_values(
            |e: (Seq<char>, Seq<u8>)| e.0,
        ),
{
    m.keys().cloned().collect()
}

/// `IndexMap::values` walks the values in the map's order, cloned here.
#[verifier::external_body]
pub(crate) fn index_values(m: &indexmap::IndexMap<String, Vec<u8>>) -> (r: Vec<Vec<u8>>)
    ensures
        r@.map_values(|v: Vec<u8>| v@) == index_entries(*m).map_values(
            |e: (Seq<char>, Seq<u8>)| e.1,
        ),
{
    m.values().cloned().collect()
}

} // verus!
