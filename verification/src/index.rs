//! The two lookup structures of the library, both a `hashbrown::HashMap`: the
//! index of a table, from the bytes of a key to the position of its slot, and
//! the directory of a registry, from the identity of a value type to the
//! position of its table.
//!
//! Verus does not look inside the maps. What they hold is named by
//! [`index_of`] and [`directory_of`], and each function below says, over those
//! names, what the `hashbrown` method it calls does.
use std::any::TypeId;
use vstd::prelude::*;

verus! {

/// A hash map from key bytes to slot positions.
#[verifier::external_body]
pub struct Index {
    inner: hashbrown::HashMap<Vec<u8>, usize>,
}

/// What the map holds: for each key in it, the position stored under that key.
pub uninterp spec fn index_of(index: Index) -> Map<Seq<u8>, usize>;

/// `HashMap::new`: an empty map.
#[verifier::external_body]
pub(crate) fn index_new() -> (index: Index)
    ensures
        (index_of(index) == Map::<Seq<u8>, usize>::empty()),
{
    Index { inner: hashbrown::HashMap::new() }
}

/// `HashMap::get`: the position stored under `key`, if the map holds that key.
/// Keys are compared by their bytes.
#[verifier::external_body]
pub(crate) fn index_get(index: &Index, key: &Vec<u8>) -> (found: Option<usize>)
    ensures
        found is Some == index_of(*index).contains_key(key@),
        found matches Some(pos) ==> pos == index_of(*index)[key@],
{
    index.inner.get(key).copied()
}

/// `HashMap::insert`: stores `pos` under `key`, in place of what was stored
/// under it before, and returns what was stored before.
#[verifier::external_body]
pub(crate) fn index_insert(index: &mut Index, key: Vec<u8>, pos: usize) -> (prev: Option<usize>)
    ensures
        index_of(*final(index)) == index_of(*old(index)).insert(key@, pos),
        prev is Some == index_of(*old(index)).contains_key(key@),
        prev matches Some(p) ==> p == index_of(*old(index))[key@],
{
    index.inner.insert(key, pos)
}

/// `HashMap::len`: the number of keys in the map.
#[verifier::external_body]
pub(crate) fn index_len(index: &Index) -> (n: usize)
    ensures
        n == index_of(*index).dom().len(),
{
    index.inner.len()
}

/// `HashMap::remove`: takes `key` out of the map, if the map holds it, and
/// returns what was stored under it.
#[verifier::external_body]
pub(crate) fn index_remove(index: &mut Index, key: &Vec<u8>) -> (prev: Option<usize>)
    ensures
        index_of(*final(index)) == index_of(*old(index)).remove(key@),
        prev is Some == index_of(*old(index)).contains_key(key@),
        prev matches Some(p) ==> p == index_of(*old(index))[key@],
{
    index.inner.remove(key)
}

/// The identity that the compiler gives to a type.
#[verifier::external_type_specification]
#[verifier::external_body]
pub struct ExTypeId(TypeId);

/// `TypeId::of`: the identity of the type `T`. It is the same on every call
/// for one type and differs between types; Verus is told neither.
#[verifier::external_body]
pub(crate) fn type_of<T: 'static>() -> (ty: TypeId) {
    TypeId::of::<T>()
}

/// A hash map from type identities to table positions.
#[verifier::external_body]
pub struct Directory {
    inner: hashbrown::HashMap<TypeId, usize>,
}

/// What the map holds: for each type identity in it, the position stored
/// under that identity.
pub uninterp spec fn directory_of(directory: Directory) -> Map<TypeId, usize>;

/// `HashMap::new`: an empty map.
#[verifier::external_body]
pub(crate) fn directory_new() -> (directory: Directory)
    ensures
        (directory_of(directory) == Map::<TypeId, usize>::empty()),
{
    Directory { inner: hashbrown::HashMap::new() }
}

/// `HashMap::get`: the position stored under `ty`, if the map holds it.
#[verifier::external_body]
pub(crate) fn directory_get(directory: &Directory, ty: &TypeId) -> (found: Option<usize>)
    ensures
        found is Some == directory_of(*directory).contains_key(*ty),
        found matches Some(pos) ==> pos == directory_of(*directory)[*ty],
{
    directory.inner.get(ty).copied()
}

/// `HashMap::insert`: stores `pos` under `ty`, in place of what was stored
/// under it before, and returns what was stored before.
#[verifier::external_body]
pub(crate) fn directory_insert(directory: &mut Directory, ty: TypeId, pos: usize) -> (prev: Option<usize>)
    ensures
        directory_of(*final(directory)) == directory_of(*old(directory)).insert(ty, pos),
        prev is Some == directory_of(*old(directory)).contains_key(ty),
        prev matches Some(p) ==> p == directory_of(*old(directory))[ty],
{
    directory.inner.insert(ty, pos)
}

} // verus!
