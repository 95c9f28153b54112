//! The per-object index of a shard.

use rustc_hash::{FxBuildHasher, FxHashMap};
use vstd::prelude::*;

use crate::keys::ObjectKey;
use crate::ranges::CachedRanges;

verus! {

/// The hasher builder of [`FxHashMap`].
#[verifier::external_type_specification]
#[verifier::external_body]
pub struct ExFxBuildHasher(FxBuildHasher);

/// What a map holds for each object key.
pub uninterp spec fn objects(index: FxHashMap<ObjectKey, CachedRanges>) -> Map<Seq<char>, CachedRanges>;

/// `FxHashMap::default` holds nothing.
#[verifier::external_body]
pub(crate) fn empty() -> (index: FxHashMap<ObjectKey, CachedRanges>)
    ensures
        (objects(index) == Map::<Seq<char>, CachedRanges>::empty()),
{
    FxHashMap::default()
}

/// `HashMap::get` borrows what the map holds for the key, if anything.
#[verifier::external_body]
pub(crate) fn get<'a>(
    map: &'a FxHashMap<ObjectKey, CachedRanges>,
    object_key: &ObjectKey,
) -> (entry: Option<&'a CachedRanges>)
    ensures
        match entry {
            Some(entry) => objects(*map).contains_key(object_key@) && *entry == objects(*map)[object_key@],
            None => !objects(*map).contains_key(object_key@),
        },
{
    map.get(object_key)
}

/// `HashMap::get_mut` borrows what the map holds for the key, if anything;
/// what the borrow is left at is what the map then holds there.
#[verifier::external_body]
pub(crate) fn get_mut<'a>(
    map: &'a mut FxHashMap<ObjectKey, CachedRanges>,
    object_key: &ObjectKey,
) -> (entry: Option<&'a mut CachedRanges>)
    ensures
        match entry {
            Some(entry) => {
                &&& objects(*old(map)).contains_key(object_key@)
                &&& *entry == objects(*old(map))[object_key@]
                &&& objects(*final(map)) == objects(*old(map)).insert(object_key@, *final(entry))
            },
            None => {
                &&& !objects(*old(map)).contains_key(object_key@)
                &&& objects(*final(map)) == objects(*old(map))
            },
        },
{
    map.get_mut(object_key)
}

/// `HashMap::insert` makes the map hold the value for the key.
#[verifier::external_body]
pub(crate) fn insert(
    map: &mut FxHashMap<ObjectKey, CachedRanges>,
    object_key: ObjectKey,
    ranges: CachedRanges,
)
    ensures
        objects(*final(map)) == objects(*old(map)).insert(object_key@, ranges),
{
    map.insert(object_key, ranges);
}

/// `HashMap::remove` makes the map hold nothing for the key.
#[verifier::external_body]
pub(crate) fn remove(map: &mut FxHashMap<ObjectKey, CachedRanges>, object_key: &ObjectKey)
    ensures
        objects(*final(map)) == objects(*old(map)).remove(object_key@),
{
    map.remove(object_key);
}

} // verus!
