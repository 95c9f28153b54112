//! Complete object identities: their order and their shard hash.

use std::collections::hash_map::DefaultHasher;
use std::hash::{Hash, Hasher};

use vstd::prelude::*;
use vstd::std_specs::hash::DefaultHasherAdditionalSpecFns;

verus! {

/// A caller-supplied identity of one immutable object.
pub type ObjectKey = String;

/// Whether `left` comes before `right` in lexicographic order of code points.
pub open spec fn text_before(left: Seq<char>, right: Seq<char>) -> bool
    decreases left.len(),
{
    if right.len() == 0 {
        false
    } else if left.len() == 0 {
        true
    } else {
        ||| left[0] < right[0]
        ||| left[0] == right[0] && text_before(left.drop_first(), right.drop_first())
    }
}

/// `<` on `str` orders lexicographically by byte value, which orders Unicode
/// code points by their positions in the code charts.
#[verifier::external_body]
pub(crate) fn key_before(left: &str, right: &str) -> (before: bool)
    ensures
        before == text_before(left@, right@),
{
    left < right
}

/// What `Hash` for `String` feeds a hasher for one text, write by write.
pub uninterp spec fn hashed_writes(text: Seq<char>) -> Seq<Seq<u8>>;

/// `String::hash` appends its writes, which depend on the text alone, to those
/// the hasher already has.
#[verifier::external_body]
fn hash_key(object_key: &String, hasher: &mut DefaultHasher)
    ensures
        final(hasher)@ == old(hasher)@ + hashed_writes(object_key@),
{
    object_key.hash(hasher);
}

/// The 64-bit hash of `text` under the standard library's default hasher.
pub open spec fn key_hash(text: Seq<char>) -> u64 {
    DefaultHasher::spec_finish(hashed_writes(text))
}

/// Selects this process's in-memory shard for an object.
///
/// The hash is not stable across Rust releases and must never be persisted.
pub fn shard_index_for(object_key: &ObjectKey, shards: usize) -> (index: usize)
    requires
        shards > 0,
    ensures
        index == key_hash(object_key@) as int % shards as int,
        index < shards,
{
    let mut hasher = DefaultHasher::new();
    hash_key(object_key, &mut hasher);
    assert(hasher@ =~= hashed_writes(object_key@));
    (hasher.finish() % shards as u64) as usize
}

/// Lexicographic order is a strict total order.
pub proof fn lemma_text_order(one: Seq<char>, other: Seq<char>)
    ensures
        !(text_before(one, other) && text_before(other, one)),
        one == other ==> !text_before(one, other),
        one != other ==> text_before(one, other) || text_before(other, one),
    decreases one.len(),
{
    if one.len() > 0 && other.len() > 0 {
        lemma_text_order(one.drop_first(), other.drop_first());
        if one[0] == other[0] && one.drop_first() == other.drop_first() {
            assert(one =~= seq![one[0]] + one.drop_first());
            assert(other =~= seq![other[0]] + other.drop_first());
        }
    } else if one.len() == 0 && other.len() == 0 {
        assert(one =~= other);
    }
}

/// Lexicographic order is transitive.
pub proof fn lemma_text_transitive(first: Seq<char>, second: Seq<char>, third: Seq<char>)
    requires
        text_before(first, second),
        text_before(second, third),
    ensures
        text_before(first, third),
    decreases first.len(),
{
    if first.len() > 0 && first[0] == second[0] && second[0] == third[0] {
        lemma_text_transitive(first.drop_first(), second.drop_first(), third.drop_first());
    }
}

} // verus!
