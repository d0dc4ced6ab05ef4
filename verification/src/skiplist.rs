//! The ordered set that holds the entries of the in-memory table: a
//! `crossbeam_skiplist::SkipSet` of byte strings, ordered as byte strings
//! are.

use std::ops::Bound;
use vstd::prelude::*;

verus! {

/// `crossbeam_skiplist::SkipSet`, a set that keeps its items in order.
/// Nothing is known of a value of it but what the functions below say of the
/// items it holds.
#[verifier::external_type_specification]
#[verifier::external_body]
#[verifier::reject_recursive_types(T)]
pub struct ExSkipSet<T>(crossbeam_skiplist::SkipSet<T>);

/// The items that a set holds, each by its bytes.
pub uninterp spec fn skipset_items(set: crossbeam_skiplist::SkipSet<Vec<u8>>) -> Set<Seq<u8>>;

/// The order of byte strings: by the first byte in which they differ, and a
/// string before those that it starts.
pub open spec fn bytes_le(a: Seq<u8>, b: Seq<u8>) -> bool
    decreases a.len(),
{
    if a.len() == 0 {
        true
    } else if b.len() == 0 {
        false
    } else if a[0] != b[0] {
        a[0] < b[0]
    } else {
        bytes_le(a.skip(1), b.skip(1))
    }
}

/// `crossbeam_skiplist::SkipSet::new`: taken to give a set that holds no
/// item.
#[verifier::external_body]
pub(crate) fn skipset_new() -> (set: crossbeam_skiplist::SkipSet<Vec<u8>>)
    ensures
        skipset_items(set) == Set::<Seq<u8>>::empty(),
{
    crossbeam_skiplist::SkipSet::new()
}

/// `crossbeam_skiplist::SkipSet::insert`: taken to add the item to the set,
/// in place of an equal one where the set holds one, and to leave the other
/// items as they are.
#[verifier::external_body]
pub(crate) fn skipset_insert(set: &mut crossbeam_skiplist::SkipSet<Vec<u8>>, item: Vec<u8>)
    ensures
        skipset_items(*final(set)) == skipset_items(*old(set)).insert(item@),
{
    set.insert(item);
}

/// `crossbeam_skiplist::SkipSet::lower_bound` with an included bound: taken
/// to give a copy of the least item of the set that is not below `bound`, or
/// `None` where every item is below it. The order is that of the items' type:
/// byte vectors are compared as their bytes are, byte by byte.
#[verifier::external_body]
pub(crate) fn skipset_lower_bound(
    set: &crossbeam_skiplist::SkipSet<Vec<u8>>,
    bound: &Vec<u8>,
) -> (r: Option<Vec<u8>>)
    ensures
        match r {
            Some(found) => {
                &&& skipset_items(*set).contains(found@)
                &&& bytes_le(bound@, found@)
                &&& forall|other: Seq<u8>|
                    skipset_items(*set).contains(other) && bytes_le(bound@, other) ==> bytes_le(
                        found@,
                        other,
                    )
            },
            None => forall|other: Seq<u8>|
                skipset_items(*set).contains(other) ==> !bytes_le(bound@, other),
        },
{
    match set.lower_bound(Bound::Included(bound)) {
        Some(entry) => Some(entry.value().clone()),
        None => None,
    }
}

} // verus!
