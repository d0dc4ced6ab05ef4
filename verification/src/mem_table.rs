//! The in-memory table: a sorted set of versions of keys.
//!
//! Every write adds an entry `(user key, sequence, kind, value)`; none is
//! ever changed or removed. The entries are ordered by user key, and for one
//! user key by falling sequence number, so that the newest version of a key
//! is the first entry with that key. A lookup seeks the first entry at or
//! after `(key, u64::MAX)` and answers with its value, unless it belongs to
//! another key or is a deletion.
//!
//! The entries are held encoded, in a set ordered by their bytes: the
//! encoding is made so that this is the order of the table.

use crate::internal_key::{
    entry_bytes, entry_le, is_entry, lemma_bytes_le_antisymmetric, lemma_entry_order,
    lemma_entry_round_trip, Entry, InternalKeyValue,
};
use crate::skiplist::{skipset_insert, skipset_items, skipset_lower_bound, skipset_new};
use crate::write_batch::ValueType;
use vstd::prelude::*;

verus! {

/// The table `t` holds a version of `key` with the sequence number
/// `sequence`.
pub open spec fn has_version(t: Set<Entry>, key: Seq<u8>, sequence: u64) -> bool {
    exists|e: Entry| #[trigger] t.contains(e) && e.key == key && e.sequence == sequence
}

/// The table after `e` was added: `t` with `e`, or `t` itself where it holds
/// a version of the key with that sequence number already.
pub open spec fn table_add(t: Set<Entry>, e: Entry) -> Set<Entry> {
    if has_version(t, e.key, e.sequence) {
        t
    } else {
        t.insert(e)
    }
}

/// `e` is the newest version of its key in `t`.
pub open spec fn is_newest(t: Set<Entry>, e: Entry) -> bool {
    t.contains(e) && forall|o: Entry| #[trigger]
        t.contains(o) && o.key == e.key ==> o.sequence <= e.sequence
}

/// The value of `key` in `t`: that of the newest version of the key, or
/// `None` where there is no version of it or the newest is a deletion.
pub open spec fn table_get(t: Set<Entry>, key: Seq<u8>) -> Option<Seq<u8>> {
    if exists|e: Entry| #[trigger] is_newest(t, e) && e.key == key {
        let e = choose|e: Entry| #[trigger] is_newest(t, e) && e.key == key;
        if e.kind == ValueType::KTypeValue {
            Some(e.value)
        } else {
            None
        }
    } else {
        None
    }
}

/// No two entries of `t` are versions of one key with one sequence number.
pub open spec fn versions_unique(t: Set<Entry>) -> bool {
    forall|a: Entry, b: Entry|
        #[trigger] t.contains(a) && #[trigger] t.contains(b) && a.key == b.key && a.sequence
            == b.sequence ==> a == b
}

/// Adding an entry keeps the versions unique.
pub proof fn lemma_table_add_unique(t: Set<Entry>, e: Entry)
    requires
        versions_unique(t),
    ensures
        versions_unique(table_add(t, e)),
{
}

/// The newest version of a key decides its value.
pub proof fn lemma_table_get_newest(t: Set<Entry>, e: Entry)
    requires
        versions_unique(t),
        is_newest(t, e),
    ensures
        table_get(t, e.key) == (if e.kind == ValueType::KTypeValue {
            Some(e.value)
        } else {
            None
        }),
{
    let chosen = choose|o: Entry| #[trigger] is_newest(t, o) && o.key == e.key;
    assert(is_newest(t, chosen) && chosen.key == e.key);
    assert(t.contains(chosen) && t.contains(e));
    assert(chosen.sequence == e.sequence);
}

/// A key without a version has no value.
pub proof fn lemma_table_get_absent(t: Set<Entry>, key: Seq<u8>)
    requires
        forall|e: Entry| #[trigger] t.contains(e) ==> e.key != key,
    ensures
        table_get(t, key) is None,
{
}

/// Newest wins: after an entry was added with a sequence number above that
/// of every version of its key, the key has the value of the entry, or none
/// where the entry is a deletion. The other keys keep their values.
pub proof fn lemma_newest_wins(t: Set<Entry>, e: Entry, other: Seq<u8>)
    requires
        versions_unique(t),
        forall|o: Entry| #[trigger] t.contains(o) && o.key == e.key ==> o.sequence < e.sequence,
        other != e.key,
    ensures
        table_add(t, e) == t.insert(e),
        table_get(table_add(t, e), e.key) == (if e.kind == ValueType::KTypeValue {
            Some(e.value)
        } else {
            None
        }),
        table_get(table_add(t, e), other) == table_get(t, other),
{
    let after = t.insert(e);
    if has_version(t, e.key, e.sequence) {
        let w = choose|w: Entry| #[trigger] t.contains(w) && w.key == e.key && w.sequence == e.sequence;
        assert(false);
    }
    assert(table_add(t, e) == after);
    lemma_table_add_unique(t, e);
    assert(is_newest(after, e));
    lemma_table_get_newest(after, e);
    assert forall|o: Entry| o.key == other implies (is_newest(t, o) <==> is_newest(after, o)) by {
        if is_newest(t, o) {
            assert(after.contains(o));
            assert forall|p: Entry| #[trigger] after.contains(p) && p.key == o.key implies p.sequence
                <= o.sequence by {
                assert(t.contains(p));
            }
        }
        if is_newest(after, o) {
            assert(t.contains(o));
            assert forall|p: Entry| #[trigger] t.contains(p) && p.key == o.key implies p.sequence
                <= o.sequence by {
                assert(after.contains(p));
            }
        }
    }
    if exists|o: Entry| #[trigger] is_newest(t, o) && o.key == other {
        let o = choose|o: Entry| #[trigger] is_newest(t, o) && o.key == other;
        assert(is_newest(after, o));
        lemma_table_get_newest(t, o);
        lemma_table_get_newest(after, o);
    } else {
        if exists|o: Entry| #[trigger] is_newest(after, o) && o.key == other {
            let o = choose|o: Entry| #[trigger] is_newest(after, o) && o.key == other;
            assert(is_newest(t, o));
            assert(false);
        }
    }
}

/// Whether two byte strings are equal.
pub fn bytes_equal(a: &[u8], b: &[u8]) -> (equal: bool)
    ensures
        equal == (a@ == b@),
{
    if a.len() != b.len() {
        return false;
    }
    let mut i: usize = 0;
    while i < a.len()
        invariant
            i <= a.len(),
            a.len() == b.len(),
            forall|j: int| 0 <= j < i ==> a@[j] == b@[j],
        decreases a.len() - i,
    {
        if a[i] != b[i] {
            return false;
        }
        i = i + 1;
    }
    assert(a@ =~= b@);
    true
}

/// The in-memory table.
pub struct MemTable {
    table: crossbeam_skiplist::SkipSet<Vec<u8>>,
}

impl View for MemTable {
    type V = Set<Entry>;

    closed spec fn view(&self) -> Set<Entry> {
        Set::new(|e: Entry| skipset_items(self.table).contains(entry_bytes(e)))
    }
}

impl MemTable {
    /// Every item of the set is the encoding of an entry, and no two entries
    /// are versions of one key with one sequence number.
    pub closed spec fn wf(&self) -> bool {
        &&& forall|item: Seq<u8>| #[trigger]
            skipset_items(self.table).contains(item) ==> is_entry(item)
        &&& versions_unique(self@)
    }

    /// In a well-formed table no two entries are versions of one key with
    /// one sequence number.
    pub proof fn lemma_valid(&self)
        requires
            self.wf(),
        ensures
            versions_unique(self@),
    {
    }

    /// An empty table.
    pub fn new() -> (table: Self)
        ensures
            table.wf(),
            table@ == Set::<Entry>::empty(),
    {
        let table = MemTable { table: skipset_new() };
        assert(table@ =~= Set::<Entry>::empty());
        table
    }

    /// The first entry of the table at or after `bound` in the order of the
    /// table, if there is one.
    fn seek(&self, bound: &InternalKeyValue) -> (r: Option<InternalKeyValue>)
        requires
            self.wf(),
            bound.wf(),
        ensures
            match r {
                Some(found) => {
                    &&& found.wf()
                    &&& self@.contains(found@)
                    &&& entry_le(bound@, found@)
                    &&& forall|o: Entry| #[trigger]
                        self@.contains(o) && entry_le(bound@, o) ==> entry_le(found@, o)
                },
                None => forall|o: Entry| #[trigger] self@.contains(o) ==> !entry_le(bound@, o),
            },
    {
        let probe = bound.to_bytes();
        proof {
            bound.lemma_bytes();
        }
        match skipset_lower_bound(&self.table, &probe) {
            Some(item) => {
                match InternalKeyValue::decode(item) {
                    Some(found) => {
                        proof {
                            found.lemma_bytes();
                            lemma_entry_order(bound@, found@);
                            assert forall|o: Entry| #[trigger]
                                self@.contains(o) && entry_le(bound@, o) implies entry_le(
                                found@,
                                o,
                            ) by {
                                lemma_entry_order(bound@, o);
                                lemma_entry_order(found@, o);
                            }
                        }
                        Some(found)
                    },
                    None => None,
                }
            },
            None => {
                proof {
                    assert forall|o: Entry| #[trigger] self@.contains(o) implies !entry_le(
                        bound@,
                        o,
                    ) by {
                        lemma_entry_order(bound@, o);
                    }
                }
                None
            },
        }
    }

    /// Adds the version of the key `k` with the sequence number `sequence`,
    /// the kind `k_type` and the value `v`. No entry is changed or removed.
    /// Where the table holds a version of `k` with that sequence number
    /// already, it stays as it is.
    pub fn add(&mut self, sequence: u64, k_type: ValueType, k: Vec<u8>, v: Vec<u8>)
        requires
            old(self).wf(),
        ensures
            final(self).wf(),
            final(self)@ == table_add(
                old(self)@,
                Entry { key: k@, sequence, kind: k_type, value: v@ },
            ),
    {
        let ghost e = Entry { key: k@, sequence, kind: k_type, value: v@ };
        // the first entry that a version of `k` with this sequence number
        // could be
        let probe = InternalKeyValue::from(
            sequence,
            ValueType::KTypeValue,
            vstd::slice::slice_to_vec(k.as_slice()),
            Vec::new(),
        );
        assert(probe@.value =~= Seq::<u8>::empty());
        let present = match self.seek(&probe) {
            Some(found) => {
                let same = found.get_sequence() == sequence && bytes_equal(
                    found.get_key().as_slice(),
                    k.as_slice(),
                );
                proof {
                    if !same {
                        assert forall|o: Entry| #[trigger]
                            self@.contains(o) && o.key == e.key implies o.sequence
                            != e.sequence by {
                            if o.sequence == e.sequence {
                                assert(entry_le(probe@, o));
                                assert(entry_le(found@, o));
                                if found@.key != e.key {
                                    lemma_bytes_le_antisymmetric(found@.key, e.key);
                                }
                            }
                        }
                    }
                }
                same
            },
            None => {
                proof {
                    assert forall|o: Entry| #[trigger]
                        self@.contains(o) && o.key == e.key implies o.sequence != e.sequence by {
                        if o.sequence == e.sequence {
                            assert(entry_le(probe@, o));
                        }
                    }
                }
                false
            },
        };
        if !present {
            let kv = InternalKeyValue::from(sequence, k_type, k, v);
            proof {
                kv.lemma_bytes();
            }
            skipset_insert(&mut self.table, kv.into_bytes());
            proof {
                assert(!has_version(old(self)@, e.key, e.sequence));
                assert forall|o: Entry| self@.contains(o) <==> old(self)@.insert(e).contains(o) by {
                    lemma_entry_round_trip(o);
                    lemma_entry_round_trip(e);
                }
                assert(self@ =~= old(self)@.insert(e));
                lemma_table_add_unique(old(self)@, e);
            }
        }
    }

    /// The value of the key `k`: that of its newest version, or `None` where
    /// the table holds no version of `k` or the newest is a deletion.
    pub fn get(&self, k: &[u8]) -> (value: Option<Vec<u8>>)
        requires
            self.wf(),
        ensures
            match value {
                Some(v) => table_get(self@, k@) == Some(v@),
                None => table_get(self@, k@) is None,
            },
    {
        let lookup_key = InternalKeyValue::from_key(vstd::slice::slice_to_vec(k));
        match self.seek(&lookup_key) {
            Some(found) => {
                if bytes_equal(found.get_key().as_slice(), k) {
                    proof {
                        assert forall|o: Entry| #[trigger]
                            self@.contains(o) && o.key == found@.key implies o.sequence
                            <= found@.sequence by {
                            assert(entry_le(lookup_key@, o));
                            assert(entry_le(found@, o));
                        }
                        assert(is_newest(self@, found@));
                        lemma_table_get_newest(self@, found@);
                    }
                    match found.get_type() {
                        ValueType::KTypeValue => Some(found.get_value()),
                        ValueType::KTypeDeletion => None,
                    }
                } else {
                    proof {
                        assert forall|o: Entry| #[trigger] self@.contains(o) implies o.key
                            != k@ by {
                            if o.key == k@ {
                                assert(entry_le(lookup_key@, o));
                                assert(entry_le(found@, o));
                                lemma_bytes_le_antisymmetric(found@.key, k@);
                            }
                        }
                        lemma_table_get_absent(self@, k@);
                    }
                    None
                }
            },
            None => {
                proof {
                    assert forall|o: Entry| #[trigger] self@.contains(o) implies o.key != k@ by {
                        if o.key == k@ {
                            assert(entry_le(lookup_key@, o));
                        }
                    }
                    lemma_table_get_absent(self@, k@);
                }
                None
            },
        }
    }
}

} // verus!
