//! The database: sequence numbers, write-ahead ordering, and reads.
//!
//! The database does no I/O. A write is made in two steps. `put` or `delete`
//! stages it: it picks the next sequence number, builds the batch, and hands
//! out the bytes to append to the log file. The caller appends them and tells
//! `commit` whether that worked; only then does the write reach the table and
//! become visible to reads. A log that was read back is replayed by
//! `recover`.

use crate::log_reader::{
    batches_view, encode_all, lemma_batches_round_trip, lemma_batches_torn_tail, lemma_log_bytes_push,
    lemma_log_end_resumes, read_batches, read_batches_spec, BatchScan, LogError,
};
use crate::log_writter::{
    fragments, fragments_end, lemma_fragments_bounds, log_bytes, log_end, padding, resume_offset,
    LogWritter, BLOCK_SIZE,
};
use crate::internal_key::Entry;
use crate::mem_table::{lemma_newest_wins, table_add, table_get, versions_unique, MemTable};
use crate::write_batch::{
    batch_bytes, batch_valid, delete_of, mutation_valid, operations_view, put_of, Batch, Mutation,
    ValueType, WriteBatch,
};
use vstd::prelude::*;

verus! {

/// Why an operation of the database failed.
#[derive(Clone, Copy, Debug, PartialEq, Eq, Structural)]
pub enum DBError {
    /// The write did not reach the log, or cannot be made: the state of the
    /// database is as it was.
    WriteError,
    /// The key has no value.
    NotFound,
    /// The log is damaged before its end, or its sequence numbers do not
    /// rise.
    CorruptLog,
    /// A payload of the log is not the encoding of a batch.
    Malformed,
}

/// The state of a database, as a mathematical value.
pub struct DbState {
    /// The entries of the table.
    pub table: Set<Entry>,
    /// The sequence number that the next write gets.
    pub next_sequence: u64,
    /// The number of bytes in the current block of the log: a whole block
    /// where the last write filled it.
    pub log_offset: nat,
}

/// The entry that the operation `m` makes at the sequence number `sequence`.
pub open spec fn entry_of(sequence: u64, m: Mutation) -> Entry {
    Entry { key: m.key, sequence, kind: m.kind, value: m.value }
}

/// The table after the operations `ops` were added to `t` in order, each at
/// the sequence number `sequence`.
pub open spec fn apply_ops(t: Set<Entry>, sequence: u64, ops: Seq<Mutation>) -> Set<Entry>
    decreases ops.len(),
{
    if ops.len() == 0 {
        t
    } else {
        table_add(apply_ops(t, sequence, ops.drop_last()), entry_of(sequence, ops.last()))
    }
}

/// A state that a database can be in: no two entries are versions of one key
/// with one sequence number, and every entry was written before the next
/// sequence number.
pub open spec fn db_valid(s: DbState) -> bool {
    &&& versions_unique(s.table)
    &&& s.log_offset <= BLOCK_SIZE
    &&& s.next_sequence >= 1
    &&& forall|e: Entry| #[trigger] s.table.contains(e) ==> e.sequence < s.next_sequence
}

/// The state of a new database.
pub open spec fn db_new() -> DbState {
    DbState { table: Set::empty(), next_sequence: 1, log_offset: 0 }
}

/// The batch that writing `m` makes in the state `s`: the one operation,
/// under the next sequence number.
pub open spec fn write_batch_of(s: DbState, m: Mutation) -> Batch {
    Batch { sequence: s.next_sequence, ops: seq![m] }
}

/// The state after the batch `b` was logged and applied in the state `s`.
pub open spec fn db_apply(s: DbState, b: Batch) -> DbState {
    DbState {
        table: apply_ops(s.table, b.sequence, b.ops),
        next_sequence: (b.sequence + 1) as u64,
        log_offset: fragments_end(s.log_offset, batch_bytes(b), true),
    }
}

/// The value of `key` in the state `s`.
pub open spec fn db_get(s: DbState, key: Seq<u8>) -> Option<Seq<u8>> {
    table_get(s.table, key)
}

/// A staged write, as a mathematical value.
pub struct Pending {
    /// The batch to log and apply.
    pub batch: Batch,
    /// The bytes to append to the log.
    pub record: Seq<u8>,
    /// The number of bytes in the current block of the log before the write.
    pub start: nat,
}

/// The staged write of the batch `b` in the state `s`.
pub open spec fn pending_of(s: DbState, b: Batch) -> Pending {
    Pending { batch: b, record: fragments(s.log_offset, batch_bytes(b), true), start: s.log_offset }
}

/// The table and the next sequence number that replaying `batches` in order
/// gives, from an empty table and the first sequence number. `None` where a
/// batch has a sequence number below the one that is next, or the last one
/// there is.
pub open spec fn replay(batches: Seq<Batch>) -> Option<(Set<Entry>, u64)>
    decreases batches.len(),
{
    if batches.len() == 0 {
        Some((Set::empty(), 1u64))
    } else {
        match replay(batches.drop_last()) {
            Some((table, next)) => {
                let b = batches.last();
                if next <= b.sequence && b.sequence < u64::MAX {
                    Some((apply_ops(table, b.sequence, b.ops), (b.sequence + 1) as u64))
                } else {
                    None
                }
            },
            None => None,
        }
    }
}

/// What recovering from a log gives.
pub struct Recovery {
    /// The state of the database.
    pub state: DbState,
    /// The length of the log up to the end of the last whole batch.
    pub durable: nat,
    /// Whether the log ends in an interrupted write.
    pub torn: bool,
}

/// The recovery from the log `log`: its batches are replayed in order, each
/// operation with the sequence number of its batch, and the log goes on after
/// its last whole batch.
pub open spec fn recover_spec(log: Seq<u8>) -> Result<Recovery, DBError> {
    match read_batches_spec(log) {
        Err(LogError::CorruptLog) => Err(DBError::CorruptLog),
        Err(LogError::Malformed) => Err(DBError::Malformed),
        Ok(found) => match replay(found.batches) {
            None => Err(DBError::CorruptLog),
            Some((table, next)) => Ok(
                Recovery {
                    state: DbState {
                        table,
                        next_sequence: next,
                        log_offset: resume_offset(found.durable),
                    },
                    durable: found.durable,
                    torn: found.torn,
                },
            ),
        },
    }
}

/// A write that was staged and waits for the log.
pub struct PendingWrite {
    batch: WriteBatch,
    record: Vec<u8>,
    start_offset: usize,
    after: LogWritter,
}

impl View for PendingWrite {
    type V = Pending;

    closed spec fn view(&self) -> Pending {
        Pending { batch: self.batch@, record: self.record@, start: self.start_offset as nat }
    }
}

impl PendingWrite {
    /// The write holds a batch with a sequence number that can be followed,
    /// and the bytes that store the batch from the offset it was staged at.
    pub closed spec fn wf(&self) -> bool {
        &&& self.batch.wf()
        &&& batch_valid(self.batch@)
        &&& self.batch@.sequence < u64::MAX
        &&& self.start_offset <= BLOCK_SIZE
        &&& self.record@ == fragments(self.start_offset as nat, batch_bytes(self.batch@), true)
        &&& self.after.offset() == fragments_end(
            self.start_offset as nat,
            batch_bytes(self.batch@),
            true,
        )
    }

    /// The bytes to append to the log.
    pub fn record(&self) -> (bytes: &[u8])
        ensures
            bytes@ == self@.record,
    {
        self.record.as_slice()
    }

    /// The sequence number of the write.
    pub fn sequence(&self) -> (sequence: u64)
        requires
            self.wf(),
        ensures
            sequence == self@.batch.sequence,
    {
        self.batch.get_sequence()
    }
}

/// The database.
pub struct Database {
    mmtable: MemTable,
    log_writter: LogWritter,
    next_sequence: u64,
}

impl View for Database {
    type V = DbState;

    closed spec fn view(&self) -> DbState {
        DbState {
            table: self.mmtable@,
            next_sequence: self.next_sequence,
            log_offset: self.log_writter.offset(),
        }
    }
}

impl Database {
    /// The table is well formed and the state is one that a database can be
    /// in.
    pub closed spec fn wf(&self) -> bool {
        self.mmtable.wf() && db_valid(self@)
    }

    /// A well-formed database is in a state that a database can be in.
    pub proof fn lemma_valid(&self)
        requires
            self.wf(),
        ensures
            db_valid(self@),
    {
    }

    /// A new database: an empty table, an empty log, and 1 as the first
    /// sequence number.
    pub fn new() -> (db: Self)
        ensures
            db.wf(),
            db@ == db_new(),
    {
        Database { mmtable: MemTable::new(), log_writter: LogWritter::new(), next_sequence: 1 }
    }

    /// The value of the key `k`. Fails with `NotFound` where the key has no
    /// version or its newest version is a deletion.
    pub fn get(&self, k: &[u8]) -> (r: Result<Vec<u8>, DBError>)
        requires
            self.wf(),
        ensures
            match r {
                Ok(v) => db_get(self@, k@) == Some(v@),
                Err(e) => e == DBError::NotFound && db_get(self@, k@) is None,
            },
    {
        match self.mmtable.get(k) {
            Some(v) => Ok(v),
            None => Err(DBError::NotFound),
        }
    }

    /// Stages the write that gives the key `k` the value `v`: the batch gets
    /// the next sequence number, and the write holds the bytes to append to
    /// the log. The database is not changed. Fails with `WriteError` where a
    /// length does not fit in 32 bits or the sequence numbers are used up.
    pub fn put(&self, k: &[u8], v: &[u8]) -> (r: Result<PendingWrite, DBError>)
        requires
            self.wf(),
        ensures
            match r {
                Ok(w) => w.wf() && w@ == pending_of(
                    self@,
                    write_batch_of(self@, put_of(k@, v@)),
                ),
                Err(e) => e == DBError::WriteError,
            },
            r is Err <==> k.len() > u32::MAX || v.len() > u32::MAX || self@.next_sequence
                == u64::MAX,
    {
        if k.len() > u32::MAX as usize || v.len() > u32::MAX as usize || self.next_sequence
            == u64::MAX {
            return Err(DBError::WriteError);
        }
        let mut write_batch = WriteBatch::new();
        write_batch.put(k, v);
        assert(write_batch@.ops =~= seq![put_of(k@, v@)]);
        Ok(self.stage(write_batch))
    }

    /// Stages the write that deletes the key `k`. The database is not
    /// changed. Fails with `WriteError` where the length of the key does not
    /// fit in 32 bits or the sequence numbers are used up.
    pub fn delete(&self, k: &[u8]) -> (r: Result<PendingWrite, DBError>)
        requires
            self.wf(),
        ensures
            match r {
                Ok(w) => w.wf() && w@ == pending_of(self@, write_batch_of(self@, delete_of(k@))),
                Err(e) => e == DBError::WriteError,
            },
            r is Err <==> k.len() > u32::MAX || self@.next_sequence == u64::MAX,
    {
        if k.len() > u32::MAX as usize || self.next_sequence == u64::MAX {
            return Err(DBError::WriteError);
        }
        let mut write_batch = WriteBatch::new();
        write_batch.delete(k);
        assert(write_batch@.ops =~= seq![delete_of(k@)]);
        Ok(self.stage(write_batch))
    }

    /// Ends a staged write. `appended` says whether the bytes of the write
    /// were appended to the log. Where they were, and the write was staged in
    /// the state that the database is in, the batch is applied to the table
    /// and the next sequence number is taken. Otherwise the call fails with
    /// `WriteError` and the database stays as it was.
    pub fn commit(&mut self, write: PendingWrite, appended: bool) -> (r: Result<(), DBError>)
        requires
            old(self).wf(),
            write.wf(),
        ensures
            final(self).wf(),
            match r {
                Ok(_) => final(self)@ == db_apply(old(self)@, write@.batch),
                Err(e) => e == DBError::WriteError && final(self)@ == old(self)@,
            },
            r is Ok <==> appended && write@.batch.sequence == old(self)@.next_sequence
                && write@.start == old(self)@.log_offset,
    {
        if !appended || write.batch.get_sequence() != self.next_sequence || write.start_offset
            != self.log_writter.block_offset() {
            return Err(DBError::WriteError);
        }
        self.apply(&write.batch);
        self.log_writter = write.after;
        proof {
            crate::log_writter::lemma_fragments_bounds(
                write.start_offset as nat,
                batch_bytes(write.batch@),
                true,
            );
        }
        Ok(())
    }

    /// Recovers a database from the bytes of its log: replays the batches in
    /// the order of the log, each operation with the sequence number of its
    /// batch. An interrupted last write is dropped. Fails with `CorruptLog`
    /// where the log is damaged before its end or its sequence numbers do not
    /// rise, and with `Malformed` where a payload is not a batch.
    pub fn recover(log: &[u8]) -> (r: Result<Recovered, DBError>)
        ensures
            match r {
                Ok(found) => found.db.wf() && recover_spec(log@) == Ok::<Recovery, DBError>(
                    found@,
                ),
                Err(e) => recover_spec(log@) == Err::<Recovery, DBError>(e),
            },
    {
        let found = match read_batches(log) {
            Ok(found) => found,
            Err(LogError::CorruptLog) => {
                return Err(DBError::CorruptLog);
            },
            Err(LogError::Malformed) => {
                return Err(DBError::Malformed);
            },
        };
        let ghost all = batches_view(found.batches@);
        let mut db = Database::new();
        let mut i: usize = 0;
        assert(all.take(0) =~= Seq::<Batch>::empty());
        while i < found.batches.len()
            invariant
                i <= found.batches.len(),
                found.wf(),
                read_batches_spec(log@) == Ok::<BatchScan, LogError>(found@),
                all == batches_view(found.batches@),
                db.wf(),
                db.log_writter.offset() == 0,
                replay(all.take(i as int)) == Some((db@.table, db@.next_sequence)),
            decreases found.batches.len() - i,
        {
            let batch = &found.batches[i];
            proof {
                assert(all[i as int] == batch@);
                assert(all.take(i + 1).drop_last() =~= all.take(i as int));
                assert(all.take(i + 1).last() == batch@);
            }
            let sequence = batch.get_sequence();
            if sequence < db.next_sequence || sequence == u64::MAX {
                proof {
                    lemma_replay_prefix(all, i + 1);
                }
                return Err(DBError::CorruptLog);
            }
            db.apply(batch);
            i = i + 1;
        }
        assert(all.take(i as int) =~= all);
        db.log_writter = LogWritter::resume(found.durable_len);
        Ok(Recovered { db, durable_len: found.durable_len, torn: found.torn })
    }

    /// Gives the batch the next sequence number and frames it for the log.
    fn stage(&self, write_batch: WriteBatch) -> (w: PendingWrite)
        requires
            self.wf(),
            write_batch.wf(),
            self@.next_sequence < u64::MAX,
        ensures
            w.wf(),
            w@ == pending_of(
                self@,
                Batch { sequence: self@.next_sequence, ops: write_batch@.ops },
            ),
    {
        let mut write_batch = write_batch;
        write_batch.set_sequence(self.next_sequence);
        let start_offset = self.log_writter.block_offset();
        let mut writer = self.log_writter;
        let record = writer.add_record(&write_batch);
        proof {
            write_batch.lemma_valid();
        }
        PendingWrite { batch: write_batch, record, start_offset, after: writer }
    }

    /// Adds the operations of a batch to the table, each at the sequence
    /// number of the batch, and takes the sequence number after it as the
    /// next.
    fn apply(&mut self, write_batch: &WriteBatch)
        requires
            old(self).wf(),
            write_batch.wf(),
            old(self)@.next_sequence <= write_batch@.sequence < u64::MAX,
        ensures
            final(self).mmtable.wf(),
            final(self).log_writter == old(self).log_writter,
            final(self)@.table == apply_ops(
                old(self)@.table,
                write_batch@.sequence,
                write_batch@.ops,
            ),
            final(self)@.next_sequence == write_batch@.sequence + 1,
            db_valid(final(self)@),
    {
        let sequence = write_batch.get_sequence();
        let ops = write_batch.operations();
        let ghost all = write_batch@.ops;
        let mut i: usize = 0;
        assert(all.take(0) =~= Seq::<Mutation>::empty());
        while i < ops.len()
            invariant
                i <= ops.len(),
                all == operations_view(ops@),
                self.mmtable.wf(),
                self.log_writter == old(self).log_writter,
                self.next_sequence == old(self).next_sequence,
                self.mmtable@ == apply_ops(old(self).mmtable@, sequence, all.take(i as int)),
                versions_unique(self.mmtable@),
                forall|e: Entry| #[trigger]
                    self.mmtable@.contains(e) ==> e.sequence < sequence + 1,
            decreases ops.len() - i,
        {
            let op = &ops[i];
            proof {
                assert(all[i as int] == op@);
                assert(all.take(i + 1).drop_last() =~= all.take(i as int));
                assert(all.take(i + 1).last() == op@);
                crate::mem_table::lemma_table_add_unique(self.mmtable@, entry_of(sequence, op@));
            }
            self.mmtable.add(
                sequence,
                op.k_type,
                vstd::slice::slice_to_vec(op.key.as_slice()),
                vstd::slice::slice_to_vec(op.value.as_slice()),
            );
            i = i + 1;
        }
        assert(all.take(i as int) =~= all);
        self.next_sequence = sequence + 1;
    }
}

/// A database that was recovered from a log.
pub struct Recovered {
    /// The database.
    pub db: Database,
    /// The length of the log up to the end of the last whole batch: the log
    /// is to be cut there before it is written to again.
    pub durable_len: usize,
    /// Whether the log ends in an interrupted write.
    pub torn: bool,
}

impl View for Recovered {
    type V = Recovery;

    open spec fn view(&self) -> Recovery {
        Recovery { state: self.db@, durable: self.durable_len as nat, torn: self.torn }
    }
}

/// Where the first `n` of some batches cannot be replayed, the batches
/// cannot.
proof fn lemma_replay_prefix(batches: Seq<Batch>, n: int)
    requires
        0 <= n <= batches.len(),
        replay(batches.take(n)) is None,
    ensures
        replay(batches) is None,
    decreases batches.len(),
{
    if n < batches.len() {
        assert(batches.drop_last().take(n) =~= batches.take(n));
        lemma_replay_prefix(batches.drop_last(), n);
    } else {
        assert(batches.take(n) =~= batches);
    }
}

/// The state after the operation `m` was written in the state `s`: staged,
/// logged and committed.
pub open spec fn db_write(s: DbState, m: Mutation) -> DbState {
    db_apply(s, write_batch_of(s, m))
}

/// A write is visible once it is committed, and touches no other key: after
/// `m` was written, its key has the value that `m` gives it, or none where `m`
/// is a deletion, and every other key has the value it had.
pub proof fn lemma_write_visible(s: DbState, m: Mutation, other: Seq<u8>)
    requires
        db_valid(s),
        s.next_sequence < u64::MAX,
        other != m.key,
    ensures
        db_valid(db_write(s, m)),
        db_write(s, m).next_sequence == s.next_sequence + 1,
        db_write(s, m).table == s.table.insert(entry_of(s.next_sequence, m)),
        db_get(db_write(s, m), m.key) == (if m.kind == ValueType::KTypeValue {
            Some(m.value)
        } else {
            None
        }),
        db_get(db_write(s, m), other) == db_get(s, other),
{
    let b = write_batch_of(s, m);
    let e = entry_of(s.next_sequence, m);
    assert(b.ops.drop_last() =~= Seq::<Mutation>::empty());
    assert(apply_ops(s.table, b.sequence, b.ops.drop_last()) == s.table);
    assert(apply_ops(s.table, b.sequence, b.ops) == table_add(s.table, e));
    lemma_newest_wins(s.table, e, other);
    lemma_fragments_bounds(s.log_offset, batch_bytes(b), true);
}

/// The last write wins: after two values were put for one key, one after the
/// other, the key has the second.
pub proof fn lemma_last_put_wins(s: DbState, key: Seq<u8>, first: Seq<u8>, second: Seq<u8>)
    requires
        db_valid(s),
        s.next_sequence < u64::MAX - 1,
    ensures
        db_get(db_write(db_write(s, put_of(key, first)), put_of(key, second)), key) == Some(second),
        db_write(s, put_of(key, first)).next_sequence < db_write(
            db_write(s, put_of(key, first)),
            put_of(key, second),
        ).next_sequence,
{
    let other = key.push(0);
    assert(other.len() != key.len());
    lemma_write_visible(s, put_of(key, first), other);
    lemma_write_visible(db_write(s, put_of(key, first)), put_of(key, second), other);
}

/// A deletion hides the value that was put before it.
pub proof fn lemma_delete_hides(s: DbState, key: Seq<u8>, value: Seq<u8>)
    requires
        db_valid(s),
        s.next_sequence < u64::MAX - 1,
    ensures
        db_get(db_write(s, put_of(key, value)), key) == Some(value),
        db_get(db_write(db_write(s, put_of(key, value)), delete_of(key)), key) is None,
{
    let other = key.push(0);
    assert(other.len() != key.len());
    lemma_write_visible(s, put_of(key, value), other);
    lemma_write_visible(db_write(s, put_of(key, value)), delete_of(key), other);
}

/// The operations `h` can be written to a new database one after the other.
pub open spec fn history_valid(h: Seq<Mutation>) -> bool {
    &&& h.len() < u64::MAX - 1
    &&& forall|i: int| 0 <= i < h.len() ==> mutation_valid(#[trigger] h[i])
}

/// The state of a database to which the operations `h` were written one
/// after the other, from new.
pub open spec fn history_state(h: Seq<Mutation>) -> DbState
    decreases h.len(),
{
    if h.len() == 0 {
        db_new()
    } else {
        db_write(history_state(h.drop_last()), h.last())
    }
}

/// The log of a database to which the operations `h` were written one after
/// the other, from new: the bytes that each write handed out, in order.
pub open spec fn history_log(h: Seq<Mutation>) -> Seq<u8>
    decreases h.len(),
{
    if h.len() == 0 {
        Seq::empty()
    } else {
        let before = history_state(h.drop_last());
        history_log(h.drop_last()) + pending_of(before, write_batch_of(before, h.last())).record
    }
}

/// The batches that writing the operations `h` one after the other makes:
/// one operation each, under the sequence numbers from 1 on.
pub open spec fn history_batches(h: Seq<Mutation>) -> Seq<Batch> {
    Seq::new(h.len(), |i: int| Batch { sequence: (i + 1) as u64, ops: seq![h[i]] })
}

/// The log of a history is the log of its batches, and replaying them gives
/// the state of the history.
proof fn lemma_history(h: Seq<Mutation>)
    requires
        history_valid(h),
    ensures
        db_valid(history_state(h)),
        history_state(h).next_sequence == h.len() + 1,
        history_state(h).log_offset == log_end(0, encode_all(history_batches(h))),
        history_log(h) == log_bytes(0, encode_all(history_batches(h))),
        replay(history_batches(h)) == Some(
            (history_state(h).table, history_state(h).next_sequence),
        ),
        forall|i: int|
            0 <= i < h.len() ==> batch_valid(#[trigger] history_batches(h)[i]),
    decreases h.len(),
{
    let batches = history_batches(h);
    assert forall|i: int| 0 <= i < h.len() implies batch_valid(#[trigger] batches[i]) by {
        assert(batches[i].ops[0] == h[i]);
    }
    if h.len() == 0 {
        assert(encode_all(batches) =~= Seq::<Seq<u8>>::empty());
        assert(batches =~= Seq::<Batch>::empty());
    } else {
        let front = h.drop_last();
        let m = h.last();
        assert forall|i: int| 0 <= i < front.len() implies mutation_valid(#[trigger] front[i]) by {
            assert(front[i] == h[i]);
        }
        lemma_history(front);
        let before = history_state(front);
        let b = write_batch_of(before, m);
        let other = m.key.push(0);
        assert(other.len() != m.key.len());
        lemma_write_visible(before, m, other);
        assert(batches.drop_last() =~= history_batches(front));
        assert(batches.last() == b);
        assert(encode_all(batches) =~= encode_all(history_batches(front)).push(batch_bytes(b)));
        lemma_log_bytes_push(0, encode_all(history_batches(front)), batch_bytes(b));
    }
}

/// The log keeps the writes in their order: the log of a database to which
/// operations were written one after the other holds one batch for each, in
/// the order of the writes, with sequence numbers that rise from one batch to
/// the next.
pub proof fn lemma_log_keeps_writes(h: Seq<Mutation>)
    requires
        history_valid(h),
    ensures
        read_batches_spec(history_log(h)) == Ok::<BatchScan, LogError>(
            BatchScan {
                batches: history_batches(h),
                durable: history_log(h).len(),
                torn: false,
            },
        ),
        forall|i: int, j: int|
            0 <= i < j < h.len() ==> history_batches(h)[i].sequence < history_batches(
                h,
            )[j].sequence,
        forall|i: int| 0 <= i < h.len() ==> history_batches(h)[i].ops == seq![h[i]],
{
    lemma_history(h);
    lemma_batches_round_trip(history_batches(h));
}

/// Recovery gives the database back: recovering from the log of a database
/// to which operations were written one after the other gives the state of
/// that database, ready for the next write.
pub proof fn lemma_recovery(h: Seq<Mutation>)
    requires
        history_valid(h),
    ensures
        recover_spec(history_log(h)) == Ok::<Recovery, DBError>(
            Recovery { state: history_state(h), durable: history_log(h).len(), torn: false },
        ),
{
    lemma_history(h);
    lemma_batches_round_trip(history_batches(h));
    lemma_log_end_resumes(encode_all(history_batches(h)));
}

/// Recovery after an interrupted write: where the log was cut anywhere inside
/// the bytes of the last write, recovering from it gives the state before
/// that write, and says where the whole part of the log ends.
pub proof fn lemma_recovery_torn(h: Seq<Mutation>, m: Mutation, cut: nat)
    requires
        history_valid(h.push(m)),
        history_log(h).len() <= cut < history_log(h.push(m)).len(),
    ensures
        recover_spec(history_log(h.push(m)).take(cut as int)) == Ok::<Recovery, DBError>(
            Recovery {
                state: history_state(h),
                durable: history_log(h).len(),
                torn: cut - history_log(h).len() > padding(history_state(h).log_offset).len(),
            },
        ),
{
    let all = h.push(m);
    assert(all.drop_last() =~= h);
    assert forall|i: int| 0 <= i < h.len() implies mutation_valid(#[trigger] h[i]) by {
        assert(h[i] == all[i]);
    }
    lemma_history(h);
    lemma_history(all);
    let batches = history_batches(h);
    let last = history_batches(all).last();
    assert(history_batches(all) =~= batches.push(last));
    lemma_batches_torn_tail(batches, last, cut);
    lemma_log_end_resumes(encode_all(batches));
}

} // verus!
