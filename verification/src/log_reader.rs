//! The reader of the write-ahead log.
//!
//! The reader walks the blocks of a log from its first byte, checks each
//! physical record against its checksum, and puts the fragments of a payload
//! together again. A record that is cut short by the end of the log, or whose
//! checksum fails while nothing follows it, is the mark of an interrupted
//! last write and ends the reading in peace; damage before that is fatal.

use crate::checksum::checksum;
use crate::log_writter::{
    available, fragment_kind, fragments, fragments_end, lemma_fragments_bounds,
    log_bytes, log_end, padding, record_bytes, record_checksum, record_start, resume_offset,
    RecordType,
    BLOCK_SIZE, HEADER_SIZE,
};
use crate::write_batch::{
    batch_bytes, batch_valid, lemma_batch_round_trip, parse_batch, Batch, WriteBatch,
};
use vstd::bytes::*;
use vstd::prelude::*;

verus! {

/// What stands at the front of the unread part of a log.
pub enum Step {
    /// Nothing, or only the padding of a block's end.
    End,
    /// A record cut short by the end of the log, or one with a failing
    /// checksum that nothing follows.
    Torn,
    /// A record that cannot have been written, with more of the log after it.
    Corrupt,
    /// A sound record: its type byte, its payload, and the bytes it takes
    /// together with the padding before it.
    Record { tag: u8, payload: Seq<u8>, size: nat },
}

/// The next physical record of `s`, the unread part of a log, where the
/// current block holds `offset` bytes before `s`.
#[verifier::opaque]
pub open spec fn next_record(s: Seq<u8>, offset: nat) -> Step {
    let skipped = padding(offset).len();
    let room = available(offset);
    let r = s.skip(skipped as int);
    let len = spec_u16_from_le_bytes(r.subrange(1, 3)) as nat;
    let sum = spec_u32_from_le_bytes(r.subrange(3, 7));
    let payload = r.subrange(HEADER_SIZE as int, HEADER_SIZE + len);
    if offset > BLOCK_SIZE {
        Step::Corrupt
    } else if s.len() <= skipped {
        Step::End
    } else if r.len() < HEADER_SIZE {
        Step::Torn
    } else if len > room {
        Step::Corrupt
    } else if r.len() < HEADER_SIZE + len {
        Step::Torn
    } else if record_checksum(r[0], payload) != sum {
        if r.len() == HEADER_SIZE + len {
            Step::Torn
        } else {
            Step::Corrupt
        }
    } else {
        Step::Record { tag: r[0], payload, size: (skipped + HEADER_SIZE + len) as nat }
    }
}

/// What reading a log gives.
pub struct Scan {
    /// The payloads that are whole, in the order of the log.
    pub records: Seq<Seq<u8>>,
    /// The length of the log up to the end of the last whole payload.
    pub durable: nat,
    /// Whether the log ends in an interrupted write.
    pub torn: bool,
}

/// The reading of a log that ends here, with the fragments in `partial` not
/// completed.
pub open spec fn scan_end(partial: Option<Seq<u8>>, torn: bool) -> Scan {
    Scan { records: Seq::empty(), durable: 0, torn: torn || partial is Some }
}

/// The reading of a log that starts with `size` bytes which complete the
/// payload `completed`, or complete none, and goes on as `rest` says.
pub open spec fn scan_after(size: nat, completed: Option<Seq<u8>>, rest: Option<Scan>) -> Option<
    Scan,
> {
    match rest {
        None => None,
        Some(r) => Some(
            match completed {
                Some(p) => Scan {
                    records: seq![p] + r.records,
                    durable: size + r.durable,
                    torn: r.torn,
                },
                None => Scan {
                    records: r.records,
                    durable: if r.durable > 0 {
                        size + r.durable
                    } else {
                        0
                    },
                    torn: r.torn,
                },
            },
        ),
    }
}

/// A record takes at least a header, and no more bytes than there are.
pub proof fn lemma_next_record_size(s: Seq<u8>, offset: nat)
    ensures
        next_record(s, offset) matches Step::Record { payload, size, .. } ==> HEADER_SIZE <= size
            <= s.len() && record_start(offset) + HEADER_SIZE + payload.len() <= BLOCK_SIZE,
{
    reveal(next_record);
}

/// What a record of the type `tag` with the payload `payload` does to the
/// fragments in `partial`, read before it: the payload that it completes, if
/// any, and the fragments to carry on with, if any. `None` where a record of
/// that type cannot stand there.
pub open spec fn join_fragment(tag: u8, partial: Option<Seq<u8>>, payload: Seq<u8>) -> Option<
    (Option<Seq<u8>>, Option<Seq<u8>>),
> {
    if tag == RecordType::Full.tag() && partial is None {
        Some((Some(payload), None))
    } else if tag == RecordType::First.tag() && partial is None {
        Some((None, Some(payload)))
    } else if tag == RecordType::Middle.tag() && partial is Some {
        Some((None, Some(partial.unwrap() + payload)))
    } else if tag == RecordType::Last.tag() && partial is Some {
        Some((Some(partial.unwrap() + payload), None))
    } else {
        None
    }
}

/// The reading of `s`, the unread part of a log, where the current block
/// holds `offset` bytes before `s` and `partial` holds the fragments read of a
/// payload that is not complete yet. `None` stands for a corrupt log: a step
/// that is corrupt, or a record whose type does not fit what was read before
/// it. (The test of a record's size only shows that the reading ends: a
/// record never fails it.)
pub open spec fn scan(s: Seq<u8>, offset: nat, partial: Option<Seq<u8>>) -> Option<Scan>
    decreases s.len(),
{
    match next_record(s, offset) {
        Step::End => Some(scan_end(partial, false)),
        Step::Torn => Some(scan_end(partial, true)),
        Step::Corrupt => None,
        Step::Record { tag, payload, size } => {
            let next = (record_start(offset) + HEADER_SIZE + payload.len()) as nat;
            if size < HEADER_SIZE || size > s.len() {
                None
            } else {
                match join_fragment(tag, partial, payload) {
                    Some((completed, carried)) => scan_after(
                        size,
                        completed,
                        scan(s.skip(size as int), next, carried),
                    ),
                    None => None,
                }
            }
        },
    }
}

/// The reading of a whole log.
pub open spec fn read_log_spec(log: Seq<u8>) -> Option<Scan> {
    scan(log, 0, None)
}

/// A record that the writer made, with its padding before it, is read back
/// as it was written, whatever follows it.
pub proof fn lemma_next_record_written(
    offset: nat,
    kind: RecordType,
    payload: Seq<u8>,
    rest: Seq<u8>,
)
    requires
        offset <= BLOCK_SIZE,
        payload.len() <= available(offset),
    ensures
        next_record(padding(offset) + record_bytes(kind, payload) + rest, offset) == (Step::Record {
            tag: kind.tag(),
            payload,
            size: (padding(offset).len() + HEADER_SIZE + payload.len()) as nat,
        }),
        (padding(offset) + record_bytes(kind, payload)).len() == padding(offset).len()
            + HEADER_SIZE + payload.len(),
{
    reveal(next_record);
    lemma_auto_spec_u16_to_from_le_bytes();
    lemma_auto_spec_u32_to_from_le_bytes();
    let s = padding(offset) + record_bytes(kind, payload) + rest;
    let skipped = padding(offset).len();
    let r = s.skip(skipped as int);
    let len16 = spec_u16_to_le_bytes(payload.len() as u16);
    let sum32 = spec_u32_to_le_bytes(record_checksum(kind.tag(), payload));
    assert(r =~= record_bytes(kind, payload) + rest);
    assert(r.subrange(1, 3) =~= len16);
    assert(r.subrange(3, 7) =~= sum32);
    assert(r.subrange(HEADER_SIZE as int, HEADER_SIZE + payload.len()) =~= payload);
    assert(r[0] == kind.tag());
}

/// What was stored for one payload is read back as that payload, after the
/// fragments read before it, and the reading goes on with what follows.
pub proof fn lemma_scan_fragments(
    offset: nat,
    payload: Seq<u8>,
    begin: bool,
    partial: Option<Seq<u8>>,
    rest: Seq<u8>,
)
    requires
        offset <= BLOCK_SIZE,
        begin <==> partial is None,
    ensures
        scan(fragments(offset, payload, begin) + rest, offset, partial) == scan_after(
            fragments(offset, payload, begin).len(),
            Some(
                if begin {
                    payload
                } else {
                    partial.unwrap() + payload
                },
            ),
            scan(rest, fragments_end(offset, payload, begin), None),
        ),
    decreases
        payload.len(),
        (if available(offset) == 0 {
            1nat
        } else {
            0nat
        }),
{
    let avail = available(offset);
    let s = fragments(offset, payload, begin) + rest;
    if payload.len() <= avail {
        let kind = fragment_kind(begin, true);
        lemma_next_record_written(offset, kind, payload, rest);
        let size = padding(offset).len() + HEADER_SIZE + payload.len();
        assert(s.skip(size as int) =~= rest);
    } else {
        let kind = fragment_kind(begin, false);
        let head = payload.take(avail as int);
        let tail = payload.skip(avail as int);
        let more = fragments(BLOCK_SIZE as nat, tail, false);
        lemma_next_record_written(offset, kind, head, more + rest);
        let size = padding(offset).len() + HEADER_SIZE + head.len();
        assert(s =~= padding(offset) + record_bytes(kind, head) + (more + rest));
        assert(s.skip(size as int) =~= more + rest);
        let acc = if begin {
            head
        } else {
            partial.unwrap() + head
        };
        lemma_scan_fragments(BLOCK_SIZE as nat, tail, false, Some(acc), rest);
        lemma_fragments_bounds(BLOCK_SIZE as nat, tail, false);
        assert(acc + tail =~= if begin {
            payload
        } else {
            partial.unwrap() + payload
        });
        assert(fragments(offset, payload, begin).len() == size + more.len());
        assert(record_start(offset) + HEADER_SIZE + head.len() == BLOCK_SIZE);
    }
}

/// Reading a log gives back the payloads that were stored, in order: the
/// reading of what the writer made for `payloads`, followed by `rest`, is
/// those payloads and then the reading of `rest`.
pub proof fn lemma_scan_log(offset: nat, payloads: Seq<Seq<u8>>, rest: Seq<u8>)
    requires
        offset <= BLOCK_SIZE,
    ensures
        log_end(offset, payloads) <= BLOCK_SIZE,
        scan(log_bytes(offset, payloads) + rest, offset, None) == match scan(
            rest,
            log_end(offset, payloads),
            None,
        ) {
            None => None,
            Some(r) => Some(
                Scan {
                    records: payloads + r.records,
                    durable: if payloads.len() > 0 || r.durable > 0 {
                        log_bytes(offset, payloads).len() + r.durable
                    } else {
                        0
                    },
                    torn: r.torn,
                },
            ),
        },
    decreases payloads.len(),
{
    if payloads.len() == 0 {
        assert(log_bytes(offset, payloads) + rest =~= rest);
        match scan(rest, offset, None) {
            Some(r) => {
                assert(payloads + r.records =~= r.records);
            },
            None => {},
        }
    } else {
        let first = fragments(offset, payloads[0], true);
        let next = fragments_end(offset, payloads[0], true);
        let others = log_bytes(next, payloads.skip(1));
        lemma_fragments_bounds(offset, payloads[0], true);
        lemma_scan_fragments(offset, payloads[0], true, None, others + rest);
        lemma_scan_log(next, payloads.skip(1), rest);
        assert(log_bytes(offset, payloads) + rest =~= first + (others + rest));
        match scan(rest, log_end(offset, payloads), None) {
            Some(r) => {
                assert(seq![payloads[0]] + (payloads.skip(1) + r.records) =~= payloads
                    + r.records);
            },
            None => {},
        }
    }
}

/// The log round trip: a log that holds `payloads`, written from its start,
/// reads back as exactly those payloads in order, with nothing torn.
pub proof fn lemma_log_round_trip(payloads: Seq<Seq<u8>>)
    ensures
        read_log_spec(log_bytes(0, payloads)) == Some(
            Scan {
                records: payloads,
                durable: log_bytes(0, payloads).len(),
                torn: false,
            },
        ),
{
    reveal(next_record);
    lemma_scan_log(0, payloads, Seq::empty());
    assert(log_bytes(0, payloads) + Seq::<u8>::empty() =~= log_bytes(0, payloads));
    assert(payloads + Seq::<Seq<u8>>::empty() =~= payloads);
    if payloads.len() == 0 {
        assert(log_bytes(0, payloads).len() == 0);
    }
}

/// The writer is as far into its block as the bytes of the log have
/// brought it.
pub proof fn lemma_log_end(offset: nat, payloads: Seq<Seq<u8>>)
    requires
        offset <= BLOCK_SIZE,
    ensures
        log_end(offset, payloads) <= BLOCK_SIZE,
        payloads.len() > 0 ==> log_end(offset, payloads) >= HEADER_SIZE,
        log_end(offset, payloads) % (BLOCK_SIZE as nat) == (offset + log_bytes(
            offset,
            payloads,
        ).len()) % (BLOCK_SIZE as nat),
    decreases payloads.len(),
{
    if payloads.len() > 0 {
        let first = fragments(offset, payloads[0], true).len();
        let next = fragments_end(offset, payloads[0], true);
        let rest = log_bytes(next, payloads.skip(1)).len();
        lemma_fragments_bounds(offset, payloads[0], true);
        lemma_log_end(next, payloads.skip(1));
        vstd::arithmetic::div_mod::lemma_add_mod_noop(
            next as int,
            rest as int,
            BLOCK_SIZE as int,
        );
        vstd::arithmetic::div_mod::lemma_add_mod_noop(
            (offset + first) as int,
            rest as int,
            BLOCK_SIZE as int,
        );
    }
}

/// After a log written from its start, the writer stands where a writer
/// goes on that is given the length of the log.
pub proof fn lemma_log_end_resumes(payloads: Seq<Seq<u8>>)
    ensures
        log_end(0, payloads) == resume_offset(log_bytes(0, payloads).len()),
{
    lemma_log_end(0, payloads);
    if payloads.len() > 0 {
        lemma_fragments_bounds(0, payloads[0], true);
        let len = log_bytes(0, payloads).len() as int;
        let end = log_end(0, payloads) as int;
        assert(len >= HEADER_SIZE);
        lemma_position(end, len);
    }
}

/// A place in a block that is congruent to a length is the place after the
/// last byte of that length.
proof fn lemma_position(end: int, len: int)
    requires
        0 < end <= BLOCK_SIZE,
        0 < len,
        end % (BLOCK_SIZE as int) == len % (BLOCK_SIZE as int),
    ensures
        end == (len - 1) % (BLOCK_SIZE as int) + 1,
{
    vstd::arithmetic::div_mod::lemma_fundamental_div_mod(len, BLOCK_SIZE as int);
    vstd::arithmetic::div_mod::lemma_fundamental_div_mod(len - 1, BLOCK_SIZE as int);
    vstd::arithmetic::div_mod::lemma_fundamental_div_mod(end, BLOCK_SIZE as int);
}

/// Storing one more payload appends its fragments to the log.
pub proof fn lemma_log_bytes_push(offset: nat, payloads: Seq<Seq<u8>>, last: Seq<u8>)
    requires
        offset <= BLOCK_SIZE,
    ensures
        log_bytes(offset, payloads.push(last)) == log_bytes(offset, payloads) + fragments(
            log_end(offset, payloads),
            last,
            true,
        ),
        log_end(offset, payloads.push(last)) == fragments_end(
            log_end(offset, payloads),
            last,
            true,
        ),
        log_end(offset, payloads) <= BLOCK_SIZE,
    decreases payloads.len(),
{
    let all = payloads.push(last);
    if payloads.len() == 0 {
        assert(all.skip(1) =~= Seq::<Seq<u8>>::empty());
        assert(log_bytes(fragments_end(offset, last, true), all.skip(1)) =~= Seq::<u8>::empty());
        assert(log_bytes(offset, all) =~= fragments(offset, last, true));
        assert(log_end(fragments_end(offset, last, true), all.skip(1)) == fragments_end(
            offset,
            last,
            true,
        ));
        assert(log_bytes(offset, payloads) + fragments(offset, last, true) =~= fragments(
            offset,
            last,
            true,
        ));
    } else {
        let next = fragments_end(offset, payloads[0], true);
        lemma_fragments_bounds(offset, payloads[0], true);
        lemma_log_bytes_push(next, payloads.skip(1), last);
        assert(all.skip(1) =~= payloads.skip(1).push(last));
        assert(all[0] == payloads[0]);
        assert(log_end(offset, all) == log_end(next, all.skip(1)));
        assert(log_bytes(offset, all) =~= log_bytes(offset, payloads) + fragments(
            log_end(offset, payloads),
            last,
            true,
        ));
    }
}

/// A payload whose storing was interrupted is not read: of the first `cut`
/// bytes of what would have been stored, none completes a payload, and the
/// reading ends without an error. It ends as torn unless only padding was
/// written.
pub proof fn lemma_scan_torn_fragments(
    offset: nat,
    payload: Seq<u8>,
    begin: bool,
    partial: Option<Seq<u8>>,
    cut: nat,
)
    requires
        offset <= BLOCK_SIZE,
        begin <==> partial is None,
        cut < fragments(offset, payload, begin).len(),
    ensures
        scan(fragments(offset, payload, begin).take(cut as int), offset, partial) == Some(
            Scan {
                records: Seq::empty(),
                durable: 0,
                torn: !begin || cut > padding(offset).len(),
            },
        ),
    decreases
        payload.len(),
        (if available(offset) == 0 {
            1nat
        } else {
            0nat
        }),
{
    reveal(next_record);
    lemma_auto_spec_u16_to_from_le_bytes();
    lemma_auto_spec_u32_to_from_le_bytes();
    let avail = available(offset);
    let whole = fragments(offset, payload, begin);
    let s = whole.take(cut as int);
    let skipped = padding(offset).len();
    let last = payload.len() <= avail;
    let kind = fragment_kind(begin, last);
    let head = if last {
        payload
    } else {
        payload.take(avail as int)
    };
    let record = record_bytes(kind, head);
    let size = skipped + HEADER_SIZE + head.len();
    if cut <= skipped {
    } else if cut < size {
        let r = s.skip(skipped as int);
        assert(r.len() == cut - skipped);
        if r.len() >= HEADER_SIZE {
            assert(r.subrange(1, 3) =~= spec_u16_to_le_bytes(head.len() as u16));
        }
    } else {
        let tail = payload.skip(avail as int);
        let more = fragments(BLOCK_SIZE as nat, tail, false);
        let kept = more.take(cut - size);
        assert(s =~= padding(offset) + record + kept);
        lemma_next_record_written(offset, kind, head, kept);
        assert(s.skip(size as int) =~= kept);
        let acc = if begin {
            head
        } else {
            partial.unwrap() + head
        };
        lemma_scan_torn_fragments(BLOCK_SIZE as nat, tail, false, Some(acc), (cut - size) as nat);
    }
}

/// Recovery from a torn tail: where a log was cut anywhere inside what was
/// stored for its last payload, reading it gives every payload stored before
/// that one, and no error.
pub proof fn lemma_torn_tail(payloads: Seq<Seq<u8>>, last: Seq<u8>, cut: nat)
    requires
        log_bytes(0, payloads).len() <= cut < log_bytes(0, payloads.push(last)).len(),
    ensures
        read_log_spec(log_bytes(0, payloads.push(last)).take(cut as int)) == Some(
            Scan {
                records: payloads,
                durable: log_bytes(0, payloads).len(),
                torn: cut - log_bytes(0, payloads).len() > padding(log_end(0, payloads)).len(),
            },
        ),
{
    let before = log_bytes(0, payloads);
    let end = log_end(0, payloads);
    let whole = fragments(end, last, true);
    let k = (cut - before.len()) as nat;
    lemma_log_bytes_push(0, payloads, last);
    assert((before + whole).take(cut as int) =~= before + whole.take(k as int));
    lemma_scan_log(0, payloads, whole.take(k as int));
    lemma_scan_torn_fragments(end, last, true, None, k);
    assert(payloads + Seq::<Seq<u8>>::empty() =~= payloads);
}

/// Damage before the end is fatal: after any payloads that were stored, a
/// record whose stored checksum is not that of its type and payload, with at
/// least one byte of the log after it, makes the log corrupt.
pub proof fn lemma_interior_damage(
    payloads: Seq<Seq<u8>>,
    tag: u8,
    payload: Seq<u8>,
    sum: u32,
    rest: Seq<u8>,
)
    requires
        payload.len() <= available(log_end(0, payloads)),
        sum != record_checksum(tag, payload),
        rest.len() > 0,
    ensures
        read_log_spec(
            log_bytes(0, payloads) + (padding(log_end(0, payloads)) + seq![tag]
                + spec_u16_to_le_bytes(payload.len() as u16) + spec_u32_to_le_bytes(sum) + payload
                + rest),
        ) is None,
{
    reveal(next_record);
    lemma_auto_spec_u16_to_from_le_bytes();
    lemma_auto_spec_u32_to_from_le_bytes();
    let end = log_end(0, payloads);
    let damaged = padding(end) + seq![tag] + spec_u16_to_le_bytes(payload.len() as u16)
        + spec_u32_to_le_bytes(sum) + payload + rest;
    lemma_scan_log(0, payloads, damaged);
    let r = damaged.skip(padding(end).len() as int);
    assert(r =~= seq![tag] + spec_u16_to_le_bytes(payload.len() as u16) + spec_u32_to_le_bytes(sum)
        + payload + rest);
    assert(r.subrange(1, 3) =~= spec_u16_to_le_bytes(payload.len() as u16));
    assert(r.subrange(3, 7) =~= spec_u32_to_le_bytes(sum));
    assert(r.subrange(HEADER_SIZE as int, HEADER_SIZE + payload.len()) =~= payload);
    assert(r[0] == tag);
    assert(next_record(damaged, end) == Step::Corrupt);
}

/// Why a log cannot be read.
#[derive(Clone, Copy, Debug, PartialEq, Eq, Structural)]
pub enum LogError {
    /// A record before the end of the log is damaged or out of place.
    CorruptLog,
    /// A payload of the log is not the encoding of a write batch.
    Malformed,
}

/// What was found at a place in a log: the outcome of reading one physical
/// record.
#[derive(Clone, Copy, Debug, PartialEq, Eq)]
pub enum PhysicalRecord {
    /// Nothing, or only the padding of a block's end.
    End,
    /// A record cut short by the end of the log, or one with a failing
    /// checksum that nothing follows.
    Torn,
    /// A record that cannot have been written, with more of the log after it.
    Corrupt,
    /// A sound record: its type byte, where its payload starts in the log and
    /// how long it is, and the bytes that the record takes together with the
    /// padding before it.
    Record { tag: u8, start: usize, len: usize, size: usize },
}

impl PhysicalRecord {
    /// The step that this outcome stands for, in the log `log`.
    pub open spec fn step(self, log: Seq<u8>) -> Step {
        match self {
            PhysicalRecord::End => Step::End,
            PhysicalRecord::Torn => Step::Torn,
            PhysicalRecord::Corrupt => Step::Corrupt,
            PhysicalRecord::Record { tag, start, len, size } => Step::Record {
                tag,
                payload: log.subrange(start as int, start + len),
                size: size as nat,
            },
        }
    }
}

/// The part of `log` from `pos` on; nothing where `pos` is past the end.
pub open spec fn unread(log: Seq<u8>, pos: nat) -> Seq<u8> {
    if pos <= log.len() {
        log.skip(pos as int)
    } else {
        Seq::empty()
    }
}

/// Reads the physical record that starts at `pos` in `log`, where the current
/// block holds `offset` bytes before `pos`.
pub fn read_physical_record(log: &[u8], pos: usize, offset: usize) -> (r: PhysicalRecord)
    ensures
        r.step(log@) == next_record(unread(log@, pos as nat), offset as nat),
        r matches PhysicalRecord::Record { start, len, size, .. } ==> HEADER_SIZE <= size
            && pos + size <= log.len() && start + len == pos + size && record_start(offset as nat)
            + HEADER_SIZE + len <= BLOCK_SIZE,
{
    proof {
        reveal(next_record);
    }
    if offset > BLOCK_SIZE {
        return PhysicalRecord::Corrupt;
    }
    if pos > log.len() {
        return PhysicalRecord::End;
    }
    let leftover = BLOCK_SIZE - offset;
    let skipped = if leftover < HEADER_SIZE {
        leftover
    } else {
        0
    };
    let room = if leftover < HEADER_SIZE {
        BLOCK_SIZE - HEADER_SIZE
    } else {
        leftover - HEADER_SIZE
    };
    let remaining = log.len() - pos;
    if remaining <= skipped {
        return PhysicalRecord::End;
    }
    let at = pos + skipped;
    let unread = remaining - skipped;
    let ghost r = log@.skip(pos as int).skip(skipped as int);
    assert(r =~= log@.skip(at as int));
    if unread < HEADER_SIZE {
        return PhysicalRecord::Torn;
    }
    let tag = log[at];
    let len_field = &log[at + 1..at + 3];
    let sum_field = &log[at + 3..at + 7];
    assert(len_field@ =~= r.subrange(1, 3));
    assert(sum_field@ =~= r.subrange(3, 7));
    let len = u16_from_le_bytes(len_field) as usize;
    let sum = u32_from_le_bytes(sum_field);
    if len > room {
        return PhysicalRecord::Corrupt;
    }
    if unread < HEADER_SIZE + len {
        return PhysicalRecord::Torn;
    }
    let start = at + HEADER_SIZE;
    let payload = &log[start..start + len];
    assert(payload@ =~= r.subrange(HEADER_SIZE as int, HEADER_SIZE + len));
    let mut covered: Vec<u8> = Vec::new();
    covered.push(tag);
    covered.extend_from_slice(payload);
    assert(covered@ =~= seq![tag] + payload@);
    if checksum(covered.as_slice()) != sum {
        if unread == HEADER_SIZE + len {
            PhysicalRecord::Torn
        } else {
            PhysicalRecord::Corrupt
        }
    } else {
        PhysicalRecord::Record { tag, start, len, size: skipped + HEADER_SIZE + len }
    }
}

/// The payloads read from a log.
pub struct LogScan {
    /// The payloads that are whole, in the order of the log.
    pub records: Vec<Vec<u8>>,
    /// The length of the log up to the end of the last whole payload: a
    /// writer can go on from there.
    pub durable_len: usize,
    /// Whether the log ends in an interrupted write.
    pub torn: bool,
}

/// The byte strings that `v` holds.
pub open spec fn payloads_view(v: Seq<Vec<u8>>) -> Seq<Seq<u8>> {
    v.map_values(|p: Vec<u8>| p@)
}

impl View for LogScan {
    type V = Scan;

    open spec fn view(&self) -> Scan {
        Scan {
            records: payloads_view(self.records@),
            durable: self.durable_len as nat,
            torn: self.torn,
        }
    }
}

/// The reading of a log of which `pos` bytes were read, with the payloads
/// `done` completed in the first `durable` of them, and `inner` the reading of
/// the rest.
spec fn resumed(done: Seq<Seq<u8>>, durable: nat, pos: nat, inner: Option<Scan>) -> Option<Scan> {
    match inner {
        None => None,
        Some(r) => Some(
            Scan {
                records: done + r.records,
                durable: if r.durable > 0 {
                    pos + r.durable
                } else {
                    durable
                },
                torn: r.torn,
            },
        ),
    }
}

/// Reading on over a record moves what it completed to the payloads done.
proof fn lemma_resumed_step(
    done: Seq<Seq<u8>>,
    durable: nat,
    pos: nat,
    size: nat,
    completed: Option<Seq<u8>>,
    rest: Option<Scan>,
)
    requires
        size > 0,
    ensures
        resumed(done, durable, pos, scan_after(size, completed, rest)) == (match completed {
            Some(p) => resumed(done.push(p), pos + size, pos + size, rest),
            None => resumed(done, durable, pos + size, rest),
        }),
{
    match rest {
        Some(r) => {
            match completed {
                Some(p) => {
                    assert(done + (seq![p] + r.records) =~= done.push(p) + r.records);
                },
                None => {},
            }
        },
        None => {},
    }
}

/// Reads a log from its first byte: gives the payloads that are whole, in
/// order, and says whether the log ends in an interrupted write. Fails with
/// `CorruptLog` where a record before the end is damaged or out of place.
pub fn read_log(log: &[u8]) -> (r: Result<LogScan, LogError>)
    ensures
        match r {
            Ok(found) => read_log_spec(log@) == Some(found@),
            Err(e) => e == LogError::CorruptLog && read_log_spec(log@) is None,
        },
{
    let mut records: Vec<Vec<u8>> = Vec::new();
    let mut durable_len: usize = 0;
    let mut pos: usize = 0;
    let mut offset: usize = 0;
    let mut partial: Vec<u8> = Vec::new();
    let mut in_group = false;
    proof {
        assert(log@.skip(0) =~= log@);
        match scan(log@, 0, None) {
            Some(r) => {
                assert(payloads_view(records@) + r.records =~= r.records);
            },
            None => {},
        }
    }
    loop
        invariant
            pos <= log.len(),
            offset <= BLOCK_SIZE,
            durable_len <= pos,
            read_log_spec(log@) == resumed(
                payloads_view(records@),
                durable_len as nat,
                pos as nat,
                scan(
                    log@.skip(pos as int),
                    offset as nat,
                    if in_group {
                        Some(partial@)
                    } else {
                        None
                    },
                ),
            ),
        decreases log.len() - pos,
    {
        let ghost before = if in_group {
            Some(partial@)
        } else {
            None
        };
        let ghost done = payloads_view(records@);
        match read_physical_record(log, pos, offset) {
            PhysicalRecord::End => {
                return Ok(LogScan { records, durable_len, torn: in_group });
            },
            PhysicalRecord::Torn => {
                return Ok(LogScan { records, durable_len, torn: true });
            },
            PhysicalRecord::Corrupt => {
                return Err(LogError::CorruptLog);
            },
            PhysicalRecord::Record { tag, start, len, size } => {
                let payload = &log[start..start + len];
                let next = if BLOCK_SIZE - offset < HEADER_SIZE {
                    HEADER_SIZE + len
                } else {
                    offset + HEADER_SIZE + len
                };
                proof {
                    assert(log@.skip(pos as int).skip(size as int) =~= log@.skip(pos + size));
                    match join_fragment(tag, before, payload@) {
                        Some((completed, carried)) => {
                            lemma_resumed_step(
                                done,
                                durable_len as nat,
                                pos as nat,
                                size as nat,
                                completed,
                                scan(log@.skip(pos + size), next as nat, carried),
                            );
                        },
                        None => {},
                    }
                }
                let kind = RecordType::from_byte(tag);
                if kind == Some(RecordType::Full) && !in_group {
                    records.push(vstd::slice::slice_to_vec(payload));
                    assert(payloads_view(records@) =~= done.push(payload@));
                    durable_len = pos + size;
                } else if kind == Some(RecordType::First) && !in_group {
                    partial = vstd::slice::slice_to_vec(payload);
                    in_group = true;
                } else if kind == Some(RecordType::Middle) && in_group {
                    partial.extend_from_slice(payload);
                    assert(partial@ =~= before.unwrap() + payload@);
                } else if kind == Some(RecordType::Last) && in_group {
                    partial.extend_from_slice(payload);
                    assert(partial@ =~= before.unwrap() + payload@);
                    let mut whole: Vec<u8> = Vec::new();
                    std::mem::swap(&mut whole, &mut partial);
                    records.push(whole);
                    assert(payloads_view(records@) =~= done.push(whole@));
                    in_group = false;
                    durable_len = pos + size;
                } else {
                    return Err(LogError::CorruptLog);
                }
                pos = pos + size;
                offset = next;
            },
        }
    }
}

/// The batches of which `records` are encodings, if each is one.
pub open spec fn parse_all(records: Seq<Seq<u8>>) -> Option<Seq<Batch>>
    decreases records.len(),
{
    if records.len() == 0 {
        Some(Seq::empty())
    } else {
        match (parse_all(records.drop_last()), parse_batch(records.last())) {
            (Some(batches), Some(b)) => Some(batches.push(b)),
            _ => None,
        }
    }
}

/// The encodings of `batches`.
pub open spec fn encode_all(batches: Seq<Batch>) -> Seq<Seq<u8>> {
    batches.map_values(|b: Batch| batch_bytes(b))
}

/// What reading the batches of a log gives.
pub struct BatchScan {
    /// The batches that are whole, in the order of the log.
    pub batches: Seq<Batch>,
    /// The length of the log up to the end of the last whole batch.
    pub durable: nat,
    /// Whether the log ends in an interrupted write.
    pub torn: bool,
}

/// The reading of the batches of a whole log: `CorruptLog` where the records
/// cannot be read, `Malformed` where they can and a payload is not a batch.
pub open spec fn read_batches_spec(log: Seq<u8>) -> Result<BatchScan, LogError> {
    match read_log_spec(log) {
        None => Err(LogError::CorruptLog),
        Some(found) => match parse_all(found.records) {
            None => Err(LogError::Malformed),
            Some(batches) => Ok(BatchScan { batches, durable: found.durable, torn: found.torn }),
        },
    }
}

/// Batches are decoded as they were encoded.
pub proof fn lemma_parse_all_round_trip(batches: Seq<Batch>)
    requires
        forall|i: int| 0 <= i < batches.len() ==> batch_valid(#[trigger] batches[i]),
    ensures
        parse_all(encode_all(batches)) == Some(batches),
    decreases batches.len(),
{
    let records = encode_all(batches);
    if batches.len() > 0 {
        let front = batches.drop_last();
        assert forall|i: int| 0 <= i < front.len() implies batch_valid(#[trigger] front[i]) by {
            assert(front[i] == batches[i]);
        }
        lemma_parse_all_round_trip(front);
        lemma_batch_round_trip(batches.last());
        assert(records.drop_last() =~= encode_all(front));
        assert(front.push(batches.last()) =~= batches);
    } else {
        assert(batches =~= Seq::<Batch>::empty());
    }
}

/// The log round trip: a log in which `batches` were stored one after the
/// other, from its start, reads back as exactly those batches in order, with
/// nothing torn. This holds too where a batch is longer than a block and was
/// stored in fragments.
pub proof fn lemma_batches_round_trip(batches: Seq<Batch>)
    requires
        forall|i: int| 0 <= i < batches.len() ==> batch_valid(#[trigger] batches[i]),
    ensures
        read_batches_spec(log_bytes(0, encode_all(batches))) == Ok::<BatchScan, LogError>(
            BatchScan {
                batches,
                durable: log_bytes(0, encode_all(batches)).len(),
                torn: false,
            },
        ),
{
    lemma_log_round_trip(encode_all(batches));
    lemma_parse_all_round_trip(batches);
}

/// Recovery from a torn tail: where a log was cut anywhere inside what was
/// stored for its last batch, reading it gives every batch stored before that
/// one, and no error.
pub proof fn lemma_batches_torn_tail(batches: Seq<Batch>, last: Batch, cut: nat)
    requires
        forall|i: int| 0 <= i < batches.len() ==> batch_valid(#[trigger] batches[i]),
        log_bytes(0, encode_all(batches)).len() <= cut < log_bytes(
            0,
            encode_all(batches.push(last)),
        ).len(),
    ensures
        read_batches_spec(log_bytes(0, encode_all(batches.push(last))).take(cut as int)) == Ok::<
            BatchScan,
            LogError,
        >(
            BatchScan {
                batches,
                durable: log_bytes(0, encode_all(batches)).len(),
                torn: cut - log_bytes(0, encode_all(batches)).len() > padding(
                    log_end(0, encode_all(batches)),
                ).len(),
            },
        ),
{
    assert(encode_all(batches.push(last)) =~= encode_all(batches).push(batch_bytes(last)));
    lemma_torn_tail(encode_all(batches), batch_bytes(last), cut);
    lemma_parse_all_round_trip(batches);
}

/// The batches read from a log.
pub struct LogBatches {
    /// The batches that are whole, in the order of the log.
    pub batches: Vec<WriteBatch>,
    /// The length of the log up to the end of the last whole batch: a writer
    /// can go on from there.
    pub durable_len: usize,
    /// Whether the log ends in an interrupted write.
    pub torn: bool,
}

/// The batches that `v` holds, as mathematical values.
pub open spec fn batches_view(v: Seq<WriteBatch>) -> Seq<Batch> {
    v.map_values(|b: WriteBatch| b@)
}

impl View for LogBatches {
    type V = BatchScan;

    open spec fn view(&self) -> BatchScan {
        BatchScan {
            batches: batches_view(self.batches@),
            durable: self.durable_len as nat,
            torn: self.torn,
        }
    }
}

impl LogBatches {
    /// Every batch is well formed.
    pub open spec fn wf(&self) -> bool {
        forall|i: int| 0 <= i < self.batches@.len() ==> (#[trigger] self.batches@[i]).wf()
    }
}

/// Reads the batches of a log from its first byte. Fails with `CorruptLog`
/// where a record before the end is damaged or out of place, and with
/// `Malformed` where the records are sound and a payload is not the encoding
/// of a batch. An interrupted last write is no error.
pub fn read_batches(log: &[u8]) -> (r: Result<LogBatches, LogError>)
    ensures
        match r {
            Ok(found) => found.wf() && read_batches_spec(log@) == Ok::<BatchScan, LogError>(
                found@,
            ),
            Err(e) => read_batches_spec(log@) == Err::<BatchScan, LogError>(e),
        },
{
    let found = match read_log(log) {
        Ok(found) => found,
        Err(e) => {
            return Err(e);
        },
    };
    let ghost records = payloads_view(found.records@);
    let mut batches: Vec<WriteBatch> = Vec::new();
    let mut i: usize = 0;
    assert(records.take(0) =~= Seq::<Seq<u8>>::empty());
    while i < found.records.len()
        invariant
            i <= found.records.len(),
            read_log_spec(log@) == Some(found@),
            records == payloads_view(found.records@),
            parse_all(records.take(i as int)) == Some(batches_view(batches@)),
            forall|j: int| 0 <= j < batches@.len() ==> (#[trigger] batches@[j]).wf(),
        decreases found.records.len() - i,
    {
        let ghost done = batches_view(batches@);
        proof {
            assert(records.take(i + 1).drop_last() =~= records.take(i as int));
            assert(records.take(i + 1).last() == found.records@[i as int]@);
        }
        match WriteBatch::decode(found.records[i].as_slice()) {
            Ok(batch) => {
                batches.push(batch);
                assert(batches_view(batches@) =~= done.push(batch@));
            },
            Err(_) => {
                proof {
                    lemma_parse_all_prefix(records, i + 1);
                }
                return Err(LogError::Malformed);
            },
        }
        i = i + 1;
    }
    assert(records.take(i as int) =~= records);
    Ok(LogBatches { batches, durable_len: found.durable_len, torn: found.torn })
}

/// Where the first `n` of some records are not all batches, the records are
/// not.
proof fn lemma_parse_all_prefix(records: Seq<Seq<u8>>, n: int)
    requires
        0 <= n <= records.len(),
        parse_all(records.take(n)) is None,
    ensures
        parse_all(records) is None,
    decreases records.len(),
{
    if n < records.len() {
        assert(records.drop_last().take(n) =~= records.take(n));
        lemma_parse_all_prefix(records.drop_last(), n);
    } else {
        assert(records.take(n) =~= records);
    }
}

} // verus!
