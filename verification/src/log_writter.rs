//! The writer of the write-ahead log.
//!
//! The log is a sequence of blocks of `BLOCK_SIZE` bytes. A payload is stored
//! as one physical record, or split over several where it does not fit in what
//! is left of a block:
//!
//! ```text
//! +-----------+-------------------+---------------------+---------+
//! | type (1B) | length (2B, LE)   | checksum (4B, LE)   | payload |
//! +-----------+-------------------+---------------------+---------+
//! ```
//!
//! The checksum covers the type byte and the payload. Where fewer than
//! `HEADER_SIZE` bytes are left in a block, they are filled with zeros and the
//! next record starts the next block.
//!
//! The writer does no I/O: it keeps the position in the current block and
//! hands out the bytes to append to the file. The position grows by the bytes
//! of each record and may reach `BLOCK_SIZE`; it goes back to 0 when the next
//! record finds no room for a header.

use crate::checksum::{checksum, crc32_autosar};
use crate::write_batch::{batch_bytes, WriteBatch};
use vstd::bytes::*;
use vstd::prelude::*;

verus! {

/// The size of a block of the log.
pub const BLOCK_SIZE: usize = 32768;

/// The size of the header of a physical record.
pub const HEADER_SIZE: usize = 7;

/// The place of a physical record in the payload it carries a piece of.
#[derive(Clone, Copy, Debug, PartialEq, Eq, Structural)]
pub enum RecordType {
    /// Reserved; never written.
    Zero,
    /// The whole payload.
    Full,
    /// The first of several fragments.
    First,
    /// A fragment that is neither the first nor the last.
    Middle,
    /// The last of several fragments.
    Last,
}

impl RecordType {
    /// The byte that stands for the type in a record's header.
    pub open spec fn tag(self) -> u8 {
        match self {
            RecordType::Zero => 0,
            RecordType::Full => 1,
            RecordType::First => 2,
            RecordType::Middle => 3,
            RecordType::Last => 4,
        }
    }

    /// The type that a header byte stands for.
    pub open spec fn from_tag(b: u8) -> Option<RecordType> {
        if b == 0 {
            Some(RecordType::Zero)
        } else if b == 1 {
            Some(RecordType::Full)
        } else if b == 2 {
            Some(RecordType::First)
        } else if b == 3 {
            Some(RecordType::Middle)
        } else if b == 4 {
            Some(RecordType::Last)
        } else {
            None
        }
    }

    /// The byte that stands for the type in a record's header.
    pub fn to_byte(self) -> (b: u8)
        ensures
            b == self.tag(),
    {
        match self {
            RecordType::Zero => 0,
            RecordType::Full => 1,
            RecordType::First => 2,
            RecordType::Middle => 3,
            RecordType::Last => 4,
        }
    }

    /// The type that a header byte stands for, if any.
    pub fn from_byte(b: u8) -> (r: Option<RecordType>)
        ensures
            r == RecordType::from_tag(b),
    {
        if b == 0 {
            Some(RecordType::Zero)
        } else if b == 1 {
            Some(RecordType::Full)
        } else if b == 2 {
            Some(RecordType::First)
        } else if b == 3 {
            Some(RecordType::Middle)
        } else if b == 4 {
            Some(RecordType::Last)
        } else {
            None
        }
    }
}

/// `n` zero bytes.
pub open spec fn zeros(n: nat) -> Seq<u8> {
    Seq::new(n, |i: int| 0u8)
}

/// The checksum stored in a record: over its type byte and its payload.
pub open spec fn record_checksum(tag: u8, payload: Seq<u8>) -> u32 {
    crc32_autosar(seq![tag] + payload)
}

/// The bytes of one physical record.
pub open spec fn record_bytes(kind: RecordType, payload: Seq<u8>) -> Seq<u8> {
    seq![kind.tag()] + spec_u16_to_le_bytes(payload.len() as u16) + spec_u32_to_le_bytes(
        record_checksum(kind.tag(), payload),
    ) + payload
}

/// The zeros that fill the block when a header no longer fits at `offset`.
pub open spec fn padding(offset: nat) -> Seq<u8> {
    if BLOCK_SIZE - offset < HEADER_SIZE {
        zeros((BLOCK_SIZE - offset) as nat)
    } else {
        Seq::empty()
    }
}

/// The offset at which the next record starts: `offset`, or the start of the
/// next block when a header no longer fits.
pub open spec fn record_start(offset: nat) -> nat {
    if BLOCK_SIZE - offset < HEADER_SIZE {
        0
    } else {
        offset
    }
}

/// The payload bytes that the next record can hold.
pub open spec fn available(offset: nat) -> nat {
    (BLOCK_SIZE - record_start(offset) - HEADER_SIZE) as nat
}

/// The offset of a writer that goes on after `len` bytes of a log: the
/// bytes that the last block of the log holds, which is a whole block where
/// the log ends at a block's end.
pub open spec fn resume_offset(len: nat) -> nat {
    if len == 0 {
        0
    } else {
        ((len - 1) % (BLOCK_SIZE as int) + 1) as nat
    }
}

/// The kind of a fragment, by its place.
pub open spec fn fragment_kind(begin: bool, end: bool) -> RecordType {
    if begin && end {
        RecordType::Full
    } else if begin {
        RecordType::First
    } else if end {
        RecordType::Last
    } else {
        RecordType::Middle
    }
}

/// The bytes that storing `payload` appends to a log whose current block
/// holds `offset` bytes. `begin` says that no fragment of the payload was
/// written before.
pub open spec fn fragments(offset: nat, payload: Seq<u8>, begin: bool) -> Seq<u8>
    decreases
        payload.len(),
        (if available(offset) == 0 {
            1nat
        } else {
            0nat
        }),
{
    let avail = available(offset);
    if offset > BLOCK_SIZE {
        Seq::empty()
    } else if payload.len() <= avail {
        padding(offset) + record_bytes(fragment_kind(begin, true), payload)
    } else {
        padding(offset) + record_bytes(fragment_kind(begin, false), payload.take(avail as int))
            + fragments(BLOCK_SIZE as nat, payload.skip(avail as int), false)
    }
}

/// The bytes in the current block after `payload` was stored.
pub open spec fn fragments_end(offset: nat, payload: Seq<u8>, begin: bool) -> nat
    decreases
        payload.len(),
        (if available(offset) == 0 {
            1nat
        } else {
            0nat
        }),
{
    let avail = available(offset);
    if offset > BLOCK_SIZE {
        offset
    } else if payload.len() <= avail {
        (record_start(offset) + HEADER_SIZE + payload.len()) as nat
    } else {
        fragments_end(BLOCK_SIZE as nat, payload.skip(avail as int), false)
    }
}

/// The bytes of a log that holds `payloads` in order, from a block that
/// already holds `offset` bytes.
pub open spec fn log_bytes(offset: nat, payloads: Seq<Seq<u8>>) -> Seq<u8>
    decreases payloads.len(),
{
    if payloads.len() == 0 {
        Seq::empty()
    } else {
        fragments(offset, payloads[0], true) + log_bytes(
            fragments_end(offset, payloads[0], true),
            payloads.skip(1),
        )
    }
}

/// The bytes in the current block after `payloads` were stored.
pub open spec fn log_end(offset: nat, payloads: Seq<Seq<u8>>) -> nat
    decreases payloads.len(),
{
    if payloads.len() == 0 {
        offset
    } else {
        log_end(fragments_end(offset, payloads[0], true), payloads.skip(1))
    }
}

/// Storing a payload appends at least a header, and leaves the writer after
/// a header at least and at a block's end at most: as far into its block as
/// the bytes appended have brought it.
pub proof fn lemma_fragments_bounds(offset: nat, payload: Seq<u8>, begin: bool)
    requires
        offset <= BLOCK_SIZE,
    ensures
        HEADER_SIZE <= fragments_end(offset, payload, begin) <= BLOCK_SIZE,
        fragments_end(offset, payload, begin) % (BLOCK_SIZE as nat) == (offset + fragments(
            offset,
            payload,
            begin,
        ).len()) % (BLOCK_SIZE as nat),
        fragments(offset, payload, begin).len() >= HEADER_SIZE,
    decreases
        payload.len(),
        (if available(offset) == 0 {
            1nat
        } else {
            0nat
        }),
{
    lemma_auto_spec_u16_to_from_le_bytes();
    lemma_auto_spec_u32_to_from_le_bytes();
    let avail = available(offset);
    if payload.len() > avail {
        lemma_fragments_bounds(BLOCK_SIZE as nat, payload.skip(avail as int), false);
    }
}

/// The state of a log writer: how far the current block is filled.
#[derive(Clone, Copy)]
pub struct LogWritter {
    block_offset: usize,
}

impl LogWritter {
    /// The writer stands inside a block, or at its end.
    #[verifier::type_invariant]
    spec fn in_block(self) -> bool {
        self.block_offset <= BLOCK_SIZE
    }

    /// The number of bytes in the current block: `BLOCK_SIZE` where a record
    /// has just filled it.
    pub closed spec fn offset(&self) -> nat {
        self.block_offset as nat
    }

    /// A writer at the start of an empty log.
    pub fn new() -> (w: Self)
        ensures
            w.offset() == 0,
    {
        LogWritter { block_offset: 0 }
    }

    /// A writer that goes on after `log_len` bytes of an existing log: it
    /// stands as far into a block as the last block of the log is filled.
    pub fn resume(log_len: usize) -> (w: Self)
        ensures
            w.offset() == resume_offset(log_len as nat),
    {
        if log_len == 0 {
            LogWritter { block_offset: 0 }
        } else {
            LogWritter { block_offset: (log_len - 1) % BLOCK_SIZE + 1 }
        }
    }

    /// The number of bytes in the current block: `BLOCK_SIZE` where a record
    /// has just filled it.
    pub fn block_offset(&self) -> (n: usize)
        ensures
            n == self.offset(),
            n <= BLOCK_SIZE,
    {
        proof {
            use_type_invariant(self);
        }
        self.block_offset
    }

    /// Stores a batch: returns the bytes to append to the log for the
    /// encoding of `write_batch`. A header is written even for a batch
    /// without operations.
    pub fn add_record(&mut self, write_batch: &WriteBatch) -> (out: Vec<u8>)
        requires
            write_batch.wf(),
        ensures
            out@ == fragments(old(self).offset(), batch_bytes(write_batch@), true),
            final(self).offset() == fragments_end(
                old(self).offset(),
                batch_bytes(write_batch@),
                true,
            ),
            HEADER_SIZE <= final(self).offset() <= BLOCK_SIZE,
            final(self).offset() % (BLOCK_SIZE as nat) == (old(self).offset() + out@.len()) % (
            BLOCK_SIZE as nat),
    {
        self.add_payload(write_batch.get_data())
    }

    /// Stores `payload`: returns the bytes to append to the log, as one
    /// record or as several fragments, with the padding that block ends ask
    /// for. An empty payload still takes one record.
    pub fn add_payload(&mut self, payload: &[u8]) -> (out: Vec<u8>)
        ensures
            out@ == fragments(old(self).offset(), payload@, true),
            final(self).offset() == fragments_end(old(self).offset(), payload@, true),
            HEADER_SIZE <= final(self).offset() <= BLOCK_SIZE,
            final(self).offset() % (BLOCK_SIZE as nat) == (old(self).offset() + out@.len()) % (
            BLOCK_SIZE as nat),
    {
        let mut out: Vec<u8> = Vec::new();
        let mut written: usize = 0;
        let mut begin = true;
        proof {
            use_type_invariant(&*self);
            assert(payload@.skip(0) =~= payload@);
        }
        loop
            invariant_except_break
                written <= payload.len(),
                self.offset() <= BLOCK_SIZE,
                out@ + fragments(self.offset(), payload@.skip(written as int), begin) == fragments(
                    old(self).offset(),
                    payload@,
                    true,
                ),
                fragments_end(self.offset(), payload@.skip(written as int), begin)
                    == fragments_end(old(self).offset(), payload@, true),
            ensures
                out@ == fragments(old(self).offset(), payload@, true),
                self.offset() == fragments_end(old(self).offset(), payload@, true),
            decreases
                payload.len() - written,
                (if available(self.offset()) == 0 {
                    1nat
                } else {
                    0nat
                }),
        {
            let ghost start = self.offset();
            let ghost rest = payload@.skip(written as int);
            let ghost before = out@;
            self.padding_if_needed(&mut out);
            let avail = BLOCK_SIZE - self.block_offset - HEADER_SIZE;
            let left = payload.len() - written;
            if left <= avail {
                let kind = if begin {
                    RecordType::Full
                } else {
                    RecordType::Last
                };
                self.emit_physical_record(kind, &payload[written..payload.len()], left, &mut out);
                proof {
                    assert(payload@.subrange(written as int, payload.len() as int) =~= rest);
                    assert(rest.subrange(0, left as int) =~= rest);
                    assert(out@ =~= before + fragments(start, rest, begin));
                }
                break ;
            } else {
                let kind = if begin {
                    RecordType::First
                } else {
                    RecordType::Middle
                };
                self.emit_physical_record(kind, &payload[written..payload.len()], avail, &mut out);
                proof {
                    assert(payload@.subrange(written as int, payload.len() as int) =~= rest);
                    assert(rest.subrange(0, avail as int) =~= rest.take(avail as int));
                    assert(rest.skip(avail as int) =~= payload@.skip(written + avail));
                    assert(out@ + fragments(
                        BLOCK_SIZE as nat,
                        payload@.skip(written + avail),
                        false,
                    ) =~= before + fragments(start, rest, begin));
                }
                written = written + avail;
                begin = false;
            }
        }
        proof {
            lemma_fragments_bounds(old(self).offset(), payload@, true);
        }
        out
    }

    /// Appends to `out` one physical record that carries the first `len`
    /// bytes of `data`.
    fn emit_physical_record(
        &mut self,
        r_type: RecordType,
        data: &[u8],
        len: usize,
        out: &mut Vec<u8>,
    )
        requires
            len <= data.len(),
            old(self).offset() + HEADER_SIZE + len <= BLOCK_SIZE,
        ensures
            final(out)@ == old(out)@ + record_bytes(r_type, data@.subrange(0, len as int)),
            final(self).offset() == old(self).offset() + HEADER_SIZE + len,
    {
        let fragment = &data[0..len];
        let tag = r_type.to_byte();
        let mut covered: Vec<u8> = Vec::new();
        covered.push(tag);
        covered.extend_from_slice(fragment);
        assert(covered@ =~= seq![tag] + fragment@);
        let sum = checksum(covered.as_slice());
        out.push(tag);
        out.extend_from_slice(u16_to_le_bytes(len as u16).as_slice());
        out.extend_from_slice(u32_to_le_bytes(sum).as_slice());
        out.extend_from_slice(fragment);
        self.block_offset = self.block_offset + HEADER_SIZE + len;
        assert(final(out)@ =~= old(out)@ + record_bytes(r_type, fragment@));
    }

    /// Where a header no longer fits in the current block, fills the block
    /// with zeros in `out` and starts the next one.
    fn padding_if_needed(&mut self, out: &mut Vec<u8>)
        ensures
            final(out)@ == old(out)@ + padding(old(self).offset()),
            final(self).offset() == record_start(old(self).offset()),
    {
        proof {
            use_type_invariant(&*self);
        }
        let leftover = BLOCK_SIZE - self.block_offset;
        if leftover < HEADER_SIZE {
            let mut i: usize = 0;
            while i < leftover
                invariant
                    i <= leftover,
                    out@ == old(out)@ + zeros(i as nat),
                decreases leftover - i,
            {
                out.push(0);
                i = i + 1;
                assert(out@ =~= old(out)@ + zeros(i as nat));
            }
            self.block_offset = 0;
        } else {
            assert(out@ =~= old(out)@ + Seq::<u8>::empty());
        }
    }
}

} // verus!
