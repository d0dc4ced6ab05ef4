//! Write batches: an ordered group of put and delete operations under one
//! sequence number, kept in its encoded form.
//!
//! ```text
//! +---------------+------------+----------+----------+-----+
//! | sequence (8B) | count (4B) | record 1 | record 2 | ... |
//! +---------------+------------+----------+----------+-----+
//!
//! record:
//! +-----------+------------+-----------+--------------+-------------+
//! | type (1B) | key length | key bytes | value length | value bytes |
//! +-----------+------------+-----------+--------------+-------------+
//! ```
//!
//! The sequence number and the count are little-endian; a length is a varint.
//! The type is 0 for a deletion and 1 for a value; a deletion has no value
//! length and no value bytes.

use crate::slice::Slice;
use crate::utils::{
    encode_varint_32, get_varint_32, lemma_varint32_round_trip, lemma_varint_len,
    lemma_varint_parse_bounds, varint32_parse, varint_bytes, varint_len,
};
use vstd::bytes::*;
use vstd::prelude::*;

verus! {

/// The size of the header of an encoded batch: sequence number and count.
pub const BATCH_HEADER_SIZE: usize = 12;

/// The kind of an operation.
#[derive(Clone, Copy, Debug, PartialEq, Eq, Structural)]
pub enum ValueType {
    /// The key is deleted.
    KTypeDeletion,
    /// The key gets a value.
    KTypeValue,
}

impl ValueType {
    /// The byte that stands for the kind in an encoded batch.
    pub open spec fn tag(self) -> u8 {
        match self {
            ValueType::KTypeDeletion => 0,
            ValueType::KTypeValue => 1,
        }
    }

    /// The kind that a byte stands for.
    pub open spec fn from_tag(b: u8) -> Option<ValueType> {
        if b == 0 {
            Some(ValueType::KTypeDeletion)
        } else if b == 1 {
            Some(ValueType::KTypeValue)
        } else {
            None
        }
    }

    /// The byte that stands for the kind in an encoded batch.
    pub fn to_byte(self) -> (b: u8)
        ensures
            b == self.tag(),
    {
        match self {
            ValueType::KTypeDeletion => 0,
            ValueType::KTypeValue => 1,
        }
    }

    /// The kind that a byte stands for, if any.
    pub fn from_byte(b: u8) -> (r: Option<ValueType>)
        ensures
            r == ValueType::from_tag(b),
    {
        if b == 0 {
            Some(ValueType::KTypeDeletion)
        } else if b == 1 {
            Some(ValueType::KTypeValue)
        } else {
            None
        }
    }
}

/// One operation of a batch, as a mathematical value.
pub struct Mutation {
    pub kind: ValueType,
    pub key: Seq<u8>,
    /// Empty for a deletion.
    pub value: Seq<u8>,
}

/// A batch as a mathematical value: its sequence number and its operations
/// in order.
pub struct Batch {
    pub sequence: u64,
    pub ops: Seq<Mutation>,
}

/// The operation that gives `key` the value `value`.
pub open spec fn put_of(key: Seq<u8>, value: Seq<u8>) -> Mutation {
    Mutation { kind: ValueType::KTypeValue, key, value }
}

/// The operation that deletes `key`.
pub open spec fn delete_of(key: Seq<u8>) -> Mutation {
    Mutation { kind: ValueType::KTypeDeletion, key, value: Seq::empty() }
}

/// An operation that can be encoded: its lengths fit in 32 bits, and a
/// deletion has no value.
pub open spec fn mutation_valid(m: Mutation) -> bool {
    &&& m.key.len() <= u32::MAX
    &&& m.value.len() <= u32::MAX
    &&& m.kind == ValueType::KTypeDeletion ==> m.value.len() == 0
}

/// A batch that can be encoded.
pub open spec fn batch_valid(b: Batch) -> bool {
    &&& b.ops.len() <= u32::MAX
    &&& forall|i: int| 0 <= i < b.ops.len() ==> mutation_valid(#[trigger] b.ops[i])
}

/// `data` after its length as a varint.
pub open spec fn length_prefixed(data: Seq<u8>) -> Seq<u8> {
    varint_bytes(data.len()) + data
}

/// The encoding of one operation.
pub open spec fn mutation_bytes(m: Mutation) -> Seq<u8> {
    seq![m.kind.tag()] + length_prefixed(m.key) + (if m.kind == ValueType::KTypeValue {
        length_prefixed(m.value)
    } else {
        Seq::empty()
    })
}

/// The encodings of `ops`, one after the other.
pub open spec fn mutations_bytes(ops: Seq<Mutation>) -> Seq<u8>
    decreases ops.len(),
{
    if ops.len() == 0 {
        Seq::empty()
    } else {
        mutations_bytes(ops.drop_last()) + mutation_bytes(ops.last())
    }
}

/// The header of an encoded batch.
pub open spec fn header_bytes(sequence: u64, count: u32) -> Seq<u8> {
    spec_u64_to_le_bytes(sequence) + spec_u32_to_le_bytes(count)
}

/// The encoding of a batch.
pub open spec fn batch_bytes(b: Batch) -> Seq<u8> {
    header_bytes(b.sequence, b.ops.len() as u32) + mutations_bytes(b.ops)
}

/// The byte string that stands length-prefixed at the front of `s`, and the
/// bytes it takes with its length.
pub open spec fn parse_length_prefixed(s: Seq<u8>) -> Option<(Seq<u8>, nat)> {
    match varint32_parse(s) {
        Ok((len, n)) => if n + len <= s.len() {
            Some((s.subrange(n as int, n + len), (n + len) as nat))
        } else {
            None
        },
        Err(_) => None,
    }
}

/// The operation encoded at the front of `s`, and the bytes it takes.
pub open spec fn parse_mutation(s: Seq<u8>) -> Option<(Mutation, nat)> {
    if s.len() == 0 {
        None
    } else {
        match (ValueType::from_tag(s[0]), parse_length_prefixed(s.skip(1))) {
            (Some(ValueType::KTypeDeletion), Some((key, n))) => Some((delete_of(key), 1 + n)),
            (Some(ValueType::KTypeValue), Some((key, n))) => match parse_length_prefixed(
                s.skip((1 + n) as int),
            ) {
                Some((value, m)) => Some((put_of(key, value), 1 + n + m)),
                None => None,
            },
            _ => None,
        }
    }
}

/// The `count` operations of which `s` is the encoding, if it is one.
pub open spec fn parse_mutations(s: Seq<u8>, count: nat) -> Option<Seq<Mutation>>
    decreases count,
{
    if count == 0 {
        if s.len() == 0 {
            Some(Seq::empty())
        } else {
            None
        }
    } else {
        match parse_mutation(s) {
            Some((m, n)) => match parse_mutations(s.skip(n as int), (count - 1) as nat) {
                Some(rest) => Some(seq![m] + rest),
                None => None,
            },
            None => None,
        }
    }
}

/// The batch of which `s` is an encoding, if it is one: a header, and then
/// as many operations as the header counts, with nothing after them.
pub open spec fn parse_batch(s: Seq<u8>) -> Option<Batch> {
    if s.len() < BATCH_HEADER_SIZE {
        None
    } else {
        match parse_mutations(
            s.skip(BATCH_HEADER_SIZE as int),
            spec_u32_from_le_bytes(s.subrange(8, 12)) as nat,
        ) {
            Some(ops) => Some(Batch { sequence: spec_u64_from_le_bytes(s.subrange(0, 8)), ops }),
            None => None,
        }
    }
}

/// A length-prefixed byte string is read back as it was written, whatever
/// follows it.
pub proof fn lemma_length_prefixed_round_trip(data: Seq<u8>, tail: Seq<u8>)
    requires
        data.len() <= u32::MAX,
    ensures
        parse_length_prefixed(length_prefixed(data) + tail) == Some(
            (data, length_prefixed(data).len()),
        ),
        length_prefixed(data).len() == varint_len(data.len()) + data.len(),
{
    let v = data.len() as u32;
    lemma_varint32_round_trip(v, data + tail);
    let s = length_prefixed(data) + tail;
    assert(s =~= varint_bytes(v as nat) + (data + tail));
    let n = varint_len(v as nat);
    assert(s.subrange(n as int, (n + data.len()) as int) =~= data);
}

/// An operation is read back as it was written, whatever follows it.
pub proof fn lemma_mutation_round_trip(m: Mutation, tail: Seq<u8>)
    requires
        mutation_valid(m),
    ensures
        parse_mutation(mutation_bytes(m) + tail) == Some((m, mutation_bytes(m).len())),
        mutation_bytes(m).len() >= 2,
{
    let s = mutation_bytes(m) + tail;
    let key_part = length_prefixed(m.key);
    if m.kind == ValueType::KTypeValue {
        let value_part = length_prefixed(m.value);
        lemma_length_prefixed_round_trip(m.key, value_part + tail);
        lemma_length_prefixed_round_trip(m.value, tail);
        assert(s.skip(1) =~= key_part + (value_part + tail));
        assert(s.skip((1 + key_part.len()) as int) =~= value_part + tail);
    } else {
        lemma_length_prefixed_round_trip(m.key, tail);
        assert(s.skip(1) =~= key_part + tail);
        assert(m.value =~= Seq::<u8>::empty());
    }
    lemma_varint_len(m.key.len());
}

/// The encodings of operations, read from the front.
pub proof fn lemma_mutations_bytes_front(ops: Seq<Mutation>)
    requires
        ops.len() > 0,
    ensures
        mutations_bytes(ops) == mutation_bytes(ops[0]) + mutations_bytes(ops.skip(1)),
    decreases ops.len(),
{
    if ops.len() == 1 {
        assert(ops.drop_last() =~= Seq::<Mutation>::empty());
        assert(ops.skip(1) =~= Seq::<Mutation>::empty());
        assert(mutations_bytes(ops) =~= mutation_bytes(ops[0]) + mutations_bytes(ops.skip(1)));
    } else {
        lemma_mutations_bytes_front(ops.drop_last());
        assert(ops.drop_last().skip(1) =~= ops.skip(1).drop_last());
        assert(ops.drop_last()[0] == ops[0]);
        assert(ops.skip(1).last() == ops.last());
        assert(mutations_bytes(ops) =~= mutation_bytes(ops[0]) + mutations_bytes(ops.skip(1)));
    }
}

/// Operations are read back as they were written.
pub proof fn lemma_mutations_round_trip(ops: Seq<Mutation>)
    requires
        forall|i: int| 0 <= i < ops.len() ==> mutation_valid(#[trigger] ops[i]),
    ensures
        parse_mutations(mutations_bytes(ops), ops.len()) == Some(ops),
    decreases ops.len(),
{
    if ops.len() > 0 {
        let rest = ops.skip(1);
        lemma_mutations_bytes_front(ops);
        lemma_mutation_round_trip(ops[0], mutations_bytes(rest));
        assert forall|i: int| 0 <= i < rest.len() implies mutation_valid(#[trigger] rest[i]) by {
            assert(rest[i] == ops[i + 1]);
        }
        lemma_mutations_round_trip(rest);
        let s = mutations_bytes(ops);
        assert(s.skip(mutation_bytes(ops[0]).len() as int) =~= mutations_bytes(rest));
        assert(seq![ops[0]] + rest =~= ops);
    } else {
        assert(ops =~= Seq::<Mutation>::empty());
    }
}

/// The batch round trip: decoding the encoding of a batch gives the batch
/// back, with the same sequence number and the same operations in order.
pub proof fn lemma_batch_round_trip(b: Batch)
    requires
        batch_valid(b),
    ensures
        parse_batch(batch_bytes(b)) == Some(b),
        batch_bytes(b).len() >= BATCH_HEADER_SIZE,
{
    lemma_auto_spec_u64_to_from_le_bytes();
    lemma_auto_spec_u32_to_from_le_bytes();
    lemma_mutations_round_trip(b.ops);
    let s = batch_bytes(b);
    assert(s.subrange(0, 8) =~= spec_u64_to_le_bytes(b.sequence));
    assert(s.subrange(8, 12) =~= spec_u32_to_le_bytes(b.ops.len() as u32));
    assert(s.skip(BATCH_HEADER_SIZE as int) =~= mutations_bytes(b.ops));
}

/// An operation that was parsed can be encoded, and takes at least two
/// bytes and no more than there are.
pub proof fn lemma_parse_mutation_valid(s: Seq<u8>)
    ensures
        parse_mutation(s) matches Some((m, n)) ==> mutation_valid(m) && 2 <= n <= s.len(),
{
    if s.len() > 0 {
        lemma_varint_parse_bounds(s.skip(1));
        match parse_length_prefixed(s.skip(1)) {
            Some((key, n)) => {
                lemma_varint_parse_bounds(s.skip((1 + n) as int));
            },
            None => {},
        }
    }
}

/// Operations that were parsed can be encoded.
pub proof fn lemma_parse_mutations_valid(s: Seq<u8>, count: nat)
    ensures
        parse_mutations(s, count) matches Some(ops) ==> ops.len() == count && forall|i: int|
            0 <= i < ops.len() ==> mutation_valid(#[trigger] ops[i]),
    decreases count,
{
    if count > 0 {
        lemma_parse_mutation_valid(s);
        match parse_mutation(s) {
            Some((m, n)) => {
                lemma_parse_mutations_valid(s.skip(n as int), (count - 1) as nat);
            },
            None => {},
        }
    }
}

/// A batch that was decoded can be encoded.
pub proof fn lemma_parse_batch_valid(s: Seq<u8>)
    ensures
        parse_batch(s) matches Some(b) ==> batch_valid(b),
{
    if s.len() >= BATCH_HEADER_SIZE {
        lemma_parse_mutations_valid(
            s.skip(BATCH_HEADER_SIZE as int),
            spec_u32_from_le_bytes(s.subrange(8, 12)) as nat,
        );
    }
}

/// One operation of a batch.
#[derive(Debug, PartialEq, Eq)]
pub struct Operation {
    pub k_type: ValueType,
    pub key: Vec<u8>,
    /// Empty for a deletion.
    pub value: Vec<u8>,
}

impl View for Operation {
    type V = Mutation;

    open spec fn view(&self) -> Mutation {
        Mutation { kind: self.k_type, key: self.key@, value: self.value@ }
    }
}

/// The operations that `ops` holds, as mathematical values.
pub open spec fn operations_view(ops: Seq<Operation>) -> Seq<Mutation> {
    ops.map_values(|o: Operation| o@)
}

/// Why a byte string is not an encoded batch.
#[derive(Clone, Copy, Debug, PartialEq, Eq, Structural)]
pub enum BatchError {
    /// The header is cut short, an operation has an unknown type, a length
    /// runs past the end, or bytes are left after the last operation.
    Malformed,
}

/// The operations read so far, then those still to be read.
spec fn parsed_then(done: Seq<Mutation>, rest: Option<Seq<Mutation>>) -> Option<Seq<Mutation>> {
    match rest {
        Some(r) => Some(done + r),
        None => None,
    }
}

/// Reads a length-prefixed byte string that starts at `pos`: gives where its
/// bytes start and where they end.
fn read_length_prefixed(bytes: &[u8], pos: usize) -> (r: Option<(usize, usize)>)
    requires
        pos <= bytes.len(),
    ensures
        match r {
            Some((start, end)) => pos < start <= end <= bytes.len() && parse_length_prefixed(
                bytes@.skip(pos as int),
            ) == Some((bytes@.subrange(start as int, end as int), (end - pos) as nat)),
            None => parse_length_prefixed(bytes@.skip(pos as int)) is None,
        },
{
    let unread = &bytes[pos..bytes.len()];
    assert(unread@ =~= bytes@.skip(pos as int));
    match get_varint_32(unread) {
        Ok((len, n)) => {
            let start = pos + n;
            if len as usize <= bytes.len() - start {
                assert(unread@.subrange(n as int, n + len) =~= bytes@.subrange(
                    start as int,
                    start + len,
                ));
                Some((start, start + len as usize))
            } else {
                None
            }
        },
        Err(_) => None,
    }
}

/// Reads the operation that starts at `pos`: gives it and where it ends.
fn read_operation(bytes: &[u8], pos: usize) -> (r: Option<(Operation, usize)>)
    requires
        pos <= bytes.len(),
    ensures
        match r {
            Some((op, end)) => pos < end <= bytes.len() && parse_mutation(bytes@.skip(pos as int))
                == Some((op@, (end - pos) as nat)),
            None => parse_mutation(bytes@.skip(pos as int)) is None,
        },
{
    if pos >= bytes.len() {
        return None;
    }
    let ghost s = bytes@.skip(pos as int);
    assert(s.skip(1) =~= bytes@.skip(pos + 1));
    let kind = match ValueType::from_byte(bytes[pos]) {
        Some(kind) => kind,
        None => {
            return None;
        },
    };
    let (key_start, key_end) = match read_length_prefixed(bytes, pos + 1) {
        Some(range) => range,
        None => {
            return None;
        },
    };
    let key = vstd::slice::slice_to_vec(&bytes[key_start..key_end]);
    match kind {
        ValueType::KTypeDeletion => {
            let op = Operation { k_type: kind, key, value: Vec::new() };
            assert(op@.value =~= Seq::<u8>::empty());
            Some((op, key_end))
        },
        ValueType::KTypeValue => {
            assert(s.skip(1 + (key_end - (pos + 1))) =~= bytes@.skip(key_end as int));
            match read_length_prefixed(bytes, key_end) {
                Some((value_start, value_end)) => {
                    let value = vstd::slice::slice_to_vec(&bytes[value_start..value_end]);
                    Some((Operation { k_type: kind, key, value }, value_end))
                },
                None => None,
            }
        },
    }
}

/// Decodes a batch into its sequence number and its operations, or gives
/// `None` where `bytes` is not an encoded batch.
pub fn parse_operations(bytes: &[u8]) -> (r: Option<(u64, Vec<Operation>)>)
    ensures
        match r {
            Some((sequence, ops)) => parse_batch(bytes@) == Some(
                Batch { sequence, ops: operations_view(ops@) },
            ),
            None => parse_batch(bytes@) is None,
        },
{
    if bytes.len() < BATCH_HEADER_SIZE {
        return None;
    }
    let sequence_field = &bytes[0..8];
    let count_field = &bytes[8..12];
    assert(sequence_field@ =~= bytes@.subrange(0, 8));
    assert(count_field@ =~= bytes@.subrange(8, 12));
    let sequence = u64_from_le_bytes(sequence_field);
    let count = u32_from_le_bytes(count_field);
    let mut ops: Vec<Operation> = Vec::new();
    let mut pos: usize = BATCH_HEADER_SIZE;
    let mut i: u32 = 0;
    proof {
        match parse_mutations(bytes@.skip(pos as int), count as nat) {
            Some(r) => {
                assert(operations_view(ops@) + r =~= r);
            },
            None => {},
        }
    }
    while i < count
        invariant
            BATCH_HEADER_SIZE <= pos <= bytes.len(),
            i <= count,
            count == spec_u32_from_le_bytes(bytes@.subrange(8, 12)),
            sequence == spec_u64_from_le_bytes(bytes@.subrange(0, 8)),
            parse_mutations(bytes@.skip(BATCH_HEADER_SIZE as int), count as nat) == parsed_then(
                operations_view(ops@),
                parse_mutations(bytes@.skip(pos as int), (count - i) as nat),
            ),
        decreases count - i,
    {
        let ghost done = operations_view(ops@);
        match read_operation(bytes, pos) {
            Some((op, end)) => {
                proof {
                    assert(bytes@.skip(pos as int).skip(end - pos) =~= bytes@.skip(end as int));
                    match parse_mutations(bytes@.skip(end as int), (count - i - 1) as nat) {
                        Some(r) => {
                            assert(done + (seq![op@] + r) =~= done.push(op@) + r);
                        },
                        None => {},
                    }
                }
                ops.push(op);
                assert(operations_view(ops@) =~= done.push(op@));
                pos = end;
                i = i + 1;
            },
            None => {
                return None;
            },
        }
    }
    if pos != bytes.len() {
        return None;
    }
    proof {
        assert(bytes@.skip(pos as int).len() == 0);
        assert(operations_view(ops@) + Seq::<Mutation>::empty() =~= operations_view(ops@));
    }
    Some((sequence, ops))
}

/// `data` is the encoding of a batch.
spec fn is_encoding(data: Seq<u8>) -> bool {
    parse_batch(data) matches Some(b) && batch_bytes(b) == data
}

/// A batch of operations, kept as its encoding.
pub struct WriteBatch {
    data: Slice,
}

impl View for WriteBatch {
    type V = Batch;

    closed spec fn view(&self) -> Batch {
        parse_batch(self.data@).unwrap()
    }
}

impl WriteBatch {
    /// The batch holds the encoding of a batch.
    pub closed spec fn wf(&self) -> bool {
        is_encoding(self.data@)
    }

    /// A well-formed batch holds operations that can be encoded.
    pub proof fn lemma_valid(&self)
        requires
            self.wf(),
        ensures
            batch_valid(self@),
    {
        lemma_parse_batch_valid(self.data@);
    }

    /// A batch with no operations and the sequence number 0.
    pub fn new() -> (batch: Self)
        ensures
            batch.wf(),
            batch@ == (Batch { sequence: 0, ops: Seq::empty() }),
    {
        let data = Self::header(0, Ghost(Batch { sequence: 0, ops: Seq::empty() }));
        WriteBatch { data }
    }

    /// The sequence number of the batch.
    pub fn get_sequence(&self) -> (sequence: u64)
        requires
            self.wf(),
        ensures
            sequence == self@.sequence,
    {
        let field = &self.data.get_data()[0..8];
        assert(field@ =~= self.data@.subrange(0, 8));
        u64_from_le_bytes(field)
    }

    /// Gives the batch the sequence number `sequence`.
    pub fn set_sequence(&mut self, sequence: u64)
        requires
            old(self).wf(),
        ensures
            final(self).wf(),
            final(self)@ == (Batch { sequence, ops: old(self)@.ops }),
    {
        proof {
            lemma_parse_batch_valid(self.data@);
        }
        let ghost before = self@;
        Self::write_sequence(&mut self.data, sequence, Ghost(before));
    }

    /// Appends the operation that gives `key` the value `value`. The batch
    /// must have room for one more operation, and the lengths must fit in 32
    /// bits.
    pub fn put(&mut self, key: &[u8], value: &[u8])
        requires
            old(self).wf(),
            old(self)@.ops.len() < u32::MAX,
            key.len() <= u32::MAX,
            value.len() <= u32::MAX,
        ensures
            final(self).wf(),
            final(self)@ == (Batch {
                sequence: old(self)@.sequence,
                ops: old(self)@.ops.push(put_of(key@, value@)),
            }),
    {
        proof {
            lemma_parse_batch_valid(self.data@);
        }
        let ghost before = self@;
        Self::append_mutation(&mut self.data, ValueType::KTypeValue, key, value, Ghost(before));
    }

    /// Appends the operation that deletes `key`. The batch must have room for
    /// one more operation, and the length of the key must fit in 32 bits.
    pub fn delete(&mut self, key: &[u8])
        requires
            old(self).wf(),
            old(self)@.ops.len() < u32::MAX,
            key.len() <= u32::MAX,
        ensures
            final(self).wf(),
            final(self)@ == (Batch {
                sequence: old(self)@.sequence,
                ops: old(self)@.ops.push(delete_of(key@)),
            }),
    {
        proof {
            lemma_parse_batch_valid(self.data@);
        }
        let none: [u8; 0] = [];
        assert(none@ =~= Seq::<u8>::empty());
        let ghost before = self@;
        Self::append_mutation(&mut self.data, ValueType::KTypeDeletion, key, &none, Ghost(before));
    }

    /// The encoding of the batch.
    pub fn get_data(&self) -> (data: &[u8])
        requires
            self.wf(),
        ensures
            data@ == batch_bytes(self@),
            batch_valid(self@),
            parse_batch(data@) == Some(self@),
    {
        proof {
            lemma_parse_batch_valid(self.data@);
        }
        self.data.get_data()
    }

    /// The number of operations in the batch.
    pub fn get_count(&self) -> (count: u32)
        requires
            self.wf(),
        ensures
            count == self@.ops.len(),
    {
        proof {
            lemma_parse_batch_valid(self.data@);
            lemma_batch_round_trip(self@);
        }
        Self::read_count(&self.data, Ghost(self@))
    }

    /// The operations of the batch, in order.
    pub fn operations(&self) -> (ops: Vec<Operation>)
        requires
            self.wf(),
        ensures
            operations_view(ops@) == self@.ops,
            batch_valid(self@),
    {
        proof {
            lemma_parse_batch_valid(self.data@);
        }
        match parse_operations(self.data.get_data()) {
            Some((_, ops)) => ops,
            None => Vec::new(),
        }
    }

    /// Decodes a batch. Fails with `Malformed` where `bytes` is not the
    /// encoding of a batch.
    pub fn decode(bytes: &[u8]) -> (r: Result<WriteBatch, BatchError>)
        ensures
            match r {
                Ok(batch) => batch.wf() && parse_batch(bytes@) == Some(batch@),
                Err(_) => parse_batch(bytes@) is None,
            },
    {
        match parse_operations(bytes) {
            Some((sequence, ops)) => {
                let ghost all = operations_view(ops@);
                proof {
                    lemma_parse_batch_valid(bytes@);
                }
                let mut data = Self::header(sequence, Ghost(Batch { sequence, ops: Seq::empty() }));
                let mut i: usize = 0;
                assert(all.take(0) =~= Seq::<Mutation>::empty());
                while i < ops.len()
                    invariant
                        i <= ops.len(),
                        all == operations_view(ops@),
                        batch_valid(Batch { sequence, ops: all }),
                        data@ == batch_bytes(Batch { sequence, ops: all.take(i as int) }),
                        parse_batch(data@) == Some(Batch { sequence, ops: all.take(i as int) }),
                        is_encoding(data@),
                    decreases ops.len() - i,
                {
                    let op = &ops[i];
                    assert(all[i as int] == op@);
                    assert(mutation_valid(all[i as int]));
                    assert(all.take(i + 1) =~= all.take(i as int).push(op@));
                    assert forall|j: int| 0 <= j < i implies mutation_valid(
                        #[trigger] all.take(i as int)[j],
                    ) by {
                        assert(all.take(i as int)[j] == all[j]);
                    }
                    Self::append_mutation(
                        &mut data,
                        op.k_type,
                        op.key.as_slice(),
                        op.value.as_slice(),
                        Ghost(Batch { sequence, ops: all.take(i as int) }),
                    );
                    i = i + 1;
                }
                assert(all.take(i as int) =~= all);
                Ok(WriteBatch { data })
            },
            None => Err(BatchError::Malformed),
        }
    }

    /// The encoding of a batch with no operations.
    fn header(sequence: u64, Ghost(b): Ghost<Batch>) -> (data: Slice)
        requires
            b == (Batch { sequence, ops: Seq::empty() }),
        ensures
            data@ == batch_bytes(b),
            parse_batch(data@) == Some(b),
            is_encoding(data@),
    {
        let mut data = Slice::new();
        data.append(u64_to_le_bytes(sequence).as_slice());
        data.append(u32_to_le_bytes(0).as_slice());
        proof {
            assert(data@ =~= batch_bytes(b));
            lemma_batch_round_trip(b);
        }
        data
    }

    /// The count in the header of an encoded batch.
    fn read_count(data: &Slice, Ghost(b): Ghost<Batch>) -> (count: u32)
        requires
            data@ == batch_bytes(b),
            batch_valid(b),
        ensures
            count == b.ops.len(),
    {
        proof {
            lemma_auto_spec_u64_to_from_le_bytes();
            lemma_auto_spec_u32_to_from_le_bytes();
        }
        let field = &data.get_data()[8..12];
        assert(field@ =~= spec_u32_to_le_bytes(b.ops.len() as u32));
        u32_from_le_bytes(field)
    }

    /// Adds one to the count in the header of an encoded batch.
    fn increase_count(data: &mut Slice, Ghost(b): Ghost<Batch>)
        requires
            old(data)@ == batch_bytes(b),
            batch_valid(b),
            b.ops.len() < u32::MAX,
        ensures
            final(data)@ == header_bytes(b.sequence, (b.ops.len() + 1) as u32) + mutations_bytes(
                b.ops,
            ),
    {
        proof {
            lemma_auto_spec_u64_to_from_le_bytes();
            lemma_auto_spec_u32_to_from_le_bytes();
        }
        let count = Self::read_count(data, Ghost(b)) + 1;
        data.overwrite(8, u32_to_le_bytes(count).as_slice());
        assert(data@ =~= header_bytes(b.sequence, count) + mutations_bytes(b.ops));
    }

    /// Overwrites the sequence number in the header of an encoded batch.
    fn write_sequence(data: &mut Slice, sequence: u64, Ghost(b): Ghost<Batch>)
        requires
            old(data)@ == batch_bytes(b),
            batch_valid(b),
        ensures
            final(data)@ == batch_bytes(Batch { sequence, ops: b.ops }),
            parse_batch(final(data)@) == Some(Batch { sequence, ops: b.ops }),
            is_encoding(final(data)@),
    {
        proof {
            lemma_auto_spec_u64_to_from_le_bytes();
            lemma_auto_spec_u32_to_from_le_bytes();
            lemma_batch_round_trip(Batch { sequence, ops: b.ops });
        }
        data.overwrite(0, u64_to_le_bytes(sequence).as_slice());
        assert(data@ =~= batch_bytes(Batch { sequence, ops: b.ops }));
    }

    /// Appends `bytes` to `data` after their length as a varint.
    fn put_length_prefixed_data(data: &mut Slice, bytes: &[u8])
        requires
            bytes.len() <= u32::MAX,
        ensures
            final(data)@ == old(data)@ + length_prefixed(bytes@),
    {
        let mut buf = [0u8; 5];
        let write_len = encode_varint_32(&mut buf, bytes.len() as u32);
        let prefix = &buf[0..write_len];
        proof {
            lemma_varint_len(bytes@.len());
        }
        assert(prefix@ =~= varint_bytes(bytes@.len()));
        data.append(prefix);
        data.append(bytes);
        assert(data@ =~= old(data)@ + length_prefixed(bytes@));
    }

    /// Appends one operation to an encoded batch.
    fn append_mutation(
        data: &mut Slice,
        kind: ValueType,
        key: &[u8],
        value: &[u8],
        Ghost(b): Ghost<Batch>,
    )
        requires
            old(data)@ == batch_bytes(b),
            batch_valid(b),
            b.ops.len() < u32::MAX,
            key.len() <= u32::MAX,
            value.len() <= u32::MAX,
            kind == ValueType::KTypeDeletion ==> value.len() == 0,
        ensures
            final(data)@ == batch_bytes(
                Batch {
                    sequence: b.sequence,
                    ops: b.ops.push(Mutation { kind, key: key@, value: value@ }),
                },
            ),
            parse_batch(final(data)@) == Some(
                Batch {
                    sequence: b.sequence,
                    ops: b.ops.push(Mutation { kind, key: key@, value: value@ }),
                },
            ),
            is_encoding(final(data)@),
    {
        let ghost m = Mutation { kind, key: key@, value: value@ };
        let ghost after = Batch { sequence: b.sequence, ops: b.ops.push(m) };
        Self::increase_count(data, Ghost(b));
        let tag = [kind.to_byte()];
        data.append(&tag);
        Self::put_length_prefixed_data(data, key);
        match kind {
            ValueType::KTypeValue => {
                Self::put_length_prefixed_data(data, value);
            },
            ValueType::KTypeDeletion => {},
        }
        proof {
            assert(after.ops.drop_last() =~= b.ops);
            assert(tag@ =~= seq![kind.tag()]);
            assert(data@ =~= batch_bytes(after));
            lemma_batch_round_trip(after);
        }
    }
}

} // verus!
