//! Internal keys: the entries of the in-memory table, encoded so that the
//! order of their bytes is the order of the table.
//!
//! An entry `(user key, sequence, kind, value)` is encoded as
//!
//! ```text
//! +------------------+------------------------------+----------+-------+
//! | escaped user key | u64::MAX - sequence (8B, BE) | rank (1B)| value |
//! +------------------+------------------------------+----------+-------+
//! ```
//!
//! In the escaped user key a zero byte is written as `00 ff`, and `00 00`
//! ends the key: no key's encoding starts another's, and the encodings stand
//! as the keys do. The sequence number is subtracted from `u64::MAX` and
//! written with its highest byte first, so that the higher sequence number
//! comes first. The rank is 0 for a value and 1 for a deletion.

use crate::skiplist::bytes_le;
use crate::write_batch::ValueType;
use vstd::prelude::*;

verus! {

/// One version of a key, as a mathematical value.
pub struct Entry {
    pub key: Seq<u8>,
    pub sequence: u64,
    pub kind: ValueType,
    pub value: Seq<u8>,
}

/// The place of a kind among entries of one key and sequence number: a value
/// comes before a deletion.
pub open spec fn kind_rank(kind: ValueType) -> u8 {
    match kind {
        ValueType::KTypeValue => 0,
        ValueType::KTypeDeletion => 1,
    }
}

/// The order of the table: by user key; for one user key, the higher
/// sequence number first; for one sequence number, a value before a
/// deletion; and last by value.
pub open spec fn entry_le(a: Entry, b: Entry) -> bool {
    if a.key != b.key {
        bytes_le(a.key, b.key)
    } else if a.sequence != b.sequence {
        a.sequence > b.sequence
    } else if a.kind != b.kind {
        kind_rank(a.kind) < kind_rank(b.kind)
    } else {
        bytes_le(a.value, b.value)
    }
}

/// A byte of a user key as it is written: a zero byte takes two bytes.
pub open spec fn escape_byte(b: u8) -> Seq<u8> {
    if b == 0 {
        seq![0u8, 255u8]
    } else {
        seq![b]
    }
}

/// A user key as it is written: its bytes, escaped, and the end mark `00 00`.
pub open spec fn escaped(key: Seq<u8>) -> Seq<u8>
    decreases key.len(),
{
    if key.len() == 0 {
        seq![0u8, 0u8]
    } else {
        escape_byte(key[0]) + escaped(key.skip(1))
    }
}

/// The user key written at the front of `s`, and the bytes it takes.
pub open spec fn unescaped(s: Seq<u8>) -> Option<(Seq<u8>, nat)>
    decreases s.len(),
{
    if s.len() == 0 {
        None
    } else if s[0] != 0 {
        match unescaped(s.skip(1)) {
            Some((key, n)) => Some((seq![s[0]] + key, n + 1)),
            None => None,
        }
    } else if s.len() < 2 {
        None
    } else if s[1] == 0 {
        Some((Seq::empty(), 2))
    } else if s[1] == 255 {
        match unescaped(s.skip(2)) {
            Some((key, n)) => Some((seq![0u8] + key, n + 2)),
            None => None,
        }
    } else {
        None
    }
}

/// The lowest `width` bytes of `x`, the highest first.
pub open spec fn big_endian(x: nat, width: nat) -> Seq<u8>
    decreases width,
{
    if width == 0 {
        Seq::empty()
    } else {
        big_endian(x / 256, (width - 1) as nat).push((x % 256) as u8)
    }
}

/// The number that `s` holds, its highest byte first.
pub open spec fn big_endian_value(s: Seq<u8>) -> nat
    decreases s.len(),
{
    if s.len() == 0 {
        0
    } else {
        big_endian_value(s.drop_last()) * 256 + s.last() as nat
    }
}

/// `x` takes no more than `width` bytes.
pub open spec fn fits(x: nat, width: nat) -> bool
    decreases width,
{
    if width == 0 {
        x == 0
    } else {
        fits(x / 256, (width - 1) as nat)
    }
}

/// The bytes that the sequence number `sequence` is written as.
pub open spec fn sequence_bytes(sequence: u64) -> Seq<u8> {
    big_endian((u64::MAX - sequence) as nat, 8)
}

/// The encoding of an entry.
pub open spec fn entry_bytes(e: Entry) -> Seq<u8> {
    escaped(e.key) + sequence_bytes(e.sequence) + seq![kind_rank(e.kind)] + e.value
}

/// The entry of which `s` is the encoding, if it is one.
pub open spec fn parse_entry(s: Seq<u8>) -> Option<Entry> {
    match unescaped(s) {
        Some((key, n)) => if s.len() >= n + 9 && s[n as int + 8] <= 1 {
            Some(
                Entry {
                    key,
                    sequence: (u64::MAX - big_endian_value(s.subrange(n as int, n as int + 8))) as u64,
                    kind: if s[n as int + 8] == 0 {
                        ValueType::KTypeValue
                    } else {
                        ValueType::KTypeDeletion
                    },
                    value: s.skip(n as int + 9),
                },
            )
        } else {
            None
        },
        None => None,
    }
}

/// `s` is the encoding of an entry.
pub open spec fn is_entry(s: Seq<u8>) -> bool {
    parse_entry(s) matches Some(e) && entry_bytes(e) == s
}

/// Two byte strings, each at or before the other, are equal.
pub proof fn lemma_bytes_le_antisymmetric(a: Seq<u8>, b: Seq<u8>)
    requires
        bytes_le(a, b),
        bytes_le(b, a),
    ensures
        a == b,
    decreases a.len(),
{
    if a.len() == 0 {
        assert(a =~= b);
    } else {
        lemma_bytes_le_antisymmetric(a.skip(1), b.skip(1));
        assert(a =~= seq![a[0]] + a.skip(1));
        assert(b =~= seq![b[0]] + b.skip(1));
    }
}

/// Byte strings that start alike stand as what follows the start.
pub proof fn lemma_bytes_le_prefix(p: Seq<u8>, x: Seq<u8>, y: Seq<u8>)
    ensures
        bytes_le(p + x, p + y) == bytes_le(x, y),
    decreases p.len(),
{
    if p.len() == 0 {
        assert(p + x =~= x);
        assert(p + y =~= y);
    } else {
        lemma_bytes_le_prefix(p.skip(1), x, y);
        assert((p + x).skip(1) =~= p.skip(1) + x);
        assert((p + y).skip(1) =~= p.skip(1) + y);
    }
}

/// A written key is read back as it was, whatever follows it.
pub proof fn lemma_escaped_round_trip(key: Seq<u8>, tail: Seq<u8>)
    ensures
        unescaped(escaped(key) + tail) == Some((key, escaped(key).len())),
        escaped(key).len() >= 2,
    decreases key.len(),
{
    let s = escaped(key) + tail;
    if key.len() == 0 {
        assert(key =~= Seq::<u8>::empty());
    } else {
        let rest = key.skip(1);
        lemma_escaped_round_trip(rest, tail);
        if key[0] == 0 {
            assert(s.skip(2) =~= escaped(rest) + tail);
        } else {
            assert(s.skip(1) =~= escaped(rest) + tail);
        }
        assert(seq![key[0]] + rest =~= key);
    }
}

/// Written keys stand as the keys do: the encodings of two different keys,
/// whatever follows them, are in the order of the keys.
pub proof fn lemma_escaped_order(a: Seq<u8>, b: Seq<u8>, x: Seq<u8>, y: Seq<u8>)
    requires
        a != b,
    ensures
        bytes_le(escaped(a) + x, escaped(b) + y) == bytes_le(a, b),
    decreases a.len(),
{
    let s = escaped(a) + x;
    let t = escaped(b) + y;
    if a.len() == 0 || b.len() == 0 {
        // the end mark against a byte of the other key, or the reverse
        assert(a.len() > 0 || b.len() > 0) by {
            if a.len() == 0 && b.len() == 0 {
                assert(a =~= b);
            }
        }
        let first_a = if a.len() == 0 {
            seq![0u8, 0u8]
        } else {
            escape_byte(a[0])
        };
        let first_b = if b.len() == 0 {
            seq![0u8, 0u8]
        } else {
            escape_byte(b[0])
        };
        assert(s.len() >= 2 && t.len() >= 1 && s.len() >= first_a.len());
        assert(s[0] == first_a[0] && t[0] == first_b[0]);
        if s[0] == t[0] {
            assert(s[1] == first_a[1] && t[1] == first_b[1]);
            assert(s.skip(1)[0] == s[1] && t.skip(1)[0] == t[1]);
            assert(bytes_le(s.skip(1), t.skip(1)) == (s[1] < t[1]));
        }
        assert(bytes_le(s, t) == (a.len() == 0));
    } else if a[0] != b[0] {
        assert(s[0] == a[0] && t[0] == b[0]);
        assert(bytes_le(s, t) == (a[0] < b[0]));
    } else {
        assert(a.skip(1) != b.skip(1)) by {
            if a.skip(1) == b.skip(1) {
                assert(a =~= seq![a[0]] + a.skip(1));
                assert(b =~= seq![b[0]] + b.skip(1));
            }
        }
        lemma_escaped_order(a.skip(1), b.skip(1), x, y);
        let p = escape_byte(a[0]);
        assert(s =~= p + (escaped(a.skip(1)) + x));
        assert(t =~= p + (escaped(b.skip(1)) + y));
        lemma_bytes_le_prefix(p, escaped(a.skip(1)) + x, escaped(b.skip(1)) + y);
    }
}

/// A number that fits in `width` bytes is written in that many bytes and
/// read back as it was.
pub proof fn lemma_big_endian_round_trip(x: nat, width: nat)
    requires
        fits(x, width),
    ensures
        big_endian(x, width).len() == width,
        big_endian_value(big_endian(x, width)) == x,
    decreases width,
{
    if width > 0 {
        lemma_big_endian_round_trip(x / 256, (width - 1) as nat);
        let s = big_endian(x, width);
        assert(s.drop_last() =~= big_endian(x / 256, (width - 1) as nat));
    }
}

/// Numbers written with the highest byte first stand as the numbers do: the
/// encodings of two different numbers that fit in `width` bytes, whatever
/// follows them, are in the order of the numbers.
pub proof fn lemma_big_endian_order(a: nat, b: nat, width: nat, x: Seq<u8>, y: Seq<u8>)
    requires
        fits(a, width),
        fits(b, width),
        a != b,
    ensures
        bytes_le(big_endian(a, width) + x, big_endian(b, width) + y) == (a < b),
    decreases width,
{
    if width > 0 {
        let high_a = big_endian(a / 256, (width - 1) as nat);
        let high_b = big_endian(b / 256, (width - 1) as nat);
        let low_a = seq![(a % 256) as u8] + x;
        let low_b = seq![(b % 256) as u8] + y;
        assert(big_endian(a, width) + x =~= high_a + low_a);
        assert(big_endian(b, width) + y =~= high_b + low_b);
        if a / 256 != b / 256 {
            lemma_big_endian_order(a / 256, b / 256, (width - 1) as nat, low_a, low_b);
        } else {
            lemma_bytes_le_prefix(high_a, low_a, low_b);
            assert(low_a[0] == (a % 256) as u8 && low_b[0] == (b % 256) as u8);
        }
    }
}

/// Every 64-bit number fits in eight bytes.
pub proof fn lemma_u64_fits(x: u64)
    ensures
        fits(x as nat, 8),
{
    reveal_with_fuel(fits, 9);
}

/// A number that fits in eight bytes is a 64-bit number.
pub proof fn lemma_fits_u64(x: nat)
    requires
        fits(x, 8),
    ensures
        x <= u64::MAX,
{
    reveal_with_fuel(fits, 9);
}

/// The number that some bytes hold fits in as many bytes.
pub proof fn lemma_big_endian_value_fits(s: Seq<u8>)
    ensures
        fits(big_endian_value(s), s.len()),
    decreases s.len(),
{
    if s.len() > 0 {
        lemma_big_endian_value_fits(s.drop_last());
    }
}

/// The entry round trip: an encoded entry is decoded as it was.
pub proof fn lemma_entry_round_trip(e: Entry)
    ensures
        parse_entry(entry_bytes(e)) == Some(e),
        is_entry(entry_bytes(e)),
{
    let s = entry_bytes(e);
    let key_part = escaped(e.key);
    let seq_part = sequence_bytes(e.sequence);
    let n = key_part.len() as int;
    lemma_escaped_round_trip(e.key, seq_part + seq![kind_rank(e.kind)] + e.value);
    assert(s =~= key_part + (seq_part + seq![kind_rank(e.kind)] + e.value));
    lemma_u64_fits((u64::MAX - e.sequence) as u64);
    lemma_big_endian_round_trip((u64::MAX - e.sequence) as nat, 8);
    assert(s.subrange(n, n + 8) =~= seq_part);
    assert(s[n + 8] == kind_rank(e.kind));
    assert(s.skip(n + 9) =~= e.value);
}

/// The order of the encodings is the order of the table: of two entries, the
/// encoding of the first is at or before that of the second exactly when the
/// first is at or before the second.
pub proof fn lemma_entry_order(a: Entry, b: Entry)
    ensures
        bytes_le(entry_bytes(a), entry_bytes(b)) == entry_le(a, b),
{
    let rest_a = sequence_bytes(a.sequence) + seq![kind_rank(a.kind)] + a.value;
    let rest_b = sequence_bytes(b.sequence) + seq![kind_rank(b.kind)] + b.value;
    assert(entry_bytes(a) =~= escaped(a.key) + rest_a);
    assert(entry_bytes(b) =~= escaped(b.key) + rest_b);
    if a.key != b.key {
        lemma_escaped_order(a.key, b.key, rest_a, rest_b);
    } else {
        lemma_bytes_le_prefix(escaped(a.key), rest_a, rest_b);
        let low_a = seq![kind_rank(a.kind)] + a.value;
        let low_b = seq![kind_rank(b.kind)] + b.value;
        assert(rest_a =~= sequence_bytes(a.sequence) + low_a);
        assert(rest_b =~= sequence_bytes(b.sequence) + low_b);
        lemma_u64_fits((u64::MAX - a.sequence) as u64);
        lemma_u64_fits((u64::MAX - b.sequence) as u64);
        if a.sequence != b.sequence {
            lemma_big_endian_order(
                (u64::MAX - a.sequence) as nat,
                (u64::MAX - b.sequence) as nat,
                8,
                low_a,
                low_b,
            );
        } else {
            lemma_bytes_le_prefix(sequence_bytes(a.sequence), low_a, low_b);
            if a.kind == b.kind {
                lemma_bytes_le_prefix(seq![kind_rank(a.kind)], a.value, b.value);
            } else {
                assert(low_a[0] == kind_rank(a.kind) && low_b[0] == kind_rank(b.kind));
            }
        }
    }
}

/// A key that was read is written as the bytes it was read from.
pub proof fn lemma_unescaped_canonical(s: Seq<u8>)
    ensures
        unescaped(s) matches Some((key, n)) ==> 2 <= n <= s.len() && escaped(key) == s.take(
            n as int,
        ),
    decreases s.len(),
{
    match unescaped(s) {
        Some((key, n)) => {
            if s[0] != 0 {
                lemma_unescaped_canonical(s.skip(1));
                let (rest, m) = unescaped(s.skip(1)).unwrap();
                assert(key.skip(1) =~= rest);
                assert(s.take(n as int) =~= seq![s[0]] + s.skip(1).take(m as int));
            } else if s[1] == 0 {
                assert(s.take(2) =~= seq![0u8, 0u8]);
            } else {
                lemma_unescaped_canonical(s.skip(2));
                let (rest, m) = unescaped(s.skip(2)).unwrap();
                assert(key.skip(1) =~= rest);
                assert(s.take(n as int) =~= seq![0u8, 255u8] + s.skip(2).take(m as int));
            }
        },
        None => {},
    }
}

/// The number that some bytes hold is written as those bytes.
pub proof fn lemma_big_endian_canonical(s: Seq<u8>)
    ensures
        big_endian(big_endian_value(s), s.len()) == s,
    decreases s.len(),
{
    if s.len() > 0 {
        lemma_big_endian_canonical(s.drop_last());
    }
    assert(big_endian(big_endian_value(s), s.len()) =~= s);
}

/// An entry that was decoded is encoded as the bytes it was decoded from.
pub proof fn lemma_entry_canonical(s: Seq<u8>)
    ensures
        parse_entry(s) is Some ==> is_entry(s),
{
    match parse_entry(s) {
        Some(e) => {
            lemma_unescaped_canonical(s);
            let (key, n) = unescaped(s).unwrap();
            let field = s.subrange(n as int, n as int + 8);
            lemma_big_endian_canonical(field);
            lemma_big_endian_value_fits(field);
            lemma_fits_u64(big_endian_value(field));
            assert(entry_bytes(e) =~= s);
        },
        None => {},
    }
}

/// A number that fits in some bytes fits in more.
pub proof fn lemma_fits_wider(x: nat, width: nat, wider: nat)
    requires
        fits(x, width),
        width <= wider,
    ensures
        fits(x, wider),
    decreases wider,
{
    if width == 0 {
        lemma_fits_zero(wider);
    } else {
        lemma_fits_wider(x / 256, (width - 1) as nat, (wider - 1) as nat);
    }
}

/// Zero fits in any number of bytes.
pub proof fn lemma_fits_zero(width: nat)
    ensures
        fits(0, width),
    decreases width,
{
    if width > 0 {
        lemma_fits_zero((width - 1) as nat);
    }
}

/// The key read so far, then what is still to be read.
spec fn key_then(done: Seq<u8>, pos: nat, rest: Option<(Seq<u8>, nat)>) -> Option<(Seq<u8>, nat)> {
    match rest {
        Some((key, n)) => Some((done + key, n + pos)),
        None => None,
    }
}

/// Appends the user key `key` to `data` as it is written.
fn put_escaped(data: &mut Vec<u8>, key: &[u8])
    ensures
        final(data)@ == old(data)@ + escaped(key@),
{
    let mut i: usize = 0;
    assert(key@.skip(0) =~= key@);
    while i < key.len()
        invariant
            i <= key.len(),
            data@ + escaped(key@.skip(i as int)) == old(data)@ + escaped(key@),
        decreases key.len() - i,
    {
        let ghost before = data@;
        let ghost rest = key@.skip(i as int);
        let b = key[i];
        data.push(b);
        if b == 0 {
            data.push(255);
        }
        proof {
            assert(rest.skip(1) =~= key@.skip(i + 1));
            assert(data@ =~= before + escape_byte(b));
            assert(data@ + escaped(key@.skip(i + 1)) =~= before + escaped(rest));
        }
        i = i + 1;
    }
    let ghost before = data@;
    data.push(0);
    data.push(0);
    assert(data@ =~= before + escaped(key@.skip(i as int)));
}

/// Appends the eight bytes of `x` to `data`, the highest first.
fn put_big_endian(data: &mut Vec<u8>, x: u64)
    ensures
        final(data)@ == old(data)@ + big_endian(x as nat, 8),
{
    let mut buf = [0u8; 8];
    let mut rest: u64 = x;
    let mut i: usize = 8;
    assert(buf@.subrange(8, 8) =~= Seq::<u8>::empty());
    assert(big_endian(x as nat, 8) + Seq::<u8>::empty() =~= big_endian(x as nat, 8));
    while i > 0
        invariant
            i <= 8,
            big_endian(x as nat, 8) == big_endian(rest as nat, i as nat) + buf@.subrange(
                i as int,
                8,
            ),
        decreases i,
    {
        let ghost before = buf@;
        i = i - 1;
        buf[i] = (rest % 256) as u8;
        proof {
            assert(buf@.subrange(i as int, 8) =~= seq![(rest % 256) as u8] + before.subrange(
                i + 1,
                8,
            ));
            assert(big_endian(rest as nat, (i + 1) as nat) + before.subrange(i + 1, 8)
                =~= big_endian((rest / 256) as nat, i as nat) + buf@.subrange(i as int, 8));
        }
        rest = rest / 256;
    }
    assert(buf@.subrange(0, 8) =~= buf@);
    assert(big_endian(rest as nat, 0) + buf@ =~= buf@);
    data.extend_from_slice(&buf);
}

/// Reads the user key written at the front of `data`: gives it and the bytes
/// that it takes, or `None` where no key is written there.
fn read_key(data: &[u8]) -> (r: Option<(Vec<u8>, usize)>)
    ensures
        match r {
            Some((key, n)) => unescaped(data@) == Some((key@, n as nat)) && n <= data.len(),
            None => unescaped(data@) is None,
        },
{
    let mut key: Vec<u8> = Vec::new();
    let mut pos: usize = 0;
    proof {
        assert(data@.skip(0) =~= data@);
        match unescaped(data@) {
            Some((k, n)) => {
                assert(key@ + k =~= k);
            },
            None => {},
        }
    }
    loop
        invariant
            pos <= data.len(),
            unescaped(data@) == key_then(key@, pos as nat, unescaped(data@.skip(pos as int))),
        decreases data.len() - pos,
    {
        if pos >= data.len() {
            return None;
        }
        let ghost rest = data@.skip(pos as int);
        let ghost done = key@;
        let b = data[pos];
        if b != 0 {
            proof {
                assert(rest.skip(1) =~= data@.skip(pos + 1));
                match unescaped(data@.skip(pos + 1)) {
                    Some((k, n)) => {
                        assert(done + (seq![b] + k) =~= done.push(b) + k);
                    },
                    None => {},
                }
            }
            key.push(b);
            pos = pos + 1;
        } else if pos + 1 >= data.len() {
            return None;
        } else if data[pos + 1] == 0 {
            proof {
                assert(rest[1] == 0);
                assert(done + Seq::<u8>::empty() =~= done);
            }
            return Some((key, pos + 2));
        } else if data[pos + 1] == 255 {
            proof {
                assert(rest[1] == 255);
                assert(rest.skip(2) =~= data@.skip(pos + 2));
                match unescaped(data@.skip(pos + 2)) {
                    Some((k, n)) => {
                        assert(done + (seq![0u8] + k) =~= done.push(0u8) + k);
                    },
                    None => {},
                }
            }
            key.push(0);
            pos = pos + 2;
        } else {
            proof {
                assert(rest[1] == data@[pos + 1]);
            }
            return None;
        }
    }
}

/// Reads the number that the eight bytes of `bytes` hold, the highest first.
fn read_big_endian(bytes: &[u8]) -> (x: u64)
    requires
        bytes.len() == 8,
    ensures
        x == big_endian_value(bytes@),
{
    let mut x: u64 = 0;
    let mut i: usize = 0;
    assert(bytes@.take(0) =~= Seq::<u8>::empty());
    while i < 8
        invariant
            i <= 8,
            bytes.len() == 8,
            x == big_endian_value(bytes@.take(i as int)),
        decreases 8 - i,
    {
        proof {
            let next = bytes@.take(i + 1);
            assert(next.drop_last() =~= bytes@.take(i as int));
            lemma_big_endian_value_fits(next);
            lemma_fits_wider(big_endian_value(next), (i + 1) as nat, 8);
            lemma_fits_u64(big_endian_value(next));
        }
        x = x * 256 + bytes[i] as u64;
        i = i + 1;
    }
    assert(bytes@.take(8) =~= bytes@);
    x
}

/// An entry of the in-memory table, kept as its encoding.
#[derive(Debug, PartialEq, Eq)]
pub struct InternalKeyValue {
    data: Vec<u8>,
}

impl View for InternalKeyValue {
    type V = Entry;

    closed spec fn view(&self) -> Entry {
        parse_entry(self.data@).unwrap()
    }
}

impl InternalKeyValue {
    /// The entry holds the encoding of an entry.
    pub closed spec fn wf(&self) -> bool {
        is_entry(self.data@)
    }

    /// The bytes that the entry holds.
    pub closed spec fn bytes(&self) -> Seq<u8> {
        self.data@
    }

    /// A well-formed entry holds the encoding of what it stands for.
    pub proof fn lemma_bytes(&self)
        requires
            self.wf(),
        ensures
            self.bytes() == entry_bytes(self@),
            is_entry(self.bytes()),
    {
    }

    /// The entry that gives the key `k` the kind `k_type` and the value `v`
    /// at the sequence number `sequence`.
    pub fn from(sequence: u64, k_type: ValueType, k: Vec<u8>, v: Vec<u8>) -> (entry: Self)
        ensures
            entry.wf(),
            entry@ == (Entry { key: k@, sequence, kind: k_type, value: v@ }),
    {
        let ghost e = Entry { key: k@, sequence, kind: k_type, value: v@ };
        let mut data: Vec<u8> = Vec::new();
        put_escaped(&mut data, k.as_slice());
        put_big_endian(&mut data, u64::MAX - sequence);
        let rank: u8 = match k_type {
            ValueType::KTypeValue => 0,
            ValueType::KTypeDeletion => 1,
        };
        data.push(rank);
        data.extend_from_slice(v.as_slice());
        proof {
            assert(data@ =~= entry_bytes(e));
            lemma_entry_round_trip(e);
        }
        InternalKeyValue { data }
    }

    /// The entry to seek from for the key `k`: no entry with that key comes
    /// before it in the order of the table.
    pub fn from_key(k: Vec<u8>) -> (entry: Self)
        ensures
            entry.wf(),
            entry@ == (Entry {
                key: k@,
                sequence: u64::MAX,
                kind: ValueType::KTypeValue,
                value: Seq::empty(),
            }),
            forall|e: Entry| e.key == k@ ==> entry_le(entry@, e),
    {
        let entry = InternalKeyValue::from(u64::MAX, ValueType::KTypeValue, k, Vec::new());
        assert(entry@.value =~= Seq::<u8>::empty());
        entry
    }

    /// The entry of which `data` is the encoding, or `None` where it is none.
    pub fn decode(data: Vec<u8>) -> (r: Option<Self>)
        ensures
            match r {
                Some(entry) => entry.wf() && entry.bytes() == data@,
                None => !is_entry(data@),
            },
    {
        match read_key(data.as_slice()) {
            Some((key, n)) => {
                if data.len() - n >= 9 && data[n + 8] <= 1 {
                    proof {
                        lemma_entry_canonical(data@);
                    }
                    Some(InternalKeyValue { data })
                } else {
                    None
                }
            },
            None => None,
        }
    }

    /// The user key of the entry.
    pub fn get_key(&self) -> (key: Vec<u8>)
        requires
            self.wf(),
        ensures
            key@ == self@.key,
    {
        match read_key(self.data.as_slice()) {
            Some((key, _)) => key,
            None => Vec::new(),
        }
    }

    /// The sequence number of the entry.
    pub fn get_sequence(&self) -> (sequence: u64)
        requires
            self.wf(),
        ensures
            sequence == self@.sequence,
    {
        match read_key(self.data.as_slice()) {
            Some((_, n)) => {
                let field = &self.data.as_slice()[n..n + 8];
                assert(field@ =~= self.data@.subrange(n as int, n + 8));
                u64::MAX - read_big_endian(field)
            },
            None => 0,
        }
    }

    /// The kind of the entry.
    pub fn get_type(&self) -> (kind: ValueType)
        requires
            self.wf(),
        ensures
            kind == self@.kind,
    {
        match read_key(self.data.as_slice()) {
            Some((_, n)) => {
                if self.data[n + 8] == 0 {
                    ValueType::KTypeValue
                } else {
                    ValueType::KTypeDeletion
                }
            },
            None => ValueType::KTypeValue,
        }
    }

    /// The value of the entry.
    pub fn get_value(&self) -> (value: Vec<u8>)
        requires
            self.wf(),
        ensures
            value@ == self@.value,
    {
        match read_key(self.data.as_slice()) {
            Some((_, n)) => {
                let field = &self.data.as_slice()[n + 9..self.data.len()];
                assert(field@ =~= self.data@.skip(n + 9));
                vstd::slice::slice_to_vec(field)
            },
            None => Vec::new(),
        }
    }

    /// The encoding of the entry.
    pub fn into_bytes(self) -> (data: Vec<u8>)
        ensures
            data@ == self.bytes(),
    {
        self.data
    }

    /// A copy of the encoding of the entry.
    pub fn to_bytes(&self) -> (data: Vec<u8>)
        ensures
            data@ == self.bytes(),
    {
        vstd::slice::slice_to_vec(self.data.as_slice())
    }
}

} // verus!
