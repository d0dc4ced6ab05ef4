//! Variable-length encoding of unsigned integers: groups of seven bits, least
//! significant group first, with the high bit of a byte set when more bytes
//! follow.

use vstd::prelude::*;

verus! {

/// The number of bytes in the encoding of `v`.
pub open spec fn varint_len(v: nat) -> nat
    decreases v,
{
    if v < 128 {
        1
    } else {
        1 + varint_len(v / 128)
    }
}

/// The encoding of `v`: seven bits per byte, least significant group first,
/// every byte but the last with its high bit set.
pub open spec fn varint_bytes(v: nat) -> Seq<u8>
    decreases v,
{
    if v < 128 {
        seq![v as u8]
    } else {
        seq![(v % 128 + 128) as u8] + varint_bytes(v / 128)
    }
}

/// The number encoded at the front of `s` and the count of bytes it takes,
/// or `None` when `s` ends before a byte with a clear high bit.
pub open spec fn varint_parse(s: Seq<u8>) -> Option<(nat, nat)>
    decreases s.len(),
{
    if s.len() == 0 {
        None
    } else if s[0] < 128 {
        Some((s[0] as nat, 1))
    } else {
        match varint_parse(s.skip(1)) {
            Some((v, n)) => Some(((s[0] - 128) as nat + 128 * v, n + 1)),
            None => None,
        }
    }
}

/// Why a byte string does not start with an encoded 32-bit number.
#[derive(Clone, Copy, Debug, PartialEq, Eq, Structural)]
pub enum VarintError {
    /// The input ends before a byte with a clear high bit.
    Truncated,
    /// The encoding takes more than five bytes and its number does not fit
    /// in 32 bits.
    Overflow,
}

/// What decoding a 32-bit number from the front of `s` gives. An encoding of
/// up to five bytes always decodes: its groups of seven bits are put
/// together and what lies above the 32 bits falls away. A longer encoding
/// decodes where its number fits in 32 bits.
pub open spec fn varint32_parse(s: Seq<u8>) -> Result<(u32, nat), VarintError> {
    match varint_parse(s) {
        None => Err(VarintError::Truncated),
        Some((v, n)) => if n <= 5 || v <= u32::MAX {
            Ok(((v % 0x1_0000_0000) as u32, n))
        } else {
            Err(VarintError::Overflow)
        },
    }
}

/// An encoding is as long as `varint_len` says, and a 32-bit number takes
/// from one to five bytes.
pub proof fn lemma_varint_len(v: nat)
    ensures
        varint_bytes(v).len() == varint_len(v),
        varint_len(v) >= 1,
        v <= u32::MAX ==> varint_len(v) <= 5,
        v <= u64::MAX ==> varint_len(v) <= 10,
    decreases v,
{
    if v >= 128 {
        lemma_varint_len(v / 128);
        reveal_with_fuel(varint_len, 11);
    }
}

/// A parsed number takes at least one byte and no more than there are.
pub proof fn lemma_varint_parse_bounds(s: Seq<u8>)
    ensures
        varint_parse(s) matches Some((v, n)) ==> 1 <= n <= s.len(),
    decreases s.len(),
{
    if s.len() > 0 && s[0] >= 128 {
        lemma_varint_parse_bounds(s.skip(1));
    }
}

/// Decoding undoes encoding: from the encoding of `v`, whatever follows it,
/// the parser reads `v` and exactly the bytes of the encoding.
pub proof fn lemma_varint_round_trip(v: nat, tail: Seq<u8>)
    ensures
        varint_parse(varint_bytes(v) + tail) == Some((v, varint_len(v))),
        varint_bytes(v).len() == varint_len(v),
    decreases v,
{
    lemma_varint_len(v);
    let s = varint_bytes(v) + tail;
    if v >= 128 {
        lemma_varint_round_trip(v / 128, tail);
        assert(s.skip(1) =~= varint_bytes(v / 128) + tail);
    }
}

/// For every 32-bit `v`, decoding the encoding of `v` gives `v` and the
/// encoded length, which is between one and five.
pub proof fn lemma_varint32_round_trip(v: u32, tail: Seq<u8>)
    ensures
        varint32_parse(varint_bytes(v as nat) + tail) == Ok::<(u32, nat), VarintError>(
            (v, varint_len(v as nat)),
        ),
        varint_bytes(v as nat).len() == varint_len(v as nat),
        1 <= varint_len(v as nat) <= 5,
{
    lemma_varint_round_trip(v as nat, tail);
    lemma_varint_len(v as nat);
}

/// The seven bits of the byte `i` of `s`, shifted to their place in 32 bits.
pub open spec fn shifted_group(s: Seq<u8>, i: int) -> u32 {
    ((s[i] & 0x7f) as u32) << ((7 * i) as u32)
}

/// The groups of the bytes of `s` up to the byte `j`, each at its place in 32
/// bits.
pub open spec fn shifted_groups(s: Seq<u8>, j: int) -> u32
    decreases j + 1,
{
    if j < 0 {
        0
    } else {
        shifted_groups(s, j - 1) | shifted_group(s, j)
    }
}

/// The byte `j` of `s` is the first with a clear high bit.
pub open spec fn ends_at(s: Seq<u8>, j: int) -> bool {
    &&& 0 <= j < s.len()
    &&& s[j] < 128
    &&& forall|i: int| 0 <= i < j ==> s[i] >= 128
}

/// An encoding of up to five bytes decodes to its groups of seven bits, each
/// shifted to its place in 32 bits, and takes the bytes up to the first with
/// a clear high bit; what follows that byte is not read.
pub proof fn lemma_varint32_groups(s: Seq<u8>, j: int)
    requires
        ends_at(s, j),
        j <= 4,
    ensures
        varint32_parse(s) == Ok::<(u32, nat), VarintError>(
            (shifted_groups(s, j), (j + 1) as nat),
        ),
{
    reveal_with_fuel(varint_parse, 6);
    reveal_with_fuel(shifted_groups, 6);
    let b0 = s[0];
    assert(b0 >= 128 ==> (b0 - 128) as u8 == b0 & 0x7f) by (bit_vector);
    assert(b0 < 128 ==> b0 == b0 & 0x7f) by (bit_vector);
    let g0 = (b0 & 0x7f) as u32;
    assert(g0 < 128) by (bit_vector)
        requires
            g0 == (b0 & 0x7f) as u32,
    ;
    assert((0u32 | (g0 << 0u32)) == g0) by (bit_vector);
    if j >= 1 {
        let s1 = s.skip(1);
        let b1 = s[1];
        assert(s1[0] == b1);
        assert(b1 >= 128 ==> (b1 - 128) as u8 == b1 & 0x7f) by (bit_vector);
        assert(b1 < 128 ==> b1 == b1 & 0x7f) by (bit_vector);
        let g1 = (b1 & 0x7f) as u32;
        assert(g1 < 128 && (g0 < 128 ==> (g0 | (g1 << 7u32)) == g0 + 128 * g1)) by (bit_vector)
            requires
                g1 == (b1 & 0x7f) as u32,
        ;
        let v1 = (g0 + 128 * g1) as u32;
        if j >= 2 {
            let s2 = s1.skip(1);
            let b2 = s[2];
            assert(s2[0] == b2);
            assert(b2 >= 128 ==> (b2 - 128) as u8 == b2 & 0x7f) by (bit_vector);
            assert(b2 < 128 ==> b2 == b2 & 0x7f) by (bit_vector);
            let g2 = (b2 & 0x7f) as u32;
            assert(g2 < 128 && (v1 < 0x4000 ==> (v1 | (g2 << 14u32)) == v1 + 0x4000 * g2))
                by (bit_vector)
                requires
                    g2 == (b2 & 0x7f) as u32,
            ;
            let v2 = (v1 + 0x4000 * g2) as u32;
            if j >= 3 {
                let s3 = s2.skip(1);
                let b3 = s[3];
                assert(s3[0] == b3);
                assert(b3 >= 128 ==> (b3 - 128) as u8 == b3 & 0x7f) by (bit_vector);
                assert(b3 < 128 ==> b3 == b3 & 0x7f) by (bit_vector);
                let g3 = (b3 & 0x7f) as u32;
                assert(g3 < 128 && (v2 < 0x20_0000 ==> (v2 | (g3 << 21u32)) == v2 + 0x20_0000
                    * g3)) by (bit_vector)
                    requires
                        g3 == (b3 & 0x7f) as u32,
                ;
                let v3 = (v2 + 0x20_0000 * g3) as u32;
                if j >= 4 {
                    let s4 = s3.skip(1);
                    let b4 = s[4];
                    assert(s4[0] == b4);
                    assert(b4 < 128 ==> b4 == b4 & 0x7f) by (bit_vector);
                    let g4 = (b4 & 0x7f) as u32;
                    assert(g4 < 128 && (v3 < 0x1000_0000 ==> (v3 | (g4 << 28u32)) == (v3
                        + 0x1000_0000 * g4) % 0x1_0000_0000)) by (bit_vector)
                        requires
                            g4 == (b4 & 0x7f) as u32,
                    ;
                }
            }
        }
    }
}

/// Decoding fails for want of an end exactly where no byte has a clear high
/// bit, and an input of up to five bytes fails in no other way.
pub proof fn lemma_varint32_fails(s: Seq<u8>)
    ensures
        varint32_parse(s) == Err::<(u32, nat), VarintError>(VarintError::Truncated) <==> forall|
            i: int,
        |
            0 <= i < s.len() ==> s[i] >= 128,
        s.len() <= 5 ==> varint32_parse(s) != Err::<(u32, nat), VarintError>(
            VarintError::Overflow,
        ),
    decreases s.len(),
{
    lemma_varint_parse_bounds(s);
    if s.len() > 0 && s[0] >= 128 {
        let rest = s.skip(1);
        lemma_varint32_fails(rest);
        lemma_varint_parse_bounds(rest);
        if forall|i: int| 0 <= i < rest.len() ==> rest[i] >= 128 {
            assert forall|i: int| 0 <= i < s.len() implies s[i] >= 128 by {
                if i > 0 {
                    assert(rest[i - 1] == s[i]);
                }
            }
        } else {
            let i = choose|i: int| 0 <= i < rest.len() && rest[i] < 128;
            assert(s[i + 1] == rest[i]);
        }
    }
}

/// What follows the first byte with a clear high bit is not read: decoding
/// gives the same with and without it.
pub proof fn lemma_varint32_prefix(s: Seq<u8>, j: int)
    requires
        ends_at(s, j),
    ensures
        varint32_parse(s) == varint32_parse(s.take(j + 1)),
        varint_parse(s) == varint_parse(s.take(j + 1)),
        varint_parse(s) matches Some((_, n)) && n == j + 1,
    decreases j,
{
    if j > 0 {
        let rest = s.skip(1);
        assert(ends_at(rest, j - 1)) by {
            assert forall|i: int| 0 <= i < j - 1 implies rest[i] >= 128 by {
                assert(rest[i] == s[i + 1]);
            }
        }
        lemma_varint32_prefix(rest, j - 1);
        assert(s.take(j + 1).skip(1) =~= rest.take(j));
    }
}

/// Parsing `s` from its start agrees with parsing from byte `i` on, when the
/// bytes before `i` all have their high bit set and carry `acc` in groups
/// worth `mult` together.
spec fn parse_resumed(s: Seq<u8>, i: int, acc: nat, mult: nat) -> Option<(nat, nat)> {
    match varint_parse(s.skip(i)) {
        Some((v, n)) => Some((acc + mult * v, (n + i) as nat)),
        None => None,
    }
}

/// Parsing resumed at a byte with its high bit set goes on at the next byte,
/// with the seven bits of that byte added.
proof fn lemma_parse_step(s: Seq<u8>, i: int, acc: nat, mult: nat)
    requires
        0 <= i < s.len(),
        s[i] >= 128,
    ensures
        parse_resumed(s, i, acc, mult) == parse_resumed(
            s,
            i + 1,
            acc + mult * (s[i] - 128) as nat,
            mult * 128,
        ),
{
    let t = s.skip(i);
    assert(t.skip(1) =~= s.skip(i + 1));
    match varint_parse(s.skip(i + 1)) {
        Some((v, n)) => {
            let g = (s[i] - 128) as nat;
            assert(acc + mult * (g + 128 * v) == acc + mult * g + (mult * 128) * v)
                by (nonlinear_arith);
        },
        None => {},
    }
}

/// Writes the encoding of `v` at the start of `dst` and returns its length.
/// The bytes of `dst` after the encoding are left as they were. `dst` must
/// have room for the encoding; five bytes are always enough.
pub fn encode_varint_32(dst: &mut [u8], v: u32) -> (written: usize)
    requires
        old(dst).len() >= 5 || old(dst).len() >= varint_len(v as nat),
    ensures
        written == varint_len(v as nat),
        1 <= written <= 5,
        final(dst)@ == varint_bytes(v as nat) + old(dst)@.skip(written as int),
{
    proof {
        lemma_varint_len(v as nat);
    }
    let mut n: usize = 0;
    let mut rest: u32 = v;
    while rest >= 128
        invariant
            dst.len() == old(dst).len(),
            n + varint_len(rest as nat) == varint_len(v as nat),
            varint_len(v as nat) <= 5,
            varint_len(v as nat) <= dst.len(),
            dst@.subrange(0, n as int) + varint_bytes(rest as nat) == varint_bytes(v as nat),
            dst@.skip(n as int) == old(dst)@.skip(n as int),
        decreases rest,
    {
        let ghost before = dst@;
        dst[n] = (rest % 128) as u8 + 128;
        proof {
            let next = (rest / 128) as nat;
            assert(dst@.subrange(0, n + 1) =~= before.subrange(0, n as int) + seq![
                (rest % 128 + 128) as u8,
            ]);
            assert(dst@.subrange(0, n + 1) + varint_bytes(next) =~= before.subrange(0, n as int)
                + varint_bytes(rest as nat));
            assert(dst@.skip(n + 1) =~= before.skip(n as int).skip(1));
            assert(old(dst)@.skip(n + 1) =~= old(dst)@.skip(n as int).skip(1));
        }
        rest = rest / 128;
        n = n + 1;
    }
    let ghost before = dst@;
    dst[n] = rest as u8;
    proof {
        assert(dst@.subrange(0, n + 1) =~= before.subrange(0, n as int) + varint_bytes(
            rest as nat,
        ));
        assert(dst@.skip(n + 1) =~= before.skip(n as int).skip(1));
        assert(old(dst)@.skip(n + 1) =~= old(dst)@.skip(n as int).skip(1));
        assert(dst@ =~= dst@.subrange(0, n + 1) + dst@.skip(n + 1));
    }
    n + 1
}

/// The worth of the group of seven bits at the byte `i` of an encoding, for
/// the first bytes.
spec fn early_weight(i: int) -> nat {
    if i <= 0 {
        1
    } else if i == 1 {
        0x80
    } else if i == 2 {
        0x4000
    } else if i == 3 {
        0x20_0000
    } else if i == 4 {
        0x1000_0000
    } else {
        0x8_0000_0000
    }
}

/// Decodes a 32-bit number from the front of `src`, with the count of bytes
/// it took. Fails with `Truncated` when no byte of `src` has a clear high
/// bit. An encoding of up to five bytes always decodes, and what lies above
/// the 32 bits falls away; a longer one fails with `Overflow` where its number
/// does not fit in 32 bits.
pub fn get_varint_32(src: &[u8]) -> (r: Result<(u32, usize), VarintError>)
    ensures
        match r {
            Ok((v, n)) => varint32_parse(src@) == Ok::<(u32, nat), VarintError>((v, n as nat)),
            Err(e) => varint32_parse(src@) == Err::<(u32, nat), VarintError>(e),
        },
        r matches Ok((_, n)) ==> 1 <= n <= src.len(),
{
    // `total` is the number that the bytes read so far carry and `weight`
    // the worth of the next group of seven bits. Over the first five bytes
    // `acc` and `mult` follow them; after that `acc` stays while `overflow`
    // is not set, and any group that is not zero sets it.
    let mut i: usize = 0;
    let mut acc: u64 = 0;
    let mut mult: u64 = 1;
    let mut overflow = false;
    let ghost mut total: nat = 0;
    let ghost mut weight: nat = 1;
    proof {
        assert(src@.skip(0) =~= src@);
        lemma_varint_parse_bounds(src@);
    }
    while i < src.len()
        invariant
            i <= src.len(),
            varint_parse(src@) == parse_resumed(src@, i as int, total, weight),
            total < weight,
            i <= 5 ==> weight == early_weight(i as int) && mult == weight,
            i > 5 ==> weight >= 0x8_0000_0000,
            overflow <==> total > u32::MAX,
            i <= 5 || !overflow ==> acc == total,
        decreases src.len() - i,
    {
        let b = src[i];
        let group: u8 = if b >= 128 {
            b - 128
        } else {
            b
        };
        let ghost before = total;
        proof {
            assert(weight * (group as nat) <= weight * 127 && (group != 0 ==> weight * (
            group as nat) >= weight)) by (nonlinear_arith)
                requires
                    group <= 127,
            ;
            total = total + weight * (group as nat);
            if b < 128 {
                assert(src@.skip(i as int)[0] == b);
            }
        }
        if i < 5 {
            assert(mult * group <= 0x1000_0000 * 127) by (nonlinear_arith)
                requires
                    mult <= 0x1000_0000,
                    group <= 127,
            ;
            acc = acc + mult * (group as u64);
            if b < 128 {
                return Ok(((acc % 0x1_0000_0000) as u32, i + 1));
            }
            if acc > 0xffff_ffff {
                overflow = true;
            }
            mult = mult * 128;
        } else {
            if group != 0 {
                overflow = true;
            }
            if b < 128 {
                if overflow {
                    return Err(VarintError::Overflow);
                } else {
                    return Ok((acc as u32, i + 1));
                }
            }
        }
        proof {
            lemma_parse_step(src@, i as int, before, weight);
            weight = weight * 128;
        }
        i = i + 1;
    }
    proof {
        assert(src@.skip(i as int).len() == 0);
    }
    Err(VarintError::Truncated)
}

/// Decodes a 32-bit number from the front of `src`, or gives `None` where
/// `get_varint_32` fails: where no byte of `src` has a clear high bit, or the
/// encoding takes more than five bytes and its number does not fit in 32
/// bits.
pub fn decode_varint_32(src: &[u8]) -> (r: Option<u32>)
    ensures
        r == match varint32_parse(src@) {
            Ok((v, _)) => Some(v),
            Err(_) => None::<u32>,
        },
{
    match get_varint_32(src) {
        Ok((v, _)) => Some(v),
        Err(_) => None,
    }
}

/// The number of bytes that the encoding of `v` takes.
pub fn varint_length(v: u64) -> (len: u32)
    ensures
        len == varint_len(v as nat),
        1 <= len <= 10,
{
    proof {
        lemma_varint_len(v as nat);
    }
    let mut rest: u64 = v;
    let mut len: u32 = 1;
    while rest >= 128
        invariant
            len - 1 + varint_len(rest as nat) == varint_len(v as nat),
            varint_len(v as nat) <= 10,
            len >= 1,
        decreases rest,
    {
        rest = rest / 128;
        len = len + 1;
    }
    len
}

} // verus!
