//! A growable byte buffer, kept in a `bytes::BytesMut`.

use vstd::prelude::*;

verus! {

/// `bytes::BytesMut`, a growable byte buffer. Nothing is known of a value of
/// it but what the functions below say of the bytes it holds.
#[verifier::external_type_specification]
#[verifier::external_body]
pub struct ExBytesMut(bytes::BytesMut);

/// The bytes that a `BytesMut` holds, in order.
pub uninterp spec fn buffer_bytes(b: bytes::BytesMut) -> Seq<u8>;

/// `bytes::BytesMut::new`: taken to give a buffer that holds no bytes.
#[verifier::external_body]
fn buffer_new() -> (b: bytes::BytesMut)
    ensures
        buffer_bytes(b) == Seq::<u8>::empty(),
{
    bytes::BytesMut::new()
}

/// `bytes::BytesMut::from` on a slice: taken to give a buffer that holds a
/// copy of the slice's bytes.
#[verifier::external_body]
fn buffer_from(data: &[u8]) -> (b: bytes::BytesMut)
    ensures
        buffer_bytes(b) == data@,
{
    bytes::BytesMut::from(data)
}

/// `bytes::BytesMut::as_ref`: taken to give the bytes that the buffer holds.
#[verifier::external_body]
fn buffer_as_slice(b: &bytes::BytesMut) -> (s: &[u8])
    ensures
        s@ == buffer_bytes(*b),
{
    b.as_ref()
}

/// `bytes::BytesMut::extend_from_slice`: taken to append the bytes of `data`
/// to those that the buffer holds, and to change nothing else.
#[verifier::external_body]
fn buffer_extend(b: &mut bytes::BytesMut, data: &[u8])
    ensures
        buffer_bytes(*final(b)) == buffer_bytes(*old(b)) + data@,
{
    b.extend_from_slice(data)
}

/// `bytes::BytesMut::as_mut`: taken to give the bytes that the buffer holds,
/// to be changed in place. What the bytes are when the borrow ends is what the
/// buffer holds then.
#[verifier::external_body]
fn buffer_as_mut_slice(b: &mut bytes::BytesMut) -> (s: &mut [u8])
    ensures
        s@ == buffer_bytes(*old(b)),
        buffer_bytes(*final(b)) == final(s)@,
{
    b.as_mut()
}

/// A growable byte buffer.
pub struct Slice {
    data: bytes::BytesMut,
}

impl View for Slice {
    type V = Seq<u8>;

    closed spec fn view(&self) -> Seq<u8> {
        buffer_bytes(self.data)
    }
}

impl Slice {
    /// An empty buffer.
    pub fn new() -> (s: Self)
        ensures
            s@ == Seq::<u8>::empty(),
    {
        Slice { data: buffer_new() }
    }

    /// A buffer that holds a copy of `data`.
    pub fn from(data: &[u8]) -> (s: Self)
        ensures
            s@ == data@,
    {
        Slice { data: buffer_from(data) }
    }

    /// The bytes of the buffer.
    pub fn get_data(&self) -> (data: &[u8])
        ensures
            data@ == self@,
    {
        buffer_as_slice(&self.data)
    }

    /// Appends `data` to the buffer.
    pub fn append(&mut self, data: &[u8])
        ensures
            final(self)@ == old(self)@ + data@,
    {
        buffer_extend(&mut self.data, data)
    }

    /// Overwrites the bytes of the buffer from `at` on with `data`. The range
    /// must lie inside the buffer.
    pub fn overwrite(&mut self, at: usize, data: &[u8])
        requires
            at + data.len() <= old(self)@.len(),
        ensures
            final(self)@ == old(self)@.subrange(0, at as int) + data@ + old(self)@.skip(
                at + data.len(),
            ),
    {
        let bytes = buffer_as_mut_slice(&mut self.data);
        let mut i: usize = 0;
        while i < data.len()
            invariant
                i <= data.len(),
                at + data.len() <= bytes.len(),
                bytes.len() == old(self)@.len(),
                bytes@ == old(self)@.subrange(0, at as int) + data@.take(i as int) + old(self)@.skip(
                    at + i,
                ),
            decreases data.len() - i,
        {
            let ghost before = bytes@;
            bytes[at + i] = data[i];
            i = i + 1;
            assert(bytes@ =~= old(self)@.subrange(0, at as int) + data@.take(i as int) + old(
                self,
            )@.skip(at + i)) by {
                assert(bytes@ == before.update(at + i - 1, data@[i - 1]));
            }
        }
        assert(data@.take(i as int) =~= data@);
    }

    /// The number of bytes in the buffer.
    pub fn len(&self) -> (n: usize)
        ensures
            n == self@.len(),
    {
        self.get_data().len()
    }
}

} // verus!
