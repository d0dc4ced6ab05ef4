//! The checksum that guards each record of the log.

use vstd::prelude::*;

verus! {

/// The CRC-32/AUTOSAR checksum of `data`.
pub uninterp spec fn crc32_autosar(data: Seq<u8>) -> u32;

/// Calls `crc::Crc::<u32>::checksum` on a `Crc` built with the parameters
/// `crc::CRC_32_AUTOSAR`. Nothing is proved of it: the result is taken to be
/// the CRC-32/AUTOSAR checksum of the bytes given, a function of those bytes
/// alone.
#[verifier::external_body]
pub(crate) fn checksum(data: &[u8]) -> (sum: u32)
    ensures
        sum == crc32_autosar(data@),
{
    crc::Crc::<u32>::new(&crc::CRC_32_AUTOSAR).checksum(data)
}

} // verus!
