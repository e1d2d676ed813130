//! Checksums.

use crc::Crc;
use sha1::{Digest, Sha1};
use vstd::prelude::*;

verus! {

/// The SHA-1 digest of a run of bytes, as the `sha1` crate computes it.
pub uninterp spec fn sha1_of(data: Seq<u8>) -> Seq<u8>;

/// The checksum `CRC_16_IBM_3740` of a run of bytes, as the `crc` crate computes it.
pub uninterp spec fn crc16_of(data: Seq<u8>) -> u16;

/// The twenty bytes of a SHA-1 digest.
pub open spec fn digest(data: Seq<u8>) -> Seq<u8> {
    Seq::new(20, |i: int| sha1_of(data)[i])
}

/// `sha1::Sha1`, made by `new`, given the whole of `data` by one `update` and read by `finalize`.
/// The result is the digest, which depends on nothing but the bytes.
#[verifier::external_body]
fn sha1_bytes(data: &[u8]) -> (r: [u8; 20])
    ensures
        r@ == sha1_of(data@),
{
    let mut h = Sha1::new();
    h.update(data);
    h.finalize().into()
}

/// The SHA-1 digest of `data`.
pub fn sha1_digest(data: &[u8]) -> (r: [u8; 20])
    ensures
        r@ == digest(data@),
{
    let r = sha1_bytes(data);
    assert(r@ =~= digest(data@));
    r
}

/// `crc::Crc::<u16>`, made for `crc::CRC_16_IBM_3740`, and its `checksum` of `data`, which depends
/// on nothing but the bytes.
#[verifier::external_body]
pub(crate) fn crc16(data: &[u8]) -> (r: u16)
    ensures
        r == crc16_of(data@),
{
    Crc::<u16>::new(&crc::CRC_16_IBM_3740).checksum(data)
}

} // verus!
