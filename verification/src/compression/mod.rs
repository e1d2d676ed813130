//! The codecs: what it takes to be one, and what they all share.

use crate::error::Error;
use crate::header::CodecType;
use vstd::prelude::*;


pub mod cdrom;
pub mod codec_laws;
pub mod codecs;
pub mod ecc;
pub mod ecc_laws;
pub mod flac;
pub mod frame_laws;
pub mod huff;
pub mod lzma;
pub mod none;
pub mod zlib;
pub mod zstd;

verus! {

/// What decompressing a hunk comes to: the output, the number of bytes written to it, and the
/// number of bytes read.
pub type Decoded = Result<(Seq<u8>, nat, nat), Error>;

/// The result of decompressing a hunk.
#[derive(Debug, Clone, Copy, PartialEq, Eq, Structural)]
pub struct DecompressResult {
    pub bytes_out: usize,
    pub bytes_read: usize,
}

impl DecompressResult {
    pub fn new(out: usize, read: usize) -> (r: Self)
        ensures
            r.bytes_out == out,
            r.bytes_read == read,
    {
        DecompressResult { bytes_out: out, bytes_read: read }
    }

    /// The number of bytes written to the output.
    pub fn total_out(&self) -> (r: usize)
        ensures
            r == self.bytes_out,
    {
        self.bytes_out
    }

    /// The number of bytes read from the input.
    pub fn total_in(&self) -> (r: usize)
        ensures
            r == self.bytes_read,
    {
        self.bytes_read
    }

    /// The result of two decompressions, one after the other.
    pub fn plus(self, rhs: Self) -> (r: Self)
        requires
            self.bytes_out + rhs.bytes_out <= usize::MAX,
            self.bytes_read + rhs.bytes_read <= usize::MAX,
        ensures
            r.bytes_out == self.bytes_out + rhs.bytes_out,
            r.bytes_read == self.bytes_read + rhs.bytes_read,
    {
        DecompressResult {
            bytes_out: self.bytes_out + rhs.bytes_out,
            bytes_read: self.bytes_read + rhs.bytes_read,
        }
    }
}

/// A codec that decompresses hunks.
pub trait CompressionCodec: CodecImplementation + CompressionCodecType {

}

/// A codec of a known type.
pub trait CompressionCodecType {
    /// The type, as a specification.
    spec fn spec_codec_type(&self) -> CodecType;

    /// The type of the codec.
    fn codec_type(&self) -> (r: CodecType)
        ensures
            r == self.spec_codec_type(),
    ;
}

/// The decompression side of a codec.
pub trait CodecImplementation: Sized {
    /// Whether the codec works on hunks of the given size.
    spec fn accepts(hunk_size: u32) -> bool;

    /// The hunk size that this codec was made for.
    spec fn hunk(&self) -> u32;

    /// Whether the parts of the codec fit together.
    spec fn wf(&self) -> bool;

    /// What decompressing `input` into a buffer that holds `old_out` comes to.
    spec fn decoded(hunk_size: u32, input: Seq<u8>, old_out: Seq<u8>) -> Decoded;

    /// Makes a codec for hunks of the given size.
    fn new(hunk_size: u32) -> (r: Result<Self, Error>)
        ensures
            match r {
                Ok(c) => Self::accepts(hunk_size) && c.hunk() == hunk_size && c.wf(),
                Err(e) => !Self::accepts(hunk_size) && e == Error::CodecError,
            },
    ;

    /// Decompresses `input` into `output`.
    fn decompress(&mut self, input: &[u8], output: &mut [u8]) -> (r: Result<DecompressResult, Error>)
        requires
            old(self).wf(),
            Self::accepts(old(self).hunk()),
            input@.len() < 0x1000_0000_0000_0000,
        ensures
            final(self).wf(),
            final(self).hunk() == old(self).hunk(),
            final(output)@.len() == old(output)@.len(),
            match r {
                Ok(d) => Self::decoded(old(self).hunk(), input@, old(output)@) == Decoded::Ok(
                    (final(output)@, d.bytes_out as nat, d.bytes_read as nat),
                ) && d.bytes_out <= old(output)@.len() && d.bytes_read <= input@.len(),
                Err(e) => Self::decoded(old(self).hunk(), input@, old(output)@) == Decoded::Err(e),
            },
    ;
}

/// A codec that compresses hunks.
pub trait CompressionEncoder: CodecEncodeImplementation {

}

/// The compression side of a codec.
pub trait CodecEncodeImplementation: Sized {
    /// The decompression side.
    type Decoder: CodecImplementation;

    /// Whether the codec works on hunks of the given size.
    spec fn encoder_accepts(hunk_size: u32) -> bool;

    /// The hunk size that this codec was made for.
    spec fn encoder_hunk(&self) -> u32;

    /// Whether the parts of the codec fit together.
    spec fn encoder_wf(&self) -> bool;

    /// Whether the codec can be given `n` bytes to compress.
    spec fn takes(hunk_size: u32, n: nat) -> bool;

    /// Whether compressing `input` into a buffer of `cap` bytes may come to `r`, where nothing says
    /// that the codec gave up.
    spec fn outcome(hunk_size: u32, input: Seq<u8>, cap: nat, r: Option<Seq<u8>>) -> bool;

    /// Whether what the codec makes of `n` bytes is known to be decompressed to the same bytes.
    spec fn reliable(hunk_size: u32, n: nat) -> bool;

    /// What the codec makes of its input fits the buffer, and is decompressed to the input.
    proof fn outcome_is_decoded(hunk_size: u32, input: Seq<u8>, cap: nat, s: Seq<u8>, old_out: Seq<u8>)
        requires
            Self::encoder_accepts(hunk_size),
            Self::takes(hunk_size, input.len()),
            Self::outcome(hunk_size, input, cap, Some(s)),
            old_out.len() == input.len(),
        ensures
            s.len() <= cap,
            Self::reliable(hunk_size, input.len()) ==> Self::Decoder::accepts(hunk_size) && (
            Self::Decoder::decoded(hunk_size, s, old_out) matches Ok((out, n, m)) && out == input && n == input.len()),
    ;

    /// Makes a codec for hunks of the given size.
    fn new(hunk_size: u32) -> (r: Result<Self, Error>)
        ensures
            match r {
                Ok(c) => Self::encoder_accepts(hunk_size) && c.encoder_hunk() == hunk_size
                    && c.encoder_wf(),
                Err(e) => !Self::encoder_accepts(hunk_size) && e == Error::CodecError,
            },
    ;

    /// Compresses `input` into `output` and returns the number of bytes written. A codec that makes
    /// nothing that fits gives up with `CompressionError`.
    fn compress(&mut self, input: &[u8], output: &mut [u8]) -> (r: Result<usize, Error>)
        requires
            old(self).encoder_wf(),
            Self::encoder_accepts(old(self).encoder_hunk()),
            Self::takes(old(self).encoder_hunk(), input@.len()),
        ensures
            final(self).encoder_wf(),
            final(self).encoder_hunk() == old(self).encoder_hunk(),
            final(output)@.len() == old(output)@.len(),
            match r {
                Ok(n) => n <= final(output)@.len() && Self::outcome(
                    old(self).encoder_hunk(),
                    input@,
                    old(output)@.len(),
                    Some(final(output)@.take(n as int)),
                ),
                Err(e) => e == Error::CompressionError && Self::outcome(
                    old(self).encoder_hunk(),
                    input@,
                    old(output)@.len(),
                    None,
                ),
            },
    ;
}

/// Copies `src` to the place `at` of `dst`.
pub fn copy_at(dst: &mut [u8], at: usize, src: &[u8])
    requires
        at + src@.len() <= old(dst)@.len(),
    ensures
        final(dst)@ == old(dst)@.take(at as int) + src@ + old(dst)@.skip(at + src@.len()),
{
    let total = dst.len();
    let n = src.len();
    let mut i: usize = 0;
    while i < n
        invariant
            i <= n == src@.len(),
            at + n <= total == dst@.len(),
            dst@.len() == old(dst)@.len(),
            forall|j: int|
                0 <= j < total ==> #[trigger] dst@[j] == (if at <= j < at + i {
                    src@[j - at]
                } else {
                    old(dst)@[j]
                }),
        decreases n - i,
    {
        dst[at + i] = src[i];
        i = i + 1;
    }
    assert(dst@ =~= old(dst)@.take(at as int) + src@ + old(dst)@.skip(at + src@.len()));
}

/// The outcome of a codec that makes one stream out of its input: the stream, where it fits.
pub open spec fn fitting(stream: Seq<u8>, cap: nat) -> Option<Seq<u8>> {
    if stream.len() <= cap {
        Some(stream)
    } else {
        None
    }
}

/// Puts a stream into the output, where it fits.
pub fn put_stream(stream: &[u8], output: &mut [u8]) -> (r: Result<usize, Error>)
    ensures
        final(output)@.len() == old(output)@.len(),
        match r {
            Ok(n) => n <= final(output)@.len() && fitting(stream@, old(output)@.len()) == Some(
                final(output)@.take(n as int),
            ),
            Err(e) => e == Error::CompressionError && fitting(stream@, old(output)@.len()) is None,
        },
{
    if stream.len() > output.len() {
        return Err(Error::CompressionError);
    }
    copy_at(output, 0, stream);
    assert(output@.take(stream@.len() as int) =~= stream@);
    Ok(stream.len())
}

} // verus!
