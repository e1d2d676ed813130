//! The Zstandard codec.

use crate::compression::{
    copy_at, put_stream, CodecEncodeImplementation, CodecImplementation, CompressionCodec,
    CompressionCodecType, CompressionEncoder, DecompressResult, Decoded,
};
use crate::error::Error;
use crate::header::CodecType;
use libzstd_bitexact_rs::StreamEncoder;
use ruzstd::decoding::FrameDecoder;
use vstd::prelude::*;

verus! {

/// The highest compression level.
pub const ZSTD_LEVEL: i32 = 22;

/// The longest input that is compressed: no room for 300 sequences of 3 bytes or more of which one
/// is 65,536 bytes longer.
pub const ZSTD_MAX_INPUT: u32 = 66_435;

/// The frame that `libzstd_bitexact_rs::StreamEncoder` makes of one input; nothing where it fails.
pub uninterp spec fn zstd_encoded(input: Seq<u8>, level: i32) -> Option<Seq<u8>>;

/// What `ruzstd::decoding::FrameDecoder::decode_all` comes to on a fresh decoder and a zeroed
/// buffer: the bytes written, the bytes read, and the buffer; nothing where it fails.
pub uninterp spec fn zstd_decoded(input: Seq<u8>, out_len: nat) -> Option<(nat, nat, Seq<u8>)>;

/// Whether a stream is decoded to `data` and nothing else.
pub open spec fn zstd_unpacks(stream: Seq<u8>, data: Seq<u8>) -> bool {
    zstd_decoded(stream, data.len()) matches Some((out, read, buf)) && out == data.len() && buf == data
}

/// `ruzstd::decoding::FrameDecoder`, made by `new`, with its `decode_all` and
/// `bytes_read_from_source`. The result depends on the bytes and the room alone. No more is written
/// than there is room for, and no more is read than there is.
#[verifier::external_body]
fn zstd_decode(input: &[u8], out_len: usize) -> (r: Option<(usize, u64, Vec<u8>)>)
    ensures
        match r {
            Some((out, read, buf)) => zstd_decoded(input@, out_len as nat) == Some(
                (out as nat, read as nat, buf@),
            ) && buf@.len() == out_len && out <= out_len && read <= input@.len(),
            None => zstd_decoded(input@, out_len as nat) is None,
        },
{
    let mut buf = vec![0u8; out_len];
    let mut decoder = FrameDecoder::new();
    match decoder.decode_all(input, &mut buf) {
        Ok(out) => Some((out, decoder.bytes_read_from_source(), buf)),
        Err(_) => None,
    }
}

/// `libzstd_bitexact_rs::StreamEncoder`, made by `new` for a level and given the whole input by
/// `finish`. The frame depends on the input and the level alone, and is decoded to the input; the
/// latter is claimed for an input that is not empty. The input is too short for the encoder to split
/// a block in which the length of a sequence takes more than 16 bits: where such a sequence is the
/// first behind a split, the encoder looks for it in the part before, past the end of that part.
/// A block is split from 300 sequences on.
#[verifier::external_body]
fn zstd_encode(input: &[u8], level: i32) -> (r: Option<Vec<u8>>)
    requires
        input@.len() <= ZSTD_MAX_INPUT,
    ensures
        match r {
            Some(v) => zstd_encoded(input@, level) == Some(v@) && (0 < input@.len() ==> zstd_unpacks(
                v@,
                input@,
            )),
            None => zstd_encoded(input@, level) is None,
        },
{
    let mut out = Vec::new();
    match StreamEncoder::new(level).finish(input, &mut out) {
        Ok(()) => Some(out),
        Err(_) => None,
    }
}

/// Decompresses Zstandard frames.
pub struct ZstdCodec {
    hunk_size: u32,
}

/// What an attempt to decode comes to: it fails unless the output was filled.
pub open spec fn zstd_outcome(attempt: Option<(nat, nat, Seq<u8>)>, n: nat) -> Decoded {
    match attempt {
        Some((out, read, buf)) => if out != n {
            Err(Error::DecompressionError)
        } else {
            Ok((buf, n, read))
        },
        None => Err(Error::DecompressionError),
    }
}

/// Takes the result of an attempt to decode into the output.
pub fn finish_zstd(attempt: Option<(usize, u64, Vec<u8>)>, output: &mut [u8]) -> (r: Result<
    DecompressResult,
    Error,
>)
    requires
        attempt matches Some((out, read, buf)) ==> buf@.len() == old(output)@.len() && read
            <= usize::MAX,
    ensures
        final(output)@.len() == old(output)@.len(),
        ({
            let seen = match attempt {
                Some((out, read, buf)) => Some((out as nat, read as nat, buf@)),
                None => None,
            };
            match r {
                Ok(d) => zstd_outcome(seen, old(output)@.len()) == Decoded::Ok(
                    (final(output)@, d.bytes_out as nat, d.bytes_read as nat),
                ),
                Err(e) => zstd_outcome(seen, old(output)@.len()) == Decoded::Err(e),
            }
        }),
{
    match attempt {
        None => Err(Error::DecompressionError),
        Some((out, read, buf)) => {
            if out != output.len() {
                return Err(Error::DecompressionError);
            }
            copy_at(output, 0, buf.as_slice());
            assert(output@ =~= buf@);
            Ok(DecompressResult::new(out, read as usize))
        },
    }
}

impl CodecImplementation for ZstdCodec {
    open spec fn accepts(hunk_size: u32) -> bool {
        true
    }

    closed spec fn hunk(&self) -> u32 {
        self.hunk_size
    }

    open spec fn wf(&self) -> bool {
        true
    }

    open spec fn decoded(hunk_size: u32, input: Seq<u8>, old_out: Seq<u8>) -> Decoded {
        zstd_outcome(zstd_decoded(input, old_out.len()), old_out.len())
    }

    fn new(hunk_size: u32) -> (r: Result<Self, Error>) {
        Ok(ZstdCodec { hunk_size })
    }

    fn decompress(&mut self, input: &[u8], output: &mut [u8]) -> (r: Result<DecompressResult, Error>) {
        let len = input.len();
        let attempt = zstd_decode(input, output.len());
        finish_zstd(attempt, output)
    }
}

impl CompressionCodecType for ZstdCodec {
    open spec fn spec_codec_type(&self) -> CodecType {
        CodecType::ZstdV5
    }

    fn codec_type(&self) -> (r: CodecType) {
        CodecType::ZstdV5
    }
}

impl CompressionCodec for ZstdCodec {

}

/// Compresses to Zstandard frames, at the highest level.
pub struct ZstdEncoder {
    hunk_size: u32,
}

impl CodecEncodeImplementation for ZstdEncoder {
    type Decoder = ZstdCodec;

    open spec fn encoder_accepts(hunk_size: u32) -> bool {
        true
    }

    closed spec fn encoder_hunk(&self) -> u32 {
        self.hunk_size
    }

    open spec fn encoder_wf(&self) -> bool {
        true
    }

    /// The encoder can split the input into blocks.
    open spec fn takes(hunk_size: u32, n: nat) -> bool {
        n <= ZSTD_MAX_INPUT
    }

    open spec fn outcome(hunk_size: u32, input: Seq<u8>, cap: nat, r: Option<Seq<u8>>) -> bool {
        match zstd_encoded(input, ZSTD_LEVEL) {
            None => r is None,
            Some(stream) => {
                &&& r == crate::compression::fitting(stream, cap)
                &&& Self::reliable(hunk_size, input.len()) ==> zstd_unpacks(stream, input)
            },
        }
    }

    open spec fn reliable(hunk_size: u32, n: nat) -> bool {
        0 < n
    }

    proof fn outcome_is_decoded(hunk_size: u32, input: Seq<u8>, cap: nat, s: Seq<u8>, old_out: Seq<u8>) {
        let decoded = ZstdCodec::decoded(hunk_size, s, old_out);
        let accepts = ZstdCodec::accepts(hunk_size);
    }

    fn new(hunk_size: u32) -> (r: Result<Self, Error>) {
        Ok(ZstdEncoder { hunk_size })
    }

    fn compress(&mut self, input: &[u8], output: &mut [u8]) -> (r: Result<usize, Error>) {
        match zstd_encode(input, ZSTD_LEVEL) {
            None => Err(Error::CompressionError),
            Some(stream) => put_stream(stream.as_slice(), output),
        }
    }
}

impl CompressionEncoder for ZstdEncoder {

}

} // verus!
