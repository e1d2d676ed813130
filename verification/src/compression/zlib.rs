//! The Deflate codec. Streams carry no zlib header.

use crate::compression::{
    copy_at, put_stream, CodecEncodeImplementation, CodecImplementation, CompressionCodec,
    CompressionCodecType, CompressionEncoder, DecompressResult, Decoded,
};
use crate::error::Error;
use crate::header::CodecType;
use flate2::{Decompress, FlushDecompress, Status};
use vstd::prelude::*;

verus! {

/// The length of an input from which on the window of the encoder slides: two windows of 32 kibibytes,
/// less the 262 bytes that are looked at ahead.
pub const DEFLATE_WINDOW: u32 = 65_274;

/// The raw Deflate stream that `zlib_bitexact_rs::deflate_raw` makes.
pub uninterp spec fn deflated(input: Seq<u8>) -> Seq<u8>;

/// What one call of `flate2::Decompress::decompress` on a fresh object and a zeroed buffer comes
/// to: whether it stopped for want of room or input, the bytes written, the bytes read, and the
/// buffer; nothing where it fails.
pub uninterp spec fn inflated(input: Seq<u8>, out_len: nat, zlib_header: bool) -> Option<
    (bool, nat, nat, Seq<u8>),
>;

/// Whether a stream is inflated to `data` and nothing else.
pub open spec fn inflates_to(stream: Seq<u8>, data: Seq<u8>) -> bool {
    inflated(stream, data.len(), false) matches Some((short, out, read, buf)) && !short && out
        == data.len() && buf == data
}

/// `flate2::Decompress`, made by `new` and given the whole input by one `decompress` with
/// `FlushDecompress::Finish`. The result depends on the bytes, the room and the header flag alone.
/// No more is written than there is room for, and no more is read than there is.
#[verifier::external_body]
fn inflate(input: &[u8], out_len: usize, zlib_header: bool) -> (r: Option<(bool, u64, u64, Vec<u8>)>)
    ensures
        match r {
            Some((short, out, read, buf)) => inflated(input@, out_len as nat, zlib_header) == Some(
                (short, out as nat, read as nat, buf@),
            ) && buf@.len() == out_len && out <= out_len && read <= input@.len(),
            None => inflated(input@, out_len as nat, zlib_header) is None,
        },
{
    let mut buf = vec![0u8; out_len];
    let mut engine = Decompress::new(zlib_header);
    let short = match engine.decompress(input, &mut buf, FlushDecompress::Finish) {
        Ok(Status::Ok) => false,
        Ok(Status::BufError) => true,
        Ok(Status::StreamEnd) => false,
        Err(_) => return None,
    };
    Some((short, engine.total_out(), engine.total_in(), buf))
}

/// `zlib_bitexact_rs::deflate_raw`: the stream depends on the input alone. It is a raw Deflate
/// stream, which any inflater reads back to the input; this is claimed for an input that is not
/// empty. The input is too short for the encoder to slide its window: there it takes the size of the
/// window from the place of the last match, which may be less.
#[verifier::external_body]
fn deflate(input: &[u8]) -> (r: Vec<u8>)
    requires
        input@.len() < DEFLATE_WINDOW,
    ensures
        r@ == deflated(input@),
        0 < input@.len() ==> inflates_to(r@, input@),
{
    zlib_bitexact_rs::deflate_raw(input)
}

/// Decompresses Deflate streams.
pub struct ZlibCodec {
    hunk_size: u32,
}

/// What an attempt to inflate comes to: it fails unless the output was filled.
pub open spec fn inflate_outcome(attempt: Option<(bool, nat, nat, Seq<u8>)>, n: nat) -> Decoded {
    match attempt {
        Some((short, out, read, buf)) => if short || out != n {
            Err(Error::DecompressionError)
        } else {
            Ok((buf, n, read))
        },
        None => Err(Error::DecompressionError),
    }
}

impl CodecImplementation for ZlibCodec {
    open spec fn accepts(hunk_size: u32) -> bool {
        true
    }

    closed spec fn hunk(&self) -> u32 {
        self.hunk_size
    }

    open spec fn wf(&self) -> bool {
        true
    }

    open spec fn decoded(hunk_size: u32, input: Seq<u8>, old_out: Seq<u8>) -> Decoded {
        inflate_outcome(inflated(input, old_out.len(), false), old_out.len())
    }

    fn new(hunk_size: u32) -> (r: Result<Self, Error>) {
        Ok(ZlibCodec { hunk_size })
    }

    fn decompress(&mut self, input: &[u8], output: &mut [u8]) -> (r: Result<DecompressResult, Error>) {
        let len = input.len();
        let attempt = inflate(input, output.len(), false);
        finish_inflate(attempt, output)
    }
}

/// Takes the result of an attempt to inflate into the output.
pub fn finish_inflate(attempt: Option<(bool, u64, u64, Vec<u8>)>, output: &mut [u8]) -> (r: Result<
    DecompressResult,
    Error,
>)
    requires
        attempt matches Some((short, out, read, buf)) ==> buf@.len() == old(output)@.len() && read
            <= usize::MAX,
    ensures
        final(output)@.len() == old(output)@.len(),
        ({
            let seen = match attempt {
                Some((short, out, read, buf)) => Some((short, out as nat, read as nat, buf@)),
                None => None,
            };
            match r {
                Ok(d) => inflate_outcome(seen, old(output)@.len()) == Decoded::Ok(
                    (final(output)@, d.bytes_out as nat, d.bytes_read as nat),
                ),
                Err(e) => inflate_outcome(seen, old(output)@.len()) == Decoded::Err(e),
            }
        }),
{
    match attempt {
        None => Err(Error::DecompressionError),
        Some((short, out, read, buf)) => {
            if short || out != output.len() as u64 {
                return Err(Error::DecompressionError);
            }
            copy_at(output, 0, buf.as_slice());
            assert(output@ =~= buf@);
            Ok(DecompressResult::new(output.len(), read as usize))
        },
    }
}

impl CompressionCodecType for ZlibCodec {
    open spec fn spec_codec_type(&self) -> CodecType {
        CodecType::Zlib
    }

    fn codec_type(&self) -> (r: CodecType) {
        CodecType::Zlib
    }
}

impl CompressionCodec for ZlibCodec {

}

/// Compresses to Deflate streams, at the best level.
pub struct ZlibEncoder {
    hunk_size: u32,
}

impl CodecEncodeImplementation for ZlibEncoder {
    type Decoder = ZlibCodec;

    open spec fn encoder_accepts(hunk_size: u32) -> bool {
        true
    }

    closed spec fn encoder_hunk(&self) -> u32 {
        self.hunk_size
    }

    open spec fn encoder_wf(&self) -> bool {
        true
    }

    /// Less than what makes the window of the encoder slide.
    open spec fn takes(hunk_size: u32, n: nat) -> bool {
        n < DEFLATE_WINDOW
    }

    open spec fn outcome(hunk_size: u32, input: Seq<u8>, cap: nat, r: Option<Seq<u8>>) -> bool {
        &&& r == crate::compression::fitting(deflated(input), cap)
        &&& Self::reliable(hunk_size, input.len()) ==> inflates_to(deflated(input), input)
    }

    open spec fn reliable(hunk_size: u32, n: nat) -> bool {
        0 < n
    }

    proof fn outcome_is_decoded(hunk_size: u32, input: Seq<u8>, cap: nat, s: Seq<u8>, old_out: Seq<u8>) {
        let decoded = ZlibCodec::decoded(hunk_size, s, old_out);
        let accepts = ZlibCodec::accepts(hunk_size);
    }

    fn new(hunk_size: u32) -> (r: Result<Self, Error>) {
        Ok(ZlibEncoder { hunk_size })
    }

    fn compress(&mut self, input: &[u8], output: &mut [u8]) -> (r: Result<usize, Error>) {
        let stream = deflate(input);
        put_stream(stream.as_slice(), output)
    }
}

impl CompressionEncoder for ZlibEncoder {

}

} // verus!
