//! The Huffman codec.

use crate::bitstream::BitCursor;
use crate::compression::{
    copy_at, put_stream, CodecEncodeImplementation, CodecImplementation, CompressionCodec,
    CompressionCodecType, CompressionEncoder, DecompressResult, Decoded,
};
use crate::error::Error;
use crate::header::CodecType;
use crate::huffman;
use crate::huffman::HuffmanDecoder;
use crate::huffman_encode;
use vstd::prelude::*;

verus! {

/// Decompresses bytes in Huffman codes of at most 16 bits.
pub struct HuffmanCodec {
    hunk_size: u32,
}

impl CodecImplementation for HuffmanCodec {
    open spec fn accepts(hunk_size: u32) -> bool {
        true
    }

    closed spec fn hunk(&self) -> u32 {
        self.hunk_size
    }

    open spec fn wf(&self) -> bool {
        true
    }

    /// The whole output is filled. The bytes read are those that the last code left behind.
    open spec fn decoded(hunk_size: u32, input: Seq<u8>, old_out: Seq<u8>) -> Decoded {
        match huffman::decoded_8bit(input, old_out.len()) {
            Some((data, pos)) => Ok((data, old_out.len(), (pos / 8) as nat)),
            None => Err(Error::DecompressionError),
        }
    }

    fn new(hunk_size: u32) -> (r: Result<Self, Error>) {
        Ok(HuffmanCodec { hunk_size })
    }

    fn decompress(&mut self, input: &[u8], output: &mut [u8]) -> (r: Result<DecompressResult, Error>) {
        let mut cur = BitCursor::new(input);
        let decoder = match HuffmanDecoder::from_huffman_tree(&mut cur, 256, 16) {
            Ok(d) => d,
            Err(e) => {
                return Err(e);
            },
        };
        let data = match decoder.decode_all(&mut cur, output.len()) {
            Ok(v) => v,
            Err(e) => {
                return Err(e);
            },
        };
        copy_at(output, 0, data.as_slice());
        assert(output@ =~= data@);
        let bits: u64 = 8 * input.len() as u64 - cur.remaining();
        Ok(DecompressResult::new(output.len(), (bits / 8) as usize))
    }
}

impl CompressionCodecType for HuffmanCodec {
    open spec fn spec_codec_type(&self) -> CodecType {
        CodecType::HuffV5
    }

    fn codec_type(&self) -> (r: CodecType) {
        CodecType::HuffV5
    }
}

impl CompressionCodec for HuffmanCodec {

}

/// Compresses bytes to Huffman codes of at most 16 bits.
pub struct HuffmanEncoder {
    hunk_size: u32,
}

impl CodecEncodeImplementation for HuffmanEncoder {
    type Decoder = HuffmanCodec;

    open spec fn encoder_accepts(hunk_size: u32) -> bool {
        true
    }

    closed spec fn encoder_hunk(&self) -> u32 {
        self.hunk_size
    }

    open spec fn encoder_wf(&self) -> bool {
        true
    }

    /// The symbols are counted in 32 bits, and the weights take one bit more than the counts.
    open spec fn takes(hunk_size: u32, n: nat) -> bool {
        2 * n <= u32::MAX
    }

    open spec fn outcome(hunk_size: u32, input: Seq<u8>, cap: nat, r: Option<Seq<u8>>) -> bool {
        r == crate::compression::fitting(huffman_encode::encoded_8bit(input), cap)
    }

    open spec fn reliable(hunk_size: u32, n: nat) -> bool {
        true
    }

    proof fn outcome_is_decoded(hunk_size: u32, input: Seq<u8>, cap: nat, s: Seq<u8>, old_out: Seq<u8>) {
        let decoded = HuffmanCodec::decoded(hunk_size, s, old_out);
        let accepts = HuffmanCodec::accepts(hunk_size);
        huffman::encoded_8bit_is_decoded(input);
    }

    fn new(hunk_size: u32) -> (r: Result<Self, Error>) {
        Ok(HuffmanEncoder { hunk_size })
    }

    fn compress(&mut self, input: &[u8], output: &mut [u8]) -> (r: Result<usize, Error>) {
        match huffman_encode::encode_8bit(input) {
            Ok(stream) => put_stream(stream.as_slice(), output),
            Err(()) => Err(Error::CompressionError),
        }
    }
}

impl CompressionEncoder for HuffmanEncoder {

}

} // verus!
