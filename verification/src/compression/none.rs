//! The codec that copies.

use crate::compression::{
    copy_at, put_stream, CodecEncodeImplementation, CodecImplementation, CompressionCodec,
    CompressionCodecType, CompressionEncoder, DecompressResult, Decoded,
};
use crate::error::Error;
use crate::header::CodecType;
use vstd::prelude::*;

verus! {

/// Copies its input, as far as the output holds it.
pub struct NoneCodec {
    hunk_size: u32,
}

impl CodecImplementation for NoneCodec {
    open spec fn accepts(hunk_size: u32) -> bool {
        true
    }

    closed spec fn hunk(&self) -> u32 {
        self.hunk_size
    }

    open spec fn wf(&self) -> bool {
        true
    }

    open spec fn decoded(hunk_size: u32, input: Seq<u8>, old_out: Seq<u8>) -> Decoded {
        let n = if input.len() <= old_out.len() {
            input.len()
        } else {
            old_out.len()
        };
        Ok((input.take(n as int) + old_out.skip(n as int), n, input.len()))
    }

    fn new(hunk_size: u32) -> (r: Result<Self, Error>) {
        Ok(NoneCodec { hunk_size })
    }

    fn decompress(&mut self, input: &[u8], output: &mut [u8]) -> (r: Result<DecompressResult, Error>) {
        let n = if input.len() <= output.len() {
            input.len()
        } else {
            output.len()
        };
        copy_at(output, 0, &input[0..n]);
        assert(output@ =~= input@.take(n as int) + old(output)@.skip(n as int));
        Ok(DecompressResult::new(n, input.len()))
    }
}

impl CompressionCodecType for NoneCodec {
    open spec fn spec_codec_type(&self) -> CodecType {
        CodecType::Uncompressed
    }

    fn codec_type(&self) -> (r: CodecType) {
        CodecType::Uncompressed
    }
}

impl CompressionCodec for NoneCodec {

}

/// Copies its input, where it fits.
pub struct NoneEncoder {
    hunk_size: u32,
}

impl CodecEncodeImplementation for NoneEncoder {
    type Decoder = NoneCodec;

    open spec fn encoder_accepts(hunk_size: u32) -> bool {
        true
    }

    closed spec fn encoder_hunk(&self) -> u32 {
        self.hunk_size
    }

    open spec fn encoder_wf(&self) -> bool {
        true
    }

    open spec fn takes(hunk_size: u32, n: nat) -> bool {
        true
    }

    open spec fn outcome(hunk_size: u32, input: Seq<u8>, cap: nat, r: Option<Seq<u8>>) -> bool {
        r == crate::compression::fitting(input, cap)
    }

    open spec fn reliable(hunk_size: u32, n: nat) -> bool {
        true
    }

    proof fn outcome_is_decoded(hunk_size: u32, input: Seq<u8>, cap: nat, s: Seq<u8>, old_out: Seq<u8>) {
        let decoded = NoneCodec::decoded(hunk_size, s, old_out);
        let accepts = NoneCodec::accepts(hunk_size);
        assert(input.take(input.len() as int) + old_out.skip(input.len() as int) =~= input);
    }

    fn new(hunk_size: u32) -> (r: Result<Self, Error>) {
        Ok(NoneEncoder { hunk_size })
    }

    fn compress(&mut self, input: &[u8], output: &mut [u8]) -> (r: Result<usize, Error>) {
        put_stream(input, output)
    }
}

impl CompressionEncoder for NoneEncoder {

}

} // verus!
