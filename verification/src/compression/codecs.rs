//! The codecs by their types.

use crate::compression::cdrom::{
    CdLzmaCodec, CdLzmaEncoder, CdZlibCodec, CdZlibEncoder, CdZstdCodec, CdZstdEncoder,
};
use crate::compression::flac::{CdFlacCodec, CdFlacEncoder, RawFlacCodec, RawFlacEncoder};
use crate::compression::huff::{HuffmanCodec, HuffmanEncoder};
use crate::compression::lzma::{LzmaCodec, LzmaEncoder};
use crate::compression::none::{NoneCodec, NoneEncoder};
use crate::compression::zlib::{ZlibCodec, ZlibEncoder, DEFLATE_WINDOW};
use crate::compression::zstd::{ZstdCodec, ZstdEncoder, ZSTD_MAX_INPUT};
use crate::compression::{CodecEncodeImplementation, CodecImplementation, DecompressResult, Decoded};
use crate::error::Error;
use crate::header::CodecType;
use vstd::prelude::*;

verus! {

/// Whether a codec can compress hunks of the given size.
pub open spec fn can_encode(c: CodecType, hunk_size: u32) -> bool {
    match c {
        CodecType::Uncompressed => NoneEncoder::encoder_accepts(hunk_size),
        CodecType::ZLibV5 => ZlibEncoder::encoder_accepts(hunk_size),
        CodecType::LzmaV5 => LzmaEncoder::encoder_accepts(hunk_size),
        CodecType::HuffV5 => HuffmanEncoder::encoder_accepts(hunk_size),
        CodecType::FlacV5 => RawFlacEncoder::encoder_accepts(hunk_size),
        CodecType::ZstdV5 => ZstdEncoder::encoder_accepts(hunk_size),
        CodecType::ZLibCdV5 => CdZlibEncoder::encoder_accepts(hunk_size),
        CodecType::LzmaCdV5 => CdLzmaEncoder::encoder_accepts(hunk_size),
        CodecType::FlacCdV5 => CdFlacEncoder::encoder_accepts(hunk_size),
        CodecType::ZstdCdV5 => CdZstdEncoder::encoder_accepts(hunk_size),
        _ => false,
    }
}

/// Whether there is a compression side to a codec.
pub open spec fn has_encoder(c: CodecType) -> bool {
    c !is Zlib && c !is ZlibPlus && c !is AV && c !is AVHuffV5
}

/// What stands in the way of compressing hunks of the given size.
pub open spec fn encoder_error(c: CodecType) -> Error {
    if has_encoder(c) {
        Error::CodecError
    } else {
        Error::UnsupportedFormat
    }
}

/// Whether a codec can be given whole hunks.
pub open spec fn encoder_takes(c: CodecType, hunk_size: u32) -> bool {
    match c {
        CodecType::HuffV5 => HuffmanEncoder::takes(hunk_size, hunk_size as nat),
        CodecType::LzmaV5 => LzmaEncoder::takes(hunk_size, hunk_size as nat),
        CodecType::ZLibV5 => ZlibEncoder::takes(hunk_size, hunk_size as nat),
        CodecType::ZstdV5 => ZstdEncoder::takes(hunk_size, hunk_size as nat),
        CodecType::ZLibCdV5 => CdZlibEncoder::takes(hunk_size, hunk_size as nat),
        CodecType::LzmaCdV5 => CdLzmaEncoder::takes(hunk_size, hunk_size as nat),
        CodecType::FlacCdV5 => hunk_size > 0 ==> CdFlacEncoder::takes(hunk_size, hunk_size as nat),
        CodecType::ZstdCdV5 => CdZstdEncoder::takes(hunk_size, hunk_size as nat),
        _ => true,
    }
}

/// Whether compressing a hunk into a buffer of `cap` bytes may come to `r`.
#[verifier::opaque]
pub open spec fn encoder_outcome(
    c: CodecType,
    hunk_size: u32,
    input: Seq<u8>,
    cap: nat,
    r: Option<Seq<u8>>,
) -> bool {
    match c {
        CodecType::Uncompressed => NoneEncoder::outcome(hunk_size, input, cap, r),
        CodecType::ZLibV5 => ZlibEncoder::outcome(hunk_size, input, cap, r),
        CodecType::LzmaV5 => LzmaEncoder::outcome(hunk_size, input, cap, r),
        CodecType::HuffV5 => HuffmanEncoder::outcome(hunk_size, input, cap, r),
        CodecType::FlacV5 => RawFlacEncoder::outcome(hunk_size, input, cap, r),
        CodecType::ZstdV5 => ZstdEncoder::outcome(hunk_size, input, cap, r),
        CodecType::ZLibCdV5 => CdZlibEncoder::outcome(hunk_size, input, cap, r),
        CodecType::LzmaCdV5 => CdLzmaEncoder::outcome(hunk_size, input, cap, r),
        CodecType::FlacCdV5 => CdFlacEncoder::outcome(hunk_size, input, cap, r),
        CodecType::ZstdCdV5 => CdZstdEncoder::outcome(hunk_size, input, cap, r),
        _ => false,
    }
}

/// Whether what a codec makes of a hunk is known to be decompressed to the hunk.
pub open spec fn encoder_reliable(c: CodecType, hunk_size: u32) -> bool {
    let n = hunk_size as nat;
    match c {
        CodecType::Uncompressed => NoneEncoder::reliable(hunk_size, n),
        CodecType::ZLibV5 => ZlibEncoder::reliable(hunk_size, n),
        CodecType::LzmaV5 => LzmaEncoder::reliable(hunk_size, n),
        CodecType::HuffV5 => HuffmanEncoder::reliable(hunk_size, n),
        CodecType::FlacV5 => RawFlacEncoder::reliable(hunk_size, n),
        CodecType::ZstdV5 => ZstdEncoder::reliable(hunk_size, n),
        CodecType::ZLibCdV5 => CdZlibEncoder::reliable(hunk_size, n),
        CodecType::LzmaCdV5 => CdLzmaEncoder::reliable(hunk_size, n),
        CodecType::FlacCdV5 => CdFlacEncoder::reliable(hunk_size, n),
        CodecType::ZstdCdV5 => CdZstdEncoder::reliable(hunk_size, n),
        _ => false,
    }
}

/// Whether a codec can decompress hunks of the given size.
pub open spec fn can_decode(c: CodecType, hunk_size: u32) -> bool {
    match c {
        CodecType::Uncompressed => true,
        CodecType::Zlib | CodecType::ZlibPlus | CodecType::ZLibV5 => ZlibCodec::accepts(hunk_size),
        CodecType::LzmaV5 => LzmaCodec::accepts(hunk_size),
        CodecType::HuffV5 => HuffmanCodec::accepts(hunk_size),
        CodecType::FlacV5 => RawFlacCodec::accepts(hunk_size),
        CodecType::ZstdV5 => ZstdCodec::accepts(hunk_size),
        CodecType::ZLibCdV5 => CdZlibCodec::accepts(hunk_size),
        CodecType::LzmaCdV5 => CdLzmaCodec::accepts(hunk_size),
        CodecType::FlacCdV5 => CdFlacCodec::accepts(hunk_size),
        CodecType::ZstdCdV5 => CdZstdCodec::accepts(hunk_size),
        _ => false,
    }
}

/// The type of the codec that decompresses for a type: the older names of Deflate stand for the same
/// codec.
pub open spec fn decoder_kind(c: CodecType) -> CodecType {
    match c {
        CodecType::Zlib | CodecType::ZlibPlus => CodecType::ZLibV5,
        _ => c,
    }
}

/// What can be compressed can be decompressed.
pub proof fn lemma_can_decode(c: CodecType, hunk_size: u32)
    requires
        can_encode(c, hunk_size),
    ensures
        can_decode(c, hunk_size),
        decoder_kind(c) == c,
{
}

/// What stands in the way of decompressing hunks of the given size.
pub open spec fn decoder_error(c: CodecType) -> Error {
    if c is AV || c is AVHuffV5 {
        Error::UnsupportedFormat
    } else {
        Error::CodecError
    }
}

/// What decompressing `input` into a buffer that holds `old_out` comes to.
#[verifier::opaque]
pub open spec fn codec_decoded(c: CodecType, hunk_size: u32, input: Seq<u8>, old_out: Seq<u8>) -> Decoded {
    match c {
        CodecType::Uncompressed => NoneCodec::decoded(hunk_size, input, old_out),
        CodecType::Zlib | CodecType::ZlibPlus | CodecType::ZLibV5 => ZlibCodec::decoded(
            hunk_size,
            input,
            old_out,
        ),
        CodecType::LzmaV5 => LzmaCodec::decoded(hunk_size, input, old_out),
        CodecType::HuffV5 => HuffmanCodec::decoded(hunk_size, input, old_out),
        CodecType::FlacV5 => RawFlacCodec::decoded(hunk_size, input, old_out),
        CodecType::ZstdV5 => ZstdCodec::decoded(hunk_size, input, old_out),
        CodecType::ZLibCdV5 => CdZlibCodec::decoded(hunk_size, input, old_out),
        CodecType::LzmaCdV5 => CdLzmaCodec::decoded(hunk_size, input, old_out),
        CodecType::FlacCdV5 => CdFlacCodec::decoded(hunk_size, input, old_out),
        CodecType::ZstdCdV5 => CdZstdCodec::decoded(hunk_size, input, old_out),
        _ => Err(Error::UnsupportedFormat),
    }
}

/// What a codec makes of a hunk fits the buffer, and is decompressed to the hunk.
pub proof fn encoded_hunk_is_decoded(
    c: CodecType,
    hunk_size: u32,
    input: Seq<u8>,
    cap: nat,
    s: Seq<u8>,
    old_out: Seq<u8>,
)
    requires
        hunk_size > 0,
        can_encode(c, hunk_size),
        encoder_takes(c, hunk_size),
        input.len() == hunk_size,
        old_out.len() == hunk_size,
        encoder_outcome(c, hunk_size, input, cap, Some(s)),
    ensures
        s.len() <= cap,
        encoder_reliable(c, hunk_size) ==> can_decode(c, hunk_size) && (codec_decoded(
            c,
            hunk_size,
            s,
            old_out,
        ) matches Ok((out, n, m)) && out == input && n == input.len()),
{
    reveal(encoder_outcome);
    reveal(codec_decoded);
    match c {
        CodecType::Uncompressed => NoneEncoder::outcome_is_decoded(hunk_size, input, cap, s, old_out),
        CodecType::ZLibV5 => ZlibEncoder::outcome_is_decoded(hunk_size, input, cap, s, old_out),
        CodecType::LzmaV5 => LzmaEncoder::outcome_is_decoded(hunk_size, input, cap, s, old_out),
        CodecType::HuffV5 => HuffmanEncoder::outcome_is_decoded(hunk_size, input, cap, s, old_out),
        CodecType::FlacV5 => RawFlacEncoder::outcome_is_decoded(hunk_size, input, cap, s, old_out),
        CodecType::ZstdV5 => ZstdEncoder::outcome_is_decoded(hunk_size, input, cap, s, old_out),
        CodecType::ZLibCdV5 => CdZlibEncoder::outcome_is_decoded(hunk_size, input, cap, s, old_out),
        CodecType::LzmaCdV5 => CdLzmaEncoder::outcome_is_decoded(hunk_size, input, cap, s, old_out),
        CodecType::FlacCdV5 => CdFlacEncoder::outcome_is_decoded(hunk_size, input, cap, s, old_out),
        CodecType::ZstdCdV5 => CdZstdEncoder::outcome_is_decoded(hunk_size, input, cap, s, old_out),
        _ => {},
    }
}

/// Whether a codec makes FLAC frames, which may be chosen in more than one way.
pub open spec fn uses_flac(c: CodecType) -> bool {
    c is FlacV5 || c is FlacCdV5
}

/// Every other codec makes one thing of a hunk.
pub proof fn outcome_is_one(
    c: CodecType,
    hunk_size: u32,
    input: Seq<u8>,
    cap: nat,
    r: Option<Seq<u8>>,
    q: Option<Seq<u8>>,
)
    requires
        !uses_flac(c),
        encoder_outcome(c, hunk_size, input, cap, r),
        encoder_outcome(c, hunk_size, input, cap, q),
    ensures
        r == q,
{
    reveal(encoder_outcome);
    match c {
        CodecType::ZLibCdV5 => crate::compression::cdrom::cd_outcome_is_one::<ZlibEncoder, ZlibEncoder>(
            hunk_size,
            input,
            cap,
            r,
            q,
        ),
        CodecType::LzmaCdV5 => crate::compression::cdrom::cd_outcome_is_one::<LzmaEncoder, ZlibEncoder>(
            hunk_size,
            input,
            cap,
            r,
            q,
        ),
        CodecType::ZstdCdV5 => crate::compression::cdrom::cd_outcome_is_one::<ZstdEncoder, ZstdEncoder>(
            hunk_size,
            input,
            cap,
            r,
            q,
        ),
        _ => {},
    }
}

/// The compression side of some codec.
pub enum Encoder {
    Copy(NoneEncoder),
    Zlib(ZlibEncoder),
    Lzma(LzmaEncoder),
    Huff(HuffmanEncoder),
    Flac(RawFlacEncoder),
    Zstd(ZstdEncoder),
    CdZlib(CdZlibEncoder),
    CdLzma(CdLzmaEncoder),
    CdFlac(CdFlacEncoder),
    CdZstd(CdZstdEncoder),
}

impl Encoder {
    /// The type of the codec.
    pub open spec fn kind(&self) -> CodecType {
        match self {
            Encoder::Copy(_) => CodecType::Uncompressed,
            Encoder::Zlib(_) => CodecType::ZLibV5,
            Encoder::Lzma(_) => CodecType::LzmaV5,
            Encoder::Huff(_) => CodecType::HuffV5,
            Encoder::Flac(_) => CodecType::FlacV5,
            Encoder::Zstd(_) => CodecType::ZstdV5,
            Encoder::CdZlib(_) => CodecType::ZLibCdV5,
            Encoder::CdLzma(_) => CodecType::LzmaCdV5,
            Encoder::CdFlac(_) => CodecType::FlacCdV5,
            Encoder::CdZstd(_) => CodecType::ZstdCdV5,
        }
    }

    /// The hunk size that it was made for.
    pub open spec fn hunk(&self) -> u32 {
        match self {
            Encoder::Copy(c) => c.encoder_hunk(),
            Encoder::Zlib(c) => c.encoder_hunk(),
            Encoder::Lzma(c) => c.encoder_hunk(),
            Encoder::Huff(c) => c.encoder_hunk(),
            Encoder::Flac(c) => c.encoder_hunk(),
            Encoder::Zstd(c) => c.encoder_hunk(),
            Encoder::CdZlib(c) => c.encoder_hunk(),
            Encoder::CdLzma(c) => c.encoder_hunk(),
            Encoder::CdFlac(c) => c.encoder_hunk(),
            Encoder::CdZstd(c) => c.encoder_hunk(),
        }
    }

    pub open spec fn wf(&self) -> bool {
        &&& can_encode(self.kind(), self.hunk())
        &&& match self {
            Encoder::Copy(c) => c.encoder_wf(),
            Encoder::Zlib(c) => c.encoder_wf(),
            Encoder::Lzma(c) => c.encoder_wf(),
            Encoder::Huff(c) => c.encoder_wf(),
            Encoder::Flac(c) => c.encoder_wf(),
            Encoder::Zstd(c) => c.encoder_wf(),
            Encoder::CdZlib(c) => c.encoder_wf(),
            Encoder::CdLzma(c) => c.encoder_wf(),
            Encoder::CdFlac(c) => c.encoder_wf(),
            Encoder::CdZstd(c) => c.encoder_wf(),
        }
    }

    /// Compresses a hunk.
    pub fn compress(&mut self, input: &[u8], output: &mut [u8]) -> (r: Result<usize, Error>)
        requires
            old(self).wf(),
            old(self).hunk() > 0,
            input@.len() == old(self).hunk(),
            encoder_takes(old(self).kind(), old(self).hunk()),
        ensures
            final(self).wf(),
            final(self).kind() == old(self).kind(),
            final(self).hunk() == old(self).hunk(),
            final(output)@.len() == old(output)@.len(),
            match r {
                Ok(n) => n <= final(output)@.len() && encoder_outcome(
                    old(self).kind(),
                    old(self).hunk(),
                    input@,
                    old(output)@.len(),
                    Some(final(output)@.take(n as int)),
                ),
                Err(e) => e == Error::CompressionError && encoder_outcome(
                    old(self).kind(),
                    old(self).hunk(),
                    input@,
                    old(output)@.len(),
                    None,
                ),
            },
    {
        reveal(encoder_outcome);
        match self {
            Encoder::Copy(c) => c.compress(input, output),
            Encoder::Zlib(c) => c.compress(input, output),
            Encoder::Lzma(c) => c.compress(input, output),
            Encoder::Huff(c) => c.compress(input, output),
            Encoder::Flac(c) => c.compress(input, output),
            Encoder::Zstd(c) => c.compress(input, output),
            Encoder::CdZlib(c) => c.compress(input, output),
            Encoder::CdLzma(c) => c.compress(input, output),
            Encoder::CdFlac(c) => c.compress(input, output),
            Encoder::CdZstd(c) => c.compress(input, output),
        }
    }
}

/// The decompression side of some codec.
pub enum Codec {
    Copy(NoneCodec),
    Zlib(ZlibCodec),
    Lzma(LzmaCodec),
    Huff(HuffmanCodec),
    Flac(RawFlacCodec),
    Zstd(ZstdCodec),
    CdZlib(CdZlibCodec),
    CdLzma(CdLzmaCodec),
    CdFlac(CdFlacCodec),
    CdZstd(CdZstdCodec),
}

impl Codec {
    /// The type of the codec.
    pub open spec fn kind(&self) -> CodecType {
        match self {
            Codec::Copy(_) => CodecType::Uncompressed,
            Codec::Zlib(_) => CodecType::ZLibV5,
            Codec::Lzma(_) => CodecType::LzmaV5,
            Codec::Huff(_) => CodecType::HuffV5,
            Codec::Flac(_) => CodecType::FlacV5,
            Codec::Zstd(_) => CodecType::ZstdV5,
            Codec::CdZlib(_) => CodecType::ZLibCdV5,
            Codec::CdLzma(_) => CodecType::LzmaCdV5,
            Codec::CdFlac(_) => CodecType::FlacCdV5,
            Codec::CdZstd(_) => CodecType::ZstdCdV5,
        }
    }

    /// The hunk size that it was made for.
    pub open spec fn hunk(&self) -> u32 {
        match self {
            Codec::Copy(c) => c.hunk(),
            Codec::Zlib(c) => c.hunk(),
            Codec::Lzma(c) => c.hunk(),
            Codec::Huff(c) => c.hunk(),
            Codec::Flac(c) => c.hunk(),
            Codec::Zstd(c) => c.hunk(),
            Codec::CdZlib(c) => c.hunk(),
            Codec::CdLzma(c) => c.hunk(),
            Codec::CdFlac(c) => c.hunk(),
            Codec::CdZstd(c) => c.hunk(),
        }
    }

    pub open spec fn wf(&self) -> bool {
        &&& can_decode(self.kind(), self.hunk())
        &&& match self {
            Codec::Copy(c) => c.wf(),
            Codec::Zlib(c) => c.wf(),
            Codec::Lzma(c) => c.wf(),
            Codec::Huff(c) => c.wf(),
            Codec::Flac(c) => c.wf(),
            Codec::Zstd(c) => c.wf(),
            Codec::CdZlib(c) => c.wf(),
            Codec::CdLzma(c) => c.wf(),
            Codec::CdFlac(c) => c.wf(),
            Codec::CdZstd(c) => c.wf(),
        }
    }

    /// Decompresses a hunk.
    pub fn decompress(&mut self, input: &[u8], output: &mut [u8]) -> (r: Result<DecompressResult, Error>)
        requires
            old(self).wf(),
            input@.len() < 0x1000_0000_0000_0000,
        ensures
            final(self).wf(),
            final(self).kind() == old(self).kind(),
            final(self).hunk() == old(self).hunk(),
            final(output)@.len() == old(output)@.len(),
            match r {
                Ok(d) => codec_decoded(old(self).kind(), old(self).hunk(), input@, old(output)@)
                    == Decoded::Ok((final(output)@, d.bytes_out as nat, d.bytes_read as nat))
                    && d.bytes_out <= old(output)@.len(),
                Err(e) => codec_decoded(old(self).kind(), old(self).hunk(), input@, old(output)@)
                    == Decoded::Err(e),
            },
    {
        reveal(codec_decoded);
        match self {
            Codec::Copy(c) => c.decompress(input, output),
            Codec::Zlib(c) => c.decompress(input, output),
            Codec::Lzma(c) => c.decompress(input, output),
            Codec::Huff(c) => c.decompress(input, output),
            Codec::Flac(c) => c.decompress(input, output),
            Codec::Zstd(c) => c.decompress(input, output),
            Codec::CdZlib(c) => c.decompress(input, output),
            Codec::CdLzma(c) => c.decompress(input, output),
            Codec::CdFlac(c) => c.decompress(input, output),
            Codec::CdZstd(c) => c.decompress(input, output),
        }
    }
}

impl CodecType {
    /// Whether the codec can be given whole hunks of the given size.
    pub fn takes_hunks(&self, hunk_size: u32) -> (r: bool)
        ensures
            r == encoder_takes(*self, hunk_size),
    {
        match self {
            CodecType::HuffV5 => hunk_size <= 0x7fff_ffff,
            CodecType::LzmaV5 => hunk_size < 0xffff_ffff,
            CodecType::ZLibV5 => hunk_size < DEFLATE_WINDOW,
            CodecType::ZstdV5 => hunk_size <= ZSTD_MAX_INPUT,
            CodecType::ZLibCdV5 => hunk_size / 2448 * 2352 < DEFLATE_WINDOW,
            CodecType::LzmaCdV5 | CodecType::FlacCdV5 => hunk_size / 2448 * 96 < DEFLATE_WINDOW,
            CodecType::ZstdCdV5 => hunk_size / 2448 * 2352 <= ZSTD_MAX_INPUT,
            _ => true,
        }
    }

    /// Makes the compression side of the codec for hunks of the given size.
    pub fn init_encoder(&self, hunk_size: u32) -> (r: Result<Encoder, Error>)
        ensures
            match r {
                Ok(c) => c.wf() && c.kind() == *self && c.hunk() == hunk_size,
                Err(e) => !can_encode(*self, hunk_size) && e == encoder_error(*self),
            },
    {
        match self {
            CodecType::Uncompressed => match NoneEncoder::new(hunk_size) {
                Ok(c) => Ok(Encoder::Copy(c)),
                Err(e) => Err(e),
            },
            CodecType::ZLibV5 => match ZlibEncoder::new(hunk_size) {
                Ok(c) => Ok(Encoder::Zlib(c)),
                Err(e) => Err(e),
            },
            CodecType::LzmaV5 => match LzmaEncoder::new(hunk_size) {
                Ok(c) => Ok(Encoder::Lzma(c)),
                Err(e) => Err(e),
            },
            CodecType::HuffV5 => match HuffmanEncoder::new(hunk_size) {
                Ok(c) => Ok(Encoder::Huff(c)),
                Err(e) => Err(e),
            },
            CodecType::FlacV5 => match RawFlacEncoder::new(hunk_size) {
                Ok(c) => Ok(Encoder::Flac(c)),
                Err(e) => Err(e),
            },
            CodecType::ZstdV5 => match ZstdEncoder::new(hunk_size) {
                Ok(c) => Ok(Encoder::Zstd(c)),
                Err(e) => Err(e),
            },
            CodecType::ZLibCdV5 => match CdZlibEncoder::new(hunk_size) {
                Ok(c) => Ok(Encoder::CdZlib(c)),
                Err(e) => Err(e),
            },
            CodecType::LzmaCdV5 => match CdLzmaEncoder::new(hunk_size) {
                Ok(c) => Ok(Encoder::CdLzma(c)),
                Err(e) => Err(e),
            },
            CodecType::FlacCdV5 => match CdFlacEncoder::new(hunk_size) {
                Ok(c) => Ok(Encoder::CdFlac(c)),
                Err(e) => Err(e),
            },
            CodecType::ZstdCdV5 => match CdZstdEncoder::new(hunk_size) {
                Ok(c) => Ok(Encoder::CdZstd(c)),
                Err(e) => Err(e),
            },
            CodecType::Zlib | CodecType::ZlibPlus | CodecType::AV | CodecType::AVHuffV5 => Err(
                Error::UnsupportedFormat,
            ),
        }
    }

    /// Makes the decompression side of the codec for hunks of the given size.
    pub fn init(&self, hunk_size: u32) -> (r: Result<Codec, Error>)
        ensures
            match r {
                Ok(c) => c.wf() && c.hunk() == hunk_size && can_decode(*self, hunk_size) && c.kind()
                    == decoder_kind(*self),
                Err(e) => !can_decode(*self, hunk_size) && e == decoder_error(*self),
            },
    {
        match self {
            CodecType::Uncompressed => match NoneCodec::new(hunk_size) {
                Ok(c) => Ok(Codec::Copy(c)),
                Err(e) => Err(e),
            },
            CodecType::Zlib | CodecType::ZlibPlus | CodecType::ZLibV5 => match ZlibCodec::new(
                hunk_size,
            ) {
                Ok(c) => Ok(Codec::Zlib(c)),
                Err(e) => Err(e),
            },
            CodecType::LzmaV5 => match LzmaCodec::new(hunk_size) {
                Ok(c) => Ok(Codec::Lzma(c)),
                Err(e) => Err(e),
            },
            CodecType::HuffV5 => match HuffmanCodec::new(hunk_size) {
                Ok(c) => Ok(Codec::Huff(c)),
                Err(e) => Err(e),
            },
            CodecType::FlacV5 => match RawFlacCodec::new(hunk_size) {
                Ok(c) => Ok(Codec::Flac(c)),
                Err(e) => Err(e),
            },
            CodecType::ZstdV5 => match ZstdCodec::new(hunk_size) {
                Ok(c) => Ok(Codec::Zstd(c)),
                Err(e) => Err(e),
            },
            CodecType::ZLibCdV5 => match CdZlibCodec::new(hunk_size) {
                Ok(c) => Ok(Codec::CdZlib(c)),
                Err(e) => Err(e),
            },
            CodecType::LzmaCdV5 => match CdLzmaCodec::new(hunk_size) {
                Ok(c) => Ok(Codec::CdLzma(c)),
                Err(e) => Err(e),
            },
            CodecType::FlacCdV5 => match CdFlacCodec::new(hunk_size) {
                Ok(c) => Ok(Codec::CdFlac(c)),
                Err(e) => Err(e),
            },
            CodecType::ZstdCdV5 => match CdZstdCodec::new(hunk_size) {
                Ok(c) => Ok(Codec::CdZstd(c)),
                Err(e) => Err(e),
            },
            CodecType::AV | CodecType::AVHuffV5 => Err(Error::UnsupportedFormat),
        }
    }
}

} // verus!
