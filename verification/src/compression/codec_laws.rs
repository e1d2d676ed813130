//! Laws of the codecs by their types: which engine each of them stands for.

use crate::compression::cdrom::{CdCodec, CdEncoder};
use crate::compression::codecs;
use crate::compression::flac::{CdFlacCodec, CdFlacEncoder, RawFlacCodec, RawFlacEncoder};
use crate::compression::lzma;
use crate::compression::lzma::{LzmaCodec, LzmaEncoder};
use crate::compression::zlib;
use crate::compression::zlib::{ZlibCodec, ZlibEncoder};
use crate::compression::zstd;
use crate::compression::zstd::{ZstdCodec, ZstdEncoder};
use crate::compression::{CodecEncodeImplementation, CodecImplementation};
use crate::header::CodecType;
use crate::huffman;
use crate::huffman_encode;
use vstd::arithmetic::power2::*;
use vstd::prelude::*;

verus! {

/// The codecs that decompress: Deflate without a header, LZMA with the properties 3, 0 and 2,
/// Zstandard, and Huffman codes of bytes. Each has to fill the buffer.
pub proof fn engines_that_decompress(hunk_size: u32, input: Seq<u8>, old_out: Seq<u8>)
    ensures
        ({
            let n = old_out.len();
            let r = codecs::codec_decoded(CodecType::ZLibV5, hunk_size, input, old_out);
            &&& r is Ok <==> (zlib::inflated(input, n, false) matches Some((short, out, read, buf)) && !short
                && out == n)
            &&& r matches Ok((data, count, read)) ==> count == n && zlib::inflated(input, n, false) == Some(
                (false, n, read, data),
            )
            &&& codecs::codec_decoded(CodecType::Zlib, hunk_size, input, old_out) == r
            &&& codecs::codec_decoded(CodecType::ZlibPlus, hunk_size, input, old_out) == r
        }),
        ({
            let n = old_out.len();
            let r = codecs::codec_decoded(CodecType::LzmaV5, hunk_size, input, old_out);
            let d = lzma::lzma_decoded(input, n, 3, 0, 2, lzma::dict_size(9, hunk_size));
            &&& r is Ok <==> d is Some
            &&& r matches Ok((data, count, read)) ==> count == n && d == Some((data, read))
        }),
        ({
            let n = old_out.len();
            let r = codecs::codec_decoded(CodecType::ZstdV5, hunk_size, input, old_out);
            &&& r is Ok <==> (zstd::zstd_decoded(input, n) matches Some((out, read, buf)) && out == n)
            &&& r matches Ok((data, count, read)) ==> count == n && zstd::zstd_decoded(input, n) == Some(
                (n, read, data),
            )
        }),
        ({
            let n = old_out.len();
            let r = codecs::codec_decoded(CodecType::HuffV5, hunk_size, input, old_out);
            &&& r is Ok <==> huffman::decoded_8bit(input, n) is Some
            &&& r matches Ok((data, count, read)) ==> count == n && (huffman::decoded_8bit(input, n) matches Some(
                (bytes, pos),
            ) && bytes == data)
        }),
        input.len() == old_out.len() ==> (codecs::codec_decoded(
            CodecType::Uncompressed,
            hunk_size,
            input,
            old_out,
        ) matches Ok((data, count, read)) && data == input && count == input.len()),
{
    reveal(codecs::codec_decoded);
    if input.len() == old_out.len() {
        assert(input.take(input.len() as int) + old_out.skip(input.len() as int) =~= input);
    }
}

/// The codecs for CD frames decompress the sectors by the codec of their name, and the subcode by
/// Deflate, or by Zstandard where the sectors are.
pub proof fn engines_for_frames(hunk_size: u32, input: Seq<u8>, old_out: Seq<u8>)
    ensures
        codecs::codec_decoded(CodecType::ZLibCdV5, hunk_size, input, old_out) == CdCodec::<
            ZlibCodec,
            ZlibCodec,
        >::decoded(hunk_size, input, old_out),
        codecs::codec_decoded(CodecType::LzmaCdV5, hunk_size, input, old_out) == CdCodec::<
            LzmaCodec,
            ZlibCodec,
        >::decoded(hunk_size, input, old_out),
        codecs::codec_decoded(CodecType::ZstdCdV5, hunk_size, input, old_out) == CdCodec::<
            ZstdCodec,
            ZstdCodec,
        >::decoded(hunk_size, input, old_out),
        codecs::codec_decoded(CodecType::FlacCdV5, hunk_size, input, old_out) == CdFlacCodec::decoded(
            hunk_size,
            input,
            old_out,
        ),
        codecs::codec_decoded(CodecType::FlacV5, hunk_size, input, old_out) == RawFlacCodec::decoded(
            hunk_size,
            input,
            old_out,
        ),
        codecs::codec_decoded(CodecType::AVHuffV5, hunk_size, input, old_out) is Err,
        codecs::codec_decoded(CodecType::AV, hunk_size, input, old_out) is Err,
{
    reveal(codecs::codec_decoded);
}

/// The codecs that compress. Each gives its whole stream, or nothing where the stream does not fit.
pub proof fn engines_that_compress(hunk_size: u32, input: Seq<u8>, cap: nat, r: Option<Seq<u8>>)
    ensures
        codecs::encoder_outcome(CodecType::ZLibV5, hunk_size, input, cap, r) ==> {
            &&& r is Some <==> zlib::deflated(input).len() <= cap
            &&& r is Some ==> r->0 == zlib::deflated(input)
        },
        codecs::encoder_outcome(CodecType::LzmaV5, hunk_size, input, cap, r) ==> {
            &&& r is Some <==> lzma::lzma_encoded(input, hunk_size).len() <= cap
            &&& r is Some ==> r->0 == lzma::lzma_encoded(input, hunk_size)
        },
        codecs::encoder_outcome(CodecType::ZstdV5, hunk_size, input, cap, r) ==> {
            &&& r is Some <==> (zstd::zstd_encoded(input, 22) matches Some(s) && s.len() <= cap)
            &&& r is Some ==> r == zstd::zstd_encoded(input, 22)
        },
        codecs::encoder_outcome(CodecType::HuffV5, hunk_size, input, cap, r) ==> {
            &&& r is Some <==> huffman_encode::encoded_8bit(input).len() <= cap
            &&& r is Some ==> r->0 == huffman_encode::encoded_8bit(input)
        },
        codecs::encoder_outcome(CodecType::Uncompressed, hunk_size, input, cap, r) ==> {
            &&& r is Some <==> input.len() <= cap
            &&& r is Some ==> r->0 == input
        },
        codecs::encoder_outcome(CodecType::ZLibCdV5, hunk_size, input, cap, r) <==> CdEncoder::<
            ZlibEncoder,
            ZlibEncoder,
        >::outcome(hunk_size, input, cap, r),
        codecs::encoder_outcome(CodecType::LzmaCdV5, hunk_size, input, cap, r) <==> CdEncoder::<
            LzmaEncoder,
            ZlibEncoder,
        >::outcome(hunk_size, input, cap, r),
        codecs::encoder_outcome(CodecType::ZstdCdV5, hunk_size, input, cap, r) <==> CdEncoder::<
            ZstdEncoder,
            ZstdEncoder,
        >::outcome(hunk_size, input, cap, r),
        codecs::encoder_outcome(CodecType::FlacCdV5, hunk_size, input, cap, r)
            <==> CdFlacEncoder::outcome(hunk_size, input, cap, r),
        codecs::encoder_outcome(CodecType::FlacV5, hunk_size, input, cap, r)
            <==> RawFlacEncoder::outcome(hunk_size, input, cap, r),
{
    reveal(codecs::encoder_outcome);
}

/// The hunks that codecs work on: any for those of plain bytes, whole samples of two channels for
/// FLAC, whole frames for those of CDs. There is no codec for audio and video.
pub proof fn sizes_of_hunks(hunk_size: u32)
    ensures
        codecs::can_encode(CodecType::ZLibV5, hunk_size),
        codecs::can_encode(CodecType::LzmaV5, hunk_size),
        codecs::can_encode(CodecType::ZstdV5, hunk_size),
        codecs::can_encode(CodecType::HuffV5, hunk_size),
        codecs::can_encode(CodecType::Uncompressed, hunk_size),
        codecs::can_encode(CodecType::FlacV5, hunk_size) <==> hunk_size % 4 == 0,
        codecs::can_encode(CodecType::ZLibCdV5, hunk_size) <==> hunk_size % 2448 == 0,
        codecs::can_encode(CodecType::LzmaCdV5, hunk_size) <==> hunk_size % 2448 == 0,
        codecs::can_encode(CodecType::ZstdCdV5, hunk_size) <==> hunk_size % 2448 == 0,
        codecs::can_encode(CodecType::FlacCdV5, hunk_size) <==> hunk_size % 2448 == 0,
        forall|c: CodecType|
            codecs::can_encode(c, hunk_size) <==> #[trigger] codecs::can_decode(c, hunk_size) && c !is Zlib
                && c !is ZlibPlus,
        codecs::can_decode(CodecType::Zlib, hunk_size),
        codecs::can_decode(CodecType::ZlibPlus, hunk_size),
        !codecs::can_decode(CodecType::AV, hunk_size),
        !codecs::can_decode(CodecType::AVHuffV5, hunk_size),
{
}

/// Whether a size is one of the dictionary sizes 4096, 6144, 8192, 12288, ...: two or three times a
/// power of two.
pub open spec fn is_dict_size(d: int) -> bool {
    exists|k: nat| k >= 11 && (d == 2 * #[trigger] pow2(k) || d == 3 * pow2(k))
}

/// The dictionary for a hunk of up to 64 mebibytes is the smallest of those sizes that holds it, and 64
/// mebibytes for a longer one.
pub proof fn dictionary_holds_the_hunk(n: u32)
    ensures
        n < 0x400_0000 ==> {
            let d = lzma::dict_size(9, n);
            &&& n <= d
            &&& is_dict_size(d as int)
            &&& forall|s: int| #[trigger] is_dict_size(s) && n <= s ==> d <= s
        },
        n >= 0x400_0000 ==> lzma::dict_size(9, n) == 0x400_0000,
{
    lemma2_to64();
    if n < 0x400_0000 {
        lemma_enough(n, 11);
        let d = lzma::dict_size(9, n);
        assert forall|s: int| #[trigger] is_dict_size(s) && n <= s implies d <= s by {
            let k = choose|k: nat| k >= 11 && (s == 2 * #[trigger] pow2(k) || s == 3 * pow2(k));
            assert(pow2(k) >= pow2(11)) by {
                if k > 11 {
                    lemma_pow2_strictly_increases(11, k);
                }
            }
        }
    }
}

/// From the `i`-th doubling on, where no smaller size holds the hunk.
proof fn lemma_enough(n: u32, i: nat)
    requires
        11 <= i <= 25,
        n < 0x400_0000,
        i > 11 ==> n > pow2((i - 1) as nat) * 3,
    ensures
        lzma::enough_dict(n, pow2(i + 1), i) matches Some(d) && n <= d && is_dict_size(d as int)
            && forall|k: nat|
            #![trigger pow2(k)]
            k >= 11 ==> (n <= 2 * pow2(k) ==> d <= 2 * pow2(k)) && (n <= 3 * pow2(k) ==> d <= 3 * pow2(k)),
    decreases 25 - i,
{
    lemma2_to64();
    lemma_pow2_unfold(i + 1);
    lemma_pow2_unfold(i + 2);
    lemma_pow2_unfold(i);
    if i < 25 {
        lemma_pow2_strictly_increases(i, 25);
    }
    let two = pow2(i + 1);
    assert(two == 2 * pow2(i));
    if n <= two || n <= two / 2 * 3 {
        let d = lzma::enough_dict(n, two, i)->0;
        assert(d == 2 * pow2(i) || d == 3 * pow2(i));
        assert forall|k: nat|
            #![trigger pow2(k)]
            k >= 11 implies (n <= 2 * pow2(k) ==> d <= 2 * pow2(k)) && (n <= 3 * pow2(k) ==> d <= 3 * pow2(
            k,
        )) by {
            if k < i {
                if k < i - 1 {
                    lemma_pow2_strictly_increases(k, (i - 1) as nat);
                }
            } else if k > i {
                lemma_pow2_strictly_increases(i, k);
                lemma_pow2_unfold(k);
                if i < k - 1 {
                    lemma_pow2_strictly_increases(i, (k - 1) as nat);
                }
            }
        }
    } else {
        assert(i < 25);
        lemma_enough(n, i + 1);
    }
}

} // verus!
