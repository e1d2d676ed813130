//! The LZMA codec. Streams carry neither a header nor an end marker: the properties are fixed, and
//! the dictionary size follows from the hunk size.

use crate::compression::{
    copy_at, put_stream, CodecEncodeImplementation, CodecImplementation, CompressionCodec,
    CompressionCodecType, CompressionEncoder, DecompressResult, Decoded,
};
use crate::error::Error;
use crate::header::CodecType;
use lzma_rs::decompress::raw::{LzmaDecoder, LzmaParams, LzmaProperties};
use std::io::Cursor;
use vstd::arithmetic::power2::*;
use vstd::prelude::*;

verus! {

/// Literal context bits.
pub const LZMA_LC: u32 = 3;

/// Literal position bits.
pub const LZMA_LP: u32 = 0;

/// Position bits.
pub const LZMA_PB: u32 = 2;

/// The raw LZMA stream that `lzma_sdk_rs::encode` makes under the properties of
/// `lzma_sdk_rs::LzmaProps::chd_for_hunk`.
pub uninterp spec fn lzma_encoded(input: Seq<u8>, hunk_size: u32) -> Seq<u8>;

/// What `lzma_rs::decompress::raw::LzmaDecoder` makes of a stream: `out_len` bytes, and the number
/// of bytes read; nothing where it fails.
pub uninterp spec fn lzma_decoded(
    input: Seq<u8>,
    out_len: nat,
    lc: u32,
    lp: u32,
    pb: u32,
    dict_size: u32,
) -> Option<(Seq<u8>, nat)>;

/// `lzma_rs::decompress::raw::LzmaDecoder`, made by `new` for the given properties and unpacked
/// size, and its `decompress`. The result depends on the arguments alone; where there is one, the
/// buffer is full, and no more was read than there is.
#[verifier::external_body]
fn lzma_decode(input: &[u8], out_len: usize, lc: u32, lp: u32, pb: u32, dict_size: u32) -> (r: Option<
    (Vec<u8>, usize),
>)
    requires
        lc <= 8,
        lp <= 4,
        pb <= 4,
        dict_size > 0,
    ensures
        match r {
            Some((buf, read)) => lzma_decoded(input@, out_len as nat, lc, lp, pb, dict_size) == Some(
                (buf@, read as nat),
            ) && buf@.len() == out_len && read <= input@.len(),
            None => lzma_decoded(input@, out_len as nat, lc, lp, pb, dict_size) is None,
        },
{
    let params = LzmaParams::new(LzmaProperties { lc, lp, pb }, dict_size, Some(out_len as u64));
    let mut engine = LzmaDecoder::new(params, None).ok()?;
    let mut buf = vec![0u8; out_len];
    let mut read = Cursor::new(input);
    match engine.decompress(&mut read, &mut buf.as_mut_slice()) {
        Ok(()) => Some((buf, read.position() as usize)),
        Err(_) => None,
    }
}

/// `lzma_sdk_rs::encode` under `lzma_sdk_rs::LzmaProps::chd_for_hunk`: the stream depends on the
/// input and the hunk size alone. It is a raw LZMA stream with the properties 3, 0 and 2 and a
/// dictionary no larger than the decoder's, and is decoded to the input; this is claimed for an
/// input that is not empty and not longer than the hunk size. The encoder counts its place in the
/// input from one in 32 bits, so the input is shorter than the largest such number.
#[verifier::external_body]
fn lzma_encode(input: &[u8], hunk_size: u32) -> (r: Vec<u8>)
    requires
        input@.len() < u32::MAX,
    ensures
        r@ == lzma_encoded(input@, hunk_size),
        0 < input@.len() <= hunk_size ==> lzma_unpacks(r@, hunk_size, input@),
{
    lzma_sdk_rs::encode(input, &lzma_sdk_rs::LzmaProps::chd_for_hunk(hunk_size))
}

/// Whether a stream is decoded to `data`.
pub open spec fn lzma_unpacks(stream: Seq<u8>, hunk_size: u32, data: Seq<u8>) -> bool {
    lzma_decoded(
        stream,
        data.len(),
        LZMA_LC,
        LZMA_LP,
        LZMA_PB,
        dict_size(9, hunk_size),
    ) matches Some((buf, read)) && buf == data
}

/// The first of the sizes 2, 3, 4, 6, 8, 12, ... times `two / 2` that is enough, where `two` is the
/// `i`-th doubling of 2; nothing past the thirtieth.
pub open spec fn enough_dict(reduce_size: u32, two: nat, i: nat) -> Option<u32>
    decreases 31 - i,
{
    if i > 30 {
        None
    } else if reduce_size <= two {
        Some(two as u32)
    } else if reduce_size <= two / 2 * 3 {
        Some((two / 2 * 3) as u32)
    } else {
        enough_dict(reduce_size, 2 * two, i + 1)
    }
}

/// The dictionary size of a compression level.
pub open spec fn level_dict(level: u32) -> u32 {
    if level <= 5 {
        pow2((level * 2 + 14) as nat) as u32
    } else if level <= 7 {
        0x200_0000
    } else {
        0x400_0000
    }
}

/// The dictionary size of a level for data of a known size: it is not much larger than the data.
pub open spec fn dict_size(level: u32, reduce_size: u32) -> u32 {
    if level_dict(level) > reduce_size {
        match enough_dict(reduce_size, 4096, 11) {
            Some(d) => d,
            None => level_dict(level),
        }
    } else {
        level_dict(level)
    }
}

/// Computes the dictionary size of a level for data of a known size.
pub fn get_lzma_dict_size(level: u32, reduce_size: u32) -> (r: u32)
    ensures
        r == dict_size(level, reduce_size),
        r > 0,
{
    proof {
        lemma2_to64();
    }
    let base: u32 = if level == 0 {
        0x4000
    } else if level == 1 {
        0x1_0000
    } else if level == 2 {
        0x4_0000
    } else if level == 3 {
        0x10_0000
    } else if level == 4 {
        0x40_0000
    } else if level == 5 {
        0x100_0000
    } else if level <= 7 {
        0x200_0000
    } else {
        0x400_0000
    };
    assert(base == level_dict(level));
    if base > reduce_size {
        let mut two: u32 = 4096;
        let mut i: u32 = 11;
        while i <= 30
            invariant
                11 <= i <= 31,
                0 < two,
                i <= 25 ==> two <= 0x400_0000,
                i >= 25 ==> two >= 0x400_0000,
                i < 25 ==> two <= 0x200_0000,
                two % 2 == 0,
                two == pow2((i + 1) as nat),
                i <= 25,
                reduce_size < 0x400_0000,
                base == level_dict(level),
                base > reduce_size,
                enough_dict(reduce_size, 4096, 11) == enough_dict(reduce_size, two as nat, i as nat),
            decreases 31 - i,
        {
            if reduce_size <= two {
                return two;
            }
            if reduce_size <= two / 2 * 3 {
                return two / 2 * 3;
            }
            proof {
                lemma_pow2_unfold((i + 2) as nat);
                lemma2_to64();
                if i + 2 < 26 {
                    lemma_pow2_strictly_increases((i + 2) as nat, 26);
                }
                if i + 2 < 25 {
                    lemma_pow2_strictly_increases((i + 2) as nat, 25);
                }
            }
            two = two * 2;
            i = i + 1;
        }
    }
    base
}

/// Decompresses LZMA streams.
pub struct LzmaCodec {
    hunk_size: u32,
    dict_size: u32,
}

/// What an attempt to decode comes to.
pub open spec fn lzma_outcome(attempt: Option<(Seq<u8>, nat)>, n: nat) -> Decoded {
    match attempt {
        Some((buf, read)) => Ok((buf, n, read)),
        None => Err(Error::DecompressionError),
    }
}

impl CodecImplementation for LzmaCodec {
    open spec fn accepts(hunk_size: u32) -> bool {
        true
    }

    closed spec fn hunk(&self) -> u32 {
        self.hunk_size
    }

    closed spec fn wf(&self) -> bool {
        self.dict_size == dict_size(9, self.hunk_size) && self.dict_size > 0
    }

    open spec fn decoded(hunk_size: u32, input: Seq<u8>, old_out: Seq<u8>) -> Decoded {
        lzma_outcome(
            lzma_decoded(
                input,
                old_out.len(),
                LZMA_LC,
                LZMA_LP,
                LZMA_PB,
                dict_size(9, hunk_size),
            ),
            old_out.len(),
        )
    }

    fn new(hunk_size: u32) -> (r: Result<Self, Error>) {
        Ok(LzmaCodec { hunk_size, dict_size: get_lzma_dict_size(9, hunk_size) })
    }

    fn decompress(&mut self, input: &[u8], output: &mut [u8]) -> (r: Result<DecompressResult, Error>) {
        match lzma_decode(input, output.len(), LZMA_LC, LZMA_LP, LZMA_PB, self.dict_size) {
            None => Err(Error::DecompressionError),
            Some((buf, read)) => {
                copy_at(output, 0, buf.as_slice());
                assert(output@ =~= buf@);
                Ok(DecompressResult::new(output.len(), read))
            },
        }
    }
}

impl CompressionCodecType for LzmaCodec {
    open spec fn spec_codec_type(&self) -> CodecType {
        CodecType::LzmaV5
    }

    fn codec_type(&self) -> (r: CodecType) {
        CodecType::LzmaV5
    }
}

impl CompressionCodec for LzmaCodec {

}

/// Compresses to LZMA streams.
pub struct LzmaEncoder {
    hunk_size: u32,
}

impl CodecEncodeImplementation for LzmaEncoder {
    type Decoder = LzmaCodec;

    open spec fn encoder_accepts(hunk_size: u32) -> bool {
        true
    }

    closed spec fn encoder_hunk(&self) -> u32 {
        self.hunk_size
    }

    open spec fn encoder_wf(&self) -> bool {
        true
    }

    /// The encoder counts its place in 32 bits.
    open spec fn takes(hunk_size: u32, n: nat) -> bool {
        n < u32::MAX
    }

    open spec fn outcome(hunk_size: u32, input: Seq<u8>, cap: nat, r: Option<Seq<u8>>) -> bool {
        &&& r == crate::compression::fitting(lzma_encoded(input, hunk_size), cap)
        &&& Self::reliable(hunk_size, input.len()) ==> lzma_unpacks(
            lzma_encoded(input, hunk_size),
            hunk_size,
            input,
        )
    }

    open spec fn reliable(hunk_size: u32, n: nat) -> bool {
        0 < n <= hunk_size
    }

    proof fn outcome_is_decoded(hunk_size: u32, input: Seq<u8>, cap: nat, s: Seq<u8>, old_out: Seq<u8>) {
        let decoded = LzmaCodec::decoded(hunk_size, s, old_out);
        let accepts = LzmaCodec::accepts(hunk_size);
    }

    fn new(hunk_size: u32) -> (r: Result<Self, Error>) {
        Ok(LzmaEncoder { hunk_size })
    }

    fn compress(&mut self, input: &[u8], output: &mut [u8]) -> (r: Result<usize, Error>) {
        let stream = lzma_encode(input, self.hunk_size);
        put_stream(stream.as_slice(), output)
    }
}

impl CompressionEncoder for LzmaEncoder {

}

} // verus!
