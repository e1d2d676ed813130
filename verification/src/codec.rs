//! Codec numbers, their names, and the notation for a list of codecs.

use crate::error::Error;
use crate::header;
use crate::text;
use vstd::prelude::*;
use vstd::string::*;

verus! {

/// No compression.
pub const CHD_CODEC_NONE: u32 = 0;

/// Deflate (`zlib`).
pub const CHD_CODEC_ZLIB: u32 = 0x7a6c6962;

/// Zstandard (`zstd`).
pub const CHD_CODEC_ZSTD: u32 = 0x7a737464;

/// LZMA (`lzma`).
pub const CHD_CODEC_LZMA: u32 = 0x6c7a6d61;

/// Huffman (`huff`).
pub const CHD_CODEC_HUFF: u32 = 0x68756666;

/// FLAC (`flac`).
pub const CHD_CODEC_FLAC: u32 = 0x666c6163;

/// Deflate for CD frames (`cdzl`).
pub const CHD_CODEC_CD_ZLIB: u32 = 0x63647a6c;

/// Zstandard for CD frames (`cdzs`).
pub const CHD_CODEC_CD_ZSTD: u32 = 0x63647a73;

/// LZMA for CD frames (`cdlz`).
pub const CHD_CODEC_CD_LZMA: u32 = 0x63646c7a;

/// FLAC for CD frames (`cdfl`).
pub const CHD_CODEC_CD_FLAC: u32 = 0x6364666c;

/// Audio and video (`avhu`).
pub const CHD_CODEC_AVHUFF: u32 = 0x61766875;

/// The name of a codec.
pub open spec fn name_of(codec: u32) -> Option<Seq<char>> {
    if codec == CHD_CODEC_NONE {
        Some("None"@)
    } else if codec == CHD_CODEC_ZLIB {
        Some("Deflate"@)
    } else if codec == CHD_CODEC_ZSTD {
        Some("Zstandard"@)
    } else if codec == CHD_CODEC_LZMA {
        Some("LZMA"@)
    } else if codec == CHD_CODEC_HUFF {
        Some("Huffman"@)
    } else if codec == CHD_CODEC_FLAC {
        Some("FLAC"@)
    } else if codec == CHD_CODEC_CD_ZLIB {
        Some("CD Deflate"@)
    } else if codec == CHD_CODEC_CD_ZSTD {
        Some("CD Zstandard"@)
    } else if codec == CHD_CODEC_CD_LZMA {
        Some("CD LZMA"@)
    } else if codec == CHD_CODEC_CD_FLAC {
        Some("CD FLAC"@)
    } else if codec == CHD_CODEC_AVHUFF {
        Some("AV Huffman"@)
    } else {
        None
    }
}

/// Whether there is a codec of the given number; no compression counts as one.
pub fn codec_exists(codec: u32) -> (r: bool)
    ensures
        r == name_of(codec) is Some,
{
    codec == CHD_CODEC_NONE || codec == CHD_CODEC_ZLIB || codec == CHD_CODEC_ZSTD || codec
        == CHD_CODEC_LZMA || codec == CHD_CODEC_HUFF || codec == CHD_CODEC_FLAC || codec
        == CHD_CODEC_CD_ZLIB || codec == CHD_CODEC_CD_ZSTD || codec == CHD_CODEC_CD_LZMA || codec
        == CHD_CODEC_CD_FLAC || codec == CHD_CODEC_AVHUFF
}

/// The name of a codec, if there is such a codec.
pub fn codec_name(codec: u32) -> (r: Option<&'static str>)
    ensures
        match r {
            Some(name) => name_of(codec) == Some(name@),
            None => name_of(codec) is None,
        },
{
    if codec == CHD_CODEC_NONE {
        Some("None")
    } else if codec == CHD_CODEC_ZLIB {
        Some("Deflate")
    } else if codec == CHD_CODEC_ZSTD {
        Some("Zstandard")
    } else if codec == CHD_CODEC_LZMA {
        Some("LZMA")
    } else if codec == CHD_CODEC_HUFF {
        Some("Huffman")
    } else if codec == CHD_CODEC_FLAC {
        Some("FLAC")
    } else if codec == CHD_CODEC_CD_ZLIB {
        Some("CD Deflate")
    } else if codec == CHD_CODEC_CD_ZSTD {
        Some("CD Zstandard")
    } else if codec == CHD_CODEC_CD_LZMA {
        Some("CD LZMA")
    } else if codec == CHD_CODEC_CD_FLAC {
        Some("CD FLAC")
    } else if codec == CHD_CODEC_AVHUFF {
        Some("AV Huffman")
    } else {
        None
    }
}

/// The codec number of a part: its four bytes, if there is such a codec.
pub open spec fn part_code(part: Seq<u8>) -> Option<u32> {
    if part.len() == 4 && name_of(header::tag_of(part[0], part[1], part[2], part[3])) is Some {
        Some(header::tag_of(part[0], part[1], part[2], part[3]))
    } else {
        None
    }
}

/// Whether a notation is the word for no compression.
pub open spec fn is_none_word(s: Seq<u8>) -> bool {
    s == seq![0x6eu8, 0x6f, 0x6e, 0x65]
}

/// Whether a notation names one to four codecs.
pub open spec fn is_codec_list(s: Seq<u8>) -> bool {
    &&& text::parts(s, 0x2c).len() <= 4
    &&& forall|k: int|
        0 <= k < text::parts(s, 0x2c).len() ==> part_code(#[trigger] text::parts(s, 0x2c)[k]) is Some
}

/// Reads the notation for a list of codecs: `none`, or one to four codecs of four characters each,
/// separated by commas. Slots that are left over are zero.
pub fn parse_codec_spec(spec: &str) -> (r: Result<[u32; 4], Error>)
    ensures
        match r {
            Ok(out) => {
                let s = spec.spec_bytes();
                let parts = text::parts(s, 0x2c);
                ||| is_none_word(s) && forall|k: int| 0 <= k < 4 ==> #[trigger] out@[k] == 0
                ||| !is_none_word(s) && is_codec_list(s) && forall|k: int|
                    0 <= k < 4 ==> #[trigger] out@[k] == if k < parts.len() {
                        part_code(parts[k])->0
                    } else {
                        0
                    }
            },
            Err(e) => e == Error::InvalidParameter && !is_none_word(spec.spec_bytes())
                && !is_codec_list(spec.spec_bytes()),
        },
{
    let s = spec.as_bytes();
    let mut out: [u32; 4] = [0, 0, 0, 0];
    if s.len() == 4 && s[0] == 0x6e && s[1] == 0x6f && s[2] == 0x6e && s[3] == 0x65 {
        assert(s@ =~= seq![0x6eu8, 0x6f, 0x6e, 0x65]);
        return Ok(out);
    }
    let ghost all = text::parts(s@, 0x2c);
    let ranges = text::split(s, 0x2c);
    if ranges.len() > 4 {
        return Err(Error::InvalidParameter);
    }
    let mut k: usize = 0;
    while k < ranges.len()
        invariant
            k <= ranges@.len() == all.len() <= 4,
            s@ == spec.spec_bytes(),
            all == text::parts(s@, 0x2c),
            !is_none_word(s@),
            forall|j: int|
                0 <= j < ranges@.len() ==> (#[trigger] ranges@[j]).0 <= ranges@[j].1 <= s@.len()
                    && s@.subrange(ranges@[j].0 as int, ranges@[j].1 as int) == all[j],
            forall|j: int| 0 <= j < k ==> part_code(#[trigger] all[j]) is Some,
            forall|j: int|
                0 <= j < 4 ==> #[trigger] out@[j] == if j < k {
                    part_code(all[j])->0
                } else {
                    0
                },
        decreases ranges@.len() - k,
    {
        let (i, j) = ranges[k];
        let len = s.len();
        assert(s@.subrange(i as int, j as int) == all[k as int]);
        if j - i != 4 {
            assert(part_code(all[k as int]) is None);
            return Err(Error::InvalidParameter);
        }
        let tag = header::make_tag(&[s[i], s[i + 1], s[i + 2], s[i + 3]]);
        assert(tag == header::tag_of(all[k as int][0], all[k as int][1], all[k as int][2], all[k as int][3]));
        if !codec_exists(tag) {
            assert(part_code(all[k as int]) is None);
            return Err(Error::InvalidParameter);
        }
        out[k] = tag;
        k = k + 1;
    }
    Ok(out)
}

} // verus!
