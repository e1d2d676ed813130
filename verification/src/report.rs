//! What a tool shows of a file: names, tallies and tags.

use crate::bytes;
use crate::chdfile;
use crate::chdfile::{Chd, HunkMap, LegacyKind, MapModel};
use crate::error::Error;
use crate::header;
use crate::header::{CodecType, Header};
use crate::map::{
    COMPRESSION_PARENT, COMPRESSION_PARENT_0, COMPRESSION_PARENT_1, COMPRESSION_PARENT_SELF,
    COMPRESSION_SELF, COMPRESSION_SELF_0, COMPRESSION_SELF_1,
};
use crate::metadata::Metadata;
use crate::write::pieces_of;
use vstd::prelude::*;
use vstd::string::*;

verus! {

/// A character of a tag; a space where the text is too short.
pub open spec fn char_or_space(s: Seq<u8>, i: int) -> u8 {
    if i < s.len() {
        s[i]
    } else {
        0x20
    }
}

/// The tag that the first four characters of a text stand for.
pub open spec fn fourcc(s: Seq<u8>) -> u32 {
    header::tag_of(
        char_or_space(s, 0),
        char_or_space(s, 1),
        char_or_space(s, 2),
        char_or_space(s, 3),
    )
}

/// The tag that the first four characters of a text stand for. Spaces fill up a shorter text.
pub fn fourcc_to_u32(s: &[u8]) -> (r: u32)
    ensures
        r == fourcc(s@),
{
    let n = s.len();
    let mut tag: [u8; 4] = [0x20, 0x20, 0x20, 0x20];
    if n > 0 {
        tag[0] = s[0];
    }
    if n > 1 {
        tag[1] = s[1];
    }
    if n > 2 {
        tag[2] = s[2];
    }
    if n > 3 {
        tag[3] = s[3];
    }
    header::make_tag(&tag)
}

/// The four characters of a tag.
pub open spec fn characters(tag: u32) -> Seq<u8> {
    seq![
        (tag / 0x100_0000) as u8,
        (tag / 0x1_0000 % 0x100) as u8,
        (tag / 0x100 % 0x100) as u8,
        (tag % 0x100) as u8,
    ]
}

/// The four characters of a tag.
pub fn to_fourcc(tag: u32) -> (r: [u8; 4])
    ensures
        r@ == characters(tag),
{
    let r: [u8; 4] = [
        (tag / 0x100_0000) as u8,
        (tag / 0x1_0000 % 0x100) as u8,
        (tag / 0x100 % 0x100) as u8,
        (tag % 0x100) as u8,
    ];
    assert(r@ =~= characters(tag));
    r
}

/// The characters of a tag stand for that tag.
#[verifier::spinoff_prover]
#[verifier::rlimit(60)]
pub proof fn tag_is_read_back(tag: u32)
    ensures
        fourcc(characters(tag)) == tag,
{
}

/// What a hunk is called that a codec has compressed.
pub open spec fn codec_label(ty: CodecType) -> Seq<char> {
    match ty {
        CodecType::Uncompressed => "Copy from self"@,
        CodecType::Zlib => "Legacy zlib (Deflate)"@,
        CodecType::ZlibPlus => "Legacy zlib+ (Deflate)"@,
        CodecType::AV => "Legacy A/V"@,
        CodecType::ZLibV5 => "Deflate"@,
        CodecType::ZLibCdV5 => "CD Deflate"@,
        CodecType::LzmaCdV5 => "CD LZMA"@,
        CodecType::FlacCdV5 => "CD FLAC"@,
        CodecType::FlacV5 => "FLAC"@,
        CodecType::LzmaV5 => "LZMA"@,
        CodecType::AVHuffV5 => "A/V Huffman"@,
        CodecType::HuffV5 => "Huffman"@,
        CodecType::ZstdV5 => "Zstandard"@,
        CodecType::ZstdCdV5 => "CD Zstandard"@,
    }
}

/// What a hunk is called that a codec has compressed.
pub fn hunk_codec_name(ty: CodecType) -> (r: &'static str)
    ensures
        r@ == codec_label(ty),
{
    match ty {
        CodecType::Uncompressed => "Copy from self",
        CodecType::Zlib => "Legacy zlib (Deflate)",
        CodecType::ZlibPlus => "Legacy zlib+ (Deflate)",
        CodecType::AV => "Legacy A/V",
        CodecType::ZLibV5 => "Deflate",
        CodecType::ZLibCdV5 => "CD Deflate",
        CodecType::LzmaCdV5 => "CD LZMA",
        CodecType::FlacCdV5 => "CD FLAC",
        CodecType::FlacV5 => "FLAC",
        CodecType::LzmaV5 => "LZMA",
        CodecType::AVHuffV5 => "A/V Huffman",
        CodecType::HuffV5 => "Huffman",
        CodecType::ZstdV5 => "Zstandard",
        CodecType::ZstdCdV5 => "CD Zstandard",
    }
}

/// What a codec is called in the list of the codecs of a file.
pub open spec fn compression_label(ty: CodecType) -> Seq<char> {
    match ty {
        CodecType::Uncompressed => "none"@,
        CodecType::Zlib => "Legacy zlib (Deflate)"@,
        CodecType::ZlibPlus => "Legacy zlib+ (Deflate)"@,
        CodecType::AV => "Legacy av (AV)"@,
        CodecType::ZLibV5 => "zlib (Deflate)"@,
        CodecType::ZLibCdV5 => "cdzl (CD Deflate)"@,
        CodecType::LzmaCdV5 => "cdlz (CD LZMA)"@,
        CodecType::FlacCdV5 => "cdfl (CD FLAC)"@,
        CodecType::FlacV5 => "flac (FLAC)"@,
        CodecType::LzmaV5 => "lzma (LZMA)"@,
        CodecType::AVHuffV5 => "avhu (A/V Huffman)"@,
        CodecType::HuffV5 => "huff (Huffman)"@,
        CodecType::ZstdV5 => "zstd (Zstandard)"@,
        CodecType::ZstdCdV5 => "cdzs (CD Zstandard)"@,
    }
}

/// What a codec is called in the list of the codecs of a file.
pub fn compression_name(ty: CodecType) -> (r: &'static str)
    ensures
        r@ == compression_label(ty),
{
    match ty {
        CodecType::Uncompressed => "none",
        CodecType::Zlib => "Legacy zlib (Deflate)",
        CodecType::ZlibPlus => "Legacy zlib+ (Deflate)",
        CodecType::AV => "Legacy av (AV)",
        CodecType::ZLibV5 => "zlib (Deflate)",
        CodecType::ZLibCdV5 => "cdzl (CD Deflate)",
        CodecType::LzmaCdV5 => "cdlz (CD LZMA)",
        CodecType::FlacCdV5 => "cdfl (CD FLAC)",
        CodecType::FlacV5 => "flac (FLAC)",
        CodecType::LzmaV5 => "lzma (LZMA)",
        CodecType::AVHuffV5 => "avhu (A/V Huffman)",
        CodecType::HuffV5 => "huff (Huffman)",
        CodecType::ZstdV5 => "zstd (Zstandard)",
        CodecType::ZstdCdV5 => "cdzs (CD Zstandard)",
    }
}

/// The number of codecs that the header of a file names: one before version 5, and those before the
/// first empty slot from then on.
pub open spec fn codecs_named(h: Header, k: int) -> int
    decreases 4 - k,
{
    if h.version < 5 {
        1
    } else if 0 <= k < 4 && h.compression@[k] != 0 {
        codecs_named(h, k + 1)
    } else {
        k
    }
}

/// Names as texts.
pub open spec fn name_texts(v: Seq<&'static str>) -> Seq<Seq<char>> {
    v.map_values(|x: &'static str| x@)
}

/// The names of the first codecs of a file.
pub open spec fn labels(h: Header, n: int) -> Seq<Seq<char>> {
    Seq::new(n as nat, |k: int| compression_label(CodecType::named(h.compression@[k])->0))
}

/// The names of the codecs of a file. There are none where the header has a number that is not one
/// of a codec.
pub fn compression_names(h: &Header) -> (r: Option<Vec<&'static str>>)
    ensures
        match r {
            Some(v) => {
                &&& name_texts(v@) == labels(*h, codecs_named(*h, 0))
                &&& forall|k: int|
                    0 <= k < codecs_named(*h, 0) ==> CodecType::named(
                        #[trigger] h.compression@[k],
                    ) is Some
            },
            None => exists|k: int|
                0 <= k < codecs_named(*h, 0) && CodecType::named(
                    #[trigger] h.compression@[k],
                ) is None,
        },
{
    let mut out: Vec<&'static str> = Vec::new();
    let mut k: usize = 0;
    proof {
        if h.version >= 5 {
            lemma_codecs_named(*h, 0);
        }
        assert(name_texts(out@) =~= labels(*h, 0));
    }
    while k < 4 && (h.version < 5 && k < 1 || h.version >= 5 && h.compression[k] != 0)
        invariant
            k <= 4,
            k <= codecs_named(*h, 0),
            h.version >= 5 ==> codecs_named(*h, 0) == codecs_named(*h, k as int),
            name_texts(out@) == labels(*h, k as int),
            forall|j: int| 0 <= j < k ==> CodecType::named(#[trigger] h.compression@[j]) is Some,
        decreases 4 - k,
    {
        assert(h.version >= 5 ==> codecs_named(*h, k as int) == codecs_named(*h, k + 1));
        proof {
            if h.version >= 5 {
                lemma_codecs_named(*h, k + 1);
            }
        }
        match CodecType::from_u32(h.compression[k]) {
            None => {
                assert(CodecType::named(h.compression@[k as int]) is None);
                return None;
            },
            Some(ty) => {
                let ghost before = name_texts(out@);
                let name = compression_name(ty);
                out.push(name);
                assert(name_texts(out@) =~= before.push(name@));
                assert(labels(*h, k + 1) =~= labels(*h, k as int).push(name@));
            },
        }
        k = k + 1;
    }
    Some(out)
}

proof fn lemma_codecs_named(h: Header, k: int)
    requires
        0 <= k <= 4,
        h.version >= 5,
    ensures
        k <= codecs_named(h, k) <= 4,
    decreases 4 - k,
{
    if k < 4 && h.compression@[k] != 0 {
        lemma_codecs_named(h, k + 1);
    }
}

/// The number of units that hold the image of a file.
pub fn unit_count(h: &Header) -> (r: u64)
    requires
        h.unit_bytes > 0,
    ensures
        r == header::pieces(h.logical_bytes as nat, h.unit_bytes as nat),
{
    pieces_of(h.logical_bytes, h.unit_bytes as u64)
}

/// The row of the tally that a hunk of a kind counts for. Rows 0 to 3 are of the codecs, by slot; row
/// 4 is of hunks as they are, row 5 of references within the file, row 6 of the other kinds.
/// References to the parent count for none.
pub open spec fn packed_row(kind: u8) -> Option<int> {
    if kind < 5 {
        Some(kind as int)
    } else if kind == COMPRESSION_SELF || kind == COMPRESSION_SELF_0 || kind == COMPRESSION_SELF_1 {
        Some(5)
    } else if kind == COMPRESSION_PARENT || kind == COMPRESSION_PARENT_SELF || kind
        == COMPRESSION_PARENT_0 || kind == COMPRESSION_PARENT_1 {
        None
    } else {
        Some(6)
    }
}

/// The row of the tally that a hunk of a file before version 5 counts for. Row 7 is of hunks of eight
/// bytes, row 8 of hunks that are elsewhere.
pub open spec fn legacy_row(kind: LegacyKind) -> Option<int> {
    match kind {
        LegacyKind::Invalid => None,
        LegacyKind::Compressed => Some(0),
        LegacyKind::Uncompressed => Some(4),
        LegacyKind::Mini => Some(7),
        LegacyKind::SelfHunk => Some(5),
        LegacyKind::ParentHunk => Some(6),
        LegacyKind::ExternalCompressed => Some(8),
    }
}

/// The row of the tally that hunk `i` counts for.
pub open spec fn row_of(m: MapModel, i: int) -> Option<int> {
    match m {
        MapModel::Packed(es) => packed_row(es[i].kind),
        MapModel::Plain(ps) => Some(4int),
        MapModel::Legacy(es) => legacy_row(es[i].kind),
    }
}

/// How many of the first hunks count for a row.
pub open spec fn tally(m: MapModel, row: int, n: nat) -> nat
    decreases n,
{
    if n == 0 {
        0
    } else {
        tally(m, row, (n - 1) as nat) + if row_of(m, n - 1) == Some(row) {
            1nat
        } else {
            0nat
        }
    }
}

/// Whether a map has a kind that there is not.
pub open spec fn has_unknown_kind(m: MapModel) -> bool {
    m matches MapModel::Packed(es) && exists|i: int| 0 <= i < es.len() && (#[trigger] es[i]).kind > 13
}

/// The row of the tally that hunk `i` counts for; nine stands for none.
fn find_row(m: &HunkMap, i: usize) -> (r: usize)
    requires
        i < m@.len(),
    ensures
        r <= 9,
        r < 9 ==> row_of(m@, i as int) == Some(r as int),
        r == 9 ==> row_of(m@, i as int) is None,
{
    match m {
        HunkMap::Packed(es) => {
            let kind = es[i].kind;
            if kind < 5 {
                kind as usize
            } else if kind == COMPRESSION_SELF || kind == COMPRESSION_SELF_0 || kind
                == COMPRESSION_SELF_1 {
                5
            } else if kind == COMPRESSION_PARENT || kind == COMPRESSION_PARENT_SELF || kind
                == COMPRESSION_PARENT_0 || kind == COMPRESSION_PARENT_1 {
                9
            } else {
                6
            }
        },
        HunkMap::Plain(ps) => 4,
        HunkMap::Legacy(es) => {
            match es[i].kind {
                LegacyKind::Invalid => 9,
                LegacyKind::Compressed => 0,
                LegacyKind::Uncompressed => 4,
                LegacyKind::Mini => 7,
                LegacyKind::SelfHunk => 5,
                LegacyKind::ParentHunk => 6,
                LegacyKind::ExternalCompressed => 8,
            }
        },
    }
}

/// Counts the hunks of a file by how they are kept.
pub fn count_hunks(m: &HunkMap) -> (r: Result<[u64; 9], Error>)
    ensures
        match r {
            Ok(counts) => !has_unknown_kind(m@) && forall|row: int|
                0 <= row < 9 ==> #[trigger] counts@[row] == tally(m@, row, m@.len()),
            Err(e) => has_unknown_kind(m@) && e == Error::UnsupportedFormat,
        },
{
    let n = match m {
        HunkMap::Packed(es) => es.len(),
        HunkMap::Plain(ps) => ps.len(),
        HunkMap::Legacy(es) => es.len(),
    };
    let mut counts: [u64; 9] = [0u64; 9];
    let mut i: usize = 0;
    while i < n
        invariant
            i <= n == m@.len(),
            m@ matches MapModel::Packed(es) ==> forall|j: int|
                0 <= j < i ==> (#[trigger] es[j]).kind <= 13,
            forall|row: int|
                0 <= row < 9 ==> #[trigger] counts@[row] == tally(m@, row, i as nat)
                    && counts@[row] <= i,
        decreases n - i,
    {
        if let HunkMap::Packed(es) = m {
            if es[i].kind > 13 {
                return Err(Error::UnsupportedFormat);
            }
        }
        let row = find_row(m, i);
        if row < 9 {
            assert(counts@[row as int] <= i);
            counts[row] = counts[row] + 1;
        }
        i = i + 1;
    }
    Ok(counts)
}

/// The name of a row of the tally. The codecs have theirs from the header.
pub open spec fn row_name(h: Header, row: int) -> Option<Seq<char>> {
    if row == 4 {
        Some("Uncompressed"@)
    } else if row == 5 {
        Some("Copy from self"@)
    } else if row == 6 {
        Some("Copy from parent"@)
    } else if row == 7 {
        Some("Legacy 8-byte mini"@)
    } else if row == 8 {
        Some("Unknown"@)
    } else {
        match CodecType::named(
            if h.version < 5 {
                h.compression@[0]
            } else {
                h.compression@[row]
            },
        ) {
            Some(ty) => Some(codec_label(ty)),
            None => None,
        }
    }
}

/// The name of a row of the tally.
pub fn name_row(h: &Header, row: usize) -> (r: Option<&'static str>)
    requires
        row < 9,
    ensures
        match r {
            Some(name) => row_name(*h, row as int) == Some(name@),
            None => row_name(*h, row as int) is None,
        },
{
    if row == 4 {
        Some("Uncompressed")
    } else if row == 5 {
        Some("Copy from self")
    } else if row == 6 {
        Some("Copy from parent")
    } else if row == 7 {
        Some("Legacy 8-byte mini")
    } else if row == 8 {
        Some("Unknown")
    } else {
        let code: u32 = if h.version < 5 {
            h.compression[0]
        } else {
            h.compression[row]
        };
        match CodecType::from_u32(code) {
            Some(ty) => Some(hunk_codec_name(ty)),
            None => None,
        }
    }
}

/// The row that stands in place `k`: those of the codecs come last.
pub open spec fn row_at(k: int) -> int {
    if k < 5 {
        k + 4
    } else {
        k - 5
    }
}

/// The rows from place `k` on that count something.
pub open spec fn rows_from(h: Header, counts: Seq<u64>, k: int) -> Seq<(u64, Seq<char>)>
    decreases 9 - k,
{
    if k < 0 || k >= 9 {
        Seq::empty()
    } else if counts[row_at(k)] == 0 {
        rows_from(h, counts, k + 1)
    } else {
        seq![(counts[row_at(k)], row_name(h, row_at(k))->0)] + rows_from(h, counts, k + 1)
    }
}

/// Rows with their names as texts.
pub open spec fn named_rows(v: Seq<(u64, &'static str)>) -> Seq<(u64, Seq<char>)> {
    v.map_values(|x: (u64, &'static str)| (x.0, x.1@))
}

/// The rows of a tally that count something. There are none where the header has a number that is
/// not one of a codec.
pub fn tally_rows(h: &Header, counts: &[u64; 9]) -> (r: Option<Vec<(u64, &'static str)>>)
    ensures
        match r {
            Some(v) => (forall|row: int| 0 <= row < 9 ==> #[trigger] row_name(*h, row) is Some)
                && named_rows(v@) == rows_from(*h, counts@, 0),
            None => exists|row: int| 0 <= row < 9 && #[trigger] row_name(*h, row) is None,
        },
{
    let mut out: Vec<(u64, &'static str)> = Vec::new();
    let mut k: usize = 0;
    assert(named_rows(out@) =~= Seq::empty());
    assert(named_rows(out@) + rows_from(*h, counts@, 0) =~= rows_from(*h, counts@, 0));
    while k < 9
        invariant
            k <= 9,
            named_rows(out@) + rows_from(*h, counts@, k as int) == rows_from(*h, counts@, 0),
            forall|j: int| 0 <= j < k ==> row_name(*h, #[trigger] row_at(j)) is Some,
        decreases 9 - k,
    {
        let row: usize = if k < 5 {
            k + 4
        } else {
            k - 5
        };
        assert(row == row_at(k as int));
        let name: &'static str = match name_row(h, row) {
            None => {
                assert(row_name(*h, row as int) is None);
                return None;
            },
            Some(name) => name,
        };
        if counts[row] != 0 {
            let ghost before = named_rows(out@);
            let ghost rest = rows_from(*h, counts@, k + 1);
            out.push((counts[row], name));
            proof {
                let one = (counts@[row as int], name@);
                assert(named_rows(out@) =~= before.push(one));
                assert(before + (seq![one] + rest) =~= named_rows(out@) + rest);
            }
        }
        k = k + 1;
    }
    proof {
        assert(named_rows(out@) =~= rows_from(*h, counts@, 0));
        assert forall|row: int| 0 <= row < 9 implies #[trigger] row_name(*h, row) is Some by {
            if row >= 4 {
                assert(row_at(row - 4) == row);
            } else {
                assert(row_at(row + 5) == row);
            }
        }
    }
    Some(out)
}

/// Whether a character can be shown as it is.
pub open spec fn is_printable(c: u8) -> bool {
    0x20 <= c <= 0x7e || c == 0x09 || c == 0x0a || c == 0x0c || c == 0x0d
}

/// Puts a dot in the place of each character that cannot be shown.
pub fn printable(value: &[u8]) -> (r: Vec<u8>)
    ensures
        r@ == value@.map_values(
            |c: u8|
                if is_printable(c) {
                    c
                } else {
                    0x2e
                },
        ),
{
    let mut out: Vec<u8> = Vec::new();
    let n = value.len();
    let mut i: usize = 0;
    while i < n
        invariant
            i <= n == value@.len(),
            out@.len() == i,
            forall|k: int|
                0 <= k < i ==> #[trigger] out@[k] == if is_printable(value@[k]) {
                    value@[k]
                } else {
                    0x2e
                },
        decreases n - i,
    {
        let c = value[i];
        if 0x20 <= c && c <= 0x7e || c == 0x09 || c == 0x0a || c == 0x0c || c == 0x0d {
            out.push(c);
        } else {
            out.push(0x2e);
        }
        i = i + 1;
    }
    assert(out@ =~= value@.map_values(
        |c: u8|
            if is_printable(c) {
                c
            } else {
                0x2e
            },
    ));
    out
}

/// A text as metadata has it: with a zero behind it.
pub fn text_value(text: &[u8]) -> (r: Vec<u8>)
    ensures
        r@ == text@.push(0),
{
    let mut out: Vec<u8> = Vec::new();
    out.extend_from_slice(text);
    assert(out@ =~= text@);
    out.push(0);
    out
}

/// Whether an entry is the one with a tag and a number among those with that tag.
pub open spec fn is_entry(m: Metadata, tag: u32, index: u32) -> bool {
    m.metatag == tag && m.index == index
}

/// Finds the entry with a tag and a number among those with that tag.
pub fn find_metadata(metas: &Vec<Metadata>, tag: u32, index: u32) -> (r: Option<usize>)
    ensures
        match r {
            Some(i) => i < metas@.len() && is_entry(metas@[i as int], tag, index) && forall|k: int|
                0 <= k < i ==> !is_entry(#[trigger] metas@[k], tag, index),
            None => forall|k: int|
                0 <= k < metas@.len() ==> !is_entry(#[trigger] metas@[k], tag, index),
        },
{
    let n = metas.len();
    let mut i: usize = 0;
    while i < n
        invariant
            i <= n == metas@.len(),
            forall|k: int| 0 <= k < i ==> !is_entry(#[trigger] metas@[k], tag, index),
        decreases n - i,
    {
        if metas[i].metatag == tag && metas[i].index == index {
            return Some(i);
        }
        i = i + 1;
    }
    None
}

/// What the input for a CD image is.
#[derive(Debug, Clone, Copy, PartialEq, Eq, Structural)]
pub enum CdInput {
    /// A CUE sheet.
    Cue,
    /// A GDI sheet.
    Gdi,
    /// Nothing but sectors.
    Flat,
}

/// A character in lower case.
pub open spec fn lower(c: u8) -> u8 {
    if 0x41 <= c <= 0x5a {
        (c + 0x20) as u8
    } else {
        c
    }
}

/// Whether a text is three characters, in either case.
pub open spec fn is_three(s: Seq<u8>, a: u8, b: u8, c: u8) -> bool {
    s.len() == 3 && lower(s[0]) == a && lower(s[1]) == b && lower(s[2]) == c
}

/// What the input for a CD image is, by the extension of its name.
pub open spec fn input_kind(extension: Seq<u8>) -> CdInput {
    if is_three(extension, 0x63, 0x75, 0x65) {
        CdInput::Cue
    } else if is_three(extension, 0x67, 0x64, 0x69) {
        CdInput::Gdi
    } else {
        CdInput::Flat
    }
}

fn to_lower(c: u8) -> (r: u8)
    ensures
        r == lower(c),
{
    if 0x41 <= c && c <= 0x5a {
        c + 0x20
    } else {
        c
    }
}

/// What the input for a CD image is, by the extension of its name.
pub fn cd_input(extension: &[u8]) -> (r: CdInput)
    ensures
        r == input_kind(extension@),
{
    if extension.len() != 3 {
        return CdInput::Flat;
    }
    let a = to_lower(extension[0]);
    let b = to_lower(extension[1]);
    let c = to_lower(extension[2]);
    if a == 0x63 && b == 0x75 && c == 0x65 {
        CdInput::Cue
    } else if a == 0x67 && b == 0x64 && c == 0x69 {
        CdInput::Gdi
    } else {
        CdInput::Flat
    }
}

/// Appends the image of a file hunk by hunk; what fills up the last hunk is left out. Where a hunk
/// cannot be read, those before it have been appended.
pub fn extract_raw(chd: &mut Chd, out: &mut Vec<u8>) -> (r: Result<(), Error>)
    requires
        old(chd).wf(),
    ensures
        final(chd).wf(),
        final(chd).image() == old(chd).image(),
        final(chd).spec_header() == old(chd).spec_header(),
        ({
            let img = old(chd).image();
            let logical = old(chd).spec_header().logical_bytes as nat;
            match chdfile::gathered(img, logical, img.count as nat) {
                Ok((data, buf)) => r is Ok && final(out)@ == old(out)@ + data,
                Err(e) => r == Err::<(), Error>(e) && exists|n: nat|
                    #![trigger chdfile::gathered(img, logical, n)]
                    n < img.count && chdfile::gathered(img, logical, n) is Ok && chdfile::gathered(
                        img,
                        logical,
                        n + 1,
                    ) is Err && final(out)@ == old(out)@ + chdfile::gathered(img, logical, n)->Ok_0.0,
            }
        }),
{
    let ghost img = chd.image();
    let ghost h = chd.spec_header();
    let ghost before = out@;
    proof {
        chd.lemma_image();
    }
    let count = chd.header().hunk_count;
    let logical = chd.header().logical_bytes;
    let size = chd.header().hunk_bytes as usize;
    let mut comp_buf: Vec<u8> = Vec::new();
    let mut buf = chd.get_hunksized_buffer();
    let mut remaining: u64 = logical;
    let mut i: u32 = 0;
    assert(out@ =~= before + Seq::<u8>::empty());
    while i < count
        invariant
            i <= count == img.count,
            chd.wf(),
            chd.image() == img,
            img == old(chd).image(),
            chd.spec_header() == h,
            h == old(chd).spec_header(),
            logical == h.logical_bytes,
            size == img.hunk_bytes,
            before == old(out)@,
            chdfile::gathered(img, logical as nat, i as nat) is Ok,
            chdfile::gathered(img, logical as nat, i as nat)->Ok_0.1 == buf@,
            remaining + chdfile::gathered(img, logical as nat, i as nat)->Ok_0.0.len() == logical,
            buf@.len() == size,
            out@ == before + chdfile::gathered(img, logical as nat, i as nat)->Ok_0.0,
        decreases count - i,
    {
        let ghost data = chdfile::gathered(img, logical as nat, i as nat)->Ok_0.0;
        match chd.read_whole(i, &mut comp_buf, buf.as_mut_slice()) {
            Err(e) => {
                proof {
                    assert(chdfile::gathered(img, logical as nat, (i + 1) as nat) == Err::<
                        (Seq<u8>, Seq<u8>),
                        Error,
                    >(e));
                    chdfile::lemma_gathered_err(img, logical as nat, (i + 1) as nat, count as nat);
                }
                return Err(e);
            },
            Ok(_) => {},
        }
        let take: usize = if remaining < size as u64 {
            remaining as usize
        } else {
            size
        };
        out.extend_from_slice(&buf[0..take]);
        assert(out@ =~= before + (data + buf@.take(take as int)));
        remaining = remaining - take as u64;
        i = i + 1;
    }
    Ok(())
}

} // verus!
