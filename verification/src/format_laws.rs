//! Laws of the format: where the parts of a file are, byte by byte.

use crate::bytes;
use crate::codec;
use crate::header;
use crate::header::CodecType;
use crate::map::RawEntry;
use crate::metadata;
use crate::text;
use vstd::arithmetic::power2::*;
use vstd::prelude::*;
use vstd::string::*;

verus! {

/// The number in `n` bytes from `at` on: each byte counts 256 times what the next one counts.
pub open spec fn number_at(f: Seq<u8>, at: int, n: nat) -> nat
    decreases n,
{
    if n == 0 {
        0
    } else {
        number_at(f, at, (n - 1) as nat) * 256 + f[at + n - 1] as nat
    }
}

/// Numbers stand in a file with the greatest byte first.
pub proof fn greatest_byte_first(f: Seq<u8>, at: int, n: nat)
    requires
        0 <= at,
        at + n <= f.len(),
    ensures
        bytes::be_at(f, at, n as int) == number_at(f, at, n),
    decreases n,
{
    if n > 0 {
        greatest_byte_first(f, at, (n - 1) as nat);
        assert(f.subrange(at, at + n).drop_last() =~= f.subrange(at, at + n - 1));
    }
}

/// A number is written as its bytes, of which as many as are asked for are kept.
pub proof fn number_is_written(v: nat, n: nat, rest: Seq<u8>)
    requires
        v < pow2(8 * n),
    ensures
        bytes::be_bytes(v, n).len() == n,
        number_at(bytes::be_bytes(v, n) + rest, 0, n) == v,
{
    let b = bytes::be_bytes(v, n);
    bytes::lemma_be_len(v, n);
    assert((b + rest).subrange(0, n as int) =~= b);
    bytes::lemma_be_at(b + rest, 0, v, n);
    greatest_byte_first(b + rest, 0, n);
}

/// The header of a file: the codecs from byte 16 on, the size of the image at 32, the place of the
/// map at 40 and of the metadata at 48, the sizes of a hunk and of a unit at 56 and 60, and then the
/// digests of the image, of the image with its metadata, and of the parent.
pub proof fn places_of_the_header(f: Seq<u8>)
    requires
        f.len() >= 124,
    ensures
        ({
            let h = header::fields_at(f);
            &&& h.compression.len() == 4
            &&& h.compression[0] == number_at(f, 16, 4)
            &&& h.compression[1] == number_at(f, 20, 4)
            &&& h.compression[2] == number_at(f, 24, 4)
            &&& h.compression[3] == number_at(f, 28, 4)
            &&& h.logical_bytes == number_at(f, 32, 8)
            &&& h.map_offset == number_at(f, 40, 8)
            &&& h.meta_offset == number_at(f, 48, 8)
            &&& h.hunk_bytes == number_at(f, 56, 4)
            &&& h.unit_bytes == number_at(f, 60, 4)
            &&& h.raw_sha1.len() == 20 && h.sha1.len() == 20 && h.parent_sha1.len() == 20
            &&& forall|i: int| 0 <= i < 20 ==> #[trigger] h.raw_sha1[i] == f[64 + i]
            &&& forall|i: int| 0 <= i < 20 ==> #[trigger] h.sha1[i] == f[84 + i]
            &&& forall|i: int| 0 <= i < 20 ==> #[trigger] h.parent_sha1[i] == f[104 + i]
        }),
{
    lemma_four(f, 16);
    lemma_four(f, 20);
    lemma_four(f, 24);
    lemma_four(f, 28);
    greatest_byte_first(f, 32, 8);
    greatest_byte_first(f, 40, 8);
    greatest_byte_first(f, 48, 8);
    greatest_byte_first(f, 56, 4);
    greatest_byte_first(f, 60, 4);
}

pub proof fn lemma_four(f: Seq<u8>, at: int)
    requires
        0 <= at,
        at + 4 <= f.len(),
    ensures
        bytes::be_at(f, at, 4) == number_at(f, at, 4),
        number_at(f, at, 4) <= u32::MAX,
{
    greatest_byte_first(f, at, 4);
    bytes::lemma_be_bound(f.subrange(at, at + 4));
    lemma2_to64();
}

/// A header can be read exactly where the file starts with `MComprHD`, the length 124 and the
/// version 5, is at least as long, has hunks and units that are not empty, and where 32 bits hold the
/// number of its hunks.
pub proof fn headers_that_can_be_read(f: Seq<u8>)
    ensures
        header::header_fault(f) is None <==> {
            &&& f.len() >= 124
            &&& f[0] == 0x4d && f[1] == 0x43 && f[2] == 0x6f && f[3] == 0x6d
            &&& f[4] == 0x70 && f[5] == 0x72 && f[6] == 0x48 && f[7] == 0x44
            &&& number_at(f, 8, 4) == 124
            &&& number_at(f, 12, 4) == 5
            &&& number_at(f, 56, 4) > 0
            &&& number_at(f, 60, 4) > 0
            &&& number_at(f, 32, 8) <= u32::MAX * number_at(f, 56, 4)
        },
{
    if f.len() >= 16 {
        let word = seq![0x4du8, 0x43u8, 0x6fu8, 0x6du8, 0x70u8, 0x72u8, 0x48u8, 0x44u8];
        assert(header::magic() =~= word);
        if f.take(8) == word {
            assert(f[0] == f.take(8)[0] && f[1] == f.take(8)[1] && f[2] == f.take(8)[2] && f[3] == f.take(
                8,
            )[3] && f[4] == f.take(8)[4] && f[5] == f.take(8)[5] && f[6] == f.take(8)[6] && f[7]
                == f.take(8)[7]);
        }
        if f[0] == 0x4d && f[1] == 0x43 && f[2] == 0x6f && f[3] == 0x6d && f[4] == 0x70 && f[5] == 0x72
            && f[6] == 0x48 && f[7] == 0x44 {
            assert(f.take(8) =~= word);
        }
        lemma_four(f, 8);
        lemma_four(f, 12);
        if f.len() >= 124 {
            lemma_four(f, 56);
            lemma_four(f, 60);
            greatest_byte_first(f, 32, 8);
            let n = number_at(f, 32, 8);
            let size = number_at(f, 56, 4);
            if size > 0 {
                header::lemma_pieces(n, size);
                let c = header::pieces(n, size);
                if c <= u32::MAX {
                    assert(c * size <= u32::MAX * size) by (nonlinear_arith)
                        requires
                            c <= u32::MAX,
                    ;
                } else {
                    assert(c * size >= u32::MAX * size + size) by (nonlinear_arith)
                        requires
                            c >= u32::MAX + 1,
                    ;
                }
            }
        }
    }
}

/// What keeps a header from being read: a file shorter than 16 bytes, or a header of version 5 that
/// is cut short, is `ReadError`; another first word `InvalidFile`; another version or length
/// `UnsupportedVersion`; empty hunks or units, or too many hunks, `InvalidData`.
pub proof fn faults_of_headers(f: Seq<u8>)
    ensures
        f.len() < 16 ==> header::header_fault(f) == Some(crate::error::Error::ReadError),
        f.len() >= 16 && !(f[0] == 0x4d && f[1] == 0x43 && f[2] == 0x6f && f[3] == 0x6d && f[4] == 0x70
            && f[5] == 0x72 && f[6] == 0x48 && f[7] == 0x44) ==> header::header_fault(f) == Some(
            crate::error::Error::InvalidFile,
        ),
        f.len() >= 16 && f[0] == 0x4d && f[1] == 0x43 && f[2] == 0x6f && f[3] == 0x6d && f[4] == 0x70
            && f[5] == 0x72 && f[6] == 0x48 && f[7] == 0x44 ==> {
            &&& number_at(f, 12, 4) != 5 || number_at(f, 8, 4) != 124 ==> header::header_fault(f)
                == Some(crate::error::Error::UnsupportedVersion)
            &&& number_at(f, 12, 4) == 5 && number_at(f, 8, 4) == 124 && f.len() < 124
                ==> header::header_fault(f) == Some(crate::error::Error::ReadError)
            &&& number_at(f, 12, 4) == 5 && number_at(f, 8, 4) == 124 && f.len() >= 124 && (number_at(
                f,
                56,
                4,
            ) == 0 || number_at(f, 60, 4) == 0 || number_at(f, 32, 8) > u32::MAX * number_at(f, 56, 4))
                ==> header::header_fault(f) == Some(crate::error::Error::InvalidData)
        },
{
    if f.len() >= 16 {
        let word = seq![0x4du8, 0x43u8, 0x6fu8, 0x6du8, 0x70u8, 0x72u8, 0x48u8, 0x44u8];
        assert(header::magic() =~= word);
        if f.take(8) == word {
            assert(f[0] == f.take(8)[0] && f[1] == f.take(8)[1] && f[2] == f.take(8)[2] && f[3] == f.take(
                8,
            )[3] && f[4] == f.take(8)[4] && f[5] == f.take(8)[5] && f[6] == f.take(8)[6] && f[7]
                == f.take(8)[7]);
        } else if f[0] == 0x4d && f[1] == 0x43 && f[2] == 0x6f && f[3] == 0x6d && f[4] == 0x70 && f[5]
            == 0x72 && f[6] == 0x48 && f[7] == 0x44 {
            assert(f.take(8) =~= word);
        }
        lemma_four(f, 8);
        lemma_four(f, 12);
        if f.len() >= 124 {
            lemma_four(f, 56);
            lemma_four(f, 60);
            headers_that_can_be_read(f);
        }
    }
}

/// A metadata entry: the tag at its start, a byte of flags, three bytes of length, eight bytes with
/// the place of the next entry, and then the contents.
pub proof fn places_of_an_entry(f: Seq<u8>, at: nat)
    ensures
        metadata::node_at(f, at) is Some <==> at > 0 && at + 16 <= f.len(),
        metadata::node_at(f, at) matches Some(n) ==> {
            &&& n.offset == at
            &&& n.tag == number_at(f, at as int, 4)
            &&& n.flags == f[at as int + 4]
            &&& n.length == number_at(f, at as int + 5, 3)
            &&& n.next == number_at(f, at as int + 8, 8)
            &&& metadata::holds_contents(f, n) <==> at + 16 + n.length <= f.len()
            &&& metadata::holds_contents(f, n) ==> {
                let m = metadata::meta_of(f, n);
                &&& m.tag == n.tag
                &&& m.flags == n.flags
                &&& m.payload == f.subrange(at as int + 16, (at + 16 + n.length) as int)
            }
        },
{
    if at > 0 && at + 16 <= f.len() {
        lemma_four(f, at as int);
        greatest_byte_first(f, at as int + 5, 3);
        greatest_byte_first(f, at as int + 8, 8);
    }
}

/// The list of metadata entries: each entry names the place of the next one, and the last one names
/// zero.
pub proof fn entries_are_chained(f: Seq<u8>, at: nat, i: int)
    requires
        metadata::list(f, at).1 is Done,
        0 <= i < metadata::list(f, at).0.len(),
    ensures
        ({
            let ns = metadata::list(f, at).0;
            &&& ns[0].offset == at
            &&& ns[i].next == number_at(f, ns[i].offset as int + 8, 8)
            &&& ns[i].next == if i + 1 < ns.len() {
                ns[i + 1].offset
            } else {
                0
            }
        }),
{
    lemma_chained(f, at, f.len(), i);
    let ns = metadata::list(f, at).0;
    places_of_an_entry(f, ns[i].offset);
}

proof fn lemma_chained(f: Seq<u8>, at: nat, fuel: nat, i: int)
    requires
        metadata::nodes(f, at, fuel).1 is Done,
        0 <= i < metadata::nodes(f, at, fuel).0.len(),
    ensures
        ({
            let ns = metadata::nodes(f, at, fuel).0;
            &&& ns[0].offset == at
            &&& metadata::node_at(f, ns[i].offset) == Some(ns[i])
            &&& ns[i].next == if i + 1 < ns.len() {
                ns[i + 1].offset
            } else {
                0
            }
        }),
    decreases fuel,
{
    let ns = metadata::nodes(f, at, fuel).0;
    let n = metadata::node_at(f, at)->0;
    let rest = metadata::nodes(f, n.next, (fuel - 1) as nat);
    assert(ns == seq![n] + rest.0);
    if n.next == 0 {
        assert(rest.0.len() == 0);
    } else {
        assert(rest.0.len() > 0);
        lemma_chained(f, n.next, (fuel - 1) as nat, 0);
    }
    if i > 0 {
        lemma_chained(f, n.next, (fuel - 1) as nat, i - 1);
        assert(ns[i] == rest.0[i - 1]);
        if i + 1 < ns.len() {
            assert(ns[i + 1] == rest.0[i]);
        }
    } else if ns.len() > 1 {
        assert(ns[1] == rest.0[0]);
    }
}

/// The entries of the map as their checksum sees them: twelve bytes each, a kind, three bytes of
/// length, six of the place and two of the checksum of the hunk.
pub proof fn places_of_map_entries(m: Seq<RawEntry>, i: int)
    requires
        0 <= i < m.len(),
        m[i].length < 0x100_0000,
        m[i].offset < 0x1_0000_0000_0000,
    ensures
        crate::map::rawmap_bytes(m).len() == 12 * m.len(),
        crate::map::rawmap_bytes(m)[12 * i] == m[i].kind,
        number_at(crate::map::rawmap_bytes(m), 12 * i + 1, 3) == m[i].length,
        number_at(crate::map::rawmap_bytes(m), 12 * i + 4, 6) == m[i].offset,
        number_at(crate::map::rawmap_bytes(m), 12 * i + 10, 2) == m[i].crc,
    decreases m.len(),
{
    let f = crate::map::rawmap_bytes(m);
    let front = crate::map::rawmap_bytes(m.drop_last());
    lemma_rawmap_len(m);
    lemma_rawmap_len(m.drop_last());
    let e = m.last();
    bytes::lemma_be_len(e.length as nat, 3);
    bytes::lemma_be_len(e.offset as nat, 6);
    bytes::lemma_be_len(e.crc as nat, 2);
    let at = 12 * i;
    if i < m.len() - 1 {
        places_of_map_entries(m.drop_last(), i);
        lemma_number_same(f, front, at + 1, 3);
        lemma_number_same(f, front, at + 4, 6);
        lemma_number_same(f, front, at + 10, 2);
    } else {
        lemma2_to64();
        lemma2_to64_rest();
        assert(f.subrange(at + 1, at + 4) =~= bytes::be_bytes(e.length as nat, 3));
        assert(f.subrange(at + 4, at + 10) =~= bytes::be_bytes(e.offset as nat, 6));
        assert(f.subrange(at + 10, at + 12) =~= bytes::be_bytes(e.crc as nat, 2));
        bytes::lemma_be_at(f, at + 1, e.length as nat, 3);
        bytes::lemma_be_at(f, at + 4, e.offset as nat, 6);
        bytes::lemma_be_at(f, at + 10, e.crc as nat, 2);
        greatest_byte_first(f, at + 1, 3);
        greatest_byte_first(f, at + 4, 6);
        greatest_byte_first(f, at + 10, 2);
    }
}

proof fn lemma_rawmap_len(m: Seq<RawEntry>)
    ensures
        crate::map::rawmap_bytes(m).len() == 12 * m.len(),
    decreases m.len(),
{
    if m.len() > 0 {
        lemma_rawmap_len(m.drop_last());
        let e = m.last();
        bytes::lemma_be_len(e.length as nat, 3);
        bytes::lemma_be_len(e.offset as nat, 6);
        bytes::lemma_be_len(e.crc as nat, 2);
    }
}

proof fn lemma_number_same(f: Seq<u8>, g: Seq<u8>, at: int, n: nat)
    requires
        0 <= at,
        forall|k: int| at <= k < at + n ==> f[k] == g[k],
    ensures
        number_at(f, at, n) == number_at(g, at, n),
    decreases n,
{
    if n > 0 {
        lemma_number_same(f, g, at, (n - 1) as nat);
    }
}

/// The four characters of a tag, the first one at the top.
pub open spec fn spells(tag: u32, a: char, b: char, c: char, d: char) -> bool {
    tag == ((a as int * 256 + b as int) * 256 + c as int) * 256 + d as int
}

/// The numbers of the codecs spell their short names. Those of earlier versions are small.
pub proof fn codecs_spell_their_names()
    ensures
        spells(CodecType::ZLibV5.spec_code(), 'z', 'l', 'i', 'b'),
        spells(CodecType::ZstdV5.spec_code(), 'z', 's', 't', 'd'),
        spells(CodecType::LzmaV5.spec_code(), 'l', 'z', 'm', 'a'),
        spells(CodecType::HuffV5.spec_code(), 'h', 'u', 'f', 'f'),
        spells(CodecType::FlacV5.spec_code(), 'f', 'l', 'a', 'c'),
        spells(CodecType::ZLibCdV5.spec_code(), 'c', 'd', 'z', 'l'),
        spells(CodecType::ZstdCdV5.spec_code(), 'c', 'd', 'z', 's'),
        spells(CodecType::LzmaCdV5.spec_code(), 'c', 'd', 'l', 'z'),
        spells(CodecType::FlacCdV5.spec_code(), 'c', 'd', 'f', 'l'),
        spells(CodecType::AVHuffV5.spec_code(), 'a', 'v', 'h', 'u'),
        CodecType::Uncompressed.spec_code() == 0,
        CodecType::Zlib.spec_code() == 1,
        CodecType::ZlibPlus.spec_code() == 2,
        CodecType::AV.spec_code() == 3,
        codec::CHD_CODEC_ZLIB == CodecType::ZLibV5.spec_code(),
        codec::CHD_CODEC_ZSTD == CodecType::ZstdV5.spec_code(),
        codec::CHD_CODEC_LZMA == CodecType::LzmaV5.spec_code(),
        codec::CHD_CODEC_HUFF == CodecType::HuffV5.spec_code(),
        codec::CHD_CODEC_FLAC == CodecType::FlacV5.spec_code(),
        codec::CHD_CODEC_CD_ZLIB == CodecType::ZLibCdV5.spec_code(),
        codec::CHD_CODEC_CD_ZSTD == CodecType::ZstdCdV5.spec_code(),
        codec::CHD_CODEC_CD_LZMA == CodecType::LzmaCdV5.spec_code(),
        codec::CHD_CODEC_CD_FLAC == CodecType::FlacCdV5.spec_code(),
        codec::CHD_CODEC_AVHUFF == CodecType::AVHuffV5.spec_code(),
{
}

/// Every number of a codec stands for that codec, and every other number for none.
pub proof fn numbers_name_codecs(v: u32)
    ensures
        CodecType::named(v) matches Some(c) ==> c.spec_code() == v,
        CodecType::named(v) is None ==> forall|c: CodecType| #[trigger] c.spec_code() != v,
        codec::name_of(v) is Some <==> v == 0 || v > 3 && CodecType::named(v) is Some,
{
    if CodecType::named(v) is Some {
        let c = CodecType::named(v)->0;
        assert(c.spec_code() == v);
    } else {
        assert(CodecType::ZLibV5.spec_code() != v);
        assert(CodecType::ZstdV5.spec_code() != v);
        assert(CodecType::LzmaV5.spec_code() != v);
        assert(CodecType::HuffV5.spec_code() != v);
        assert(CodecType::FlacV5.spec_code() != v);
        assert(CodecType::ZLibCdV5.spec_code() != v);
        assert(CodecType::ZstdCdV5.spec_code() != v);
        assert(CodecType::LzmaCdV5.spec_code() != v);
        assert(CodecType::FlacCdV5.spec_code() != v);
        assert(CodecType::AVHuffV5.spec_code() != v);
        assert(CodecType::Uncompressed.spec_code() != v);
    }
}

/// The notation for codecs: the short names of one to four codecs with commas between them. The
/// first name is of the first slot, and a name of a codec that does not exist, or of another length,
/// makes the whole notation wrong.
pub proof fn codecs_are_read_in_order(a: Seq<u8>, rest: Seq<u8>)
    requires
        text::lacks(a, 0x2c),
    ensures
        codec::part_code(a) is Some <==> a.len() == 4 && codec::name_of(number_at(a, 0, 4) as u32) is Some,
        codec::part_code(a) matches Some(v) ==> v == number_at(a, 0, 4),
        codec::is_codec_list(a) <==> codec::part_code(a) is Some,
        codec::is_codec_list(a + seq![0x2cu8] + rest) <==> codec::part_code(a) is Some
            && codec::is_codec_list(rest) && text::parts(rest, 0x2c).len() <= 3,
        text::parts(a + seq![0x2cu8] + rest, 0x2c) == seq![a] + text::parts(rest, 0x2c),
        text::parts(a, 0x2c) == seq![a],
{
    if a.len() == 4 {
        reveal_with_fuel(number_at, 5);
        assert(number_at(a, 0, 4) == ((a[0] as nat * 256 + a[1] as nat) * 256 + a[2] as nat) * 256
            + a[3] as nat);
    }
    text::parts_of_one(a, 0x2c);
    text::parts_of_joined(a, rest, 0x2c);
    let p = text::parts(a, 0x2c);
    let q = text::parts(a + seq![0x2cu8] + rest, 0x2c);
    let r = text::parts(rest, 0x2c);
    assert(p[0] == a);
    assert(q[0] == a);
    assert(q.len() == r.len() + 1);
    if codec::is_codec_list(a + seq![0x2cu8] + rest) {
        assert forall|k: int| 0 <= k < r.len() implies codec::part_code(#[trigger] r[k]) is Some by {
            assert(q[k + 1] == r[k]);
        }
    }
    if codec::part_code(a) is Some && codec::is_codec_list(rest) && r.len() <= 3 {
        assert forall|k: int| 0 <= k < q.len() implies codec::part_code(#[trigger] q[k]) is Some by {
            if k > 0 {
                assert(q[k] == r[k - 1]);
            }
        }
    }
}

/// A tag has four characters, the first one at the top; a shorter text is filled up with spaces.
pub proof fn tags_spell_their_characters(a: u8, b: u8, c: u8, d: u8)
    ensures
        header::tag_of(a, b, c, d) == ((a as int * 256 + b) * 256 + c) * 256 + d,
        crate::report::characters(header::tag_of(a, b, c, d)) == seq![a, b, c, d],
        crate::report::fourcc(seq![a, b, c, d]) == header::tag_of(a, b, c, d),
        crate::report::fourcc(seq![a, b, c]) == header::tag_of(a, b, c, 0x20),
        crate::report::fourcc(seq![a, b]) == header::tag_of(a, b, 0x20, 0x20),
{
    let t = header::tag_of(a, b, c, d);
    assert(t == ((a as int * 256 + b) * 256 + c) * 256 + d);
    assert(t / 0x100_0000 == a);
    assert(t / 0x1_0000 % 0x100 == b);
    assert(t / 0x100 % 0x100 == c);
    assert(t % 0x100 == d);
    assert(crate::report::characters(t) =~= seq![a, b, c, d]);
}

} // verus!
