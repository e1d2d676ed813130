//! The header of a file, and the codecs that it names.

use crate::bytes;
use crate::bytes::{get_be, push_be};
use crate::error::Error;
use vstd::arithmetic::power2::*;
use vstd::prelude::*;

verus! {

/// The codecs that a header can name.
#[derive(Debug, Clone, Copy, PartialEq, Eq, Structural)]
pub enum CodecType {
    /// No compression.
    Uncompressed,
    /// Deflate, in files before version 5.
    Zlib,
    /// Deflate, in files before version 5.
    ZlibPlus,
    /// Audio and video, in files before version 5.
    AV,
    /// Deflate.
    ZLibV5,
    /// Deflate for CD frames.
    ZLibCdV5,
    /// LZMA for CD frames.
    LzmaCdV5,
    /// FLAC for CD frames.
    FlacCdV5,
    /// FLAC.
    FlacV5,
    /// LZMA.
    LzmaV5,
    /// Audio and video.
    AVHuffV5,
    /// Huffman.
    HuffV5,
    /// Zstandard.
    ZstdV5,
    /// Zstandard for CD frames.
    ZstdCdV5,
}

/// The number of four characters.
pub open spec fn tag_of(a: u8, b: u8, c: u8, d: u8) -> u32 {
    (a * 0x100_0000 + b * 0x1_0000 + c * 0x100 + d) as u32
}

/// Packs four characters into a number, the first one at the top.
pub fn make_tag(a: &[u8; 4]) -> (r: u32)
    ensures
        r == tag_of(a@[0], a@[1], a@[2], a@[3]),
{
    a[0] as u32 * 0x100_0000 + a[1] as u32 * 0x1_0000 + a[2] as u32 * 0x100 + a[3] as u32
}

impl CodecType {
    /// The number of a codec in a header.
    pub open spec fn spec_code(self) -> u32 {
        match self {
            CodecType::Uncompressed => 0,
            CodecType::Zlib => 1,
            CodecType::ZlibPlus => 2,
            CodecType::AV => 3,
            CodecType::ZLibV5 => 0x7a6c6962,
            CodecType::ZLibCdV5 => 0x63647a6c,
            CodecType::LzmaCdV5 => 0x63646c7a,
            CodecType::FlacCdV5 => 0x6364666c,
            CodecType::FlacV5 => 0x666c6163,
            CodecType::LzmaV5 => 0x6c7a6d61,
            CodecType::AVHuffV5 => 0x61766875,
            CodecType::HuffV5 => 0x68756666,
            CodecType::ZstdV5 => 0x7a737464,
            CodecType::ZstdCdV5 => 0x63647a73,
        }
    }

    /// The number of the codec in a header.
    pub fn code(self) -> (r: u32)
        ensures
            r == self.spec_code(),
    {
        match self {
            CodecType::Uncompressed => 0,
            CodecType::Zlib => 1,
            CodecType::ZlibPlus => 2,
            CodecType::AV => 3,
            CodecType::ZLibV5 => 0x7a6c6962,
            CodecType::ZLibCdV5 => 0x63647a6c,
            CodecType::LzmaCdV5 => 0x63646c7a,
            CodecType::FlacCdV5 => 0x6364666c,
            CodecType::FlacV5 => 0x666c6163,
            CodecType::LzmaV5 => 0x6c7a6d61,
            CodecType::AVHuffV5 => 0x61766875,
            CodecType::HuffV5 => 0x68756666,
            CodecType::ZstdV5 => 0x7a737464,
            CodecType::ZstdCdV5 => 0x63647a73,
        }
    }

    /// The codec of the given number, as a specification.
    pub open spec fn named(v: u32) -> Option<CodecType> {
        if exists|c: CodecType| #[trigger] c.spec_code() == v {
            Some(choose|c: CodecType| #[trigger] c.spec_code() == v)
        } else {
            None
        }
    }

    /// The codec of the given number, if there is one.
    pub fn from_u32(v: u32) -> (r: Option<CodecType>)
        ensures
            r == CodecType::named(v),
            match r {
                Some(c) => c.spec_code() == v,
                None => forall|c: CodecType| c.spec_code() != v,
            },
    {
        let r = CodecType::find(v);
        proof {
            if let Some(c) = r {
                assert(c.spec_code() == v);
                codes_are_distinct(c, CodecType::named(v)->0);
            }
        }
        r
    }

    fn find(v: u32) -> (r: Option<CodecType>)
        ensures
            match r {
                Some(c) => c.spec_code() == v,
                None => forall|c: CodecType| c.spec_code() != v,
            },
    {
        match v {
            0 => Some(CodecType::Uncompressed),
            1 => Some(CodecType::Zlib),
            2 => Some(CodecType::ZlibPlus),
            3 => Some(CodecType::AV),
            0x7a6c6962 => Some(CodecType::ZLibV5),
            0x63647a6c => Some(CodecType::ZLibCdV5),
            0x63646c7a => Some(CodecType::LzmaCdV5),
            0x6364666c => Some(CodecType::FlacCdV5),
            0x666c6163 => Some(CodecType::FlacV5),
            0x6c7a6d61 => Some(CodecType::LzmaV5),
            0x61766875 => Some(CodecType::AVHuffV5),
            0x68756666 => Some(CodecType::HuffV5),
            0x7a737464 => Some(CodecType::ZstdV5),
            0x63647a73 => Some(CodecType::ZstdCdV5),
            _ => None,
        }
    }
}

/// Two codecs have two numbers.
pub proof fn codes_are_distinct(a: CodecType, b: CodecType)
    requires
        a.spec_code() == b.spec_code(),
    ensures
        a == b,
{
}

/// The length of the header of version 5.
pub const V5_HEADER_SIZE: u32 = 124;

/// The length of a SHA-1 digest.
pub const SHA1_BYTES: usize = 20;

/// Byte `i` of the word that every file starts with.
pub open spec fn magic_byte(i: int) -> u8 {
    seq![0x4du8, 0x43, 0x6f, 0x6d, 0x70, 0x72, 0x48, 0x44][i]
}

/// The word `MComprHD` that every file starts with.
pub open spec fn magic() -> Seq<u8> {
    Seq::new(8, |i: int| magic_byte(i))
}

/// A digest of nothing but zeros, which stands for none.
pub open spec fn no_digest() -> Seq<u8> {
    Seq::new(20, |i: int| 0u8)
}

/// What a file says about itself. Files before version 5 lack some of the digests.
#[derive(Debug, Clone, Copy, PartialEq, Eq)]
pub struct Header {
    /// The version of the format.
    pub version: u32,
    /// The numbers of the codecs, by slot.
    pub compression: [u32; 4],
    /// The size of the image.
    pub logical_bytes: u64,
    /// Where the map is.
    pub map_offset: u64,
    /// Where the first metadata entry is; zero where there is none.
    pub meta_offset: u64,
    /// The size of a hunk.
    pub hunk_bytes: u32,
    /// The number of hunks.
    pub hunk_count: u32,
    /// The size of a unit.
    pub unit_bytes: u32,
    /// The digest of the image.
    pub raw_sha1: Option<[u8; 20]>,
    /// The digest of the image and its metadata.
    pub sha1: Option<[u8; 20]>,
    /// The digest of the parent.
    pub parent_sha1: Option<[u8; 20]>,
    /// The MD5 digest of the image.
    pub md5: Option<[u8; 16]>,
    /// The MD5 digest of the parent.
    pub parent_md5: Option<[u8; 16]>,
    /// Whether hunks may refer to a parent.
    pub has_parent: bool,
}

/// The fields of a header of version 5.
pub struct Fields {
    pub compression: Seq<u32>,
    pub logical_bytes: nat,
    pub map_offset: nat,
    pub meta_offset: nat,
    pub hunk_bytes: nat,
    pub unit_bytes: nat,
    pub raw_sha1: Seq<u8>,
    pub sha1: Seq<u8>,
    pub parent_sha1: Seq<u8>,
}

impl Fields {
    /// Whether every field has its width.
    pub open spec fn fit(self) -> bool {
        &&& self.compression.len() == 4
        &&& self.logical_bytes <= u64::MAX
        &&& self.map_offset <= u64::MAX
        &&& self.meta_offset <= u64::MAX
        &&& self.hunk_bytes <= u32::MAX
        &&& self.unit_bytes <= u32::MAX
        &&& self.raw_sha1.len() == 20
        &&& self.sha1.len() == 20
        &&& self.parent_sha1.len() == 20
    }
}

/// The bytes of a header of version 5.
pub open spec fn v5_header(h: Fields) -> Seq<u8> {
    magic() + bytes::be_bytes(124, 4) + bytes::be_bytes(5, 4) + bytes::be_bytes(
        h.compression[0] as nat,
        4,
    ) + bytes::be_bytes(h.compression[1] as nat, 4) + bytes::be_bytes(h.compression[2] as nat, 4)
        + bytes::be_bytes(h.compression[3] as nat, 4) + bytes::be_bytes(h.logical_bytes, 8)
        + bytes::be_bytes(h.map_offset, 8) + bytes::be_bytes(h.meta_offset, 8) + bytes::be_bytes(
        h.hunk_bytes,
        4,
    ) + bytes::be_bytes(h.unit_bytes, 4) + h.raw_sha1 + h.sha1 + h.parent_sha1
}

/// The fields that a run of bytes holds where a header of version 5 has them.
pub open spec fn fields_at(f: Seq<u8>) -> Fields {
    Fields {
        compression: Seq::new(4, |i: int| bytes::be_at(f, 16 + 4 * i, 4) as u32),
        logical_bytes: bytes::be_at(f, 32, 8),
        map_offset: bytes::be_at(f, 40, 8),
        meta_offset: bytes::be_at(f, 48, 8),
        hunk_bytes: bytes::be_at(f, 56, 4),
        unit_bytes: bytes::be_at(f, 60, 4),
        raw_sha1: f.subrange(64, 84),
        sha1: f.subrange(84, 104),
        parent_sha1: f.subrange(104, 124),
    }
}

/// Whether a file starts with the word that all files start with.
pub open spec fn has_magic(f: Seq<u8>) -> bool {
    f.len() >= 8 && f.take(8) == magic()
}

/// The number of pieces of `size` bytes that hold `n` bytes.
pub open spec fn pieces(n: nat, size: nat) -> nat {
    (n + size - 1) as nat / size
}

/// What is wrong with a file's header, if anything.
pub open spec fn header_fault(f: Seq<u8>) -> Option<Error> {
    if f.len() < 16 {
        Some(Error::ReadError)
    } else if !has_magic(f) {
        Some(Error::InvalidFile)
    } else if bytes::be_at(f, 12, 4) != 5 || bytes::be_at(f, 8, 4) != 124 {
        Some(Error::UnsupportedVersion)
    } else if f.len() < 124 {
        Some(Error::ReadError)
    } else if bytes::be_at(f, 56, 4) == 0 || bytes::be_at(f, 60, 4) == 0 || pieces(
        bytes::be_at(f, 32, 8),
        bytes::be_at(f, 56, 4),
    ) > u32::MAX {
        Some(Error::InvalidData)
    } else {
        None
    }
}

/// Copies the twenty bytes from `at` on.
pub fn digest_at(f: &[u8], at: usize) -> (r: [u8; 20])
    requires
        at + 20 <= f@.len(),
    ensures
        r@ == f@.subrange(at as int, at + 20),
{
    let n = f.len();
    let mut out: [u8; 20] = [0u8; 20];
    let mut i: usize = 0;
    while i < 20
        invariant
            i <= 20,
            at + 20 <= n == f@.len(),
            out@.len() == 20,
            forall|k: int| 0 <= k < i ==> out@[k] == f@[at + k],
        decreases 20 - i,
    {
        out[i] = f[at + i];
        i = i + 1;
    }
    assert(out@ =~= f@.subrange(at as int, at + 20));
    out
}

/// Whether two runs of bytes are the same.
pub fn same_bytes(a: &[u8], b: &[u8]) -> (r: bool)
    ensures
        r == (a@ == b@),
{
    if a.len() != b.len() {
        return false;
    }
    let mut i: usize = 0;
    while i < a.len()
        invariant
            i <= a@.len() == b@.len(),
            forall|k: int| 0 <= k < i ==> a@[k] == b@[k],
        decreases a@.len() - i,
    {
        if a[i] != b[i] {
            return false;
        }
        i = i + 1;
    }
    assert(a@ =~= b@);
    true
}

/// Whether a digest is nothing but zeros.
pub fn is_no_digest(a: &[u8; 20]) -> (r: bool)
    ensures
        r == (a@ == no_digest()),
{
    let zero: [u8; 20] = [0u8; 20];
    assert(zero@ =~= no_digest());
    same_bytes(a.as_slice(), zero.as_slice())
}

impl Header {
    /// The fields of a header of version 5.
    pub open spec fn fields(self) -> Fields {
        Fields {
            compression: self.compression@,
            logical_bytes: self.logical_bytes as nat,
            map_offset: self.map_offset as nat,
            meta_offset: self.meta_offset as nat,
            hunk_bytes: self.hunk_bytes as nat,
            unit_bytes: self.unit_bytes as nat,
            raw_sha1: self.raw_sha1->0@,
            sha1: self.sha1->0@,
            parent_sha1: self.parent_sha1->0@,
        }
    }

    /// Whether the parts fit together.
    pub open spec fn wf(self) -> bool {
        &&& self.hunk_bytes > 0
        &&& self.unit_bytes > 0
        &&& self.hunk_count == pieces(self.logical_bytes as nat, self.hunk_bytes as nat)
    }

    /// Reads the header of a file of version 5.
    pub fn try_read_header(f: &[u8]) -> (r: Result<Header, Error>)
        ensures
            match r {
                Ok(h) => {
                    &&& header_fault(f@) is None
                    &&& h.wf()
                    &&& h.version == 5
                    &&& h.fields() == fields_at(f@)
                    &&& h.raw_sha1 is Some && h.sha1 is Some && h.parent_sha1 is Some
                    &&& h.md5 is None && h.parent_md5 is None
                    &&& h.has_parent == (fields_at(f@).parent_sha1 != no_digest())
                },
                Err(e) => header_fault(f@) == Some(e),
            },
    {
        if f.len() < 16 {
            return Err(Error::ReadError);
        }
        let word: [u8; 8] = [0x4d, 0x43, 0x6f, 0x6d, 0x70, 0x72, 0x48, 0x44];
        assert(word@ =~= magic());
        assert(f@.take(8) =~= f@.subrange(0, 8));
        if !same_bytes(&f[0..8], word.as_slice()) {
            return Err(Error::InvalidFile);
        }
        if get_be(f, 12, 4) != 5 || get_be(f, 8, 4) != 124 {
            return Err(Error::UnsupportedVersion);
        }
        if f.len() < 124 {
            return Err(Error::ReadError);
        }
        proof {
            lemma2_to64();
        }
        let hunk_bytes = get_be(f, 56, 4) as u32;
        let unit_bytes = get_be(f, 60, 4) as u32;
        let logical_bytes = get_be(f, 32, 8);
        if hunk_bytes == 0 || unit_bytes == 0 {
            return Err(Error::InvalidData);
        }
        let whole = logical_bytes / hunk_bytes as u64;
        let rest = logical_bytes % hunk_bytes as u64;
        proof {
            lemma_pieces(logical_bytes as nat, hunk_bytes as nat);
        }
        if whole > 0xffff_ffff || (whole == 0xffff_ffff && rest != 0) {
            return Err(Error::InvalidData);
        }
        let hunk_count: u32 = if rest != 0 {
            (whole + 1) as u32
        } else {
            whole as u32
        };
        let compression: [u32; 4] = [
            get_be(f, 16, 4) as u32,
            get_be(f, 20, 4) as u32,
            get_be(f, 24, 4) as u32,
            get_be(f, 28, 4) as u32,
        ];
        let parent_sha1 = digest_at(f, 104);
        let h = Header {
            version: 5,
            compression,
            logical_bytes,
            map_offset: get_be(f, 40, 8),
            meta_offset: get_be(f, 48, 8),
            hunk_bytes,
            hunk_count,
            unit_bytes,
            raw_sha1: Some(digest_at(f, 64)),
            sha1: Some(digest_at(f, 84)),
            parent_sha1: Some(parent_sha1),
            md5: None,
            parent_md5: None,
            has_parent: !is_no_digest(&parent_sha1),
        };
        assert(h.compression@ =~= fields_at(f@).compression);
        Ok(h)
    }
}

pub proof fn lemma_pieces(n: nat, size: nat)
    requires
        size > 0,
    ensures
        pieces(n, size) == n / size + if n % size != 0 {
            1nat
        } else {
            0nat
        },
        n <= pieces(n, size) * size < n + size,
        bytes::rounded_up(n, size) == pieces(n, size) * size,
        bytes::rounded_up(n, size) / size == pieces(n, size),
{
    let q = n / size;
    let r = n % size;
    vstd::arithmetic::div_mod::lemma_fundamental_div_mod(n as int, size as int);
    vstd::arithmetic::div_mod::lemma_mod_bound(n as int, size as int);
    assert(size * q == q * size) by (nonlinear_arith);
    if r == 0 {
        vstd::arithmetic::div_mod::lemma_fundamental_div_mod_converse(
            n + size - 1,
            size as int,
            q as int,
            size - 1,
        );
    } else {
        assert((q + 1) * size == q * size + size) by (nonlinear_arith);
        assert(size * (q + 1) == (q + 1) * size) by (nonlinear_arith);
        vstd::arithmetic::div_mod::lemma_fundamental_div_mod_converse(
            n + size - 1,
            size as int,
            (q + 1) as int,
            r - 1,
        );
    }
    vstd::arithmetic::div_mod::lemma_div_multiples_vanish(pieces(n, size) as int, size as int);
    assert(pieces(n, size) * size == size * pieces(n, size)) by (nonlinear_arith);
    bytes::lemma_rounded_up(n, size);
}

pub proof fn lemma_v5_header_len(h: Fields)
    requires
        h.fit(),
    ensures
        v5_header(h).len() == 124,
{
    bytes::lemma_be_len(124, 4);
    bytes::lemma_be_len(5, 4);
    bytes::lemma_be_len(h.compression[0] as nat, 4);
    bytes::lemma_be_len(h.compression[1] as nat, 4);
    bytes::lemma_be_len(h.compression[2] as nat, 4);
    bytes::lemma_be_len(h.compression[3] as nat, 4);
    bytes::lemma_be_len(h.logical_bytes, 8);
    bytes::lemma_be_len(h.map_offset, 8);
    bytes::lemma_be_len(h.meta_offset, 8);
    bytes::lemma_be_len(h.hunk_bytes, 4);
    bytes::lemma_be_len(h.unit_bytes, 4);
}

/// A header is read back from the front of a file.
pub proof fn header_is_read_back(h: Fields, rest: Seq<u8>)
    requires
        h.fit(),
        h.hunk_bytes > 0,
        h.unit_bytes > 0,
        pieces(h.logical_bytes, h.hunk_bytes) <= u32::MAX,
    ensures
        header_fault(v5_header(h) + rest) is None,
        fields_at(v5_header(h) + rest) == h,
{
    let f = v5_header(h) + rest;
    lemma_v5_header_len(h);
    lemma2_to64();
    bytes::lemma_be_len(124, 4);
    bytes::lemma_be_len(5, 4);
    bytes::lemma_be_len(h.compression[0] as nat, 4);
    bytes::lemma_be_len(h.compression[1] as nat, 4);
    bytes::lemma_be_len(h.compression[2] as nat, 4);
    bytes::lemma_be_len(h.compression[3] as nat, 4);
    bytes::lemma_be_len(h.logical_bytes, 8);
    bytes::lemma_be_len(h.map_offset, 8);
    bytes::lemma_be_len(h.meta_offset, 8);
    bytes::lemma_be_len(h.hunk_bytes, 4);
    bytes::lemma_be_len(h.unit_bytes, 4);
    assert(f.take(8) =~= magic());
    assert(f.subrange(8, 12) =~= bytes::be_bytes(124, 4));
    assert(f.subrange(12, 16) =~= bytes::be_bytes(5, 4));
    assert(f.subrange(16, 20) =~= bytes::be_bytes(h.compression[0] as nat, 4));
    assert(f.subrange(20, 24) =~= bytes::be_bytes(h.compression[1] as nat, 4));
    assert(f.subrange(24, 28) =~= bytes::be_bytes(h.compression[2] as nat, 4));
    assert(f.subrange(28, 32) =~= bytes::be_bytes(h.compression[3] as nat, 4));
    assert(f.subrange(32, 40) =~= bytes::be_bytes(h.logical_bytes, 8));
    assert(f.subrange(40, 48) =~= bytes::be_bytes(h.map_offset, 8));
    assert(f.subrange(48, 56) =~= bytes::be_bytes(h.meta_offset, 8));
    assert(f.subrange(56, 60) =~= bytes::be_bytes(h.hunk_bytes, 4));
    assert(f.subrange(60, 64) =~= bytes::be_bytes(h.unit_bytes, 4));
    assert(f.subrange(64, 84) =~= h.raw_sha1);
    assert(f.subrange(84, 104) =~= h.sha1);
    assert(f.subrange(104, 124) =~= h.parent_sha1);
    bytes::lemma_be_at(f, 8, 124, 4);
    bytes::lemma_be_at(f, 12, 5, 4);
    bytes::lemma_be_at(f, 16, h.compression[0] as nat, 4);
    bytes::lemma_be_at(f, 20, h.compression[1] as nat, 4);
    bytes::lemma_be_at(f, 24, h.compression[2] as nat, 4);
    bytes::lemma_be_at(f, 28, h.compression[3] as nat, 4);
    bytes::lemma_be_at(f, 32, h.logical_bytes, 8);
    bytes::lemma_be_at(f, 40, h.map_offset, 8);
    bytes::lemma_be_at(f, 48, h.meta_offset, 8);
    bytes::lemma_be_at(f, 56, h.hunk_bytes, 4);
    bytes::lemma_be_at(f, 60, h.unit_bytes, 4);
    assert(fields_at(f).compression =~= h.compression);
}

/// Appends a header of version 5.
pub fn push_header(
    out: &mut Vec<u8>,
    compression: &[u32; 4],
    logical_bytes: u64,
    map_offset: u64,
    meta_offset: u64,
    hunk_bytes: u32,
    unit_bytes: u32,
    digests: (&[u8; 20], &[u8; 20], &[u8; 20]),
)
    ensures
        final(out)@ == old(out)@ + v5_header(
            Fields {
                compression: compression@,
                logical_bytes: logical_bytes as nat,
                map_offset: map_offset as nat,
                meta_offset: meta_offset as nat,
                hunk_bytes: hunk_bytes as nat,
                unit_bytes: unit_bytes as nat,
                raw_sha1: digests.0@,
                sha1: digests.1@,
                parent_sha1: digests.2@,
            },
        ),
{
    let word: [u8; 8] = [0x4d, 0x43, 0x6f, 0x6d, 0x70, 0x72, 0x48, 0x44];
    assert(word@ =~= magic());
    out.extend_from_slice(word.as_slice());
    push_be(out, 124, 4);
    push_be(out, 5, 4);
    push_be(out, compression[0] as u64, 4);
    push_be(out, compression[1] as u64, 4);
    push_be(out, compression[2] as u64, 4);
    push_be(out, compression[3] as u64, 4);
    push_be(out, logical_bytes, 8);
    push_be(out, map_offset, 8);
    push_be(out, meta_offset, 8);
    push_be(out, hunk_bytes as u64, 4);
    push_be(out, unit_bytes as u64, 4);
    out.extend_from_slice(digests.0.as_slice());
    out.extend_from_slice(digests.1.as_slice());
    out.extend_from_slice(digests.2.as_slice());
    assert(out@ =~= old(out)@ + v5_header(
        Fields {
            compression: compression@,
            logical_bytes: logical_bytes as nat,
            map_offset: map_offset as nat,
            meta_offset: meta_offset as nat,
            hunk_bytes: hunk_bytes as nat,
            unit_bytes: unit_bytes as nat,
            raw_sha1: digests.0@,
            sha1: digests.1@,
            parent_sha1: digests.2@,
        },
    ));
}

} // verus!
