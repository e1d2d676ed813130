//! Reading files of hunks.

use crate::bytes;
use crate::bytes::{get_be, push_be};
use crate::compression::codecs;
use crate::compression::codecs::Codec;
use crate::compression::copy_at;
use crate::error::Error;
use crate::hash;
use crate::hash::sha1_digest;
use crate::header;
use crate::header::{same_bytes, CodecType, Header};
use crate::map::{
    decompress_v5_map, RawEntry, COMPRESSION_NONE, COMPRESSION_PARENT, COMPRESSION_SELF,
};
use crate::metadata;
use crate::metadata::{compute_overall_sha1, MetaEntry, Metadata, MetadataRefs, MetadataTag};
use vstd::arithmetic::power2::*;
use vstd::prelude::*;

verus! {

/// How a hunk is kept in files before version 5.
#[derive(Debug, Clone, Copy, PartialEq, Eq, Structural)]
pub enum LegacyKind {
    /// Not at all.
    Invalid,
    /// Compressed.
    Compressed,
    /// As it is.
    Uncompressed,
    /// Eight bytes, over and over.
    Mini,
    /// As another hunk of the file.
    SelfHunk,
    /// As a hunk of the parent.
    ParentHunk,
    /// Compressed elsewhere.
    ExternalCompressed,
}

/// A hunk in the map of a file before version 5.
#[derive(Debug, Clone, Copy, PartialEq, Eq, Structural)]
pub struct LegacyEntry {
    /// How the hunk is kept.
    pub kind: LegacyKind,
    /// Where the hunk is; the eight bytes themselves, or the number of a hunk.
    pub offset: u64,
    /// The number of bytes there.
    pub length: u32,
}

/// Where the hunks of a file are.
#[derive(Debug)]
pub enum HunkMap {
    /// Entries with a kind each.
    Packed(Vec<RawEntry>),
    /// Places, in hunks.
    Plain(Vec<u32>),
    /// Entries of files before version 5.
    Legacy(Vec<LegacyEntry>),
}

/// Where the hunks of a file are, as a specification.
pub enum MapModel {
    Packed(Seq<RawEntry>),
    Plain(Seq<u32>),
    Legacy(Seq<LegacyEntry>),
}

impl View for HunkMap {
    type V = MapModel;

    open spec fn view(&self) -> MapModel {
        match self {
            HunkMap::Packed(m) => MapModel::Packed(m@),
            HunkMap::Plain(m) => MapModel::Plain(m@),
            HunkMap::Legacy(m) => MapModel::Legacy(m@),
        }
    }
}

impl MapModel {
    /// The number of hunks.
    pub open spec fn len(self) -> nat {
        match self {
            MapModel::Packed(m) => m.len(),
            MapModel::Plain(m) => m.len(),
            MapModel::Legacy(m) => m.len(),
        }
    }
}

/// The codecs of a file, one or one for each slot.
pub enum Codecs {
    Single(Codec),
    Four([Codec; 4]),
}

impl Codecs {
    /// The codecs by slot.
    pub open spec fn all(self) -> Seq<Codec> {
        match self {
            Codecs::Single(c) => seq![c],
            Codecs::Four(a) => a@,
        }
    }

    /// The types of the codecs.
    pub open spec fn kinds(self) -> Seq<CodecType> {
        Seq::new(self.all().len(), |k: int| self.all()[k].kind())
    }

    /// Whether every codec works on hunks of the given size.
    pub open spec fn wf(self, hunk_bytes: u32) -> bool {
        forall|k: int|
            0 <= k < self.all().len() ==> (#[trigger] self.all()[k]).wf() && self.all()[k].hunk()
                == hunk_bytes
    }

    /// The first codec.
    pub fn first_mut(&mut self) -> (r: &mut Codec)
        ensures
            *r == old(self).all()[0],
            final(self).all() == old(self).all().update(0, *final(r)),
    {
        match self {
            Codecs::Single(c) => c,
            Codecs::Four(a) => &mut a[0],
        }
    }

    /// The codec of a slot, where there is one. Of four codecs, the slot has to be one of theirs.
    pub fn get_mut(&mut self, index: usize) -> (r: Option<&mut Codec>)
        requires
            index < 4,
        ensures
            match r {
                Some(c) => {
                    &&& index < old(self).all().len()
                    &&& *c == old(self).all()[index as int]
                    &&& final(self).all() == old(self).all().update(index as int, *final(c))
                },
                None => index >= old(self).all().len() && *final(self) == *old(self),
            },
    {
        match self {
            Codecs::Single(c) => if index == 0 {
                Some(c)
            } else {
                None
            },
            Codecs::Four(a) => Some(&mut a[index]),
        }
    }
}

/// What reading a hunk comes to: the buffer and the number of bytes that were read.
pub type Read = Result<(Seq<u8>, nat), Error>;

/// A file of hunks with its parent.
pub struct Image {
    pub file: Seq<u8>,
    pub hunk_bytes: u32,
    pub unit_bytes: u32,
    pub count: u32,
    pub has_parent: bool,
    pub map: MapModel,
    pub codecs: Seq<CodecType>,
    pub parent: Option<Box<Image>>,
}

/// The number of files before a file.
pub open spec fn generations(img: Image) -> nat
    decreases img,
{
    match img.parent {
        None => 0,
        Some(p) => 1 + generations(*p),
    }
}

/// What a file holds of a range of bytes.
pub open spec fn part_at(f: Seq<u8>, offset: int, length: int) -> Seq<u8> {
    if offset >= f.len() {
        Seq::empty()
    } else if offset + length <= f.len() {
        f.subrange(offset, offset + length)
    } else {
        f.subrange(offset, f.len() as int)
    }
}

/// What decompressing a range of a file comes to.
pub open spec fn unpacked(
    f: Seq<u8>,
    offset: int,
    length: int,
    codec: Option<CodecType>,
    hunk_bytes: u32,
    old_out: Seq<u8>,
) -> Read {
    if part_at(f, offset, length).len() != length {
        Err(Error::ReadError)
    } else {
        match codec {
            None => Err(Error::UnsupportedFormat),
            Some(c) => match codecs::codec_decoded(c, hunk_bytes, part_at(f, offset, length), old_out) {
                Ok((out, n, m)) => Ok((out, n)),
                Err(e) => Err(e),
            },
        }
    }
}

/// What copying a range of a file comes to. A file that ends early leaves the rest of the buffer.
pub open spec fn copied(f: Seq<u8>, offset: int, length: int, old_out: Seq<u8>) -> Read {
    if old_out.len() != length {
        Err(Error::InvalidParameter)
    } else {
        let part = part_at(f, offset, length);
        Ok((part + old_out.skip(part.len() as int), part.len()))
    }
}

/// Eight bytes over and over.
pub open spec fn repeated(v: u64, n: nat) -> Seq<u8> {
    Seq::new(n, |k: int| bytes::be_bytes(v as nat, 8)[k % 8])
}

/// What a reference to units of a parent comes to, from what reading its two hunks came to.
pub open spec fn joined(unit: int, img: Image, first: Read, second: Read) -> Read {
    let per_hunk = img.hunk_bytes / img.unit_bytes;
    let at = (unit % per_hunk as int) * img.unit_bytes;
    match first {
        Err(e) => Err(e),
        Ok((buf, n)) => if unit % per_hunk as int == 0 {
            first
        } else if img.hunk_bytes % img.unit_bytes != 0 {
            Err(Error::InvalidData)
        } else {
            match second {
                Err(e) => Err(e),
                Ok((more, m)) => Ok((buf.skip(at) + more.take(at), img.hunk_bytes as nat)),
            }
        },
    }
}

impl Image {
    /// The codec of a slot.
    pub open spec fn codec(self, slot: int) -> Option<CodecType> {
        if slot < self.codecs.len() {
            Some(self.codecs[slot])
        } else {
            None
        }
    }

    /// What reading hunk `n` into a buffer comes to, over at most `fuel` references to other hunks of
    /// the same file. There are no more than there are hunks, unless they run in a circle.
    #[verifier::opaque]
    pub open spec fn read(self, n: int, old_out: Seq<u8>, fuel: nat) -> Read
        decreases self, fuel,
    {
        if !(0 <= n < self.count) {
            Err(Error::HunkOutOfRange)
        } else if old_out.len() != self.hunk_bytes {
            Err(Error::OutOfMemory)
        } else {
            match self.map {
                MapModel::Packed(m) => {
                    let e = m[n];
                    if e.kind < COMPRESSION_NONE {
                        unpacked(
                            self.file,
                            e.offset as int,
                            e.length as int,
                            self.codec(e.kind as int),
                            self.hunk_bytes,
                            old_out,
                        )
                    } else if e.kind == COMPRESSION_NONE {
                        copied(self.file, e.offset as int, e.length as int, old_out)
                    } else if e.kind == COMPRESSION_SELF {
                        if fuel == 0 {
                            Err(Error::InvalidData)
                        } else {
                            self.read(e.offset as int % 0x1_0000_0000, old_out, (fuel - 1) as nat)
                        }
                    } else if e.kind == COMPRESSION_PARENT {
                        match self.parent {
                            None => Err(Error::RequiresParent),
                            Some(p) => if self.unit_bytes > self.hunk_bytes {
                                Err(Error::InvalidData)
                            } else {
                                let per_hunk = (self.hunk_bytes / self.unit_bytes) as int;
                                let at = (e.offset as int % 0x1_0000_0000) / per_hunk;
                                let zero = bytes::zeros(self.hunk_bytes as nat);
                                let first = p.read(at, zero, p.count as nat);
                                joined(
                                    e.offset as int,
                                    self,
                                    first,
                                    p.read(at + 1, first->Ok_0.0, p.count as nat),
                                )
                            },
                        }
                    } else {
                        Err(Error::UnsupportedFormat)
                    }
                },
                MapModel::Plain(m) => if m[n] != 0 {
                    copied(self.file, m[n] * self.hunk_bytes, self.hunk_bytes as int, old_out)
                } else if !self.has_parent {
                    Ok((bytes::zeros(self.hunk_bytes as nat), self.hunk_bytes as nat))
                } else {
                    match self.parent {
                        None => Err(Error::RequiresParent),
                        Some(p) => p.read(n, old_out, p.count as nat),
                    }
                },
                MapModel::Legacy(m) => {
                    let e = m[n];
                    match e.kind {
                        LegacyKind::Compressed => unpacked(
                            self.file,
                            e.offset as int,
                            e.length as int,
                            self.codec(0),
                            self.hunk_bytes,
                            old_out,
                        ),
                        LegacyKind::Uncompressed => copied(
                            self.file,
                            e.offset as int,
                            e.length as int,
                            old_out,
                        ),
                        LegacyKind::Mini => if self.hunk_bytes < 8 {
                            Err(Error::ReadError)
                        } else {
                            Ok((repeated(e.offset, self.hunk_bytes as nat), self.hunk_bytes as nat))
                        },
                        LegacyKind::SelfHunk => if fuel == 0 {
                            Err(Error::InvalidData)
                        } else {
                            self.read(e.offset as int % 0x1_0000_0000, old_out, (fuel - 1) as nat)
                        },
                        LegacyKind::ParentHunk => match self.parent {
                            None => Err(Error::RequiresParent),
                            Some(p) => p.read(
                                e.offset as int % 0x1_0000_0000,
                                old_out,
                                p.count as nat,
                            ),
                        },
                        LegacyKind::ExternalCompressed => Err(Error::UnsupportedFormat),
                        LegacyKind::Invalid => Err(Error::InvalidData),
                    }
                },
            }
        }
    }
}

/// A file of hunks.
pub struct Chd {
    file: Vec<u8>,
    header: Header,
    parent: Option<Box<Chd>>,
    map: HunkMap,
    codecs: Codecs,
}

impl Chd {
    /// The file with its parent, as a specification.
    pub closed spec fn image(&self) -> Image
        decreases self,
    {
        Image {
            file: self.file@,
            hunk_bytes: self.header.hunk_bytes,
            unit_bytes: self.header.unit_bytes,
            count: self.header.hunk_count,
            has_parent: self.header.has_parent,
            map: self.map@,
            codecs: self.codecs.kinds(),
            parent: match self.parent {
                None => None,
                Some(p) => Some(Box::new(p.image())),
            },
        }
    }

    /// The header, as a specification.
    pub closed spec fn spec_header(&self) -> Header {
        self.header
    }

    /// Whether the parts fit together.
    pub closed spec fn wf(&self) -> bool
        decreases self,
    {
        &&& self.header.wf()
        &&& self.map@.len() == self.header.hunk_count
        &&& self.codecs.wf(self.header.hunk_bytes)
        &&& match self.parent {
            None => true,
            Some(p) => p.wf(),
        }
    }

    /// What the header says shows in the image.
    pub proof fn lemma_image(&self)
        requires
            self.wf(),
        ensures
            self.spec_header().wf(),
            self.image().hunk_bytes == self.spec_header().hunk_bytes,
            self.image().unit_bytes == self.spec_header().unit_bytes,
            self.image().count == self.spec_header().hunk_count,
            self.image().has_parent == self.spec_header().has_parent,
            self.image().map.len() == self.image().count,
    {
    }

    /// The header.
    pub fn header(&self) -> (r: &Header)
        ensures
            *r == self.spec_header(),
    {
        &self.header
    }

    /// The map of the hunks.
    pub fn map(&self) -> (r: &HunkMap)
        ensures
            r@ == self.image().map,
    {
        &self.map
    }
}

/// Copies as much of a range of a file as there is.
fn copy_part(file: &[u8], offset: u64, length: u32, dest: &mut [u8]) -> (r: Result<usize, Error>)
    ensures
        final(dest)@.len() == old(dest)@.len(),
        match copied(file@, offset as int, length as int, old(dest)@) {
            Ok((out, n)) => r == Ok::<usize, Error>(n as usize) && n <= usize::MAX && final(dest)@ == out,
            Err(e) => r == Err::<usize, Error>(e),
        },
{
    let ghost before = dest@;
    if dest.len() != length as usize {
        return Err(Error::InvalidParameter);
    }
    let len = file.len();
    if offset >= len as u64 {
        assert(part_at(file@, offset as int, length as int) + before.skip(0) =~= before);
        return Ok(0);
    }
    let at = offset as usize;
    let n: usize = if length as usize <= len - at {
        length as usize
    } else {
        len - at
    };
    let part = &file[at..at + n];
    assert(part@ =~= part_at(file@, offset as int, length as int));
    copy_at(dest, 0, part);
    assert(dest@ =~= part@ + before.skip(n as int));
    Ok(n)
}

/// Reads a range of a file that has to be there.
fn read_part(file: &[u8], offset: u64, length: u32, comp_buf: &mut Vec<u8>) -> (r: Result<(), Error>)
    ensures
        match r {
            Ok(()) => final(comp_buf)@ == part_at(file@, offset as int, length as int) && final(comp_buf)@.len() == length,
            Err(e) => e == Error::ReadError && part_at(file@, offset as int, length as int).len()
                != length,
        },
{
    let len = file.len();
    comp_buf.clear();
    if length == 0 {
        assert(comp_buf@ =~= part_at(file@, offset as int, 0));
        return Ok(());
    }
    if offset >= len as u64 || length as usize > len - offset as usize {
        return Err(Error::ReadError);
    }
    let at = offset as usize;
    comp_buf.extend_from_slice(&file[at..at + length as usize]);
    assert(comp_buf@ =~= part_at(file@, offset as int, length as int));
    Ok(())
}

/// Fills a buffer with eight bytes over and over.
fn fill_mini(v: u64, dest: &mut [u8]) -> (r: Result<usize, Error>)
    ensures
        final(dest)@.len() == old(dest)@.len(),
        match r {
            Ok(n) => old(dest)@.len() >= 8 && n == old(dest)@.len() && final(dest)@ == repeated(
                v,
                old(dest)@.len(),
            ),
            Err(e) => old(dest)@.len() < 8 && e == Error::ReadError,
        },
{
    if dest.len() < 8 {
        return Err(Error::ReadError);
    }
    let mut pattern: Vec<u8> = Vec::new();
    push_be(&mut pattern, v, 8);
    proof {
        bytes::lemma_be_len(v as nat, 8);
        assert(pattern@ =~= bytes::be_bytes(v as nat, 8));
    }
    let n = dest.len();
    let mut k: usize = 0;
    while k < n
        invariant
            k <= n == dest@.len() == old(dest)@.len(),
            pattern@ == bytes::be_bytes(v as nat, 8),
            pattern@.len() == 8,
            forall|j: int| 0 <= j < k ==> dest@[j] == pattern@[j % 8],
        decreases n - k,
    {
        dest[k] = pattern[k % 8];
        k = k + 1;
    }
    assert(dest@ =~= repeated(v, n as nat));
    Ok(n)
}

/// Whether a result is what reading comes to.
pub open spec fn is_read(r: Result<usize, Error>, out: Seq<u8>, expected: Read) -> bool {
    match expected {
        Ok((buf, n)) => (r matches Ok(k) && k == n) && out == buf,
        Err(e) => r == Err::<usize, Error>(e),
    }
}

proof fn lemma_split(offset: u64, hunk_bytes: u32, unit_bytes: u32)
    requires
        0 < unit_bytes <= hunk_bytes,
    ensures
        ({
            let per_hunk = hunk_bytes / unit_bytes;
            let rem = offset as int % per_hunk as int;
            &&& per_hunk > 0
            &&& 0 <= rem * unit_bytes <= hunk_bytes
            &&& rem != 0 ==> (offset as int % 0x1_0000_0000) / per_hunk as int + 1 <= u32::MAX
        }),
{
    let per_hunk = (hunk_bytes / unit_bytes) as int;
    let rem = offset as int % per_hunk;
    vstd::arithmetic::div_mod::lemma_fundamental_div_mod(hunk_bytes as int, unit_bytes as int);
    assert(per_hunk > 0) by (nonlinear_arith)
        requires
            per_hunk == hunk_bytes as int / unit_bytes as int,
            0 < unit_bytes <= hunk_bytes,
    ;
    vstd::arithmetic::div_mod::lemma_mod_bound(offset as int, per_hunk);
    assert(0 <= rem * unit_bytes <= per_hunk * unit_bytes) by (nonlinear_arith)
        requires
            0 <= rem < per_hunk,
    ;
    assert(per_hunk * unit_bytes == unit_bytes * per_hunk) by (nonlinear_arith);
    if rem != 0 {
        let v = offset as int % 0x1_0000_0000;
        if per_hunk == 1 {
            assert(offset as int % 1 == 0);
        }
        assert(v / per_hunk <= v / 2) by (nonlinear_arith)
            requires
                per_hunk >= 2,
                v >= 0,
        ;
    }
}

impl Chd {
    /// Decompresses a range of the file with the codec of a slot.
    fn unpack(
        &mut self,
        slot: usize,
        offset: u64,
        length: u32,
        comp_buf: &mut Vec<u8>,
        dest: &mut [u8],
    ) -> (r: Result<usize, Error>)
        requires
            old(self).wf(),
            slot < 4,
        ensures
            final(self).wf(),
            final(self).image() == old(self).image(),
            final(self).spec_header() == old(self).spec_header(),
            final(dest)@.len() == old(dest)@.len(),
            is_read(
                r,
                final(dest)@,
                unpacked(
                    old(self).image().file,
                    offset as int,
                    length as int,
                    old(self).image().codec(slot as int),
                    old(self).image().hunk_bytes,
                    old(dest)@,
                ),
            ),
    {
        if let Err(e) = read_part(self.file.as_slice(), offset, length, comp_buf) {
            return Err(e);
        }
        let ghost kinds = self.codecs.kinds();
        let ghost all = self.codecs.all();
        match self.codecs.get_mut(slot) {
            None => Err(Error::UnsupportedFormat),
            Some(codec) => {
                assert(all[slot as int].wf());
                let got = codec.decompress(comp_buf.as_slice(), dest);
                proof {
                    assert(self.codecs.kinds() =~= kinds);
                    assert forall|k: int| 0 <= k < self.codecs.all().len() implies (
                    #[trigger] self.codecs.all()[k]).wf() && self.codecs.all()[k].hunk()
                        == self.header.hunk_bytes by {
                        assert(all[k].wf());
                    }
                }
                match got {
                    Ok(d) => Ok(d.total_out()),
                    Err(e) => Err(e),
                }
            },
        }
    }

    /// Reads a hunk that is a reference to units of the parent.
    fn read_units(&mut self, offset: u64, comp_buf: &mut Vec<u8>, dest: &mut [u8]) -> (r: Result<
        usize,
        Error,
    >)
        requires
            old(self).wf(),
            old(dest)@.len() == old(self).image().hunk_bytes,
        ensures
            final(self).wf(),
            final(self).image() == old(self).image(),
            final(self).spec_header() == old(self).spec_header(),
            final(dest)@.len() == old(dest)@.len(),
            ({
                let img = old(self).image();
                match img.parent {
                    None => r == Err::<usize, Error>(Error::RequiresParent),
                    Some(p) => if img.unit_bytes > img.hunk_bytes {
                        r == Err::<usize, Error>(Error::InvalidData)
                    } else {
                        let per_hunk = (img.hunk_bytes / img.unit_bytes) as int;
                        let at = (offset as int % 0x1_0000_0000) / per_hunk;
                        let first = p.read(at, bytes::zeros(img.hunk_bytes as nat), p.count as nat);
                        let second = p.read(at + 1, first->Ok_0.0, p.count as nat);
                        is_read(r, final(dest)@, joined(offset as int, img, first, second))
                    },
                }
            }),
        decreases generations(old(self).image()), 0nat, 0nat,
    {
        let ghost img = self.image();
        let hunk_bytes = self.header.hunk_bytes;
        let unit_bytes = self.header.unit_bytes;
        match &mut self.parent {
            None => Err(Error::RequiresParent),
            Some(p) => {
                if unit_bytes > hunk_bytes {
                    return Err(Error::InvalidData);
                }
                proof {
                    lemma_split(offset, hunk_bytes, unit_bytes);
                }
                let per_hunk: u32 = hunk_bytes / unit_bytes;
                let at: u32 = (offset % 0x1_0000_0000) as u32 / per_hunk;
                let rem: u32 = (offset % per_hunk as u64) as u32;
                let count = p.header.hunk_count;
                let size = hunk_bytes as usize;
                let mut buf: Vec<u8> = vec![0u8; size];
                assert(buf@ =~= bytes::zeros(hunk_bytes as nat));
                let first = p.read_hunk(at, count, comp_buf, buf.as_mut_slice());
                match first {
                    Err(e) => Err(e),
                    Ok(n) => {
                        if rem == 0 {
                            copy_at(dest, 0, buf.as_slice());
                            assert(dest@ =~= buf@);
                            return Ok(n);
                        }
                        if hunk_bytes % unit_bytes != 0 {
                            return Err(Error::InvalidData);
                        }
                        let cut: usize = rem as usize * unit_bytes as usize;
                        let ghost head = buf@;
                        copy_at(dest, 0, &buf[cut..size]);
                        let second = p.read_hunk(at + 1, count, comp_buf, buf.as_mut_slice());
                        match second {
                            Err(e) => Err(e),
                            Ok(m) => {
                                copy_at(dest, size - cut, &buf[0..cut]);
                                assert(dest@ =~= head.skip(cut as int) + buf@.take(cut as int));
                                Ok(size)
                            },
                        }
                    },
                }
            },
        }
    }

    /// Reads a hunk, over at most `fuel` references to other hunks of the file.
    fn read_hunk(&mut self, n: u32, fuel: u32, comp_buf: &mut Vec<u8>, dest: &mut [u8]) -> (r: Result<
        usize,
        Error,
    >)
        requires
            old(self).wf(),
        ensures
            final(self).wf(),
            final(self).image() == old(self).image(),
            final(self).spec_header() == old(self).spec_header(),
            final(dest)@.len() == old(dest)@.len(),
            is_read(
                r,
                final(dest)@,
                old(self).image().read(n as int, old(dest)@, fuel as nat),
            ),
            n >= old(self).image().count || old(dest)@.len() != old(self).image().hunk_bytes ==> {
                &&& final(dest)@ == old(dest)@
                &&& final(comp_buf)@ == old(comp_buf)@
            },
        decreases generations(old(self).image()), fuel, 2nat,
    {
        proof {
            reveal_with_fuel(Image::read, 2);
        }
        if n >= self.header.hunk_count {
            return Err(Error::HunkOutOfRange);
        }
        if dest.len() != self.header.hunk_bytes as usize {
            return Err(Error::OutOfMemory);
        }
        match &self.map {
            HunkMap::Legacy(_) => self.read_hunk_legacy(n, fuel, comp_buf, dest),
            _ => self.read_hunk_v5(n, fuel, comp_buf, dest),
        }
    }

    /// Reads a hunk of a file before version 5.
    fn read_hunk_legacy(&mut self, n: u32, fuel: u32, comp_buf: &mut Vec<u8>, dest: &mut [u8]) -> (r: Result<
        usize,
        Error,
    >)
        requires
            old(self).wf(),
            n < old(self).image().count,
            old(dest)@.len() == old(self).image().hunk_bytes,
        ensures
            final(self).wf(),
            final(self).image() == old(self).image(),
            final(self).spec_header() == old(self).spec_header(),
            final(dest)@.len() == old(dest)@.len(),
            if old(self).image().map is Legacy {
                is_read(
                    r,
                    final(dest)@,
                    old(self).image().read(n as int, old(dest)@, fuel as nat),
                )
            } else {
                r == Err::<usize, Error>(Error::InvalidParameter)
            },
        decreases generations(old(self).image()), fuel, 1nat,
    {
        proof {
            reveal_with_fuel(Image::read, 2);
        }
        let entry: LegacyEntry = match &self.map {
            HunkMap::Legacy(m) => m[n as usize],
            _ => {
                return Err(Error::InvalidParameter);
            },
        };
        match entry.kind {
            LegacyKind::Compressed => self.unpack(0, entry.offset, entry.length, comp_buf, dest),
            LegacyKind::Uncompressed => copy_part(
                self.file.as_slice(),
                entry.offset,
                entry.length,
                dest,
            ),
            LegacyKind::Mini => fill_mini(entry.offset, dest),
            LegacyKind::SelfHunk => {
                if fuel == 0 {
                    return Err(Error::InvalidData);
                }
                self.read_hunk((entry.offset % 0x1_0000_0000) as u32, fuel - 1, comp_buf, dest)
            },
            LegacyKind::ParentHunk => match &mut self.parent {
                None => Err(Error::RequiresParent),
                Some(p) => {
                    let count = p.header.hunk_count;
                    p.read_hunk((entry.offset % 0x1_0000_0000) as u32, count, comp_buf, dest)
                },
            },
            LegacyKind::ExternalCompressed => Err(Error::UnsupportedFormat),
            LegacyKind::Invalid => Err(Error::InvalidData),
        }
    }

    /// Reads a hunk of a file of version 5.
    fn read_hunk_v5(&mut self, n: u32, fuel: u32, comp_buf: &mut Vec<u8>, dest: &mut [u8]) -> (r: Result<
        usize,
        Error,
    >)
        requires
            old(self).wf(),
            n < old(self).image().count,
            old(dest)@.len() == old(self).image().hunk_bytes,
        ensures
            final(self).wf(),
            final(self).image() == old(self).image(),
            final(self).spec_header() == old(self).spec_header(),
            final(dest)@.len() == old(dest)@.len(),
            if old(self).image().map is Legacy {
                r == Err::<usize, Error>(Error::InvalidParameter)
            } else {
                is_read(
                    r,
                    final(dest)@,
                    old(self).image().read(n as int, old(dest)@, fuel as nat),
                )
            },
        decreases generations(old(self).image()), fuel, 1nat,
    {
        proof {
            reveal_with_fuel(Image::read, 2);
        }
        match &self.map {
            HunkMap::Packed(m) => {
                let e = m[n as usize];
                if e.kind < COMPRESSION_NONE {
                    self.unpack(e.kind as usize, e.offset, e.length, comp_buf, dest)
                } else if e.kind == COMPRESSION_NONE {
                    copy_part(self.file.as_slice(), e.offset, e.length, dest)
                } else if e.kind == COMPRESSION_SELF {
                    if fuel == 0 {
                        return Err(Error::InvalidData);
                    }
                    self.read_hunk((e.offset % 0x1_0000_0000) as u32, fuel - 1, comp_buf, dest)
                } else if e.kind == COMPRESSION_PARENT {
                    self.read_units(e.offset, comp_buf, dest)
                } else {
                    Err(Error::UnsupportedFormat)
                }
            },
            HunkMap::Plain(m) => {
                let place = m[n as usize];
                let hunk_bytes = self.header.hunk_bytes;
                if place != 0 {
                    proof {
                        assert(place * hunk_bytes <= 0xffff_ffff * 0xffff_ffff) by (nonlinear_arith);
                    }
                    let at: u64 = place as u64 * hunk_bytes as u64;
                    copy_part(self.file.as_slice(), at, hunk_bytes, dest)
                } else if !self.header.has_parent {
                    let size = dest.len();
                    let zero: Vec<u8> = vec![0u8; size];
                    copy_at(dest, 0, zero.as_slice());
                    assert(dest@ =~= bytes::zeros(hunk_bytes as nat));
                    Ok(size)
                } else {
                    match &mut self.parent {
                        None => Err(Error::RequiresParent),
                        Some(p) => {
                            let count = p.header.hunk_count;
                            p.read_hunk(n, count, comp_buf, dest)
                        },
                    }
                }
            },
            HunkMap::Legacy(_) => Err(Error::InvalidParameter),
        }
    }
}

/// The map of a file of version 5.
pub open spec fn map_of(f: Seq<u8>) -> Result<MapModel, Error> {
    let h = header::fields_at(f);
    let count = header::pieces(h.logical_bytes, h.hunk_bytes);
    if h.compression[0] != 0 {
        let part = if h.map_offset <= f.len() {
            f.skip(h.map_offset as int)
        } else {
            Seq::empty()
        };
        match crate::map::unpacked_map(part, count, h.hunk_bytes as u32, h.unit_bytes as u32) {
            Some(m) => Ok(MapModel::Packed(m)),
            None => Err(Error::DecompressionError),
        }
    } else if h.map_offset + 4 * count > f.len() {
        Err(Error::ReadError)
    } else {
        Ok(
            MapModel::Plain(
                Seq::new(count, |i: int| bytes::be_at(f, h.map_offset as int + 4 * i, 4) as u32),
            ),
        )
    }
}

/// Reads the map of a file of version 5.
pub fn try_read_map(h: &Header, f: &[u8]) -> (r: Result<HunkMap, Error>)
    requires
        h.wf(),
        h.fields() == header::fields_at(f@),
    ensures
        match r {
            Ok(m) => map_of(f@) == Ok::<MapModel, Error>(m@) && m@.len() == h.hunk_count && m@ !is Legacy,
            Err(e) => map_of(f@) == Err::<MapModel, Error>(e),
        },
{
    let ghost fields = h.fields();
    assert(fields.compression[0] == h.compression[0]);
    let len = f.len();
    if h.compression[0] != 0 {
        let at: usize = if h.map_offset <= len as u64 {
            h.map_offset as usize
        } else {
            len
        };
        let part = &f[at..len];
        proof {
            if h.map_offset <= f@.len() {
                assert(part@ =~= f@.skip(h.map_offset as int));
            } else {
                assert(part@ =~= Seq::empty());
            }
        }
        return match decompress_v5_map(part, h.hunk_count, h.hunk_bytes, h.unit_bytes) {
            Ok(m) => Ok(HunkMap::Packed(m)),
            Err(e) => Err(e),
        };
    }
    let need: u64 = 4 * h.hunk_count as u64;
    if need > len as u64 || h.map_offset > len as u64 - need {
        return Err(Error::ReadError);
    }
    let at = h.map_offset as usize;
    let n = h.hunk_count as usize;
    let mut m: Vec<u32> = Vec::new();
    let mut i: usize = 0;
    proof {
        lemma2_to64();
    }
    while i < n
        invariant
            i <= n,
            at + 4 * n <= len == f@.len(),
            m@.len() == i,
            pow2(32) == 0x1_0000_0000,
            forall|k: int| 0 <= k < i ==> m@[k] == bytes::be_at(f@, at + 4 * k, 4),
        decreases n - i,
    {
        m.push(get_be(f, at + 4 * i, 4) as u32);
        i = i + 1;
    }
    assert(m@ =~= Seq::new(
        n as nat,
        |i: int| bytes::be_at(f@, fields.map_offset as int + 4 * i, 4) as u32,
    ));
    Ok(HunkMap::Plain(m))
}

/// What keeps a file from being read with the codecs that it names from slot `k` on, if anything.
pub open spec fn codec_fault(codes: Seq<u32>, hunk_bytes: u32, k: int) -> Option<Error>
    decreases codes.len() - k,
{
    if k < 0 || k >= codes.len() {
        None
    } else {
        match CodecType::named(codes[k]) {
            None => Some(Error::UnsupportedFormat),
            Some(c) => if !codecs::can_decode(c, hunk_bytes) {
                Some(codecs::decoder_error(c))
            } else {
                codec_fault(codes, hunk_bytes, k + 1)
            },
        }
    }
}

/// The types of the codecs that a file names.
pub open spec fn codec_kinds(codes: Seq<u32>) -> Seq<CodecType> {
    Seq::new(codes.len(), |k: int| codecs::decoder_kind(CodecType::named(codes[k])->0))
}

/// Makes the codec for a number in a header.
fn make_codec(code: u32, hunk_bytes: u32) -> (r: Result<Codec, Error>)
    ensures
        match r {
            Ok(c) => {
                &&& c.wf()
                &&& c.hunk() == hunk_bytes
                &&& CodecType::named(code) is Some
                &&& codecs::can_decode(CodecType::named(code)->0, hunk_bytes)
                &&& c.kind() == codecs::decoder_kind(CodecType::named(code)->0)
            },
            Err(e) => match CodecType::named(code) {
                None => e == Error::UnsupportedFormat,
                Some(c) => !codecs::can_decode(c, hunk_bytes) && e == codecs::decoder_error(c),
            },
        },
{
    match CodecType::from_u32(code) {
        None => Err(Error::UnsupportedFormat),
        Some(c) => c.init(hunk_bytes),
    }
}

/// The codec numbers that a file goes by: all four, or the first one before version 5.
pub open spec fn codes_in_use(codes: Seq<u32>, legacy: bool) -> Seq<u32> {
    if legacy {
        codes.take(1)
    } else {
        codes
    }
}

/// Makes the codecs that a header names.
fn create_compression_codecs(codes: &[u32; 4], hunk_bytes: u32, legacy: bool) -> (r: Result<
    Codecs,
    Error,
>)
    ensures
        match r {
            Ok(c) => {
                &&& codec_fault(codes_in_use(codes@, legacy), hunk_bytes, 0) is None
                &&& c.wf(hunk_bytes)
                &&& c.kinds() == codec_kinds(codes_in_use(codes@, legacy))
            },
            Err(e) => codec_fault(codes_in_use(codes@, legacy), hunk_bytes, 0) == Some(e),
        },
{
    let ghost used = codes_in_use(codes@, legacy);
    proof {
        reveal_with_fuel(codec_fault, 5);
    }
    let a = match make_codec(codes[0], hunk_bytes) {
        Ok(c) => c,
        Err(e) => {
            return Err(e);
        },
    };
    if legacy {
        let r = Codecs::Single(a);
        assert(r.kinds() =~= codec_kinds(used));
        return Ok(r);
    }
    let b = match make_codec(codes[1], hunk_bytes) {
        Ok(c) => c,
        Err(e) => {
            return Err(e);
        },
    };
    let c = match make_codec(codes[2], hunk_bytes) {
        Ok(c) => c,
        Err(e) => {
            return Err(e);
        },
    };
    let d = match make_codec(codes[3], hunk_bytes) {
        Ok(c) => c,
        Err(e) => {
            return Err(e);
        },
    };
    let r = Codecs::Four([a, b, c, d]);
    assert(r.all() =~= seq![a, b, c, d]);
    assert(r.kinds() =~= codec_kinds(used));
    Ok(r)
}

/// A digest that may be missing.
pub open spec fn digest_view(d: Option<[u8; 20]>) -> Option<Seq<u8>> {
    match d {
        Some(x) => Some(x@),
        None => None,
    }
}

/// An MD5 digest that may be missing.
pub open spec fn md5_view(d: Option<[u8; 16]>) -> Option<Seq<u8>> {
    match d {
        Some(x) => Some(x@),
        None => None,
    }
}

/// Whether a file may have another as its parent; if not, why.
pub open spec fn parent_fault(h: Header, parent: Option<Header>) -> Option<Error> {
    match parent {
        None => None,
        Some(p) => if !h.has_parent {
            Some(Error::InvalidParameter)
        } else if digest_view(p.sha1) != digest_view(h.parent_sha1) || md5_view(p.md5) != md5_view(
            h.parent_md5,
        ) {
            Some(Error::InvalidParent)
        } else {
            None
        },
    }
}

/// Whether two digests are both missing, or the same.
fn same_digest(a: &Option<[u8; 20]>, b: &Option<[u8; 20]>) -> (r: bool)
    ensures
        r == (digest_view(*a) == digest_view(*b)),
{
    match (a, b) {
        (None, None) => true,
        (Some(x), Some(y)) => same_bytes(x.as_slice(), y.as_slice()),
        _ => false,
    }
}

/// Whether two MD5 digests are both missing, or the same.
fn same_md5(a: &Option<[u8; 16]>, b: &Option<[u8; 16]>) -> (r: bool)
    ensures
        r == (md5_view(*a) == md5_view(*b)),
{
    match (a, b) {
        (None, None) => true,
        (Some(x), Some(y)) => same_bytes(x.as_slice(), y.as_slice()),
        _ => false,
    }
}

/// The header of a parent.
pub open spec fn parent_header(parent: Option<Box<Chd>>) -> Option<Header> {
    match parent {
        None => None,
        Some(p) => Some(p.spec_header()),
    }
}

/// The image of a parent.
pub open spec fn parent_image(parent: Option<Box<Chd>>) -> Option<Box<Image>> {
    match parent {
        None => None,
        Some(p) => Some(Box::new(p.image())),
    }
}

/// Makes sure that a file may have another as its parent.
fn check_parent(h: &Header, parent: &Option<Box<Chd>>) -> (r: Result<(), Error>)
    ensures
        match r {
            Ok(()) => parent_fault(*h, parent_header(*parent)) is None,
            Err(e) => parent_fault(*h, parent_header(*parent)) == Some(e),
        },
{
    match parent {
        None => Ok(()),
        Some(p) => {
            if !h.has_parent {
                return Err(Error::InvalidParameter);
            }
            if !same_digest(&p.header.sha1, &h.parent_sha1) || !same_md5(&p.header.md5, &h.parent_md5) {
                return Err(Error::InvalidParent);
            }
            Ok(())
        },
    }
}

/// The header that a file of version 5 has.
pub open spec fn has_header(h: Header, f: Seq<u8>) -> bool {
    &&& h.wf()
    &&& h.version == 5
    &&& h.fields() == header::fields_at(f)
    &&& h.raw_sha1 is Some && h.sha1 is Some && h.parent_sha1 is Some
    &&& h.md5 is None && h.parent_md5 is None
    &&& h.has_parent == (header::fields_at(f).parent_sha1 != header::no_digest())
}

/// What keeps a file from being opened, if anything.
pub open spec fn open_fault(f: Seq<u8>, parent: Option<Header>) -> Option<Error> {
    let h = header::fields_at(f);
    match header::header_fault(f) {
        Some(e) => Some(e),
        None => match v5_parent_fault(h, parent) {
            Some(e) => Some(e),
            None => match map_of(f) {
                Err(e) => Some(e),
                Ok(m) => codec_fault(h.compression, h.hunk_bytes as u32, 0),
            },
        },
    }
}

/// Whether a file of version 5 may have another as its parent; if not, why.
pub open spec fn v5_parent_fault(h: header::Fields, parent: Option<Header>) -> Option<Error> {
    match parent {
        None => None,
        Some(p) => if h.parent_sha1 == header::no_digest() {
            Some(Error::InvalidParameter)
        } else if digest_view(p.sha1) != Some(h.parent_sha1) || p.md5 is Some {
            Some(Error::InvalidParent)
        } else {
            None
        },
    }
}

/// A file of version 5 that was opened.
pub open spec fn opened(f: Seq<u8>, parent: Option<Box<Image>>) -> Image {
    let h = header::fields_at(f);
    Image {
        file: f,
        hunk_bytes: h.hunk_bytes as u32,
        unit_bytes: h.unit_bytes as u32,
        count: header::pieces(h.logical_bytes, h.hunk_bytes) as u32,
        has_parent: h.parent_sha1 != header::no_digest(),
        map: map_of(f)->Ok_0,
        codecs: codec_kinds(h.compression),
        parent,
    }
}

impl Chd {
    /// Opens a file of version 5. A parent may be given to a file that has one, and is looked at; a
    /// file may be opened without its parent.
    pub fn open(file: Vec<u8>, parent: Option<Box<Chd>>) -> (r: Result<Chd, Error>)
        requires
            parent matches Some(p) ==> p.wf(),
        ensures
            match r {
                Ok(c) => {
                    &&& open_fault(file@, parent_header(parent)) is None
                    &&& c.wf()
                    &&& has_header(c.spec_header(), file@)
                    &&& c.image() == opened(file@, parent_image(parent))
                },
                Err(e) => open_fault(file@, parent_header(parent)) == Some(e),
            },
    {
        let header = match Header::try_read_header(file.as_slice()) {
            Ok(h) => h,
            Err(e) => {
                return Err(e);
            },
        };
        assert(parent_fault(header, parent_header(parent)) == v5_parent_fault(
            header.fields(),
            parent_header(parent),
        ));
        if let Err(e) = check_parent(&header, &parent) {
            return Err(e);
        }
        let map = match try_read_map(&header, file.as_slice()) {
            Ok(m) => m,
            Err(e) => {
                return Err(e);
            },
        };
        match create_compression_codecs(&header.compression, header.hunk_bytes, false) {
            Err(e) => Err(e),
            Ok(codecs) => Ok(Chd { file, header, parent, map, codecs }),
        }
    }

    /// Puts a file together from its parts. This is how a file before version 5 is read, whose header
    /// and map were read elsewhere.
    pub fn from_parts(file: Vec<u8>, header: Header, map: HunkMap, parent: Option<Box<Chd>>) -> (r: Result<
        Chd,
        Error,
    >)
        requires
            header.wf(),
            map@.len() == header.hunk_count,
            parent matches Some(p) ==> p.wf(),
        ensures
            match r {
                Ok(c) => {
                    &&& parent_fault(header, parent_header(parent)) is None
                    &&& codec_fault(
                        codes_in_use(header.compression@, map@ is Legacy),
                        header.hunk_bytes,
                        0,
                    ) is None
                    &&& c.wf()
                    &&& c.spec_header() == header
                    &&& c.image() == (Image {
                        file: file@,
                        hunk_bytes: header.hunk_bytes,
                        unit_bytes: header.unit_bytes,
                        count: header.hunk_count,
                        has_parent: header.has_parent,
                        map: map@,
                        codecs: codec_kinds(codes_in_use(header.compression@, map@ is Legacy)),
                        parent: parent_image(parent),
                    })
                },
                Err(e) => match parent_fault(header, parent_header(parent)) {
                    Some(f) => e == f,
                    None => codec_fault(
                        codes_in_use(header.compression@, map@ is Legacy),
                        header.hunk_bytes,
                        0,
                    ) == Some(e),
                },
            },
    {
        if let Err(e) = check_parent(&header, &parent) {
            return Err(e);
        }
        let legacy = match &map {
            HunkMap::Legacy(_) => true,
            _ => false,
        };
        match create_compression_codecs(&header.compression, header.hunk_bytes, legacy) {
            Err(e) => Err(e),
            Ok(codecs) => Ok(Chd { file, header, parent, map, codecs }),
        }
    }

    /// A hunk of the file.
    pub fn hunk(&mut self, hunk_num: u32) -> (r: Result<Hunk<'_>, Error>)
        requires
            old(self).wf(),
        ensures
            match r {
                Ok(h) => {
                    &&& hunk_num < old(self).image().count
                    &&& h.target() == *old(self)
                    &&& h.number() == hunk_num
                    &&& *final(self) == *final(h.inner())
                },
                Err(e) => hunk_num >= old(self).image().count && e == Error::HunkOutOfRange
                    && *final(self) == *old(self),
            },
    {
        if hunk_num >= self.header.hunk_count {
            return Err(Error::HunkOutOfRange);
        }
        Ok(Hunk { inner: self, hunk_num })
    }

    /// Reads a hunk into a buffer.
    pub fn read_whole(&mut self, hunk_num: u32, comp_buf: &mut Vec<u8>, dest: &mut [u8]) -> (r: Result<
        usize,
        Error,
    >)
        requires
            old(self).wf(),
        ensures
            final(self).wf(),
            final(self).image() == old(self).image(),
            final(self).spec_header() == old(self).spec_header(),
            final(dest)@.len() == old(dest)@.len(),
            ({
                let img = old(self).image();
                &&& is_read(r, final(dest)@, img.read(hunk_num as int, old(dest)@, img.count as nat))
                &&& hunk_num >= img.count || old(dest)@.len() != img.hunk_bytes ==> {
                    &&& final(dest)@ == old(dest)@
                    &&& final(comp_buf)@ == old(comp_buf)@
                }
            }),
    {
        let fuel = self.header.hunk_count;
        self.read_hunk(hunk_num, fuel, comp_buf, dest)
    }

    /// A buffer of the size of a hunk.
    pub fn get_hunksized_buffer(&self) -> (r: Vec<u8>)
        ensures
            r@ == bytes::zeros(self.image().hunk_bytes as nat),
    {
        let size = self.header.hunk_bytes as usize;
        let r = vec![0u8; size];
        assert(r@ =~= bytes::zeros(self.image().hunk_bytes as nat));
        r
    }

    /// A walk along the metadata entries.
    pub fn metadata_refs(&self) -> (r: MetadataRefs<'_>)
        ensures
            r.wf(),
            r.file() == self.image().file,
            r.here() == self.spec_header().meta_offset,
            r.seen() == Seq::<metadata::Node>::empty(),
    {
        if self.header.meta_offset == 0 {
            MetadataRefs::dead(self.file.as_slice())
        } else {
            MetadataRefs::from_stream(self.file.as_slice(), self.header.meta_offset)
        }
    }

    /// The file and the parent.
    pub fn into_inner(self) -> (r: (Vec<u8>, Option<Box<Chd>>))
        ensures
            r.0@ == self.image().file,
            parent_image(r.1) == self.image().parent,
            self.wf() ==> (r.1 matches Some(p) ==> p.wf()),
    {
        (self.file, self.parent)
    }

    /// The bytes of the file.
    pub fn inner(&mut self) -> (r: &mut Vec<u8>)
        requires
            old(self).wf(),
        ensures
            (*r)@ == old(self).image().file,
            final(self).wf(),
            final(self).spec_header() == old(self).spec_header(),
            final(self).image() == (Image { file: (*final(r))@, ..old(self).image() }),
    {
        &mut self.file
    }

    /// The bytes of the parent, if there is one.
    pub fn inner_parent(&mut self) -> (r: Option<&mut Vec<u8>>)
        requires
            old(self).wf(),
        ensures
            final(self).wf(),
            final(self).spec_header() == old(self).spec_header(),
            match r {
                None => old(self).image().parent is None && final(self).image() == old(self).image(),
                Some(f) => {
                    &&& old(self).image().parent matches Some(p) && p.file == (*f)@
                    &&& final(self).image() == (Image {
                        parent: Some(
                            Box::new(
                                Image { file: (*final(f))@, ..*old(self).image().parent->0 },
                            ),
                        ),
                        ..old(self).image()
                    })
                },
            },
    {
        match &mut self.parent {
            None => None,
            Some(p) => Some(p.inner()),
        }
    }
}

/// A hunk of a file.
pub struct Hunk<'a> {
    inner: &'a mut Chd,
    hunk_num: u32,
}

/// Where the bytes of a hunk are, and how many.
pub open spec fn raw_place(img: Image, n: int) -> (int, int) {
    match img.map {
        MapModel::Packed(m) => (m[n].offset as int, m[n].length as int),
        MapModel::Plain(m) => (m[n] * img.hunk_bytes, img.hunk_bytes as int),
        MapModel::Legacy(m) => (m[n].offset as int, m[n].length as int),
    }
}

/// A buffer brought to a length, with zeros where it was shorter.
pub open spec fn resized(s: Seq<u8>, n: nat) -> Seq<u8> {
    Seq::new(
        n,
        |k: int|
            if k < s.len() {
                s[k]
            } else {
                0u8
            },
    )
}

impl<'a> Hunk<'a> {
    /// The reference to the file.
    pub closed spec fn inner(self) -> &'a mut Chd {
        self.inner
    }

    /// The file.
    pub closed spec fn target(self) -> Chd {
        *self.inner
    }

    /// The number of the hunk.
    pub closed spec fn number(self) -> u32 {
        self.hunk_num
    }

    /// Reads the hunk into `output`, which has to have the size of a hunk. `compressed_buffer` is
    /// room for compressed bytes; what is left in it is of no use. Where the size is wrong, neither
    /// is touched.
    pub fn read_hunk_in(&mut self, compressed_buffer: &mut Vec<u8>, output: &mut [u8]) -> (r: Result<
        usize,
        Error,
    >)
        requires
            old(self).target().wf(),
        ensures
            final(self).target().wf(),
            final(self).target().image() == old(self).target().image(),
            final(self).target().spec_header() == old(self).target().spec_header(),
            final(self).number() == old(self).number(),
            *final(final(self).inner()) == *final(old(self).inner()),
            final(output)@.len() == old(output)@.len(),
            ({
                let img = old(self).target().image();
                &&& is_read(
                    r,
                    final(output)@,
                    img.read(old(self).number() as int, old(output)@, img.count as nat),
                )
                &&& old(self).number() >= img.count || old(output)@.len() != img.hunk_bytes ==> {
                    &&& final(output)@ == old(output)@
                    &&& final(compressed_buffer)@ == old(compressed_buffer)@
                }
            }),
    {
        let fuel = self.inner.header.hunk_count;
        self.inner.read_hunk(self.hunk_num, fuel, compressed_buffer, output)
    }

    /// Reads the bytes of the hunk as they are in the file.
    pub fn read_raw_in(&mut self, output: &mut Vec<u8>) -> (r: Result<usize, Error>)
        requires
            old(self).target().wf(),
            old(self).number() < old(self).target().image().count,
        ensures
            *final(self) == *old(self),
            ({
                let img = old(self).target().image();
                let place = raw_place(img, old(self).number() as int);
                let part = part_at(img.file, place.0, place.1);
                &&& r == Ok::<usize, Error>(part.len() as usize)
                &&& part.len() <= usize::MAX
                &&& final(output)@ == part + resized(old(output)@, place.1 as nat).skip(
                    part.len() as int,
                )
            }),
    {
        let n = self.hunk_num as usize;
        let (offset, size): (u64, u32) = match &self.inner.map {
            HunkMap::Packed(m) => (m[n].offset, m[n].length),
            HunkMap::Plain(m) => {
                let hunk_bytes = self.inner.header.hunk_bytes;
                let place = m[n];
                proof {
                    assert(place * hunk_bytes <= 0xffff_ffff * 0xffff_ffff) by (nonlinear_arith);
                }
                (place as u64 * hunk_bytes as u64, hunk_bytes)
            },
            HunkMap::Legacy(m) => (m[n].offset, m[n].length),
        };
        let ghost before = output@;
        output.resize(size as usize, 0);
        proof {
            assert forall|k: int| 0 <= k < size implies output@[k] == resized(before, size as nat)[k] by {
                if before.len() < size && k < before.len() {
                    assert(output@.subrange(0, before.len() as int)[k] == output@[k]);
                }
            }
            assert(output@ =~= resized(before, size as nat));
        }
        copy_part(self.inner.file.as_slice(), offset, size, output.as_mut_slice())
    }

    /// The size of the hunk.
    pub fn len(&self) -> (r: usize)
        ensures
            r == self.target().image().hunk_bytes,
    {
        self.inner.header.hunk_bytes as usize
    }
}

/// What there is to say of a file.
#[derive(Debug)]
pub struct ChdInfo {
    /// The version of the format.
    pub version: u32,
    /// The size of a hunk.
    pub hunk_bytes: u32,
    /// The size of a unit.
    pub unit_bytes: u32,
    /// The number of hunks.
    pub hunk_count: u32,
    /// The size of the image.
    pub logical_bytes: u64,
    /// The numbers of the codecs, by slot.
    pub codecs: [u32; 4],
    /// The digest of the image and its metadata; zeros where there is none.
    pub sha1: [u8; 20],
    /// The digest of the image; zeros where there is none.
    pub raw_sha1: [u8; 20],
    /// The digest of the parent; zeros where there is none.
    pub parent_sha1: [u8; 20],
    /// The tag of each metadata entry, and the number of earlier entries with that tag.
    pub metadata_tags: Vec<(u32, u32)>,
    /// The number of tracks.
    pub track_count: u32,
    /// Whether there is hard disk metadata.
    pub is_hd: bool,
    /// Whether there is CD-ROM metadata.
    pub is_cd: bool,
    /// Whether there is GD-ROM metadata.
    pub is_gd: bool,
    /// Whether there is DVD metadata.
    pub is_dvd: bool,
    /// Whether there is audio and video metadata.
    pub is_av: bool,
    /// Whether the hunks are compressed.
    pub compressed: bool,
    /// Whether hunks may refer to a parent.
    pub has_parent: bool,
}

/// The number of entries with a tag.
pub open spec fn tag_count(tags: Seq<(u32, u32)>, tag: u32, n: nat) -> nat
    decreases n,
{
    if n == 0 {
        0
    } else {
        tag_count(tags, tag, (n - 1) as nat) + if tags[n - 1].0 == tag {
            1nat
        } else {
            0nat
        }
    }
}

/// The tags of metadata entries, each with the number of earlier ones.
pub open spec fn tags_of(ns: Seq<metadata::Node>) -> Seq<(u32, u32)> {
    Seq::new(
        ns.len(),
        |i: int| (ns[i].tag, metadata::capped(metadata::count_tag(ns, ns[i].tag, i as nat))),
    )
}

/// Counts the entries with a tag.
fn count_of_tag(tags: &Vec<(u32, u32)>, tag: u32) -> (r: u64)
    ensures
        r == tag_count(tags@, tag, tags@.len()),
        r <= usize::MAX,
{
    let len = tags.len();
    let mut n: u64 = 0;
    let mut i: usize = 0;
    while i < len
        invariant
            i <= len == tags@.len(),
            n <= i,
            n == tag_count(tags@, tag, i as nat),
        decreases len - i,
    {
        if tags[i].0 == tag {
            n = n + 1;
        }
        i = i + 1;
    }
    n
}

/// A digest, or zeros.
pub open spec fn digest_or_zeros(d: Option<[u8; 20]>) -> Seq<u8> {
    match d {
        Some(x) => x@,
        None => header::no_digest(),
    }
}

/// A digest, or zeros.
fn or_zeros(d: &Option<[u8; 20]>) -> (r: [u8; 20])
    ensures
        r@ == digest_or_zeros(*d),
{
    match d {
        Some(x) => *x,
        None => {
            let r: [u8; 20] = [0u8; 20];
            assert(r@ =~= header::no_digest());
            r
        },
    }
}

/// Whether what is said of a file is right.
pub open spec fn info_of(h: Header, ns: Seq<metadata::Node>, i: ChdInfo) -> bool {
    let tags = tags_of(ns);
    let has = |tag: u32| tag_count(tags, tag, tags.len()) > 0;
    &&& i.version == h.version
    &&& i.hunk_bytes == h.hunk_bytes
    &&& i.unit_bytes == h.unit_bytes
    &&& i.hunk_count == h.hunk_count
    &&& i.logical_bytes == h.logical_bytes
    &&& i.codecs@ == h.compression@
    &&& i.sha1@ == digest_or_zeros(h.sha1)
    &&& i.raw_sha1@ == digest_or_zeros(h.raw_sha1)
    &&& i.parent_sha1@ == digest_or_zeros(h.parent_sha1)
    &&& i.metadata_tags@ == tags
    &&& i.track_count == metadata::capped(
        tag_count(tags, header::tag_of(0x43, 0x48, 0x54, 0x32), tags.len()) + tag_count(
            tags,
            header::tag_of(0x43, 0x48, 0x54, 0x52),
            tags.len(),
        ) + tag_count(tags, header::tag_of(0x43, 0x48, 0x47, 0x44), tags.len()),
    )
    &&& i.is_hd == has(header::tag_of(0x47, 0x44, 0x44, 0x44))
    &&& i.is_cd == (has(header::tag_of(0x43, 0x48, 0x43, 0x44)) || has(
        header::tag_of(0x43, 0x48, 0x54, 0x52),
    ) || has(header::tag_of(0x43, 0x48, 0x54, 0x32)))
    &&& i.is_gd == (has(header::tag_of(0x43, 0x48, 0x47, 0x54)) || has(
        header::tag_of(0x43, 0x48, 0x47, 0x44),
    ))
    &&& i.is_dvd == has(header::tag_of(0x44, 0x56, 0x44, 0x20))
    &&& i.is_av == has(header::tag_of(0x41, 0x56, 0x41, 0x56))
    &&& i.compressed == (h.compression@[0] != 0)
    &&& i.has_parent == h.has_parent
}

/// What verifying a file found.
#[derive(Debug, Clone, Copy)]
pub struct VerifyResult {
    /// The digest of the image.
    pub computed_raw_sha1: [u8; 20],
    /// The digest of the image and its metadata.
    pub computed_sha1: [u8; 20],
    /// The digest of the image that the header gives.
    pub expected_raw_sha1: [u8; 20],
    /// The digest of the image and its metadata that the header gives.
    pub expected_sha1: [u8; 20],
}

impl VerifyResult {
    /// Whether the image is the one that the header is for.
    pub fn raw_sha1_valid(&self) -> (r: bool)
        ensures
            r == (self.computed_raw_sha1@ == self.expected_raw_sha1@),
    {
        same_bytes(self.computed_raw_sha1.as_slice(), self.expected_raw_sha1.as_slice())
    }

    /// Whether image and metadata are those that the header is for.
    pub fn overall_sha1_valid(&self) -> (r: bool)
        ensures
            r == (self.computed_sha1@ == self.expected_sha1@),
    {
        same_bytes(self.computed_sha1.as_slice(), self.expected_sha1.as_slice())
    }

    /// Whether nothing is wrong.
    pub fn is_valid(&self) -> (r: bool)
        ensures
            r == (self.computed_raw_sha1@ == self.expected_raw_sha1@ && self.computed_sha1@
                == self.expected_sha1@),
    {
        self.raw_sha1_valid() && self.overall_sha1_valid()
    }
}

/// The first `n` hunks of a file, read one after the other into one buffer and cut off at the size of
/// the image; and what the buffer holds then.
pub open spec fn gathered(img: Image, logical: nat, n: nat) -> Result<(Seq<u8>, Seq<u8>), Error>
    decreases n,
{
    if n == 0 {
        Ok((Seq::empty(), bytes::zeros(img.hunk_bytes as nat)))
    } else {
        match gathered(img, logical, (n - 1) as nat) {
            Err(e) => Err(e),
            Ok((data, buf)) => match img.read(n - 1, buf, img.count as nat) {
                Err(e) => Err(e),
                Ok((out, k)) => Ok(
                    (
                        data + out.take(
                            if logical - data.len() < img.hunk_bytes {
                                logical - data.len()
                            } else {
                                img.hunk_bytes as int
                            },
                        ),
                        out,
                    ),
                ),
            },
        }
    }
}

/// Whether an entry is entry `i` of a list.
pub open spec fn metadata_is(m: Metadata, f: Seq<u8>, ns: Seq<metadata::Node>, i: int) -> bool {
    m.is_read(f, ns[i], metadata::count_tag(ns, ns[i].tag, i as nat))
}

/// The entries of a list.
pub open spec fn metas_at(f: Seq<u8>, ns: Seq<metadata::Node>) -> Seq<metadata::Meta> {
    Seq::new(ns.len(), |i: int| metadata::meta_of(f, ns[i]))
}

/// What verifying comes to: the digests that are computed and those that are expected, in the order
/// raw, overall, raw, overall.
pub open spec fn verified(h: Header, img: Image) -> Result<(Seq<u8>, Seq<u8>, Seq<u8>, Seq<u8>), Error> {
    let expected_raw = match h.raw_sha1 {
        Some(d) => Some(d@),
        None => digest_view(h.sha1),
    };
    if h.compression@[0] == 0 || expected_raw is None {
        Err(Error::UnsupportedFormat)
    } else {
        let expected = match h.sha1 {
            Some(d) => d@,
            None => expected_raw->0,
        };
        let ns = metadata::list(img.file, h.meta_offset as nat).0;
        if !all_held(img.file, ns) {
            Err(Error::ReadError)
        } else {
            match gathered(img, h.logical_bytes as nat, img.count as nat) {
                Err(e) => Err(e),
                Ok((data, buf)) => {
                    let raw = hash::digest(data);
                    Ok((raw, metadata::overall(raw, metas_at(img.file, ns)), expected_raw->0, expected))
                },
            }
        }
    }
}

/// Whether the file holds the contents of every entry.
pub open spec fn all_held(f: Seq<u8>, ns: Seq<metadata::Node>) -> bool {
    forall|i: int| 0 <= i < ns.len() ==> metadata::holds_contents(f, #[trigger] ns[i])
}

impl Chd {
    /// What there is to say of the file.
    pub fn info(&self) -> (r: ChdInfo)
        ensures
            info_of(
                self.spec_header(),
                metadata::list(self.image().file, self.spec_header().meta_offset as nat).0,
                r,
            ),
    {
        let h = &self.header;
        let ghost ns = metadata::list(self.file@, h.meta_offset as nat).0;
        let refs = self.metadata_refs().collect();
        let mut tags: Vec<(u32, u32)> = Vec::new();
        let mut i: usize = 0;
        while i < refs.len()
            invariant
                i <= refs@.len() == ns.len(),
                tags@ == tags_of(ns).take(i as int),
                forall|k: int|
                    0 <= k < refs@.len() ==> (#[trigger] refs@[k]).is_at(ns[k]) && refs@[k].spec_index()
                        == metadata::capped(metadata::count_tag(ns, ns[k].tag, k as nat)),
            decreases refs@.len() - i,
        {
            proof {
                refs@[i as int].lemma_tag(ns[i as int]);
            }
            tags.push((refs[i].metatag(), refs[i].index()));
            assert(tags@ =~= tags_of(ns).take(i + 1));
            i = i + 1;
        }
        assert(tags@ =~= tags_of(ns));
        let cht2 = count_of_tag(&tags, header::make_tag(&[0x43, 0x48, 0x54, 0x32]));
        let chtr = count_of_tag(&tags, header::make_tag(&[0x43, 0x48, 0x54, 0x52]));
        let chgd = count_of_tag(&tags, header::make_tag(&[0x43, 0x48, 0x47, 0x44]));
        let chcd = count_of_tag(&tags, header::make_tag(&[0x43, 0x48, 0x43, 0x44]));
        let chgt = count_of_tag(&tags, header::make_tag(&[0x43, 0x48, 0x47, 0x54]));
        let gddd = count_of_tag(&tags, header::make_tag(&[0x47, 0x44, 0x44, 0x44]));
        let dvd = count_of_tag(&tags, header::make_tag(&[0x44, 0x56, 0x44, 0x20]));
        let avav = count_of_tag(&tags, header::make_tag(&[0x41, 0x56, 0x41, 0x56]));
        let tracks: u128 = cht2 as u128 + chtr as u128 + chgd as u128;
        ChdInfo {
            version: h.version,
            hunk_bytes: h.hunk_bytes,
            unit_bytes: h.unit_bytes,
            hunk_count: h.hunk_count,
            logical_bytes: h.logical_bytes,
            codecs: h.compression,
            sha1: or_zeros(&h.sha1),
            raw_sha1: or_zeros(&h.raw_sha1),
            parent_sha1: or_zeros(&h.parent_sha1),
            track_count: if tracks > u32::MAX as u128 {
                u32::MAX
            } else {
                tracks as u32
            },
            is_hd: gddd > 0,
            is_cd: chcd > 0 || chtr > 0 || cht2 > 0,
            is_gd: chgt > 0 || chgd > 0,
            is_dvd: dvd > 0,
            is_av: avav > 0,
            metadata_tags: tags,
            compressed: h.compression[0] != 0,
            has_parent: h.has_parent,
        }
    }

    /// Reads the image.
    pub fn read_all(&mut self) -> (r: Result<Vec<u8>, Error>)
        requires
            old(self).wf(),
        ensures
            final(self).wf(),
            final(self).image() == old(self).image(),
            final(self).spec_header() == old(self).spec_header(),
            ({
                let img = old(self).image();
                match gathered(img, old(self).spec_header().logical_bytes as nat, img.count as nat) {
                    Ok((data, buf)) => r matches Ok(v) && v@ == data,
                    Err(e) => r == Err::<Vec<u8>, Error>(e),
                }
            }),
    {
        let ghost img = self.image();
        let ghost h = self.spec_header();
        let count = self.header.hunk_count;
        let logical = self.header.logical_bytes;
        let size = self.header.hunk_bytes as usize;
        let mut comp_buf: Vec<u8> = Vec::new();
        let mut buf = self.get_hunksized_buffer();
        let mut data: Vec<u8> = Vec::new();
        let mut remaining: u64 = logical;
        let mut i: u32 = 0;
        assert(data@ =~= Seq::empty());
        while i < count
            invariant
                i <= count == img.count,
                self.wf(),
                self.image() == img,
                img == old(self).image(),
                self.spec_header() == h,
                h == old(self).spec_header(),
                logical == h.logical_bytes,
                size == img.hunk_bytes,
                buf@.len() == size,
                remaining + data@.len() == logical,
                gathered(img, logical as nat, i as nat) == Ok::<(Seq<u8>, Seq<u8>), Error>(
                    (data@, buf@),
                ),
            decreases count - i,
        {
            let ghost before = data@;
            match self.read_hunk(i, count, &mut comp_buf, buf.as_mut_slice()) {
                Err(e) => {
                    proof {
                        lemma_gathered_err(img, logical as nat, (i + 1) as nat, count as nat);
                    }
                    return Err(e);
                },
                Ok(_) => {},
            }
            let take: usize = if remaining < size as u64 {
                remaining as usize
            } else {
                size
            };
            data.extend_from_slice(&buf[0..take]);
            assert(data@ =~= before + buf@.take(take as int));
            remaining = remaining - take as u64;
            i = i + 1;
        }
        Ok(data)
    }

    /// Reads the contents of every metadata entry.
    pub fn read_metas(&self) -> (r: Result<Vec<MetaEntry>, Error>)
        ensures
            ({
                let f = self.image().file;
                let ns = metadata::list(f, self.spec_header().meta_offset as nat).0;
                match r {
                    Ok(v) => all_held(f, ns) && metadata::metas(v@) == metas_at(f, ns) && v@.len()
                        == ns.len(),
                    Err(e) => !all_held(f, ns) && e == Error::ReadError,
                }
            }),
    {
        let ghost f = self.file@;
        let ghost ns = metadata::list(f, self.spec_header().meta_offset as nat).0;
        let refs = self.metadata_refs().collect();
        let mut out: Vec<MetaEntry> = Vec::new();
        let mut i: usize = 0;
        assert(metadata::metas(out@) =~= metas_at(f, ns).take(0));
        while i < refs.len()
            invariant
                i <= refs@.len() == ns.len(),
                f == self.file@,
                ns == metadata::list(f, self.spec_header().meta_offset as nat).0,
                metadata::metas(out@) == metas_at(f, ns).take(i as int),
                forall|k: int| 0 <= k < i ==> metadata::holds_contents(f, #[trigger] ns[k]),
                forall|k: int| 0 <= k < refs@.len() ==> (#[trigger] refs@[k]).is_at(ns[k]),
            decreases refs@.len() - i,
        {
            proof {
                refs@[i as int].lemma_tag(ns[i as int]);
            }
            let ghost before = out@;
            match refs[i].read(self.file.as_slice()) {
                Err(e) => {
                    assert(!metadata::holds_contents(f, ns[i as int]));
                    return Err(e);
                },
                Ok(m) => {
                    let e = MetaEntry { tag: m.metatag, flags: m.flags, payload: m.value };
                    assert(e@ == metadata::meta_of(f, ns[i as int]));
                    out.push(e);
                    assert(metadata::metas(out@) =~= metadata::metas(before).push(e@));
                },
            }
            assert(metas_at(f, ns).take(i + 1) =~= metas_at(f, ns).take(i as int).push(
                metadata::meta_of(f, ns[i as int]),
            ));
            i = i + 1;
        }
        assert(metas_at(f, ns).take(i as int) =~= metas_at(f, ns));
        assert(metadata::metas(out@).len() == out@.len());
        Ok(out)
    }

    /// The metadata entries with their contents, each with the number of earlier entries that have
    /// its tag.
    pub fn metadata(&self) -> (r: Result<Vec<Metadata>, Error>)
        ensures
            ({
                let f = self.image().file;
                let ns = metadata::list(f, self.spec_header().meta_offset as nat).0;
                match r {
                    Ok(v) => all_held(f, ns) && v@.len() == ns.len() && forall|i: int|
                        0 <= i < v@.len() ==> metadata_is(#[trigger] v@[i], f, ns, i),
                    Err(e) => !all_held(f, ns) && e == Error::ReadError,
                }
            }),
    {
        let ghost f = self.file@;
        let ghost ns = metadata::list(f, self.spec_header().meta_offset as nat).0;
        let walk = self.metadata_refs();
        assert(walk.seen() + ns =~= ns);
        walk.read_all()
    }

    /// Computes the digests of a compressed file again. A file without compression has none.
    pub fn verify(&mut self) -> (r: Result<VerifyResult, Error>)
        requires
            old(self).wf(),
        ensures
            final(self).wf(),
            final(self).image() == old(self).image(),
            final(self).spec_header() == old(self).spec_header(),
            match verified(old(self).spec_header(), old(self).image()) {
                Ok((raw, overall, expected_raw, expected)) => {
                    &&& r matches Ok(v)
                    &&& v.computed_raw_sha1@ == raw
                    &&& v.computed_sha1@ == overall
                    &&& v.expected_raw_sha1@ == expected_raw
                    &&& v.expected_sha1@ == expected
                },
                Err(e) => r == Err::<VerifyResult, Error>(e),
            },
    {
        if self.header.compression[0] == 0 {
            return Err(Error::UnsupportedFormat);
        }
        let expected_raw_sha1: [u8; 20] = match self.header.raw_sha1 {
            Some(d) => d,
            None => match self.header.sha1 {
                Some(d) => d,
                None => {
                    return Err(Error::UnsupportedFormat);
                },
            },
        };
        let expected_sha1: [u8; 20] = match self.header.sha1 {
            Some(d) => d,
            None => expected_raw_sha1,
        };
        let metas = match self.read_metas() {
            Ok(v) => v,
            Err(e) => {
                return Err(e);
            },
        };
        let data = match self.read_all() {
            Ok(v) => v,
            Err(e) => {
                return Err(e);
            },
        };
        let computed_raw_sha1 = sha1_digest(data.as_slice());
        let computed_sha1 = compute_overall_sha1(&computed_raw_sha1, metas.as_slice());
        Ok(VerifyResult { computed_raw_sha1, computed_sha1, expected_raw_sha1, expected_sha1 })
    }
}

/// An image that is being read, hunk by hunk.
pub struct Extraction {
    chd: Chd,
    comp_buf: Vec<u8>,
    buf: Vec<u8>,
    remaining: u64,
    next: u32,
    done: Ghost<Seq<u8>>,
}

impl Extraction {
    /// The file.
    pub closed spec fn image(&self) -> Image {
        self.chd.image()
    }

    /// The size of the image.
    pub closed spec fn logical(&self) -> nat {
        self.chd.spec_header().logical_bytes as nat
    }

    /// What has been read.
    pub closed spec fn done(&self) -> Seq<u8> {
        self.done@
    }

    /// The number of hunks that have been read.
    pub closed spec fn position(&self) -> nat {
        self.next as nat
    }

    /// Whether what has been read is the front of the image.
    pub closed spec fn wf(&self) -> bool {
        &&& self.chd.wf()
        &&& self.next <= self.chd.image().count
        &&& self.buf@.len() == self.chd.image().hunk_bytes
        &&& self.remaining + self.done@.len() == self.logical()
        &&& gathered(self.image(), self.logical(), self.next as nat) == Ok::<
            (Seq<u8>, Seq<u8>),
            Error,
        >((self.done@, self.buf@))
    }

    /// The parts read so far are, one after the other, what reading that many hunks at once gives.
    pub proof fn parts_make_the_image(&self)
        requires
            self.wf(),
        ensures
            gathered(self.image(), self.logical(), self.position()) matches Ok((data, buf)) && data
                == self.done(),
    {
    }

    /// Starts to read an image.
    pub fn start(chd: Chd) -> (r: Extraction)
        requires
            chd.wf(),
        ensures
            r.wf(),
            r.image() == chd.image(),
            r.logical() == chd.spec_header().logical_bytes,
            r.done() == Seq::<u8>::empty(),
            r.position() == 0,
    {
        let buf = chd.get_hunksized_buffer();
        let remaining = chd.header.logical_bytes;
        Extraction {
            chd,
            comp_buf: Vec::new(),
            buf,
            remaining,
            next: 0,
            done: Ghost(Seq::empty()),
        }
    }

    /// The next part of the image, or nothing at its end.
    pub fn next(&mut self) -> (r: Result<Option<Vec<u8>>, Error>)
        requires
            old(self).wf(),
        ensures
            final(self).image() == old(self).image(),
            final(self).logical() == old(self).logical(),
            ({
                let img = old(self).image();
                match r {
                    Ok(Some(part)) => {
                        &&& final(self).wf()
                        &&& final(self).position() == old(self).position() + 1
                        &&& final(self).position() <= img.count
                        &&& final(self).done() == old(self).done() + part@
                    },
                    Ok(None) => {
                        &&& final(self).wf()
                        &&& final(self).position() == old(self).position()
                        &&& old(self).position() == img.count
                        &&& final(self).done() == old(self).done()
                    },
                    Err(e) => gathered(img, old(self).logical(), img.count as nat) == Err::<
                        (Seq<u8>, Seq<u8>),
                        Error,
                    >(e),
                }
            }),
    {
        let count = self.chd.header.hunk_count;
        let size = self.chd.header.hunk_bytes as usize;
        if self.next == count {
            return Ok(None);
        }
        let ghost img = self.image();
        let ghost logical = self.logical();
        let ghost before = self.done@;
        match self.chd.read_hunk(self.next, count, &mut self.comp_buf, self.buf.as_mut_slice()) {
            Err(e) => {
                proof {
                    lemma_gathered_err(img, logical, (self.next + 1) as nat, count as nat);
                }
                return Err(e);
            },
            Ok(_) => {},
        }
        let take: usize = if self.remaining < size as u64 {
            self.remaining as usize
        } else {
            size
        };
        let mut part: Vec<u8> = Vec::new();
        part.extend_from_slice(&self.buf[0..take]);
        assert(part@ =~= self.buf@.take(take as int));
        self.remaining = self.remaining - take as u64;
        self.next = self.next + 1;
        self.done = Ghost(before + part@);
        Ok(Some(part))
    }
}

/// Once a hunk cannot be read, neither can the whole.
pub proof fn lemma_gathered_err(img: Image, logical: nat, n: nat, m: nat)
    requires
        n <= m,
        gathered(img, logical, n) is Err,
    ensures
        gathered(img, logical, m) == gathered(img, logical, n),
    decreases m - n,
{
    if n < m {
        lemma_gathered_err(img, logical, n, (m - 1) as nat);
    }
}

} // verus!
