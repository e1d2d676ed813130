//! Hard disk images.

use crate::bytes;
use crate::bytes::{get_be, push_be};
use crate::chdfile;
use crate::chdfile::{Chd, Image};
use crate::compression::copy_at;
use crate::codec::CHD_CODEC_ZLIB;
use crate::error::Error;
use crate::header;
use crate::metadata;
use crate::metadata::{overwrite, Meta, MetaEntry, METADATA_FLAG_CHECKSUM};
use crate::text;
use crate::text::{parse_number, push_decimal, split};
use crate::write::{diff_fits, read_and_pad, resolve_codecs, write_empty_diff, CreatePlan, Plan};
use vstd::arithmetic::power2::*;
use vstd::prelude::*;

verus! {

/// The shape of a hard disk.
#[derive(Debug, Clone, Copy, PartialEq, Eq, Structural)]
pub struct HdGeometry {
    /// The number of cylinders.
    pub cylinders: u32,
    /// The number of heads.
    pub heads: u32,
    /// The number of sectors on a track.
    pub sectors: u32,
    /// The size of a sector.
    pub sector_bytes: u32,
}

impl HdGeometry {
    /// The size of a disk of this shape.
    pub open spec fn size(self) -> int {
        self.cylinders * self.heads * self.sectors * self.sector_bytes
    }

    /// The size of a disk of this shape, where 64 bits hold it.
    pub fn logical_bytes(&self) -> (r: u64)
        requires
            self.size() <= u64::MAX,
        ensures
            r == self.size(),
    {
        proof {
            let a = self.cylinders * self.heads;
            assert(0 <= a <= 0xffff_ffff * 0xffff_ffff) by (nonlinear_arith)
                requires
                    a == self.cylinders * self.heads,
            ;
        }
        if self.sectors == 0 || self.sector_bytes == 0 {
            proof {
                let a = self.cylinders * self.heads;
                assert(a * 0 == 0);
                assert(0 * self.sector_bytes == 0);
                assert((a * self.sectors) * 0 == 0);
            }
            return 0;
        }
        proof {
            let a = self.cylinders * self.heads;
            let b = a * self.sectors;
            assert(b * self.sector_bytes >= b) by (nonlinear_arith)
                requires
                    b == a * self.sectors,
                    a >= 0,
                    self.sector_bytes >= 1,
            ;
            assert(0 <= b) by (nonlinear_arith)
                requires
                    b == a * self.sectors,
                    a >= 0,
            ;
        }
        let a: u64 = self.cylinders as u64 * self.heads as u64;
        let b: u64 = a * self.sectors as u64;
        b * self.sector_bytes as u64
    }
}

/// Whether a number of sectors can be laid out on tracks of `s` sectors and `h` heads.
pub open spec fn lays_out(total: int, s: int, h: int) -> bool {
    2 <= s <= 63 && 2 <= h <= 16 && total % s == 0 && (total / s) % h == 0
}

/// Whether a number of sectors can be laid out.
pub open spec fn can_lay_out(total: int) -> bool {
    exists|s: int, h: int| #[trigger] lays_out(total, s, h)
}

/// Whether a layout has the longest tracks, and of those the most heads.
pub open spec fn is_best_layout(total: int, s: int, h: int) -> bool {
    lays_out(total, s, h) && forall|s2: int, h2: int| #[trigger]
        lays_out(total, s2, h2) ==> s2 < s || (s2 == s && h2 <= h)
}

/// The smallest number from `total` on that can be laid out.
pub open spec fn laid_out_total(total: int, t: int) -> bool {
    &&& total <= t
    &&& can_lay_out(t)
    &&& forall|u: int| total <= u < t ==> !(#[trigger] can_lay_out(u))
}

proof fn lemma_multiple_of_four(t: int)
    requires
        t >= 0,
        t % 4 == 0,
    ensures
        can_lay_out(t),
{
    assert(lays_out(t, 2, 2));
}

proof fn lemma_greatest_total()
    ensures
        can_lay_out(0xffff_ffff_ffff_ffff),
{
    assert(0xffff_ffff_ffff_ffffint % 51 == 0);
    assert((0xffff_ffff_ffff_ffffint / 51) % 5 == 0);
    assert(lays_out(0xffff_ffff_ffff_ffff, 51, 5));
}

/// Finds the best layout of a number of sectors.
fn find_layout(total: u64) -> (r: Option<(u32, u32)>)
    ensures
        match r {
            Some((s, h)) => is_best_layout(total as int, s as int, h as int),
            None => !can_lay_out(total as int),
        },
{
    let mut s: u32 = 63;
    while s >= 2
        invariant
            1 <= s <= 63,
            forall|s2: int, h2: int| s < s2 ==> !(#[trigger] lays_out(total as int, s2, h2)),
        decreases s,
    {
        if total % s as u64 == 0 {
            let tracks: u64 = total / s as u64;
            let mut h: u32 = 16;
            while h >= 2
                invariant
                    1 <= h <= 16,
                    2 <= s <= 63,
                    total % s as u64 == 0,
                    tracks == total / s as u64,
                    forall|s2: int, h2: int|
                        s < s2 ==> !(#[trigger] lays_out(total as int, s2, h2)),
                    forall|h2: int| h < h2 ==> !(#[trigger] lays_out(total as int, s as int, h2)),
                decreases h,
            {
                if tracks % h as u64 == 0 {
                    assert(lays_out(total as int, s as int, h as int));
                    return Some((s, h));
                }
                h = h - 1;
            }
        }
        s = s - 1;
    }
    None
}

/// Guesses the shape of a disk: the longest tracks, up to 63 sectors, and then the most heads, up to
/// 16, that divide the number of sectors. Where there are none, the disk is made larger by sectors
/// until there are. The number of cylinders is cut off at 32 bits.
pub fn compute_chs(logical_bytes: u64, sector_size: u32) -> (r: Result<HdGeometry, Error>)
    ensures
        match r {
            Ok(g) => {
                &&& logical_bytes > 0 && sector_size > 0
                &&& logical_bytes as int % sector_size as int == 0
                &&& is_guess(logical_bytes as int, sector_size, g)
            },
            Err(e) => e == Error::InvalidParameter && (logical_bytes == 0 || sector_size == 0
                || logical_bytes as int % sector_size as int != 0),
        },
{
    if logical_bytes == 0 || sector_size == 0 {
        return Err(Error::InvalidParameter);
    }
    if logical_bytes % sector_size as u64 != 0 {
        return Err(Error::InvalidParameter);
    }
    let first: u64 = logical_bytes / sector_size as u64;
    let mut total: u64 = first;
    loop
        invariant
            first <= total,
            first == logical_bytes as int / sector_size as int,
            logical_bytes > 0,
            sector_size > 0,
            logical_bytes as int % sector_size as int == 0,
            forall|u: int| first <= u < total ==> !(#[trigger] can_lay_out(u)),
        decreases 0xffff_ffff_ffff_ffff - total,
    {
        match find_layout(total) {
            Some((s, h)) => {
                let cylinders: u64 = (total / s as u64) / h as u64;
                proof {
                    assert(lays_out(total as int, s as int, h as int));
                    assert(laid_out_total(first as int, total as int));
                }
                return Ok(
                    HdGeometry {
                        cylinders: (cylinders % 0x1_0000_0000) as u32,
                        heads: h,
                        sectors: s,
                        sector_bytes: sector_size,
                    },
                );
            },
            None => {},
        }
        proof {
            lemma_greatest_total();
        }
        total = total + 1;
    }
}

/// No more than three sectors are added to find the shape of a disk.
pub proof fn chs_adds_little(total: int, t: int)
    requires
        0 <= total,
        laid_out_total(total, t),
    ensures
        t <= total + 3,
{
    let u = total + (4 - total % 4) % 4;
    lemma_multiple_of_four(u);
}

/// A disk of the guessed shape holds all the sectors, where 32 bits hold the number of cylinders.
pub proof fn chs_holds_all(t: int, s: int, h: int)
    requires
        0 <= t,
        lays_out(t, s, h),
    ensures
        ((t / s) / h) * h * s == t,
{
    vstd::arithmetic::div_mod::lemma_fundamental_div_mod(t, s);
    vstd::arithmetic::div_mod::lemma_fundamental_div_mod(t / s, h);
    let q = (t / s) / h;
    assert(q * h * s == t) by (nonlinear_arith)
        requires
            t == s * (t / s),
            t / s == h * q,
    ;
}

/// The name of the number of cylinders.
pub open spec fn cyls_word() -> Seq<u8> {
    seq![0x43u8, 0x59, 0x4c, 0x53, 0x3a]
}

/// The name of the number of heads.
pub open spec fn heads_word() -> Seq<u8> {
    seq![0x48u8, 0x45, 0x41, 0x44, 0x53, 0x3a]
}

/// The name of the number of sectors.
pub open spec fn secs_word() -> Seq<u8> {
    seq![0x53u8, 0x45, 0x43, 0x53, 0x3a]
}

/// The name of the size of a sector.
pub open spec fn bps_word() -> Seq<u8> {
    seq![0x42u8, 0x50, 0x53, 0x3a]
}

/// The shape of a disk as text.
pub open spec fn gddd_text(g: HdGeometry) -> Seq<u8> {
    cyls_word() + text::decimal(g.cylinders as nat) + seq![0x2cu8] + (heads_word() + text::decimal(
        g.heads as nat,
    ) + seq![0x2cu8] + (secs_word() + text::decimal(g.sectors as nat) + seq![0x2cu8] + (bps_word()
        + text::decimal(g.sector_bytes as nat))))
}

/// Writes the shape of a disk as a metadata entry has it: as text with a zero behind it.
#[verifier::spinoff_prover]
#[verifier::rlimit(60)]
pub fn format_gddd(g: HdGeometry) -> (r: Vec<u8>)
    ensures
        r@ == gddd_text(g).push(0),
{
    let mut out: Vec<u8> = Vec::new();
    let cyls: [u8; 5] = [0x43, 0x59, 0x4c, 0x53, 0x3a];
    let heads: [u8; 7] = [0x2c, 0x48, 0x45, 0x41, 0x44, 0x53, 0x3a];
    let secs: [u8; 6] = [0x2c, 0x53, 0x45, 0x43, 0x53, 0x3a];
    let bps: [u8; 5] = [0x2c, 0x42, 0x50, 0x53, 0x3a];
    assert(cyls@ =~= cyls_word());
    assert(heads@ =~= seq![0x2cu8] + heads_word());
    assert(secs@ =~= seq![0x2cu8] + secs_word());
    assert(bps@ =~= seq![0x2cu8] + bps_word());
    out.extend_from_slice(cyls.as_slice());
    push_decimal(&mut out, g.cylinders as u64);
    out.extend_from_slice(heads.as_slice());
    push_decimal(&mut out, g.heads as u64);
    out.extend_from_slice(secs.as_slice());
    push_decimal(&mut out, g.sectors as u64);
    out.extend_from_slice(bps.as_slice());
    push_decimal(&mut out, g.sector_bytes as u64);
    assert(out@ =~= gddd_text(g));
    out.push(0);
    out
}

/// A text without the zeros behind it.
pub open spec fn trimmed(s: Seq<u8>) -> Seq<u8>
    decreases s.len(),
{
    if s.len() > 0 && s.last() == 0 {
        trimmed(s.drop_last())
    } else {
        s
    }
}

/// The number behind a name.
pub open spec fn named_number(part: Seq<u8>, word: Seq<u8>) -> Option<nat> {
    if part.len() >= word.len() && part.take(word.len() as int) == word {
        text::parsed_number(part.skip(word.len() as int), u32::MAX as nat)
    } else {
        None
    }
}

/// The shape of a disk that a metadata entry gives.
pub open spec fn parsed_gddd(raw: Seq<u8>) -> Option<HdGeometry> {
    let p = text::parts(trimmed(raw), 0x2c);
    if p.len() != 4 {
        None
    } else {
        match (
            named_number(p[0], cyls_word()),
            named_number(p[1], heads_word()),
            named_number(p[2], secs_word()),
            named_number(p[3], bps_word()),
        ) {
            (Some(c), Some(h), Some(s), Some(b)) => Some(
                HdGeometry {
                    cylinders: c as u32,
                    heads: h as u32,
                    sectors: s as u32,
                    sector_bytes: b as u32,
                },
            ),
            _ => None,
        }
    }
}

/// Reads the number behind a name.
fn parse_kv(part: &[u8], word: &[u8]) -> (r: Option<u32>)
    ensures
        match r {
            Some(v) => named_number(part@, word@) == Some(v as nat),
            None => named_number(part@, word@) is None,
        },
{
    let n = part.len();
    let w = word.len();
    if n < w {
        return None;
    }
    assert(part@.subrange(0, w as int) =~= part@.take(w as int));
    if !header::same_bytes(&part[0..w], word) {
        return None;
    }
    let rest = &part[w..n];
    assert(rest@ =~= part@.skip(w as int));
    match parse_number(rest, 0xffff_ffff) {
        Some(v) => Some(v as u32),
        None => None,
    }
}

/// Reads the shape of a disk from a metadata entry, with or without zeros behind it.
pub fn parse_gddd(raw: &[u8]) -> (r: Result<HdGeometry, Error>)
    ensures
        match r {
            Ok(g) => parsed_gddd(raw@) == Some(g),
            Err(e) => parsed_gddd(raw@) is None && e == Error::InvalidMetadata,
        },
{
    let mut n: usize = raw.len();
    assert(raw@.take(n as int) =~= raw@);
    while n > 0 && raw[n - 1] == 0
        invariant
            n <= raw@.len(),
            trimmed(raw@) == trimmed(raw@.take(n as int)),
        decreases n,
    {
        assert(raw@.take(n as int).drop_last() =~= raw@.take(n - 1));
        n = n - 1;
    }
    let s = &raw[0..n];
    assert(s@ =~= raw@.take(n as int));
    assert(s@ == trimmed(raw@));
    let p = split(s, 0x2c);
    if p.len() != 4 {
        return Err(Error::InvalidMetadata);
    }
    let cyls: [u8; 5] = [0x43, 0x59, 0x4c, 0x53, 0x3a];
    let heads: [u8; 6] = [0x48, 0x45, 0x41, 0x44, 0x53, 0x3a];
    let secs: [u8; 5] = [0x53, 0x45, 0x43, 0x53, 0x3a];
    let bps: [u8; 4] = [0x42, 0x50, 0x53, 0x3a];
    assert(cyls@ =~= cyls_word());
    assert(heads@ =~= heads_word());
    assert(secs@ =~= secs_word());
    assert(bps@ =~= bps_word());
    let a = parse_kv(&s[p[0].0..p[0].1], cyls.as_slice());
    let b = parse_kv(&s[p[1].0..p[1].1], heads.as_slice());
    let c = parse_kv(&s[p[2].0..p[2].1], secs.as_slice());
    let d = parse_kv(&s[p[3].0..p[3].1], bps.as_slice());
    match (a, b, c, d) {
        (Some(cylinders), Some(heads), Some(sectors), Some(sector_bytes)) => Ok(
            HdGeometry { cylinders, heads, sectors, sector_bytes },
        ),
        _ => Err(Error::InvalidMetadata),
    }
}

proof fn lemma_named(word: Seq<u8>, n: nat)
    requires
        n <= u32::MAX,
        text::lacks(word, 0x2c),
    ensures
        named_number(word + text::decimal(n), word) == Some(n),
        text::lacks(word + text::decimal(n), 0x2c),
        (word + text::decimal(n)).len() > 0,
        (word + text::decimal(n)).last() != 0,
{
    let s = word + text::decimal(n);
    text::decimal_is_read_back(n);
    assert(s.take(word.len() as int) =~= word);
    assert(s.skip(word.len() as int) =~= text::decimal(n));
    assert(text::decimal(n)[0] != 0x2b);
    assert forall|i: int| 0 <= i < s.len() implies #[trigger] s[i] != 0x2c by {
        if i >= word.len() {
            assert(s[i] == text::decimal(n)[i - word.len()]);
        }
    }
    assert(s.last() == text::decimal(n).last());
}

/// The shape of a disk is read back from its text, with the zero behind it and without.
#[verifier::spinoff_prover]
#[verifier::rlimit(60)]
pub proof fn gddd_is_read_back(g: HdGeometry)
    ensures
        parsed_gddd(gddd_text(g).push(0)) == Some(g),
        parsed_gddd(gddd_text(g)) == Some(g),
{
    let a = cyls_word() + text::decimal(g.cylinders as nat);
    let b = heads_word() + text::decimal(g.heads as nat);
    let c = secs_word() + text::decimal(g.sectors as nat);
    let d = bps_word() + text::decimal(g.sector_bytes as nat);
    let comma = seq![0x2cu8];
    lemma_named(cyls_word(), g.cylinders as nat);
    lemma_named(heads_word(), g.heads as nat);
    lemma_named(secs_word(), g.sectors as nat);
    lemma_named(bps_word(), g.sector_bytes as nat);
    let t3 = c + comma + d;
    let t2 = b + comma + t3;
    let t = gddd_text(g);
    assert(t =~= a + comma + t2);
    text::parts_of_one(d, 0x2c);
    text::parts_of_joined(c, d, 0x2c);
    text::parts_of_joined(b, t3, 0x2c);
    text::parts_of_joined(a, t2, 0x2c);
    let p = text::parts(t, 0x2c);
    assert(p =~= seq![a, b, c, d]);
    assert(t.last() == d.last());
    assert(trimmed(t) == t);
    assert(t.push(0).drop_last() =~= t);
    assert(trimmed(t.push(0)) == trimmed(t));
}

/// How to create a hard disk image.
#[derive(Debug, Clone)]
pub struct HdCreateOptions {
    /// The size of the image; zero for the size of the input.
    pub logical_size: u64,
    /// The size of a hunk.
    pub hunk_size: u32,
    /// The size of a unit, which is a sector.
    pub unit_size: u32,
    /// The numbers of the codecs, by slot. All zeros stand for no compression.
    pub codecs: [u32; 4],
    /// The shape of the disk; guessed where it is not given.
    pub geometry: Option<HdGeometry>,
    /// The identification of the disk.
    pub ident: Option<Vec<u8>>,
}

impl Default for HdCreateOptions {
    fn default() -> (r: Self)
        ensures
            r.logical_size == 0,
            r.hunk_size == 4096,
            r.unit_size == 512,
            r.codecs@ == seq![CHD_CODEC_ZLIB, 0, 0, 0],
            r.geometry is None,
            r.ident is None,
    {
        let codecs: [u32; 4] = [CHD_CODEC_ZLIB, 0, 0, 0];
        assert(codecs@ =~= seq![CHD_CODEC_ZLIB, 0, 0, 0]);
        HdCreateOptions {
            logical_size: 0,
            hunk_size: 4096,
            unit_size: 512,
            codecs,
            geometry: None,
            ident: None,
        }
    }
}

/// The plan for an image with the given metadata.
pub open spec fn plan_with(data: Seq<u8>, o: HdCreateOptions, metas: Seq<Meta>) -> Plan {
    Plan {
        data: crate::write::padded(data, o.logical_size),
        hunk_size: o.hunk_size,
        unit_size: o.unit_size,
        codecs: crate::write::resolved(o.codecs@),
        metadata: metas,
    }
}

/// What stands in the way of a plan without metadata, if anything. There must be no shape and no
/// identification.
pub open spec fn raw_plan_fault(data: Seq<u8>, o: HdCreateOptions) -> Option<Error> {
    if o.geometry is Some || o.ident is Some {
        Some(Error::UnsupportedFormat)
    } else if !crate::write::can_pad(data.len(), o.logical_size, o.unit_size, o.hunk_size) {
        Some(Error::InvalidParameter)
    } else {
        crate::write::slots_fault(o.codecs@)
    }
}

/// Plans an image without metadata.
pub fn plan_raw(data: Vec<u8>, opts: &HdCreateOptions) -> (r: Result<CreatePlan, Error>)
    requires
        opts.logical_size <= usize::MAX,
    ensures
        match r {
            Ok(p) => raw_plan_fault(data@, *opts) is None && p@ == plan_with(data@, *opts, Seq::empty()),
            Err(e) => raw_plan_fault(data@, *opts) == Some(e),
        },
{
    if opts.geometry.is_some() || opts.ident.is_some() {
        return Err(Error::UnsupportedFormat);
    }
    let data = match read_and_pad(data, opts.logical_size, opts.unit_size, opts.hunk_size) {
        Ok(d) => d,
        Err(e) => {
            return Err(e);
        },
    };
    let codecs = match resolve_codecs(&opts.codecs) {
        Ok(c) => c,
        Err(e) => {
            return Err(e);
        },
    };
    let metadata: Vec<MetaEntry> = Vec::new();
    assert(metadata::metas(metadata@) =~= Seq::empty());
    let r = CreatePlan { data, hunk_size: opts.hunk_size, unit_size: opts.unit_size, codecs, metadata };
    Ok(r)
}

/// Creates an image without metadata.
pub fn create_raw_from_reader(data: Vec<u8>, out: &mut Vec<u8>, opts: &HdCreateOptions) -> (r: Result<
    (),
    Error,
>)
    requires
        opts.logical_size <= usize::MAX,
    ensures
        match raw_plan_fault(data@, *opts) {
            Some(e) => r == Err::<(), Error>(e) && final(out)@ == old(out)@,
            None => attempted(plan_with(data@, *opts, Seq::empty()), old(out)@, final(out)@, r),
        },
{
    match plan_raw(data, opts) {
        Err(e) => Err(e),
        Ok(p) => attempt(&p, out),
    }
}

/// Whether creating a file behind what was there came to what the plan says.
pub open spec fn created(p: Plan, before: Seq<u8>, after: Seq<u8>, r: Result<(), Error>) -> bool {
    match r {
        Ok(()) => {
            &&& p.fault() is None
            &&& after.len() >= before.len()
            &&& after.take(before.len() as int) == before
            &&& p.may_create(after.skip(before.len() as int))
        },
        Err(e) => p.fault() == Some(e) && after == before,
    }
}

/// Whether creating a file came to what the plan says, or was refused because the format cannot hold
/// it.
pub open spec fn attempted(p: Plan, before: Seq<u8>, after: Seq<u8>, r: Result<(), Error>) -> bool {
    if p.within_limits() {
        created(p, before, after, r)
    } else {
        r == Err::<(), Error>(Error::OutOfMemory) && after == before
    }
}

/// Creates the file of a plan behind what `out` holds. What the format cannot hold is refused.
pub fn attempt(p: &CreatePlan, out: &mut Vec<u8>) -> (r: Result<(), Error>)
    ensures
        attempted(p@, old(out)@, final(out)@, r),
{
    if !p.fits() {
        return Err(Error::OutOfMemory);
    }
    p.create(out)
}

/// Whether a shape is the one that is guessed for a size.
pub open spec fn is_guess(logical_bytes: int, sector_size: u32, g: HdGeometry) -> bool {
    let total = logical_bytes / sector_size as int;
    &&& g.sector_bytes == sector_size
    &&& exists|t: int| #[trigger]
        laid_out_total(total, t) && is_best_layout(t, g.sectors as int, g.heads as int) && g.cylinders
            == ((t / g.sectors as int) / g.heads as int) % 0x1_0000_0000
}

/// Whether an image of the given size gets a shape.
pub open spec fn is_shape_for(o: HdCreateOptions, logical_bytes: int, g: HdGeometry) -> bool {
    match o.geometry {
        Some(x) => g == x,
        None => is_guess(logical_bytes, o.unit_size, g),
    }
}

/// The contents of an identification.
pub open spec fn ident_view(ident: Option<Vec<u8>>) -> Option<Seq<u8>> {
    match ident {
        Some(v) => Some(v@),
        None => None,
    }
}

/// The metadata of a hard disk: its shape, and its identification where it has one.
pub open spec fn disk_metas(g: HdGeometry, ident: Option<Seq<u8>>) -> Seq<Meta> {
    let shape = Meta {
        tag: header::tag_of(0x47, 0x44, 0x44, 0x44),
        flags: METADATA_FLAG_CHECKSUM,
        payload: gddd_text(g).push(0),
    };
    match ident {
        None => seq![shape],
        Some(s) => seq![
            shape,
            Meta {
                tag: header::tag_of(0x49, 0x44, 0x4e, 0x54),
                flags: METADATA_FLAG_CHECKSUM,
                payload: s,
            },
        ],
    }
}

/// What stands in the way of a plan, if anything. A shape can be guessed for every size but zero.
pub open spec fn plan_fault(data: Seq<u8>, o: HdCreateOptions) -> Option<Error> {
    if !crate::write::can_pad(data.len(), o.logical_size, o.unit_size, o.hunk_size) {
        Some(Error::InvalidParameter)
    } else if o.geometry is None && crate::write::padded_size(data.len(), o.logical_size) == 0 {
        Some(Error::InvalidParameter)
    } else {
        crate::write::slots_fault(o.codecs@)
    }
}

/// Plans a hard disk image.
pub fn plan(data: Vec<u8>, opts: &HdCreateOptions) -> (r: Result<CreatePlan, Error>)
    requires
        opts.logical_size <= usize::MAX,
    ensures
        match r {
            Ok(p) => {
                &&& plan_fault(data@, *opts) is None
                &&& exists|g: HdGeometry| #[trigger]
                    is_shape_for(
                        *opts,
                        crate::write::padded_size(data@.len(), opts.logical_size) as int,
                        g,
                    ) && p@ == plan_with(data@, *opts, disk_metas(g, ident_view(opts.ident)))
            },
            Err(e) => plan_fault(data@, *opts) == Some(e),
        },
{
    let ghost input = data@;
    let data = match read_and_pad(data, opts.logical_size, opts.unit_size, opts.hunk_size) {
        Ok(d) => d,
        Err(e) => {
            return Err(e);
        },
    };
    let logical = data.len() as u64;
    let geom: HdGeometry = match opts.geometry {
        Some(g) => g,
        None => match compute_chs(logical, opts.unit_size) {
            Ok(g) => g,
            Err(e) => {
                return Err(e);
            },
        },
    };
    assert(is_shape_for(*opts, logical as int, geom));
    let gddd = format_gddd(geom);
    let shape = MetaEntry {
        tag: header::make_tag(&[0x47, 0x44, 0x44, 0x44]),
        flags: METADATA_FLAG_CHECKSUM,
        payload: gddd,
    };
    let mut entries: Vec<MetaEntry> = Vec::new();
    entries.push(shape);
    match &opts.ident {
        None => {},
        Some(ident) => {
            let mut payload: Vec<u8> = Vec::new();
            payload.extend_from_slice(ident.as_slice());
            assert(payload@ =~= ident@);
            entries.push(
                MetaEntry {
                    tag: header::make_tag(&[0x49, 0x44, 0x4e, 0x54]),
                    flags: METADATA_FLAG_CHECKSUM,
                    payload,
                },
            );
        },
    }
    assert(metadata::metas(entries@) =~= disk_metas(geom, ident_view(opts.ident)));
    let codecs = match resolve_codecs(&opts.codecs) {
        Ok(c) => c,
        Err(e) => {
            return Err(e);
        },
    };
    let r = CreatePlan {
        data,
        hunk_size: opts.hunk_size,
        unit_size: opts.unit_size,
        codecs,
        metadata: entries,
    };
    assert(r@ == plan_with(input, *opts, disk_metas(geom, ident_view(opts.ident))));
    Ok(r)
}

/// Creates a hard disk image.
pub fn create_from_reader(data: Vec<u8>, out: &mut Vec<u8>, opts: &HdCreateOptions) -> (r: Result<
    (),
    Error,
>)
    requires
        opts.logical_size <= usize::MAX,
    ensures
        match plan_fault(data@, *opts) {
            Some(e) => r == Err::<(), Error>(e) && final(out)@ == old(out)@,
            None => exists|g: HdGeometry| #[trigger]
                is_shape_for(
                    *opts,
                    crate::write::padded_size(data@.len(), opts.logical_size) as int,
                    g,
                ) && attempted(
                    plan_with(data@, *opts, disk_metas(g, ident_view(opts.ident))),
                    old(out)@,
                    final(out)@,
                    r,
                ),
        },
{
    match plan(data, opts) {
        Err(e) => Err(e),
        Ok(p) => attempt(&p, out),
    }
}

/// The first entry with a tag.
pub open spec fn first_with(ns: Seq<metadata::Node>, tag: u32, i: int) -> Option<metadata::Node>
    decreases ns.len() - i,
{
    if i < 0 || i >= ns.len() {
        None
    } else if ns[i].tag == tag {
        Some(ns[i])
    } else {
        first_with(ns, tag, i + 1)
    }
}

/// The shape that the metadata of a file gives.
pub open spec fn geometry_of(f: Seq<u8>, meta_offset: nat) -> Result<HdGeometry, Error> {
    let ns = metadata::list(f, meta_offset).0;
    if !chdfile::all_held(f, ns) {
        Err(Error::ReadError)
    } else {
        match first_with(ns, header::tag_of(0x47, 0x44, 0x44, 0x44), 0) {
            None => Err(Error::MetadataNotFound),
            Some(n) => match parsed_gddd(metadata::contents(f, n)) {
                Some(g) => Ok(g),
                None => Err(Error::InvalidMetadata),
            },
        }
    }
}

/// Reads the shape of a hard disk image.
pub fn read_geometry(chd: &Chd) -> (r: Result<HdGeometry, Error>)
    ensures
        r == geometry_of(chd.image().file, chd.spec_header().meta_offset as nat),
{
    let ghost f = chd.image().file;
    let ghost ns = metadata::list(f, chd.spec_header().meta_offset as nat).0;
    let ghost tag = header::tag_of(0x47, 0x44, 0x44, 0x44);
    let metas = match chd.read_metas() {
        Ok(v) => v,
        Err(e) => {
            return Err(e);
        },
    };
    let want = header::make_tag(&[0x47, 0x44, 0x44, 0x44]);
    let mut i: usize = 0;
    let n = metas.len();
    while i < n
        invariant
            i <= n == metas@.len() == ns.len(),
            want == tag,
            metadata::metas(metas@) == chdfile::metas_at(f, ns),
            f == chd.image().file,
            ns == metadata::list(f, chd.spec_header().meta_offset as nat).0,
            chdfile::all_held(f, ns),
            tag == header::tag_of(0x47, 0x44, 0x44, 0x44),
            first_with(ns, tag, 0) == first_with(ns, tag, i as int),
        decreases n - i,
    {
        proof {
            assert(metadata::metas(metas@)[i as int] == metas@[i as int]@);
            assert(chdfile::metas_at(f, ns)[i as int] == metadata::meta_of(f, ns[i as int]));
        }
        if metas[i].tag == want {
            return parse_gddd(metas[i].payload.as_slice());
        }
        i = i + 1;
    }
    Err(Error::MetadataNotFound)
}

/// Appends the image that a file holds.
pub fn extract_to_writer(file: Vec<u8>, out: &mut Vec<u8>) -> (r: Result<(), Error>)
    ensures
        match chdfile::open_fault(file@, None) {
            Some(e) => r == Err::<(), Error>(e) && final(out)@ == old(out)@,
            None => {
                let img = chdfile::opened(file@, None);
                match chdfile::gathered(
                    img,
                    header::fields_at(file@).logical_bytes,
                    img.count as nat,
                ) {
                    Ok((data, buf)) => r is Ok && final(out)@ == old(out)@ + data,
                    Err(e) => r == Err::<(), Error>(e) && final(out)@ == old(out)@,
                }
            },
        },
{
    let mut chd = match Chd::open(file, None) {
        Ok(c) => c,
        Err(e) => {
            return Err(e);
        },
    };
    assert(chd.spec_header().fields().logical_bytes == chd.spec_header().logical_bytes);
    match chd.read_all() {
        Err(e) => Err(e),
        Ok(data) => {
            out.extend_from_slice(data.as_slice());
            Ok(())
        },
    }
}

/// A hard disk image without compression, of which sectors can be read and written.
pub struct HdImage {
    file: Vec<u8>,
    parent: Option<Box<Chd>>,
    map: Vec<u32>,
    geometry: HdGeometry,
    hunk_bytes: u32,
    logical_bytes: u64,
    comp_buf: Vec<u8>,
    hunk_buf: Vec<u8>,
}

/// Such an image as a specification.
pub struct Disk {
    pub file: Seq<u8>,
    pub parent: Option<Box<Image>>,
    pub map: Seq<u32>,
    pub geometry: HdGeometry,
    pub hunk_bytes: u32,
    pub logical_bytes: nat,
}

impl Disk {
    /// The number of sectors.
    pub open spec fn sector_count(self) -> int {
        if self.geometry.sector_bytes == 0 {
            0
        } else {
            self.logical_bytes as int / self.geometry.sector_bytes as int
        }
    }

    /// What reading a hunk into a buffer comes to: the hunk of the image where it has one, else that
    /// of the parent, else zeros.
    pub open spec fn hunk(self, h: int, old_out: Seq<u8>) -> Result<Seq<u8>, Error> {
        let at = self.map[h] * self.hunk_bytes;
        if self.map[h] != 0 {
            if at + self.hunk_bytes <= self.file.len() {
                Ok(self.file.subrange(at, at + self.hunk_bytes))
            } else {
                Err(Error::ReadError)
            }
        } else {
            match self.parent {
                Some(p) => match p.read(h, old_out, p.count as nat) {
                    Ok((out, n)) => Ok(out),
                    Err(e) => Err(e),
                },
                None => Ok(bytes::zeros(self.hunk_bytes as nat)),
            }
        }
    }

    /// The image with a hunk written to it: over the old one, or at the end where it has none.
    pub open spec fn with_hunk(self, h: int, data: Seq<u8>) -> Disk {
        if self.map[h] != 0 {
            Disk {
                file: metadata::overwritten(self.file, self.map[h] * self.hunk_bytes, data),
                ..self
            }
        } else {
            let place = (self.file.len() / self.hunk_bytes as nat) % 0x1_0000_0000;
            Disk {
                file: metadata::overwritten(self.file, 124 + 4 * h, bytes::be_bytes(place, 4)) + data,
                map: self.map.update(h, place as u32),
                ..self
            }
        }
    }

    /// The hunk that holds a sector.
    pub open spec fn hunk_of(self, lba: int) -> int {
        (lba * self.geometry.sector_bytes) / (self.hunk_bytes as int)
    }

    /// The place of a sector in its hunk.
    pub open spec fn offset_of(self, lba: int) -> int {
        (lba * self.geometry.sector_bytes) % (self.hunk_bytes as int)
    }

    /// Whether there is a sector, and a buffer has its size. A sector must not cross into the next
    /// hunk.
    pub open spec fn sector_fault(self, lba: int, len: nat) -> Option<Error> {
        if len != self.geometry.sector_bytes || lba >= self.sector_count() {
            Some(Error::InvalidParameter)
        } else if self.offset_of(lba) + len > self.hunk_bytes {
            Some(Error::InvalidData)
        } else {
            None
        }
    }
}

/// A hunk with a sector written to it.
pub open spec fn with_sector(hunk: Seq<u8>, at: int, sector: Seq<u8>) -> Seq<u8> {
    hunk.take(at) + sector + hunk.skip(at + sector.len())
}

/// The map that is kept behind the header of a file.
pub open spec fn saved_map(f: Seq<u8>, n: nat) -> Seq<u32> {
    Seq::new(n, |i: int| bytes::be_at(f, 124 + 4 * i, 4) as u32)
}

/// What keeps a file from being a disk, if anything, once it was opened.
pub open spec fn disk_fault(f: Seq<u8>) -> Option<Error> {
    let h = header::fields_at(f);
    if h.compression[0] != 0 {
        Some(Error::UnsupportedFormat)
    } else {
        match geometry_of(f, h.meta_offset) {
            Err(e) => Some(e),
            Ok(g) => if 124 + 4 * header::pieces(h.logical_bytes, h.hunk_bytes) > f.len() {
                Some(Error::ReadError)
            } else {
                None
            },
        }
    }
}

/// The disk that a file holds.
pub open spec fn disk_of(f: Seq<u8>, parent: Option<Box<Image>>) -> Disk {
    let h = header::fields_at(f);
    Disk {
        file: f,
        parent,
        map: saved_map(f, header::pieces(h.logical_bytes, h.hunk_bytes)),
        geometry: geometry_of(f, h.meta_offset)->Ok_0,
        hunk_bytes: h.hunk_bytes as u32,
        logical_bytes: h.logical_bytes,
    }
}

/// The layout of a difference to a file.
pub open spec fn diff_layout(f: Seq<u8>, h: header::Header) -> crate::write::PlainLayout {
    crate::write::PlainLayout {
        logical_bytes: h.logical_bytes as nat,
        hunk_bytes: h.hunk_bytes,
        unit_bytes: h.unit_bytes,
        metadata: chdfile::metas_at(f, metadata::list(f, h.meta_offset as nat).0),
    }
}

/// What keeps a difference to a file from being made, if anything. The file must have a digest.
pub open spec fn diff_fault(f: Seq<u8>, h: header::Header) -> Option<Error> {
    if chdfile::digest_or_zeros(h.sha1) == header::no_digest() {
        Some(Error::UnsupportedFormat)
    } else if !chdfile::all_held(f, metadata::list(f, h.meta_offset as nat).0) {
        Some(Error::ReadError)
    } else if !diff_layout(f, h).front_fits() {
        Some(Error::OutOfMemory)
    } else if !crate::write::sizes_fit(h.hunk_bytes, h.unit_bytes) {
        Some(Error::InvalidParameter)
    } else {
        None
    }
}

/// Makes a file that takes every hunk from another file, and has its metadata.
pub fn make_diff(parent: &Chd) -> (r: Result<Vec<u8>, Error>)
    ensures
        ({
            let f = parent.image().file;
            let h = parent.spec_header();
            match r {
                Ok(v) => diff_fault(f, h) is None && v@ == diff_layout(f, h).empty_diff(
                    chdfile::digest_or_zeros(h.sha1),
                ),
                Err(e) => diff_fault(f, h) == Some(e),
            }
        }),
{
    let h = parent.header();
    let zero: [u8; 20] = [0u8; 20];
    assert(zero@ =~= header::no_digest());
    let parent_sha1: [u8; 20] = match h.sha1 {
        Some(d) => d,
        None => zero,
    };
    if header::is_no_digest(&parent_sha1) {
        return Err(Error::UnsupportedFormat);
    }
    let entries = match parent.read_metas() {
        Ok(v) => v,
        Err(e) => {
            return Err(e);
        },
    };
    if !diff_fits(h.logical_bytes, h.hunk_bytes, h.unit_bytes, entries.as_slice()) {
        return Err(Error::OutOfMemory);
    }
    let mut out: Vec<u8> = Vec::new();
    match write_empty_diff(
        &mut out,
        h.logical_bytes,
        h.hunk_bytes,
        h.unit_bytes,
        &parent_sha1,
        entries.as_slice(),
    ) {
        Err(e) => Err(e),
        Ok(()) => {
            assert(out@ =~= diff_layout(parent.image().file, *h).empty_diff(parent_sha1@));
            Ok(out)
        },
    }
}

impl HdImage {
    /// The image, as a specification.
    pub closed spec fn disk(&self) -> Disk {
        Disk {
            file: self.file@,
            parent: chdfile::parent_image(self.parent),
            map: self.map@,
            geometry: self.geometry,
            hunk_bytes: self.hunk_bytes,
            logical_bytes: self.logical_bytes as nat,
        }
    }

    /// The buffer that hunks are read into.
    pub closed spec fn buffer(&self) -> Seq<u8> {
        self.hunk_buf@
    }

    /// Whether the parts fit together.
    pub closed spec fn wf(&self) -> bool {
        &&& self.hunk_bytes > 0
        &&& self.map@.len() == header::pieces(self.logical_bytes as nat, self.hunk_bytes as nat)
        &&& self.map@.len() <= u32::MAX
        &&& 124 + 4 * self.map@.len() <= self.file@.len()
        &&& self.hunk_buf@.len() == self.hunk_bytes
        &&& self.parent matches Some(p) ==> p.wf()
    }

    /// Takes over a file that was opened.
    fn assemble(probe: Chd) -> (r: Result<HdImage, Error>)
        requires
            probe.wf(),
            chdfile::has_header(probe.spec_header(), probe.image().file),
        ensures
            match r {
                Ok(d) => {
                    &&& disk_fault(probe.image().file) is None
                    &&& d.wf()
                    &&& d.disk() == disk_of(probe.image().file, probe.image().parent)
                    &&& d.buffer() == bytes::zeros(d.disk().hunk_bytes as nat)
                },
                Err(e) => disk_fault(probe.image().file) == Some(e),
            },
    {
        let ghost f = probe.image().file;
        let h = *probe.header();
        proof {
            assert(h.fields() == header::fields_at(f));
            assert(h.fields().compression[0] == h.compression[0]);
            assert(h.fields().meta_offset == h.meta_offset);
        }
        if h.compression[0] != 0 {
            return Err(Error::UnsupportedFormat);
        }
        let geometry = match read_geometry(&probe) {
            Ok(g) => g,
            Err(e) => {
                return Err(e);
            },
        };
        let (file, parent) = probe.into_inner();
        let len = file.len();
        let n = h.hunk_count as usize;
        if n > (usize::MAX - 124) / 4 || 124 + 4 * n > len {
            return Err(Error::ReadError);
        }
        let mut map: Vec<u32> = Vec::new();
        let mut i: usize = 0;
        proof {
            lemma2_to64();
        }
        while i < n
            invariant
                i <= n,
                f == file@,
                124 + 4 * n <= len == file@.len(),
                map@.len() == i,
                pow2(32) == 0x1_0000_0000,
                forall|k: int| 0 <= k < i ==> map@[k] == bytes::be_at(f, 124 + 4 * k, 4),
            decreases n - i,
        {
            map.push(get_be(file.as_slice(), 124 + 4 * i, 4) as u32);
            i = i + 1;
        }
        assert(map@ =~= saved_map(f, n as nat));
        let size = h.hunk_bytes as usize;
        let hunk_buf: Vec<u8> = vec![0u8; size];
        assert(hunk_buf@ =~= bytes::zeros(h.hunk_bytes as nat));
        Ok(
            HdImage {
                file,
                parent,
                map,
                geometry,
                hunk_bytes: h.hunk_bytes,
                logical_bytes: h.logical_bytes,
                comp_buf: Vec::new(),
                hunk_buf,
            },
        )
    }

    /// Opens an image without compression.
    pub fn open(file: Vec<u8>) -> (r: Result<HdImage, Error>)
        ensures
            match chdfile::open_fault(file@, None) {
                Some(e) => r matches Err(x) && x == e,
                None => match r {
                    Ok(d) => {
                        &&& disk_fault(file@) is None
                        &&& d.wf()
                        &&& d.disk() == disk_of(file@, None)
                        &&& d.buffer() == bytes::zeros(d.disk().hunk_bytes as nat)
                    },
                    Err(e) => disk_fault(file@) == Some(e),
                },
            },
    {
        match Chd::open(file, None) {
            Err(e) => Err(e),
            Ok(probe) => HdImage::assemble(probe),
        }
    }

    /// Opens a difference with its parent.
    pub fn reopen_diff(parent: Chd, diff: Vec<u8>) -> (r: Result<HdImage, Error>)
        requires
            parent.wf(),
        ensures
            match chdfile::open_fault(diff@, Some(parent.spec_header())) {
                Some(e) => r matches Err(x) && x == e,
                None => match r {
                    Ok(d) => {
                        &&& disk_fault(diff@) is None
                        &&& d.wf()
                        &&& d.disk() == disk_of(diff@, Some(Box::new(parent.image())))
                        &&& d.buffer() == bytes::zeros(d.disk().hunk_bytes as nat)
                    },
                    Err(e) => disk_fault(diff@) == Some(e),
                },
            },
    {
        match Chd::open(diff, Some(Box::new(parent))) {
            Err(e) => Err(e),
            Ok(probe) => HdImage::assemble(probe),
        }
    }

    /// Opens a new difference to a file.
    pub fn open_with_diff(parent: Chd) -> (r: Result<HdImage, Error>)
        requires
            parent.wf(),
        ensures
            ({
                let f = parent.image().file;
                let h = parent.spec_header();
                let diff = diff_layout(f, h).empty_diff(chdfile::digest_or_zeros(h.sha1));
                match diff_fault(f, h) {
                    Some(e) => r matches Err(x) && x == e,
                    None => match chdfile::open_fault(diff, Some(h)) {
                        Some(e) => r matches Err(x) && x == e,
                        None => match r {
                            Ok(d) => {
                                &&& disk_fault(diff) is None
                                &&& d.wf()
                                &&& d.disk() == disk_of(diff, Some(Box::new(parent.image())))
                                &&& d.buffer() == bytes::zeros(d.disk().hunk_bytes as nat)
                            },
                            Err(e) => disk_fault(diff) == Some(e),
                        },
                    },
                }
            }),
    {
        match make_diff(&parent) {
            Err(e) => Err(e),
            Ok(diff) => HdImage::reopen_diff(parent, diff),
        }
    }

    /// The shape of the disk.
    pub fn geometry(&self) -> (r: HdGeometry)
        ensures
            r == self.disk().geometry,
    {
        self.geometry
    }

    /// The size of a sector.
    pub fn sector_size(&self) -> (r: u32)
        ensures
            r == self.disk().geometry.sector_bytes,
    {
        self.geometry.sector_bytes
    }

    /// The number of sectors; none where sectors have no size.
    pub fn sector_count(&self) -> (r: u64)
        ensures
            r == self.disk().sector_count(),
    {
        if self.geometry.sector_bytes == 0 {
            0
        } else {
            self.logical_bytes / self.geometry.sector_bytes as u64
        }
    }

    /// The bytes of the file.
    pub fn file(&self) -> (r: &Vec<u8>)
        ensures
            r@ == self.disk().file,
    {
        &self.file
    }

    /// Reads a hunk into the buffer.
    fn read_hunk(&mut self, h: u32) -> (r: Result<(), Error>)
        requires
            old(self).wf(),
            h < old(self).disk().map.len(),
        ensures
            final(self).wf(),
            final(self).disk() == old(self).disk(),
            match old(self).disk().hunk(h as int, old(self).buffer()) {
                Ok(data) => r is Ok && final(self).buffer() == data,
                Err(e) => r == Err::<(), Error>(e),
            },
    {
        let entry = self.map[h as usize];
        let size = self.hunk_bytes as usize;
        if entry != 0 {
            let len = self.file.len() as u64;
            proof {
                assert(entry * self.hunk_bytes <= 0xffff_ffff * 0xffff_ffff) by (nonlinear_arith);
            }
            let at: u64 = entry as u64 * self.hunk_bytes as u64;
            if at > len || self.hunk_bytes as u64 > len - at {
                return Err(Error::ReadError);
            }
            let part = &self.file[at as usize..at as usize + size];
            copy_at(self.hunk_buf.as_mut_slice(), 0, part);
            assert(self.hunk_buf@ =~= self.file@.subrange(at as int, at + size));
            return Ok(());
        }
        match &mut self.parent {
            None => {
                let zero: Vec<u8> = vec![0u8; size];
                copy_at(self.hunk_buf.as_mut_slice(), 0, zero.as_slice());
                assert(self.hunk_buf@ =~= bytes::zeros(size as nat));
                Ok(())
            },
            Some(p) => {
                match p.read_whole(h, &mut self.comp_buf, self.hunk_buf.as_mut_slice()) {
                    Ok(_) => Ok(()),
                    Err(e) => Err(e),
                }
            },
        }
    }

    /// Reads a sector.
    pub fn read_sector(&mut self, lba: u64, buf: &mut [u8]) -> (r: Result<(), Error>)
        requires
            old(self).wf(),
        ensures
            final(self).wf(),
            final(self).disk() == old(self).disk(),
            final(buf)@.len() == old(buf)@.len(),
            ({
                let d = old(self).disk();
                match d.sector_fault(lba as int, old(buf)@.len()) {
                    Some(e) => r == Err::<(), Error>(e),
                    None => match d.hunk(d.hunk_of(lba as int), old(self).buffer()) {
                        Err(e) => r == Err::<(), Error>(e),
                        Ok(data) => {
                            let at = d.offset_of(lba as int);
                            r is Ok && final(buf)@ == data.subrange(at, at + old(buf)@.len())
                        },
                    },
                }
            }),
    {
        let ss = self.geometry.sector_bytes as usize;
        if buf.len() != ss || lba >= self.sector_count() {
            return Err(Error::InvalidParameter);
        }
        proof {
            lemma_sector(self.disk(), lba as int);
        }
        let byte: u64 = lba * ss as u64;
        let h: u32 = (byte / self.hunk_bytes as u64) as u32;
        let off: usize = (byte % self.hunk_bytes as u64) as usize;
        if ss > self.hunk_bytes as usize - off {
            return Err(Error::InvalidData);
        }
        match self.read_hunk(h) {
            Err(e) => Err(e),
            Ok(()) => {
                copy_at(buf, 0, &self.hunk_buf[off..off + ss]);
                assert(buf@ =~= self.hunk_buf@.subrange(off as int, off + ss));
                Ok(())
            },
        }
    }

    /// Writes a hunk, over the old one or at the end of the file.
    fn write_hunk(&mut self, h: u32, data: &[u8])
        requires
            old(self).wf(),
            h < old(self).disk().map.len(),
            data@.len() == old(self).disk().hunk_bytes,
            old(self).disk().map[h as int] != 0 ==> old(self).disk().map[h as int] * old(self).disk().hunk_bytes + data@.len() <= old(self).disk().file.len(),
        ensures
            final(self).wf(),
            final(self).disk() == old(self).disk().with_hunk(h as int, data@),
            final(self).buffer() == old(self).buffer(),
    {
        let entry = self.map[h as usize];
        if entry != 0 {
            let len = self.file.len();
            let at: usize = entry as usize * self.hunk_bytes as usize;
            overwrite(&mut self.file, at, data);
            return ;
        }
        let eof = self.file.len();
        let place: u32 = ((eof as u64 / self.hunk_bytes as u64) % 0x1_0000_0000) as u32;
        self.map.set(h as usize, place);
        let mut b: Vec<u8> = Vec::new();
        push_be(&mut b, place as u64, 4);
        assert(b@ =~= bytes::be_bytes(place as nat, 4));
        proof {
            bytes::lemma_be_len(place as nat, 4);
        }
        overwrite(&mut self.file, 124 + 4 * h as usize, b.as_slice());
        self.file.extend_from_slice(data);
        proof {
            let d = old(self).disk();
            let now = d.with_hunk(h as int, data@);
            assert(place == (d.file.len() / d.hunk_bytes as nat) % 0x1_0000_0000);
            assert(self.map@ =~= now.map);
            assert(self.file@ =~= now.file);
        }
    }

    /// Writes a sector. A hunk that came from the parent becomes one of the image.
    pub fn write_sector(&mut self, lba: u64, buf: &[u8]) -> (r: Result<(), Error>)
        requires
            old(self).wf(),
        ensures
            final(self).wf(),
            ({
                let d = old(self).disk();
                match d.sector_fault(lba as int, buf@.len()) {
                    Some(e) => r == Err::<(), Error>(e) && final(self).disk() == d,
                    None => match d.hunk(d.hunk_of(lba as int), old(self).buffer()) {
                        Err(e) => r == Err::<(), Error>(e) && final(self).disk() == d,
                        Ok(data) => r is Ok && final(self).disk() == d.with_hunk(
                            d.hunk_of(lba as int),
                            with_sector(data, d.offset_of(lba as int), buf@),
                        ),
                    },
                }
            }),
    {
        let ss = self.geometry.sector_bytes as usize;
        if buf.len() != ss || lba >= self.sector_count() {
            return Err(Error::InvalidParameter);
        }
        proof {
            lemma_sector(self.disk(), lba as int);
        }
        let byte: u64 = lba * ss as u64;
        let h: u32 = (byte / self.hunk_bytes as u64) as u32;
        let off: usize = (byte % self.hunk_bytes as u64) as usize;
        if ss > self.hunk_bytes as usize - off {
            return Err(Error::InvalidData);
        }
        if let Err(e) = self.read_hunk(h) {
            return Err(e);
        }
        let ghost data = self.hunk_buf@;
        let size = self.hunk_bytes as usize;
        let mut now: Vec<u8> = Vec::new();
        now.extend_from_slice(&self.hunk_buf[0..off]);
        now.extend_from_slice(buf);
        now.extend_from_slice(&self.hunk_buf[off + ss..size]);
        assert(now@ =~= with_sector(data, off as int, buf@));
        self.write_hunk(h, now.as_slice());
        Ok(())
    }
}

pub proof fn lemma_sector(d: Disk, lba: int)
    requires
        d.hunk_bytes > 0,
        d.map.len() == header::pieces(d.logical_bytes, d.hunk_bytes as nat),
        d.logical_bytes <= u64::MAX,
        0 <= lba < d.sector_count(),
    ensures
        0 <= lba * d.geometry.sector_bytes < d.logical_bytes,
        0 <= d.hunk_of(lba) < d.map.len(),
        0 <= d.offset_of(lba) < d.hunk_bytes,
{
    let ss = d.geometry.sector_bytes as int;
    let count = d.logical_bytes as int / ss;
    vstd::arithmetic::div_mod::lemma_fundamental_div_mod(d.logical_bytes as int, ss);
    vstd::arithmetic::div_mod::lemma_mod_bound(d.logical_bytes as int, ss);
    assert(lba * ss + ss <= ss * count) by (nonlinear_arith)
        requires
            lba + 1 <= count,
            ss > 0,
    ;
    assert(0 <= lba * ss) by (nonlinear_arith)
        requires
            0 <= lba,
            ss > 0,
    ;
    let hb = d.hunk_bytes as int;
    let byte = lba * ss;
    header::lemma_pieces(d.logical_bytes, d.hunk_bytes as nat);
    vstd::arithmetic::div_mod::lemma_fundamental_div_mod(byte, hb);
    vstd::arithmetic::div_mod::lemma_mod_bound(byte, hb);
    vstd::arithmetic::div_mod::lemma_div_pos_is_pos(byte, hb);
    let n = d.map.len() as int;
    assert(byte / hb < n) by (nonlinear_arith)
        requires
            byte == hb * (byte / hb) + byte % hb,
            0 <= byte % hb,
            byte < n * hb,
            hb > 0,
    ;
}

} // verus!
