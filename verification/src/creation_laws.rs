//! Laws of creating files: what is put into them, and where.

use crate::bytes;
use crate::cd;
use crate::cd::{CdCreateOptions, CdTrack};
use crate::compression::codecs;
use crate::copy;
use crate::copy::CopyOptions;
use crate::dvd;
use crate::dvd::DvdCreateOptions;
use crate::error::Error;
use crate::format_laws;
use crate::hash;
use crate::hd;
use crate::hd::{Disk, HdCreateOptions, HdGeometry};
use crate::header;
use crate::metadata::Meta;
use crate::read_back;
use crate::shape_laws;
use crate::text;
use crate::write::{Job, Outcomes, PlainLayout};
use vstd::prelude::*;

verus! {

/// An input is filled up with zeros to the size that is asked for, or left as it is where none is. The
/// size has to be a multiple of the unit, and no less than the input; the hunk has to be a multiple of
/// the unit too.
pub proof fn inputs_are_filled_up(data: Seq<u8>, size: u64, unit: u32, hunk: u32)
    ensures
        size == 0 ==> (crate::write::can_pad(data.len(), size, unit, hunk) <==> hunk > 0 && unit > 0 && hunk
            as int % unit as int == 0 && data.len() as int % unit as int == 0),
        size != 0 ==> (crate::write::can_pad(data.len(), size, unit, hunk) <==> hunk > 0 && unit > 0 && hunk
            as int % unit as int == 0 && size as int % unit as int == 0 && data.len() <= size),
        size == 0 ==> crate::write::padded(data, size) == data,
        data.len() <= size ==> {
            let p = crate::write::padded(data, size);
            &&& size > 0 ==> p.len() == size
            &&& p.take(data.len() as int) == data
            &&& forall|i: int| data.len() <= i < p.len() ==> #[trigger] p[i] == 0
        },
{
    if size == 0 {
        assert(crate::write::padded(data, size) =~= data);
    }
    if data.len() <= size {
        assert(crate::write::padded(data, size).take(data.len() as int) =~= data);
    }
}

/// The slots that name codecs come first, and each of them gives the codec that it names, in order.
/// Behind an empty slot there is none, or the list is refused; so is a number that names no codec.
pub proof fn codecs_by_slot(slots: Seq<u32>, k: int)
    requires
        0 <= k < slots.len(),
        crate::write::slots_fault(slots) is None,
    ensures
        ({
            let cs = crate::write::resolved(slots);
            &&& cs.len() <= slots.len()
            &&& k < cs.len() <==> slots[k] != 0
            &&& k < cs.len() ==> cs[k].spec_code() == slots[k]
        }),
{
    lemma_in_use(slots, 0, k);
    if k < crate::write::slots_in_use(slots, 0) {
        format_laws::numbers_name_codecs(slots[k]);
        assert(header::CodecType::named(slots[k]) is Some);
    }
}

proof fn lemma_in_use(slots: Seq<u32>, from: int, k: int)
    requires
        0 <= from <= slots.len(),
    ensures
        from <= crate::write::slots_in_use(slots, from) <= slots.len(),
        from <= k < crate::write::slots_in_use(slots, from) ==> slots[k] != 0,
        crate::write::slots_in_use(slots, from) < slots.len() ==> slots[crate::write::slots_in_use(
            slots,
            from,
        )] == 0,
    decreases slots.len() - from,
{
    if from < slots.len() && slots[from] != 0 {
        lemma_in_use(slots, from + 1, k);
    }
}

/// Slots are refused exactly where one that comes before the first empty one names no codec, or one
/// behind it is not empty.
pub proof fn slots_that_are_refused(slots: Seq<u32>)
    ensures
        crate::write::slots_fault(slots) is Some <==> {
            ||| exists|i: int, k: int|
                #![trigger slots[i], slots[k]]
                0 <= i < k < slots.len() && slots[i] == 0 && slots[k] != 0
            ||| exists|k: int|
                0 <= k < slots.len() && header::CodecType::named(#[trigger] slots[k]) is None
        },
{
    let n = crate::write::slots_in_use(slots, 0);
    lemma_in_use(slots, 0, 0);
    assert forall|k: int| 0 <= k < n implies slots[k] != 0 by {
        lemma_in_use(slots, 0, k);
    }
    assert(header::CodecType::Uncompressed.spec_code() == 0);
    format_laws::numbers_name_codecs(0);
    let broken = exists|i: int, k: int|
        #![trigger slots[i], slots[k]]
        0 <= i < k < slots.len() && slots[i] == 0 && slots[k] != 0;
    if crate::write::has_gap(slots) {
        let k = choose|k: int| n <= k < slots.len() && #[trigger] slots[k] != 0;
        assert(slots[n] == 0);
        assert(n < k);
    } else {
        assert forall|k: int| n <= k < slots.len() implies #[trigger] slots[k] == 0 by {}
    }
    if !crate::write::all_known(slots) {
        let k = choose|k: int| 0 <= k < n && header::CodecType::named(#[trigger] slots[k]) is None;
        assert(header::CodecType::named(slots[k]) is None);
    }
}

/// A job can be done exactly where a hunk is a whole number of units, there are one to four codecs, and
/// each of them can compress hunks of that size.
pub proof fn jobs_that_can_be_done(job: Job)
    ensures
        job.fault() is None <==> {
            &&& job.hunk_bytes > 0
            &&& job.unit_bytes > 0
            &&& job.hunk_bytes as int % job.unit_bytes as int == 0
            &&& 1 <= job.codecs.len() <= 4
            &&& forall|k: int|
                0 <= k < job.codecs.len() ==> codecs::can_encode(#[trigger] job.codecs[k], job.hunk_bytes)
        },
{
    lemma_unfit(job.codecs, job.hunk_bytes, 0);
}

proof fn lemma_unfit(cs: Seq<header::CodecType>, hunk_bytes: u32, k: int)
    requires
        0 <= k <= cs.len(),
    ensures
        crate::write::unfit_codec(cs, hunk_bytes, k) is None <==> forall|j: int|
            k <= j < cs.len() ==> codecs::can_encode(#[trigger] cs[j], hunk_bytes),
    decreases cs.len() - k,
{
    if k < cs.len() {
        lemma_unfit(cs, hunk_bytes, k + 1);
        if codecs::can_encode(cs[k], hunk_bytes) {
            if crate::write::unfit_codec(cs, hunk_bytes, k + 1) is None {
                assert forall|j: int| k <= j < cs.len() implies codecs::can_encode(
                    #[trigger] cs[j],
                    hunk_bytes,
                ) by {
                    if j > k {
                        assert(k + 1 <= j);
                    }
                }
            }
        } else {
            assert(!codecs::can_encode(cs[k], hunk_bytes));
        }
    }
}

/// The header of a compressed file: the numbers of the codecs in their slots, the size of the image as
/// it was given, the sizes of hunks and units, the metadata right behind the header, the digest of the
/// image and that of the parent, or zeros.
pub proof fn header_of_a_compressed_file(job: Job, f: Seq<u8>, k: int)
    requires
        job.within_limits(),
        job.fault() is None,
        job.may_write(f),
        0 <= k < 4,
    ensures
        f.len() >= 124,
        format_laws::number_at(f, 16 + 4 * k, 4) == if k < job.codecs.len() {
            job.codecs[k].spec_code() as int
        } else {
            0
        },
        format_laws::number_at(f, 32, 8) == job.data.len(),
        format_laws::number_at(f, 48, 8) == if job.metadata.len() > 0 {
            124int
        } else {
            0
        },
        format_laws::number_at(f, 56, 4) == job.hunk_bytes,
        format_laws::number_at(f, 60, 4) == job.unit_bytes,
        f.subrange(64, 84) == hash::digest(job.data),
        f.subrange(104, 124) == match job.parent {
            Some(p) => p.1,
            None => Seq::new(20, |i: int| 0u8),
        },
{
    let o = choose|o: Seq<Outcomes>|
        o.len() == job.count() && #[trigger] job.may_come(o) && f == job.file(o);
    lemma_fields_of(job, o, f);
    format_laws::headers_that_can_be_read(f);
    format_laws::places_of_the_header(f);
    let h = header::fields_at(f);
    assert(k == 0 || k == 1 || k == 2 || k == 3);
    assert(h.compression[k] == format_laws::number_at(f, 16 + 4 * k, 4));
    assert(h.raw_sha1 == f.subrange(64, 84));
    assert(h.parent_sha1 == f.subrange(104, 124));
    assert(header::no_digest() =~= Seq::new(20, |i: int| 0u8));
}

proof fn lemma_fields_of(job: Job, o: Seq<Outcomes>, f: Seq<u8>)
    requires
        job.within_limits(),
        job.fault() is None,
        o.len() == job.count(),
        f == job.file(o),
    ensures
        header::header_fault(f) is None,
        header::fields_at(f) == job.fields(job.written(o, job.count()).stream.len()),
{
    read_back::lemma_file(job, o);
}

/// The header of a file without compression: no codecs and no digests, the map right behind it, and the
/// metadata behind that.
pub proof fn header_of_a_plain_file(p: PlainLayout, data: Seq<u8>, k: int)
    requires
        crate::write::sizes_fit(p.hunk_bytes, p.unit_bytes),
        p.within_limits(),
        p.logical_bytes == data.len(),
        data.len() <= u64::MAX,
        0 <= k < 4,
        p.file(data).len() >= 124,
    ensures
        ({
            let f = p.file(data);
            &&& format_laws::number_at(f, 16 + 4 * k, 4) == 0
            &&& format_laws::number_at(f, 32, 8) == data.len()
            &&& format_laws::number_at(f, 40, 8) == 124
            &&& format_laws::number_at(f, 48, 8) == if p.metadata.len() > 0 {
                124 + 4 * p.count()
            } else {
                0
            }
            &&& format_laws::number_at(f, 56, 4) == p.hunk_bytes
            &&& format_laws::number_at(f, 60, 4) == p.unit_bytes
            &&& forall|i: int| 64 <= i < 124 ==> #[trigger] f[i] == 0
        }),
{
    let f = p.file(data);
    lemma_plain_header(p, data, f);
    lemma_plain_header_bytes(p.fields(header::no_digest()), f, k);
}

proof fn lemma_plain_header(p: PlainLayout, data: Seq<u8>, f: Seq<u8>)
    requires
        crate::write::sizes_fit(p.hunk_bytes, p.unit_bytes),
        p.within_limits(),
        p.logical_bytes == data.len(),
        data.len() <= u64::MAX,
        f == p.file(data),
    ensures
        header::fields_at(f) == p.fields(header::no_digest()),
{
    read_back::lemma_plain_fields(p, data);
}

proof fn lemma_plain_header_bytes(h: header::Fields, f: Seq<u8>, k: int)
    requires
        f.len() >= 124,
        header::fields_at(f) == h,
        h.compression == seq![0u32, 0, 0, 0],
        h.raw_sha1 == header::no_digest(),
        h.sha1 == header::no_digest(),
        h.parent_sha1 == header::no_digest(),
        0 <= k < 4,
    ensures
        format_laws::number_at(f, 16 + 4 * k, 4) == 0,
        format_laws::number_at(f, 32, 8) == h.logical_bytes,
        format_laws::number_at(f, 40, 8) == h.map_offset,
        format_laws::number_at(f, 48, 8) == h.meta_offset,
        format_laws::number_at(f, 56, 4) == h.hunk_bytes,
        format_laws::number_at(f, 60, 4) == h.unit_bytes,
        forall|i: int| 64 <= i < 124 ==> #[trigger] f[i] == 0,
{
    format_laws::places_of_the_header(f);
    assert(k == 0 || k == 1 || k == 2 || k == 3);
    assert(h.compression[k] == 0);
    assert forall|i: int| 64 <= i < 124 implies #[trigger] f[i] == 0 by {
        if i < 84 {
            assert(h.raw_sha1[i - 64] == f[64 + (i - 64)]);
        } else if i < 104 {
            assert(h.sha1[i - 84] == f[84 + (i - 84)]);
        } else {
            assert(h.parent_sha1[i - 104] == f[104 + (i - 104)]);
        }
    }
}

/// A file without compression: no codecs and no digests in the header, the map at byte 124 with a
/// number of four bytes for each hunk, and the hunk that many hunks from the start of the file. Hunks
/// follow each other, behind the map and the metadata.
#[verifier::spinoff_prover]
#[verifier::rlimit(60)]
pub proof fn places_in_a_plain_file(p: PlainLayout, data: Seq<u8>, i: int)
    requires
        crate::write::sizes_fit(p.hunk_bytes, p.unit_bytes),
        p.within_limits(),
        p.logical_bytes == data.len(),
        data.len() <= u64::MAX,
        0 <= i < p.count(),
    ensures
        ({
            let f = p.file(data);
            let place = format_laws::number_at(f, 124 + 4 * i, 4) as int;
            &&& f.len() >= 124 + 4 * p.count()
            &&& header::fields_at(f) == p.fields(header::no_digest())
            &&& place == format_laws::number_at(f, 124, 4) + i
            &&& place * p.hunk_bytes >= 124 + 4 * p.count()
            &&& (place + 1) * p.hunk_bytes <= f.len()
            &&& f.subrange(place * p.hunk_bytes, (place + 1) * p.hunk_bytes) == crate::write::hunk_at(
                data,
                p.hunk_bytes as nat,
                i,
            )
        }),
{
    let f = p.file(data);
    let hb = p.hunk_bytes as int;
    let n = p.count();
    let plan = crate::write::plain_map(p.base(), n);
    let rest = data + bytes::zeros((n * p.hunk_bytes - data.len()) as nat);
    read_back::lemma_plain_fields(p, data);
    crate::write::lemma_plain_layout(p);
    crate::write::lemma_front_layout(p);
    read_back::lemma_plain_entry(p.base(), n, i);
    read_back::lemma_plain_entry(p.base(), n, 0);
    read_back::lemma_plain_front(p, plan, header::no_digest(), rest);
    assert(f =~= p.front(plan, header::no_digest()) + rest);
    header::lemma_pieces(data.len(), p.hunk_bytes as nat);
    lemma_plain_number(f, plan, p.base(), n, i);
    lemma_plain_number(f, plan, p.base(), n, 0);
    let place = p.base() + i;
    assert(place * hb == p.data_start() + i * hb) by (nonlinear_arith)
        requires
            place == p.base() + i,
            p.base() * hb == p.data_start(),
    ;
    assert((place + 1) * hb == place * hb + hb) by (nonlinear_arith);
    assert(i * hb + hb <= n * hb) by (nonlinear_arith)
        requires
            i + 1 <= n,
            hb > 0,
    ;
    assert(0 <= i * hb) by (nonlinear_arith)
        requires
            i >= 0,
            hb > 0,
    ;
    assert(f.subrange(place * hb, (place + 1) * hb) =~= crate::write::hunk_at(
        data,
        p.hunk_bytes as nat,
        i,
    ));
}

proof fn lemma_plain_number(f: Seq<u8>, plan: Seq<u8>, base: nat, n: nat, i: int)
    requires
        0 <= i < n,
        plan == crate::write::plain_map(base, n),
        base + n <= u32::MAX + 1,
        f.len() >= 124 + 4 * n,
        f.subrange(124, 124 + 4 * n as int) == plan,
    ensures
        format_laws::number_at(f, 124 + 4 * i, 4) == base + i,
{
    read_back::lemma_plain_entry(base, n, i);
    let at = 124 + 4 * i;
    assert(f.subrange(at, at + 4) =~= plan.subrange(4 * i, 4 * i + 4));
    vstd::arithmetic::power2::lemma2_to64();
    bytes::lemma_be_at(f, at, (base + i) as nat, 4);
    format_laws::greatest_byte_first(f, at, 4);
}

/// The metadata of a hard disk: an entry `GDDD` with the text of the shape and a zero, and an entry
/// `IDNT` with the identification where there is one, both with the checksum flag.
pub proof fn metadata_of_a_disk(g: HdGeometry, ident: Option<Seq<u8>>)
    ensures
        ({
            let ms = hd::disk_metas(g, ident);
            &&& ms.len() == if ident is Some {
                2int
            } else {
                1
            }
            &&& format_laws::spells(ms[0].tag, 'G', 'D', 'D', 'D')
            &&& ms[0].flags == 1
            &&& ms[0].payload.len() > 0 && ms[0].payload.last() == 0
            &&& text::parts(ms[0].payload.drop_last(), 0x2c) == seq![
                seq![0x43u8, 0x59u8, 0x4cu8, 0x53u8, 0x3au8] + text::decimal(g.cylinders as nat),
                seq![0x48u8, 0x45u8, 0x41u8, 0x44u8, 0x53u8, 0x3au8] + text::decimal(g.heads as nat),
                seq![0x53u8, 0x45u8, 0x43u8, 0x53u8, 0x3au8] + text::decimal(g.sectors as nat),
                seq![0x42u8, 0x50u8, 0x53u8, 0x3au8] + text::decimal(g.sector_bytes as nat),
            ]
            &&& ident matches Some(s) ==> format_laws::spells(ms[1].tag, 'I', 'D', 'N', 'T') && ms[1].flags
                == 1 && ms[1].payload == s
        }),
{
    shape_laws::text_of_a_shape(g);
    assert(hd::disk_metas(g, ident)[0].payload.drop_last() =~= hd::gddd_text(g));
}

/// The metadata of a DVD: an entry `DVD ` with the checksum flag and one zero.
pub proof fn metadata_of_a_dvd()
    ensures
        dvd::dvd_metas().len() == 1,
        format_laws::spells(dvd::dvd_metas()[0].tag, 'D', 'V', 'D', ' '),
        dvd::dvd_metas()[0].flags == 1,
        dvd::dvd_metas()[0].payload == seq![0u8],
{
}

/// What the plans for images say: the image is the input, filled up; the unit is a sector of the given
/// size on a hard disk, of 2048 bytes on a DVD, and a frame of 2448 bytes on a CD; the sizes of hunks
/// and the codecs are those of the options.
pub proof fn plans_follow_the_options(
    data: Seq<u8>,
    h: HdCreateOptions,
    metas: Seq<Meta>,
    d: DvdCreateOptions,
    ts: Seq<CdTrack>,
    datas: Seq<Option<Seq<u8>>>,
    c: CdCreateOptions,
)
    ensures
        ({
            let p = hd::plan_with(data, h, metas);
            &&& p.data == crate::write::padded(data, h.logical_size)
            &&& p.hunk_size == h.hunk_size && p.unit_size == h.unit_size
            &&& p.codecs == crate::write::resolved(h.codecs@)
            &&& p.metadata == metas
        }),
        ({
            let p = dvd::plan_of(data, d);
            &&& p.data == crate::write::padded(data, d.logical_size)
            &&& p.hunk_size == d.hunk_size && p.unit_size == 2048
            &&& p.codecs == crate::write::resolved(d.codecs@)
            &&& p.metadata == dvd::dvd_metas()
        }),
        ({
            let p = cd::plan_of(ts, datas, c);
            &&& p.data == cd::cd_image(datas, ts)
            &&& p.hunk_size == c.hunk_size && p.unit_size == 2448
            &&& p.codecs == crate::write::resolved(c.codecs@)
            &&& p.metadata == cd::track_metas(ts)
        }),
        dvd::plan_fault(data, d) is None ==> d.hunk_size > 0 && d.hunk_size % 2048 == 0 && (
        crate::write::padded(data, d.logical_size).len() % 2048 == 0),
        cd::plan_fault(ts, datas, c) is None ==> c.hunk_size > 0 && c.hunk_size % 2448 == 0,
        c.hunk_size == 0 || c.hunk_size % 2448 != 0 ==> cd::plan_fault(ts, datas, c) == Some(
            Error::InvalidParameter,
        ),
        hd::raw_plan_fault(data, h) is None ==> h.geometry is None && h.ident is None,
        h.geometry is Some || h.ident is Some ==> hd::raw_plan_fault(data, h) == Some(
            Error::UnsupportedFormat,
        ),
{
    if dvd::plan_fault(data, d) is None {
        inputs_are_filled_up(data, d.logical_size, 2048, d.hunk_size);
        if d.logical_size != 0 {
            assert(crate::write::padded(data, d.logical_size).len() == d.logical_size);
        }
    }
}

/// What the plan for a copy says: the unit and the metadata stay, and the hunk too where no other size
/// is asked for.
pub proof fn copies_follow_the_options(f: Seq<u8>, o: CopyOptions)
    requires
        copy::plan_fault(f, o) is None,
    ensures
        ({
            let p = copy::plan_of(f, o);
            &&& p.unit_size == format_laws::number_at(f, 60, 4)
            &&& o.hunk_size is None ==> p.hunk_size == format_laws::number_at(f, 56, 4)
            &&& o.hunk_size matches Some(n) ==> p.hunk_size == n
            &&& p.codecs == crate::write::resolved(o.codecs@)
        }),
{
    format_laws::headers_that_can_be_read(f);
    format_laws::places_of_the_header(f);
    format_laws::lemma_four(f, 56);
    format_laws::lemma_four(f, 60);
}

/// Sectors follow each other in the image without gaps: sector `lba` starts at `lba` times its size.
pub proof fn places_of_sectors(d: Disk, lba: int, len: nat)
    requires
        d.hunk_bytes > 0,
        lba >= 0,
    ensures
        d.hunk_of(lba) * d.hunk_bytes + d.offset_of(lba) == lba * d.geometry.sector_bytes,
        0 <= d.offset_of(lba) < d.hunk_bytes,
        d.sector_fault(lba, len) is None <==> {
            &&& d.geometry.sector_bytes > 0
            &&& len == d.geometry.sector_bytes
            &&& (lba + 1) * d.geometry.sector_bytes <= d.logical_bytes
            &&& (lba * d.geometry.sector_bytes) % (d.hunk_bytes as int) + len <= d.hunk_bytes
        },
{
    let hb = d.hunk_bytes as int;
    let sb = d.geometry.sector_bytes as int;
    vstd::arithmetic::div_mod::lemma_fundamental_div_mod(lba * sb, hb);
    assert(d.hunk_of(lba) * hb == hb * d.hunk_of(lba)) by (nonlinear_arith);
    if sb > 0 {
        let c = d.logical_bytes as int / sb;
        vstd::arithmetic::div_mod::lemma_fundamental_div_mod(d.logical_bytes as int, sb);
        let r = d.logical_bytes as int % sb;
        assert(lba < c <==> (lba + 1) * sb <= d.logical_bytes) by (nonlinear_arith)
            requires
                d.logical_bytes == sb * c + r,
                0 <= r < sb,
        ;
    }
}

} // verus!
