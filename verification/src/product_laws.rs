//! Laws of whole products: what is created of an input, and what is extracted of a file.

use crate::cd;
use crate::cd::{create_from_cue, create_from_iso, CdCreateOptions, CdTrack, SourceFile};
use crate::chdfile;
use crate::chdfile::{Chd, HunkMap, Image};
use crate::compression::codecs;
use crate::copy;
use crate::copy::CopyOptions;
use crate::cue;
use crate::dvd;
use crate::dvd::{is_dvd, DvdCreateOptions};
use crate::entry_laws;
use crate::error::Error;
use crate::format_laws;
use crate::hd;
use crate::hd::{HdCreateOptions, HdGeometry};
use crate::header;
use crate::header::Header;
use crate::map::{compress_v5_map, decompress_v5_map, RawEntry};
use crate::metadata;
use crate::metadata::Meta;
use crate::metadata_laws;
use crate::read_back;
use crate::report::{count_hunks, extract_raw};
use crate::write::{build_parent_ref, CreatePlan, ParentRef, Plan};
use crate::write_laws;
use vstd::prelude::*;

verus! {

/// Whether what a plan comes to can be read again: entries are shorter than 2^24 bytes, and with
/// compression there are no more than 2^29 hunks of less than 2^24 bytes, the codecs give back what they
/// are given, and checksums tell hunks apart.
pub open spec fn usual_plan(p: Plan) -> bool {
    &&& p.data.len() <= u64::MAX
    &&& forall|i: int|
        0 <= i < p.metadata.len() ==> (#[trigger] p.metadata[i]).payload.len() < 0x100_0000
    &&& p.codecs.len() > 0 ==> {
        &&& p.codecs[0] !is Uncompressed
        &&& p.hunk_size < 0x100_0000
        &&& forall|k: int|
            0 <= k < p.codecs.len() ==> codecs::encoder_reliable(#[trigger] p.codecs[k], p.hunk_size)
        &&& header::pieces(p.data.len(), p.hunk_size as nat) <= 0x2000_0000
        &&& read_back::no_collision(
            crate::write::job_for(p.data, p.hunk_size, p.unit_size, p.codecs, p.metadata, None),
        )
    }
}

proof fn lemma_plan(p: Plan, before: Seq<u8>, after: Seq<u8>)
    requires
        usual_plan(p),
        hd::attempted(p, before, after, Ok::<(), Error>(())),
        after.len() <= u64::MAX,
    ensures
        after.len() >= before.len(),
        after.take(before.len() as int) == before,
        read_back::gives(after.skip(before.len() as int), p.data, p.metadata),
{
    let f = after.skip(before.len() as int);
    if p.codecs.len() > 0 {
        read_back::usual_plans_are_readable(p, f);
    }
    assert(read_back::plan_readable(p, f));
    read_back::created_file_is_read_back(p, f);
}

/// What a plan comes to stands behind what was there, and gives the image and the metadata of the plan.
pub proof fn plans_come_true(p: CreatePlan, out: &mut Vec<u8>)
    requires
        usual_plan(p@),
        call_ensures(hd::attempt, (&p, out), Ok::<(), Error>(())),
        final(out)@.len() <= u64::MAX,
    ensures
        final(out)@.len() >= old(out)@.len(),
        final(out)@.take(old(out)@.len() as int) == old(out)@,
        read_back::gives(final(out)@.skip(old(out)@.len() as int), p.data@, metadata::metas(p.metadata@)),
{
    lemma_plan(p@, old(out)@, final(out)@);
}

/// A hard disk that is created gives its input, filled up, and the metadata of its shape: the one that
/// was asked for, or the one that is guessed for its size.
pub proof fn created_disks_are_read(data: Vec<u8>, out: &mut Vec<u8>, o: HdCreateOptions)
    requires
        old(out)@.len() == 0,
        o.logical_size <= usize::MAX,
        call_ensures(hd::create_from_reader, (data, out, &o), Ok::<(), Error>(())),
        final(out)@.len() <= u64::MAX,
        forall|g: HdGeometry|
            usual_plan(#[trigger] hd::plan_with(data@, o, hd::disk_metas(g, hd::ident_view(o.ident)))),
    ensures
        exists|g: HdGeometry|
            {
                &&& o.geometry matches Some(x) ==> g == x
                &&& o.geometry is None ==> hd::is_guess(
                    crate::write::padded(data@, o.logical_size).len() as int,
                    o.unit_size,
                    g,
                )
                &&& read_back::gives(
                    final(out)@,
                    crate::write::padded(data@, o.logical_size),
                    #[trigger] hd::disk_metas(g, hd::ident_view(o.ident)),
                )
            },
{
    let size = crate::write::padded_size(data@.len(), o.logical_size) as int;
    let g = choose|g: HdGeometry| #[trigger]
        hd::is_shape_for(o, size, g) && hd::attempted(
            hd::plan_with(data@, o, hd::disk_metas(g, hd::ident_view(o.ident))),
            old(out)@,
            final(out)@,
            Ok::<(), Error>(()),
        );
    let p = hd::plan_with(data@, o, hd::disk_metas(g, hd::ident_view(o.ident)));
    lemma_plan(p, old(out)@, final(out)@);
    assert(final(out)@.skip(0) =~= final(out)@);
    assert(crate::write::padded(data@, o.logical_size).len() == size);
    assert(read_back::gives(
        final(out)@,
        crate::write::padded(data@, o.logical_size),
        hd::disk_metas(g, hd::ident_view(o.ident)),
    ));
}

/// A DVD that is created gives its input, filled up, and the metadata of a DVD.
pub proof fn created_dvds_are_read(data: Vec<u8>, out: &mut Vec<u8>, o: DvdCreateOptions)
    requires
        old(out)@.len() == 0,
        o.logical_size <= usize::MAX,
        call_ensures(dvd::create_from_reader, (data, out, &o), Ok::<(), Error>(())),
        final(out)@.len() <= u64::MAX,
        usual_plan(dvd::plan_of(data@, o)),
    ensures
        read_back::gives(final(out)@, crate::write::padded(data@, o.logical_size), dvd::dvd_metas()),
{
    lemma_plan(dvd::plan_of(data@, o), old(out)@, final(out)@);
    assert(final(out)@.skip(0) =~= final(out)@);
}

/// A CD that is created of a sheet gives the image of the tracks that the sheet gives, and their
/// metadata.
pub proof fn created_cds_are_read(
    sheet: &[u8],
    files: &[SourceFile],
    out: &mut Vec<u8>,
    o: CdCreateOptions,
) -> (ts: Seq<CdTrack>)
    requires
        old(out)@.len() == 0,
        call_ensures(create_from_cue, (sheet, files, out, &o), Ok::<(), Error>(())),
        final(out)@.len() <= u64::MAX,
        cue::tracks_of(sheet@, files@) matches Ok(ts) ==> usual_plan(
            cd::plan_of(ts, cd::all_contents(files@), o),
        ),
    ensures
        cue::tracks_of(sheet@, files@) == Ok::<Seq<CdTrack>, Error>(ts),
        read_back::gives(
            final(out)@,
            cd::cd_image(cd::all_contents(files@), ts),
            cd::track_metas(ts),
        ),
{
    let ts = cue::tracks_of(sheet@, files@)->Ok_0;
    lemma_plan(cd::plan_of(ts, cd::all_contents(files@), o), old(out)@, final(out)@);
    assert(final(out)@.skip(0) =~= final(out)@);
    ts
}

/// A CD that is created of a file of nothing but sectors has them in one track.
pub proof fn created_flat_cds_are_read(data: Vec<u8>, out: &mut Vec<u8>, o: CdCreateOptions) -> (t: CdTrack)
    requires
        old(out)@.len() == 0,
        call_ensures(create_from_iso, (data, out, &o), Ok::<(), Error>(())),
        final(out)@.len() <= u64::MAX,
        cd::flat_track(data@.len()) matches Some(t) ==> usual_plan(
            cd::plan_of(seq![t], seq![Some(data@)], o),
        ),
    ensures
        cd::flat_track(data@.len()) == Some(t),
        read_back::gives(
            final(out)@,
            cd::cd_image(seq![Some(data@)], seq![t]),
            cd::track_metas(seq![t]),
        ),
{
    let t = cd::flat_track(data@.len())->0;
    lemma_plan(cd::plan_of(seq![t], seq![Some(data@)], o), old(out)@, final(out)@);
    assert(final(out)@.skip(0) =~= final(out)@);
    t
}

/// A copy gives the image and the metadata of its source.
pub proof fn copies_are_read(
    source: Vec<u8>,
    out: &mut Vec<u8>,
    o: CopyOptions,
    data: Seq<u8>,
    metas: Seq<Meta>,
)
    requires
        old(out)@.len() == 0,
        read_back::gives(source@, data, metas),
        call_ensures(copy::copy, (source, out, &o), Ok::<(), Error>(())),
        final(out)@.len() <= u64::MAX,
        usual_plan(copy::plan_of(source@, o)),
    ensures
        read_back::gives(final(out)@, data, metas),
{
    let p = copy::plan_of(source@, o);
    lemma_plan(p, old(out)@, final(out)@);
    assert(final(out)@.skip(0) =~= final(out)@);
    let h = header::fields_at(source@);
    assert(metadata_laws::first_entry(source@) == h.meta_offset);
    assert(p.metadata =~= metadata_laws::listed(source@));
    assert(p.data == data);
}

/// What is extracted of a file is its image, behind what was there.
pub proof fn images_are_extracted(
    file: Vec<u8>,
    out: &mut Vec<u8>,
    r: Result<(), Error>,
    data: Seq<u8>,
    metas: Seq<Meta>,
)
    requires
        read_back::gives(file@, data, metas),
        call_ensures(hd::extract_to_writer, (file, out), r),
    ensures
        r is Ok,
        final(out)@ == old(out)@ + data,
{
}

/// What is extracted of a DVD is its image; a file without the metadata of a DVD is refused.
pub proof fn dvds_are_extracted(
    file: Vec<u8>,
    out: &mut Vec<u8>,
    r: Result<(), Error>,
    data: Seq<u8>,
    metas: Seq<Meta>,
)
    requires
        read_back::gives(file@, data, metas),
        call_ensures(dvd::extract_to_writer, (file, out), r),
    ensures
        ({
            let dvd = entry_laws::some_has(metadata_laws::places(file@), 'D', 'V', 'D', ' ');
            &&& dvd ==> r is Ok && final(out)@ == old(out)@ + data
            &&& !dvd ==> r == Err::<(), Error>(Error::UnsupportedFormat) && final(out)@ == old(out)@
        }),
{
    let ns = metadata_laws::places(file@);
    assert(metadata_laws::first_entry(file@) == header::fields_at(file@).meta_offset);
    lemma_dvd(ns);
}

proof fn lemma_dvd(ns: Seq<metadata::Node>)
    ensures
        hd::first_with(ns, header::tag_of(0x44, 0x56, 0x44, 0x20), 0) is Some <==> entry_laws::some_has(
            ns,
            'D',
            'V',
            'D',
            ' ',
        ),
{
    let tag = header::tag_of(0x44, 0x56, 0x44, 0x20);
    assert(tag == 0x44564420);
    entry_laws::first_entry_with_a_tag(ns, tag, 0);
    if entry_laws::some_has(ns, 'D', 'V', 'D', ' ') {
        let i = choose|i: int|
            0 <= i < ns.len() && format_laws::spells((#[trigger] ns[i]).tag, 'D', 'V', 'D', ' ');
        assert(ns[i].tag == tag);
    }
    if let Some(n) = hd::first_with(ns, tag, 0) {
        let k = choose|k: int|
            0 <= k < ns.len() && #[trigger] ns[k] == n && forall|j: int|
                0 <= j < k ==> (#[trigger] ns[j]).tag != tag;
        assert(format_laws::spells(ns[k].tag, 'D', 'V', 'D', ' '));
    }
}

/// A file is a DVD where one of its entries has the tag `DVD `.
pub proof fn files_that_are_dvds(chd: Chd, r: bool)
    requires
        call_ensures(is_dvd, (&chd,), Ok::<bool, Error>(r)),
    ensures
        r <==> entry_laws::some_has(
            metadata::list(chd.image().file, chd.spec_header().meta_offset as nat).0,
            'D',
            'V',
            'D',
            ' ',
        ),
{
    lemma_dvd(metadata::list(chd.image().file, chd.spec_header().meta_offset as nat).0);
}

/// The image that is appended hunk by hunk is as long as the header says.
pub proof fn raw_images_are_extracted(chd: &mut Chd, out: &mut Vec<u8>, r: Result<(), Error>, whole: Seq<u8>)
    requires
        old(chd).wf(),
        read_back::reads_as(old(chd).image(), whole),
        old(chd).spec_header().logical_bytes <= whole.len(),
        call_ensures(extract_raw, (chd, out), r),
    ensures
        r is Ok,
        final(out)@ == old(out)@ + whole.take(old(chd).spec_header().logical_bytes as int),
        final(chd).image() == old(chd).image(),
{
    let img = old(chd).image();
    let logical = old(chd).spec_header().logical_bytes as nat;
    crate::read_laws::image_is_its_hunks(img, whole, logical, img.count as nat);
    assert(img.count * img.hunk_bytes == whole.len());
}

/// A header that is read has the numbers of the file.
pub proof fn headers_are_read(f: &[u8], h: Header, k: int)
    requires
        call_ensures(Header::try_read_header, (f,), Ok::<Header, Error>(h)),
        0 <= k < 4,
    ensures
        h.version == 5,
        h.compression@[k] == format_laws::number_at(f@, 16 + 4 * k, 4),
        h.logical_bytes == format_laws::number_at(f@, 32, 8),
        h.map_offset == format_laws::number_at(f@, 40, 8),
        h.meta_offset == format_laws::number_at(f@, 48, 8),
        h.hunk_bytes == format_laws::number_at(f@, 56, 4),
        h.unit_bytes == format_laws::number_at(f@, 60, 4),
        h.hunk_count * h.hunk_bytes >= h.logical_bytes,
        (h.hunk_count - 1) * h.hunk_bytes < h.logical_bytes,
        h.raw_sha1 matches Some(d) && d@ == f@.subrange(64, 84),
        h.sha1 matches Some(d) && d@ == f@.subrange(84, 104),
        h.parent_sha1 matches Some(d) && d@ == f@.subrange(104, 124),
        h.has_parent <==> exists|i: int| 104 <= i < 124 && #[trigger] f@[i] != 0,
{
    format_laws::headers_that_can_be_read(f@);
    format_laws::places_of_the_header(f@);
    let fields = header::fields_at(f@);
    assert(h.fields() == fields);
    assert(k == 0 || k == 1 || k == 2 || k == 3);
    assert(h.fields().compression == h.compression@);
    assert(h.fields().logical_bytes == h.logical_bytes);
    assert(h.fields().map_offset == h.map_offset);
    assert(h.fields().meta_offset == h.meta_offset);
    assert(h.fields().hunk_bytes == h.hunk_bytes);
    assert(h.fields().unit_bytes == h.unit_bytes);
    assert(h.fields().raw_sha1 == h.raw_sha1->0@);
    assert(h.fields().sha1 == h.sha1->0@);
    assert(h.fields().parent_sha1 == h.parent_sha1->0@);
    header::lemma_pieces(h.logical_bytes as nat, h.hunk_bytes as nat);
    let c = h.hunk_count as int;
    let b = h.hunk_bytes as int;
    assert((c - 1) * b == c * b - b) by (nonlinear_arith);
    if h.has_parent {
        if forall|i: int| 104 <= i < 124 ==> #[trigger] f@[i] == 0 {
            assert(fields.parent_sha1 =~= header::no_digest());
        }
    } else {
        assert forall|i: int| 104 <= i < 124 implies #[trigger] f@[i] == 0 by {
            assert(fields.parent_sha1[i - 104] == f@[104 + (i - 104)]);
            assert(header::no_digest()[i - 104] == 0);
        }
    }
}

/// A map that is packed is unpacked to the same entries.
pub proof fn maps_are_unpacked(
    m: &[RawEntry],
    hunk_bytes: u32,
    unit_bytes: u32,
    start: nat,
    v: Vec<u8>,
    packed: &[u8],
    r: Result<Vec<RawEntry>, Error>,
)
    requires
        crate::map::can_pack(m@, hunk_bytes, unit_bytes),
        crate::map::laid_out(m@, start, hunk_bytes),
        m@.len() <= 0x2000_0000,
        call_ensures(compress_v5_map, (m, hunk_bytes, unit_bytes), v),
        packed@ == v@,
        call_ensures(decompress_v5_map, (packed, m@.len() as u32, hunk_bytes, unit_bytes), r),
    ensures
        r matches Ok(w) && w@ == m@,
{
    crate::map::packed_map_fits(m@, hunk_bytes, unit_bytes);
    crate::map::packed_map_is_unpacked(m@, start, hunk_bytes, unit_bytes);
}

/// The hunks of a file are counted by how they are kept.
pub proof fn hunks_are_counted(m: &HunkMap, r: Result<[u64; 9], Error>, row: int)
    requires
        call_ensures(count_hunks, (m,), r),
        0 <= row < 9,
    ensures
        r matches Ok(counts) ==> counts@[row] == entry_laws::counted(m@, row, m@.len()),
{
    entry_laws::rows_count_hunks(m@, row, m@.len());
}

/// A parent is looked up by each of its windows, and has the digest that it was given.
pub proof fn parents_are_looked_up(
    img: &[u8],
    hunk_bytes: u32,
    unit_bytes: u32,
    hunk_count: u32,
    sha1: [u8; 20],
    r: ParentRef,
    p: int,
)
    requires
        hunk_bytes > 0,
        unit_bytes > 0,
        hunk_bytes % unit_bytes == 0,
        img@.len() == hunk_count * hunk_bytes,
        call_ensures(build_parent_ref, (img, hunk_bytes, unit_bytes, hunk_count, sha1), r),
        0 <= p,
        p * unit_bytes + hunk_bytes <= img@.len(),
        crate::write::window_count(hunk_bytes, unit_bytes, hunk_count) <= u32::MAX,
    ensures
        r.sha1() == sha1@,
        ({
            let key = crate::write::key_of(img@.subrange(p * unit_bytes, p * unit_bytes + hunk_bytes));
            &&& r.index().contains_key(key)
            &&& r.index()[key] <= p
        }),
{
    write_laws::windows_at_all_units(hunk_bytes, unit_bytes, hunk_count, p);
    write_laws::windows_are_complete(
        img@,
        hunk_bytes,
        unit_bytes,
        crate::write::window_count(hunk_bytes, unit_bytes, hunk_count),
        p,
    );
}

/// The metadata of a file is read in the order of its list.
pub proof fn metadata_is_read_in_order(chd: Chd, v: Vec<metadata::Metadata>, i: int)
    requires
        call_ensures(Chd::metadata, (&chd,), Ok::<Vec<metadata::Metadata>, Error>(v)),
        0 <= i < v@.len() <= u32::MAX,
    ensures
        ({
            let f = chd.image().file;
            let ns = metadata::list(f, chd.spec_header().meta_offset as nat).0;
            &&& v@.len() == ns.len()
            &&& v@[i].metatag == ns[i].tag
            &&& v@[i].flags == ns[i].flags
            &&& v@[i].value@ == f.subrange(
                ns[i].offset as int + 16,
                (ns[i].offset + 16 + ns[i].length) as int,
            )
            &&& v@[i].index == entry_laws::with_tag(ns.take(i), ns[i].tag).len()
        }),
{
    let f = chd.image().file;
    let ns = metadata::list(f, chd.spec_header().meta_offset as nat).0;
    assert(chdfile::metadata_is(v@[i], f, ns, i));
    assert(metadata::holds_contents(f, ns[i]));
    entry_laws::entries_that_are_read(f, ns, i, v@[i]);
}

/// The raw bytes of a hunk are those that its entry names.
pub proof fn raw_bytes_of_hunks(img: Image, n: int)
    requires
        0 <= n < img.map.len(),
    ensures
        img.map matches chdfile::MapModel::Packed(m) ==> chdfile::raw_place(img, n) == (
            m[n].offset as int,
            m[n].length as int,
        ),
        img.map matches chdfile::MapModel::Plain(m) ==> chdfile::raw_place(img, n) == (
            m[n] * img.hunk_bytes,
            img.hunk_bytes as int,
        ),
        img.map matches chdfile::MapModel::Legacy(m) ==> chdfile::raw_place(img, n) == (
            m[n].offset as int,
            m[n].length as int,
        ),
{
}

/// A new difference to a file has its sizes and its metadata, names no codecs, has the overall digest of
/// the file as that of its parent, and a map of nothing but zeros. There is none to a file without a
/// digest.
#[verifier::spinoff_prover]
#[verifier::rlimit(60)]
pub proof fn new_differences(parent: Chd, v: Vec<u8>, i: int)
    requires
        parent.spec_header().wf(),
        call_ensures(hd::make_diff, (&parent,), Ok::<Vec<u8>, Error>(v)),
        0 <= i < parent.spec_header().hunk_count,
    ensures
        ({
            let h = parent.spec_header();
            &&& header::header_fault(v@) is None
            &&& header::fields_at(v@).logical_bytes == h.logical_bytes
            &&& header::fields_at(v@).hunk_bytes == h.hunk_bytes
            &&& header::fields_at(v@).unit_bytes == h.unit_bytes
            &&& header::fields_at(v@).compression == seq![0u32, 0, 0, 0]
            &&& h.sha1 matches Some(d) && v@.subrange(104, 124) == d@
            &&& v@.len() >= 124 + 4 * h.hunk_count
            &&& format_laws::number_at(v@, 124 + 4 * i, 4) == 0
        }),
{
    let h = parent.spec_header();
    let p = hd::diff_layout(parent.image().file, h);
    let sha1 = chdfile::digest_or_zeros(h.sha1);
    let plan = crate::bytes::zeros(4 * p.count());
    crate::write::lemma_front_layout(p);
    read_back::lemma_plain_front(p, plan, sha1, Seq::empty());
    assert(v@ =~= p.front(plan, sha1) + Seq::<u8>::empty());
    assert(header::fields_at(v@).parent_sha1 == v@.subrange(104, 124));
    let at = 124 + 4 * i;
    assert(v@.subrange(at, at + 4) =~= v@.subrange(124, p.meta_start() as int).subrange(4 * i, 4 * i + 4));
    assert(plan.subrange(4 * i, 4 * i + 4) =~= crate::bytes::be_bytes(0, 4)) by {
        crate::write::lemma_be_zero();
    }
    vstd::arithmetic::power2::lemma2_to64();
    crate::bytes::lemma_be_at(v@, at, 0, 4);
    format_laws::greatest_byte_first(v@, at, 4);
}

} // verus!
