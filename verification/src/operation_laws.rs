//! Laws of operations: what their calls leave behind, and how calls relate to each other.

use crate::chdfile;
use crate::chdfile::{Chd, MapModel, VerifyResult};
use crate::compression::codec_laws;
use crate::compression::codecs;
use crate::compression::ecc::{clear_ecc, clear_sync, generate_ecc, put_sync};
use crate::compression::ecc_laws;
use crate::compression::frame_laws;
use crate::compression::lzma;
use crate::compression::zlib;
use crate::compression::zstd;
use crate::disk_laws;
use crate::error::Error;
use crate::format_laws;
use crate::hash;
use crate::hd::HdImage;
use crate::header;
use crate::header::CodecType;
use crate::huffman_encode;
use crate::metadata;
use crate::metadata::{delete_metadata, write_metadata, Meta};
use crate::metadata_laws;
use crate::read_back;
use crate::write::{write_raw, Job, Outcomes};
use crate::write_laws;
use vstd::prelude::*;

verus! {

/// Putting the parity bytes into a sector makes it one of code words, and leaves the rest as it is.
pub proof fn parity_is_put_in(s: &mut Vec<u8>)
    requires
        old(s)@.len() == 2352,
        call_ensures(generate_ecc, (s,), ()),
    ensures
        final(s)@.len() == 2352,
        ecc_laws::is_coded(final(s)@),
        forall|j: int| 0 <= j < 2076 ==> #[trigger] final(s)@[j] == old(s)@[j],
{
    ecc_laws::generated_parity_makes_code_words(old(s)@);
}

/// Putting in the synchronisation pattern, or taking it or the parity out, changes only these bytes.
pub proof fn pattern_is_put_in(a: &mut Vec<u8>, b: &mut Vec<u8>, c: &mut Vec<u8>, j: int)
    requires
        old(a)@.len() == 2352,
        old(b)@.len() == 2352,
        old(c)@.len() == 2352,
        call_ensures(put_sync, (a,), ()),
        call_ensures(clear_sync, (b,), ()),
        call_ensures(clear_ecc, (c,), ()),
        0 <= j < 2352,
    ensures
        frame_laws::starts_in_sync(final(a)@),
        j >= 12 ==> final(a)@[j] == old(a)@[j] && final(b)@[j] == old(b)@[j],
        j < 12 ==> final(b)@[j] == 0,
        j < 2076 ==> final(c)@[j] == old(c)@[j],
        j >= 2076 ==> final(c)@[j] == 0,
{
}

/// The job of writing an image with some codecs and nothing else.
pub open spec fn plain_job(data: Seq<u8>, hunk_bytes: u32, unit_bytes: u32, codecs: Seq<CodecType>) -> Job {
    Job { data, hunk_bytes, unit_bytes, codecs, metadata: Seq::empty(), parent: None }
}

/// Whether what is written of an image can be read again: hunks are shorter than 2^24 bytes and no more
/// than 2^29, the codecs give back what they are given, and checksums tell hunks apart.
pub open spec fn usual(job: Job) -> bool {
    &&& job.within_limits()
    &&& job.hunk_bytes < 0x100_0000
    &&& job.hunk_bytes > 0 ==> job.count() <= 0x2000_0000
    &&& job.codecs.len() > 0 ==> job.codecs[0] !is Uncompressed
    &&& forall|k: int|
        0 <= k < job.codecs.len() ==> codecs::encoder_reliable(#[trigger] job.codecs[k], job.hunk_bytes)
    &&& read_back::no_collision(job)
}

/// An image that is written to a new file is read from it, and the file is valid: the digests that are
/// computed are those in the file, which are the SHA-1 of the image and the SHA-1 of that.
#[verifier::spinoff_prover]
#[verifier::rlimit(60)]
pub proof fn what_is_written_is_read(
    out: &mut Vec<u8>,
    data: &[u8],
    hunk_bytes: u32,
    unit_bytes: u32,
    codecs: &[CodecType],
    file: Vec<u8>,
    chd: Chd,
    c: &mut Chd,
    r: Result<Vec<u8>, Error>,
)
    requires
        old(out)@.len() == 0,
        usual(plain_job(data@, hunk_bytes, unit_bytes, codecs@)),
        call_ensures(write_raw, (out, data, hunk_bytes, unit_bytes, codecs), Ok::<(), Error>(())),
        file@ == final(out)@,
        call_ensures(Chd::open, (file, None), Ok::<Chd, Error>(chd)),
        *old(c) == chd,
        call_ensures(Chd::read_all, (c,), r),
    ensures
        r matches Ok(v) && v@ == data@,
        file@.subrange(64, 84) == hash::digest(data@),
        file@.subrange(84, 104) == hash::digest(hash::digest(data@)),
        final(c).image() == chd.image(),
{
    let job = plain_job(data@, hunk_bytes, unit_bytes, codecs@);
    let f = file@;
    assert(final(out)@.skip(0) =~= final(out)@);
    assert(job == crate::write::job_for(data@, hunk_bytes, unit_bytes, codecs@, Seq::empty(), None));
    assert(job.may_write(f));
    lemma_read(job, f);
    write_laws::digests_of_a_file(job, f);
    let h = chd.spec_header();
    assert(h.fields().logical_bytes == h.logical_bytes);
}

proof fn lemma_read(job: Job, f: Seq<u8>)
    requires
        usual(job),
        job.fault() is None,
        job.may_write(f),
        job.parent is None,
    ensures
        header::fields_at(f).logical_bytes == job.data.len(),
        ({
            let img = chdfile::opened(f, None);
            chdfile::gathered(img, job.data.len(), img.count as nat) matches Ok((d, buf)) && d == job.data
        }),
{
    let o = choose|o: Seq<Outcomes>|
        o.len() == job.count() && #[trigger] job.may_come(o) && f == job.file(o);
    read_back::usual_jobs_are_readable(job, o);
    assert(read_back::parent_serves(job, chdfile::opened(f, None)));
    read_back::image_is_read_back(job, o, None);
    read_back::lemma_opened(job, o, None);
}

/// How hunks are stored in a file that is written: none takes more bytes than any of the codecs needs
/// for it, nor more than it has itself.
#[verifier::spinoff_prover]
#[verifier::rlimit(60)]
pub proof fn hunks_take_the_least(job: Job, f: Seq<u8>, i: int, k: int)
    requires
        usual(job),
        job.fault() is None,
        job.may_write(f),
        job.parent is None,
        0 <= i < job.count(),
        0 <= k < job.codecs.len(),
    ensures
        chdfile::opened(f, None).map matches MapModel::Packed(m) && m.len() == job.count() && (m[i].kind <= 4
            ==> {
            let hunk = job.hunk(i);
            &&& m[i].length <= job.hunk_bytes
            &&& job.codecs[k] is ZLibV5 ==> m[i].length <= zlib::deflated(hunk).len()
            &&& job.codecs[k] is LzmaV5 ==> m[i].length <= lzma::lzma_encoded(hunk, job.hunk_bytes).len()
            &&& job.codecs[k] is HuffV5 ==> m[i].length <= huffman_encode::encoded_8bit(hunk).len()
            &&& job.codecs[k] is ZstdV5 ==> (zstd::zstd_encoded(hunk, 22) matches Some(s) ==> m[i].length
                <= s.len())
            &&& m[i].kind == 4 ==> f.subrange(m[i].offset as int, m[i].offset + m[i].length) == hunk
            &&& m[i].kind < 4 ==> m[i].kind < job.codecs.len() && m[i].length < job.hunk_bytes
            &&& m[i].kind < 4 && job.codecs[m[i].kind as int] is LzmaV5 ==> f.subrange(
                m[i].offset as int,
                m[i].offset + m[i].length,
            ) == lzma::lzma_encoded(hunk, job.hunk_bytes)
            &&& m[i].kind < 4 && job.codecs[m[i].kind as int] is ZLibV5 ==> f.subrange(
                m[i].offset as int,
                m[i].offset + m[i].length,
            ) == zlib::deflated(hunk)
            &&& m[i].kind < 4 && job.codecs[m[i].kind as int] is HuffV5 ==> f.subrange(
                m[i].offset as int,
                m[i].offset + m[i].length,
            ) == huffman_encode::encoded_8bit(hunk)
        }),
{
    let o = choose|o: Seq<Outcomes>|
        o.len() == job.count() && #[trigger] job.may_come(o) && f == job.file(o);
    read_back::usual_jobs_are_readable(job, o);
    read_back::lemma_opened(job, o, None);
    crate::write::lemma_written(job, o, job.count());
    let m = job.written(o, job.count()).map;
    assert(chdfile::opened(f, None).map == MapModel::Packed(m));
    if m[i].kind <= 4 {
        write_laws::stored_hunk_is_shortest(job, o, i);
        codec_laws::engines_that_compress(job.hunk_bytes, job.hunk(i), job.hunk_bytes as nat, o[i][k]);
        assert(codecs::encoder_outcome(
            job.codecs[k],
            job.hunk_bytes,
            job.hunk(i),
            job.hunk_bytes as nat,
            o[i][k],
        ));
        if m[i].kind < 4 {
            let s = m[i].kind as int;
            codec_laws::engines_that_compress(job.hunk_bytes, job.hunk(i), job.hunk_bytes as nat, o[i][s]);
            assert(codecs::encoder_outcome(
                job.codecs[s],
                job.hunk_bytes,
                job.hunk(i),
                job.hunk_bytes as nat,
                o[i][s],
            ));
        }
    }
}

/// A sector that is written to a disk is read from it.
pub proof fn written_sectors_are_read(
    d: &mut HdImage,
    lba: u64,
    data: &[u8],
    e: &mut HdImage,
    buf: &mut [u8],
    r: Result<(), Error>,
)
    requires
        disk_laws::sound(old(d).disk()),
        old(d).disk().map.len() == header::pieces(
            old(d).disk().logical_bytes,
            old(d).disk().hunk_bytes as nat,
        ),
        old(d).disk().logical_bytes <= u64::MAX,
        call_ensures(HdImage::write_sector, (d, lba, data), Ok::<(), Error>(())),
        old(d).disk().hunk(old(d).disk().hunk_of(lba as int), old(d).buffer()) matches Ok(x) && x.len()
            == old(d).disk().hunk_bytes,
        *old(e) == *final(d),
        old(buf)@.len() == data@.len(),
        call_ensures(HdImage::read_sector, (e, lba, buf), r),
    ensures
        r is Ok,
        final(buf)@ == data@,
        final(e).disk() == final(d).disk(),
{
    let disk = old(d).disk();
    let at = lba as int;
    disk_laws::written_sector_is_read_back(disk, at, data@, old(d).buffer(), old(e).buffer());
    let now = disk_laws::with_sector(disk, at, data@, old(d).buffer());
    assert(final(d).disk() == now);
    assert(now.geometry == disk.geometry && now.hunk_bytes == disk.hunk_bytes && now.logical_bytes
        == disk.logical_bytes);
    assert(now.sector_fault(at, data@.len()) is None);
    assert(disk_laws::sector(now, at, old(e).buffer()) == Ok::<Seq<u8>, Error>(data@));
}

/// An entry that is written to the metadata of a file is in it then, and the overall digest of a
/// compressed file is that of its image and the metadata as it is then.
pub proof fn written_entries_are_there(
    file: &mut Vec<u8>,
    tag: u32,
    index: u32,
    data: &[u8],
    flags: u8,
    r: Result<(), Error>,
)
    requires
        metadata_laws::sound(old(file)@),
        metadata::edit_fault(old(file)@) is None,
        0 < data@.len() < 0x100_0000,
        old(file)@.len() + 16 + data@.len() <= u64::MAX,
        call_ensures(write_metadata, (file, tag, index, data, flags), r),
    ensures
        r is Ok,
        metadata_laws::sound(final(file)@),
        metadata_laws::listed(final(file)@).contains(Meta { tag, flags, payload: data@ })
            || metadata::position(metadata_laws::places(old(file)@), tag, index) is Some,
        index == u32::MAX ==> metadata_laws::listed(final(file)@) == metadata_laws::listed(old(file)@).push(
            Meta { tag, flags, payload: data@ },
        ),
        format_laws::number_at(final(file)@, 16, 4) != 0 ==> final(file)@.subrange(84, 104)
            == metadata::overall(final(file)@.subrange(64, 84), metadata_laws::listed(final(file)@)),
{
    metadata_laws::written_entry_is_read_back(old(file)@, tag, index, data@, flags);
    let h = final(file)@;
    format_laws::greatest_byte_first(h, 16, 4);
    let all = metadata_laws::listed(h);
    if metadata::position(metadata_laws::places(old(file)@), tag, index) is None {
        assert(all.last() == Meta { tag, flags, payload: data@ });
        assert(all[all.len() - 1] == all.last());
    }
    if index == u32::MAX {
        metadata_laws::greatest_index_adds(old(file)@, tag, data@, flags);
    }
}

/// An entry that is taken out of the metadata is gone, and the others stay.
pub proof fn removed_entries_are_gone(file: &mut Vec<u8>, tag: u32, index: u32, r: Result<(), Error>)
    requires
        metadata_laws::sound(old(file)@),
        metadata::edit_fault(old(file)@) is None,
        call_ensures(delete_metadata, (file, tag, index), r),
    ensures
        r is Ok <==> metadata::position(metadata_laws::places(old(file)@), tag, index) is Some,
        r matches Err(e) ==> e == Error::MetadataNotFound && final(file)@ == old(file)@,
        r is Ok ==> metadata_laws::listed(final(file)@) == metadata_laws::listed(old(file)@).remove(
            metadata::position(metadata_laws::places(old(file)@), tag, index)->0,
        ),
        r is Ok ==> final(file)@.len() == old(file)@.len(),
{
    if metadata::position(metadata_laws::places(old(file)@), tag, index) is Some {
        metadata_laws::removed_entry_is_gone(old(file)@, tag, index);
        crate::entry_laws::removal_changes_one_place(old(file)@, tag, index);
    }
}

/// A file that is opened is verified against the digests at bytes 64 and 84.
pub proof fn opened_files_are_verified(
    file: Vec<u8>,
    chd: Chd,
    c: &mut Chd,
    v: VerifyResult,
)
    requires
        call_ensures(Chd::open, (file, None), Ok::<Chd, Error>(chd)),
        *old(c) == chd,
        call_ensures(Chd::verify, (c,), Ok::<VerifyResult, Error>(v)),
    ensures
        v.expected_raw_sha1@ == file@.subrange(64, 84),
        v.expected_sha1@ == file@.subrange(84, 104),
        ({
            let img = chdfile::opened(file@, None);
            chdfile::gathered(img, header::fields_at(file@).logical_bytes, img.count as nat) matches Ok(
                (data, buf),
            ) && v.computed_raw_sha1@ == hash::digest(data) && v.computed_sha1@ == metadata::overall(
                hash::digest(data),
                metadata_laws::listed(file@),
            )
        }),
{
    let h = chd.spec_header();
    let f = file@;
    let fields = header::fields_at(f);
    assert(h.fields() == fields);
    assert(h.fields().logical_bytes == h.logical_bytes);
    assert(h.fields().meta_offset == h.meta_offset);
    assert(h.fields().raw_sha1 == h.raw_sha1->0@);
    assert(h.fields().sha1 == h.sha1->0@);
    let ns = metadata::list(f, h.meta_offset as nat).0;
    assert(chdfile::metas_at(f, ns) =~= metadata_laws::listed(f));
}

/// A sector of a disk comes from the place in the file that the map names for its hunk; where it names
/// none, from the same place in the image of the parent, or it is nothing but zeros. A sector that is not
/// there, and a buffer of another size, are refused.
#[verifier::spinoff_prover]
#[verifier::rlimit(60)]
pub proof fn sectors_that_are_read(
    d: &mut HdImage,
    lba: u64,
    buf: &mut [u8],
    r: Result<(), Error>,
    whole: Seq<u8>,
)
    requires
        old(d).disk().hunk_bytes > 0,
        old(d).buffer().len() == old(d).disk().hunk_bytes,
        call_ensures(HdImage::read_sector, (d, lba, buf), r),
    ensures
        ({
            let disk = old(d).disk();
            let size = disk.geometry.sector_bytes as int;
            let at = lba * size;
            let h = at / disk.hunk_bytes as int;
            let off = at % disk.hunk_bytes as int;
            let good = size > 0 && old(buf)@.len() == size && at + size <= disk.logical_bytes && off + size
                <= disk.hunk_bytes;
            &&& !good ==> r is Err
            &&& good && disk.map[h] != 0 && (disk.map[h] + 1) * disk.hunk_bytes <= disk.file.len() ==> r is Ok
                && final(buf)@ == disk.file.subrange(
                disk.map[h] * disk.hunk_bytes + off,
                disk.map[h] * disk.hunk_bytes + off + size,
            )
            &&& good && disk.map[h] == 0 && disk.parent is None ==> r is Ok && final(buf)@ == Seq::new(
                size as nat,
                |i: int| 0u8,
            )
            &&& good && disk.map[h] == 0 && disk.parent is Some && disk.parent->0.hunk_bytes == disk.hunk_bytes
                && read_back::reads_as(*disk.parent->0, whole) && (h + 1) * disk.hunk_bytes <= whole.len() ==> r is Ok
                && final(buf)@ == whole.subrange(at, at + size)
            &&& final(d).disk() == disk
        }),
{
    let disk = old(d).disk();
    let size = disk.geometry.sector_bytes as int;
    let hb = disk.hunk_bytes as int;
    let at = lba * size;
    let h = at / hb;
    let off = at % hb;
    crate::creation_laws::places_of_sectors(disk, lba as int, old(buf)@.len());
    assert((lba + 1) * size == at + size) by (nonlinear_arith)
        requires
            at == lba * size,
    ;
    assert(at >= 0) by (nonlinear_arith)
        requires
            at == lba * size,
            size >= 0,
    ;
    vstd::arithmetic::div_mod::lemma_fundamental_div_mod(at, hb);
    vstd::arithmetic::div_mod::lemma_div_pos_is_pos(at, hb);
    assert(hb * h == h * hb) by (nonlinear_arith);
    assert((h + 1) * hb == h * hb + hb) by (nonlinear_arith);
    let place = disk.map[h] as int;
    assert((place + 1) * hb == place * hb + hb) by (nonlinear_arith);
    assert(0 <= place * hb) by (nonlinear_arith)
        requires
            place >= 0,
            hb > 0,
    ;
    if disk.sector_fault(lba as int, old(buf)@.len()) is None {
        if place != 0 {
            if place * hb + hb <= disk.file.len() {
                assert(disk.file.subrange(place * hb, place * hb + hb).subrange(off, off + size)
                    =~= disk.file.subrange(place * hb + off, place * hb + off + size));
            }
        } else if disk.parent is None {
            assert(crate::bytes::zeros(disk.hunk_bytes as nat).subrange(off, off + size) =~= Seq::new(
                size as nat,
                |i: int| 0u8,
            ));
        } else if disk.parent->0.hunk_bytes == disk.hunk_bytes && read_back::reads_as(
            *disk.parent->0,
            whole,
        ) && (h + 1) * hb <= whole.len() {
            let p = *disk.parent->0;
            let c = p.count as int;
            assert(h + 1 <= c) by (nonlinear_arith)
                requires
                    (h + 1) * hb <= c * hb,
                    hb > 0,
            ;
            assert(0 <= h * hb) by (nonlinear_arith)
                requires
                    h >= 0,
                    hb > 0,
            ;
            let got = p.read(h, old(d).buffer(), p.count as nat);
            assert(got->Ok_0.0 == whole.subrange(h * hb, (h + 1) * hb));
            assert(whole.subrange(h * hb, (h + 1) * hb).subrange(off, off + size) =~= whole.subrange(
                at,
                at + size,
            ));
        }
    }
}

} // verus!
