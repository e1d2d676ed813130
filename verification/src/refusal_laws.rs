//! Laws of what is accepted and what is refused, and with which error.

use crate::cd;
use crate::cd::{CdTrack, SourceFile};
use crate::chdfile;
use crate::compression::codecs;
use crate::cue;
use crate::cue::Sheet;
use crate::error::Error;
use crate::format_laws;
use crate::hash;
use crate::header;
use crate::header::{CodecType, Header};
use crate::metadata;
use crate::write::{Job, PlainLayout};
use vstd::prelude::*;
use vstd::string::*;

verus! {

/// What tells hunks apart: the checksum and the twenty bytes of the SHA-1 of the whole hunk.
pub proof fn keys_are_of_whole_hunks(a: Seq<u8>, b: Seq<u8>)
    ensures
        crate::write::key_of(a).0 == hash::crc16_of(a),
        crate::write::key_of(a).1.len() == 20,
        forall|i: int| 0 <= i < 20 ==> #[trigger] crate::write::key_of(a).1[i] == hash::sha1_of(a)[i],
        crate::write::key_of(a) == crate::write::key_of(b) <==> hash::crc16_of(a) == hash::crc16_of(b)
            && forall|i: int| 0 <= i < 20 ==> #[trigger] hash::sha1_of(a)[i] == hash::sha1_of(b)[i],
{
    let x = crate::write::key_of(a);
    let y = crate::write::key_of(b);
    if x == y {
        assert forall|i: int| 0 <= i < 20 implies #[trigger] hash::sha1_of(a)[i] == hash::sha1_of(b)[i] by {
            assert(x.1[i] == y.1[i]);
        }
    }
    if hash::crc16_of(a) == hash::crc16_of(b) && forall|i: int|
        0 <= i < 20 ==> #[trigger] hash::sha1_of(a)[i] == hash::sha1_of(b)[i] {
        assert(x.1 =~= y.1);
    }
}

/// A parent may be given to a file that has one, and its overall digest has to be the one that the file
/// names. Otherwise the file is not opened. Without a parent any file is.
pub proof fn parents_that_are_taken(h: Header, p: Header)
    requires
        h.parent_md5 is None,
        p.md5 is None,
        h.parent_sha1 is Some,
    ensures
        chdfile::parent_fault(h, None) is None,
        !h.has_parent ==> chdfile::parent_fault(h, Some(p)) == Some(Error::InvalidParameter),
        h.has_parent && (p.sha1 matches Some(d) && d@ == h.parent_sha1->0@) ==> chdfile::parent_fault(
            h,
            Some(p),
        ) is None,
        h.has_parent && !(p.sha1 matches Some(d) && d@ == h.parent_sha1->0@) ==> chdfile::parent_fault(
            h,
            Some(p),
        ) == Some(Error::InvalidParent),
{
}

/// The same of a file as it is opened: its header has the digest of the parent at byte 104.
pub proof fn parents_of_opened_files(f: Seq<u8>, p: Header)
    requires
        f.len() >= 124,
        chdfile::open_fault(f, None) is None,
        p.md5 is None,
    ensures
        (forall|i: int| 104 <= i < 124 ==> #[trigger] f[i] == 0) ==> chdfile::open_fault(f, Some(p)) == Some(
            Error::InvalidParameter,
        ),
        (exists|i: int| 104 <= i < 124 && #[trigger] f[i] != 0) ==> {
            &&& (p.sha1 matches Some(d) && d@ == f.subrange(104, 124)) ==> chdfile::open_fault(f, Some(p)) is None
            &&& !(p.sha1 matches Some(d) && d@ == f.subrange(104, 124)) ==> chdfile::open_fault(f, Some(p))
                == Some(Error::InvalidParent)
        },
{
    let h = header::fields_at(f);
    assert(h.parent_sha1 == f.subrange(104, 124));
    if forall|i: int| 104 <= i < 124 ==> #[trigger] f[i] == 0 {
        assert(h.parent_sha1 =~= header::no_digest());
    }
    if exists|i: int| 104 <= i < 124 && #[trigger] f[i] != 0 {
        let i = choose|i: int| 104 <= i < 124 && #[trigger] f[i] != 0;
        assert(f.subrange(104, 124)[i - 104] != header::no_digest()[i - 104]);
    }
}

/// A file without parent is opened exactly where its header can be read, its map can be read, and every
/// slot names a codec that decompresses hunks of its size.
pub proof fn files_that_are_opened(f: Seq<u8>)
    ensures
        chdfile::open_fault(f, None) is None <==> {
            &&& header::header_fault(f) is None
            &&& chdfile::map_of(f) is Ok
            &&& forall|k: int|
                0 <= k < 4 ==> {
                    let code = #[trigger] header::fields_at(f).compression[k];
                    CodecType::named(code) matches Some(c) && codecs::can_decode(
                        c,
                        header::fields_at(f).hunk_bytes as u32,
                    )
                }
        },
{
    let h = header::fields_at(f);
    lemma_codecs(h.compression, h.hunk_bytes as u32, 0);
    assert(h.compression.len() == 4);
}

proof fn lemma_codecs(codes: Seq<u32>, hunk_bytes: u32, k: int)
    requires
        0 <= k <= codes.len(),
    ensures
        chdfile::codec_fault(codes, hunk_bytes, k) is None <==> forall|j: int|
            k <= j < codes.len() ==> (CodecType::named(#[trigger] codes[j]) matches Some(c)
                && codecs::can_decode(c, hunk_bytes)),
    decreases codes.len() - k,
{
    if k < codes.len() {
        lemma_codecs(codes, hunk_bytes, k + 1);
        let good = CodecType::named(codes[k]) matches Some(c) && codecs::can_decode(c, hunk_bytes);
        if good {
            if chdfile::codec_fault(codes, hunk_bytes, k + 1) is None {
                assert forall|j: int| k <= j < codes.len() implies (CodecType::named(
                    #[trigger] codes[j],
                ) matches Some(c) && codecs::can_decode(c, hunk_bytes)) by {
                    if j > k {
                        assert(k + 1 <= j);
                    }
                }
            }
        } else {
            assert(!(CodecType::named(codes[k]) matches Some(c) && codecs::can_decode(c, hunk_bytes)));
        }
    }
}

/// A packed map is taken only where the checksum of its entries is the one in its head, at byte 10.
pub proof fn maps_have_their_checksum(map: Seq<u8>, n: nat, hunk_bytes: u32, unit_bytes: u32)
    ensures
        crate::map::unpacked_map(map, n, hunk_bytes, unit_bytes) matches Some(m) ==> map.len() >= 16
            && hash::crc16_of(crate::map::rawmap_bytes(m)) == format_laws::number_at(map, 10, 2),
{
    if crate::map::unpacked_map(map, n, hunk_bytes, unit_bytes) is Some {
        format_laws::greatest_byte_first(map, 10, 2);
    }
}

/// The metadata of a file can be edited exactly where the file starts with `MComprHD`, has version 5,
/// and is long enough to say where its metadata is.
pub proof fn files_that_can_be_edited(f: Seq<u8>)
    ensures
        metadata::edit_fault(f) is None <==> {
            &&& f.len() >= 56
            &&& f[0] == 0x4d && f[1] == 0x43 && f[2] == 0x6f && f[3] == 0x6d
            &&& f[4] == 0x70 && f[5] == 0x72 && f[6] == 0x48 && f[7] == 0x44
            &&& format_laws::number_at(f, 12, 4) == 5
        },
        f.len() >= 16 && metadata::edit_fault(f) != Some(Error::InvalidFile) && format_laws::number_at(
            f,
            12,
            4,
        ) != 5 ==> metadata::edit_fault(f) == Some(Error::UnsupportedVersion),
{
    if f.len() >= 16 {
        let word = seq![0x4du8, 0x43u8, 0x6fu8, 0x6du8, 0x70u8, 0x72u8, 0x48u8, 0x44u8];
        assert(header::magic() =~= word);
        if f.take(8) == word {
            assert(f[0] == f.take(8)[0] && f[1] == f.take(8)[1] && f[2] == f.take(8)[2] && f[3] == f.take(
                8,
            )[3] && f[4] == f.take(8)[4] && f[5] == f.take(8)[5] && f[6] == f.take(8)[6] && f[7]
                == f.take(8)[7]);
        } else if f[0] == 0x4d && f[1] == 0x43 && f[2] == 0x6f && f[3] == 0x6d && f[4] == 0x70 && f[5]
            == 0x72 && f[6] == 0x48 && f[7] == 0x44 {
            assert(f.take(8) =~= word);
        }
        format_laws::greatest_byte_first(f, 12, 4);
    }
}

/// The contents of an entry are one byte to 2^24 - 1 bytes; an entry that is not there cannot be taken
/// out.
pub proof fn edits_that_are_refused(f: Seq<u8>, tag: u32, index: u32, data: Seq<u8>, flags: u8)
    ensures
        data.len() == 0 || data.len() > 0xff_ffff ==> metadata::edited(f, tag, index, data, flags) == Err::<
            Seq<u8>,
            Error,
        >(Error::InvalidParameter),
        0 < data.len() <= 0xff_ffff && metadata::edit_fault(f) is None && metadata::list(
            f,
            crate::metadata_laws::first_entry(f),
        ).1 is Done ==> metadata::edited(f, tag, index, data, flags) is Ok,
        metadata::edit_fault(f) is None && metadata::list(f, crate::metadata_laws::first_entry(f)).1 is Done
            ==> {
            let there = metadata::position(crate::metadata_laws::places(f), tag, index) is Some;
            &&& there ==> metadata::removed(f, tag, index) is Ok
            &&& !there ==> metadata::removed(f, tag, index) == Err::<Seq<u8>, Error>(Error::MetadataNotFound)
        },
{
}

/// A job is within the limits exactly where its hunks lie below 2^48 bytes, there are less than 2^31 of
/// them, every codec can be given hunks of their size, and the parent has a digest and references of 32
/// bits.
pub proof fn jobs_within_the_limits(job: Job)
    requires
        job.hunk_bytes > 0,
    ensures
        job.within_limits() <==> {
            &&& job.start() + job.data.len() + job.hunk_bytes < 0x1_0000_0000_0000
            &&& job.count() <= 0x7fff_ffff
            &&& forall|k: int|
                0 <= k < job.codecs.len() ==> codecs::encoder_takes(#[trigger] job.codecs[k], job.hunk_bytes)
            &&& job.parent matches Some(p) ==> p.1.len() == 20 && forall|k: crate::hunk_index::HunkKey|
                #[trigger] p.0.contains_key(k) ==> p.0[k] <= 0xffff_ffff
        },
{
}

/// The sizes of hunks that each codec can be given.
pub proof fn sizes_that_codecs_take(n: u32)
    requires
        n > 0,
    ensures
        codecs::encoder_takes(CodecType::Uncompressed, n),
        codecs::encoder_takes(CodecType::FlacV5, n),
        codecs::encoder_takes(CodecType::ZLibV5, n) <==> n < 65_274,
        codecs::encoder_takes(CodecType::ZstdV5, n) <==> n <= 66_435,
        codecs::encoder_takes(CodecType::LzmaV5, n) <==> n < 0xffff_ffff,
        codecs::encoder_takes(CodecType::HuffV5, n) <==> n <= 0x7fff_ffff,
        codecs::encoder_takes(CodecType::ZLibCdV5, n) <==> n / 2448 * 2352 < 65_274,
        codecs::encoder_takes(CodecType::LzmaCdV5, n) <==> n / 2448 * 96 < 65_274,
        codecs::encoder_takes(CodecType::FlacCdV5, n) <==> n / 2448 * 96 < 65_274,
        codecs::encoder_takes(CodecType::ZstdCdV5, n) <==> n / 2448 * 2352 <= 66_435,
{
}

/// A file without compression can hold an image where 32 bits hold the places of its hunks.
pub proof fn plain_files_within_the_limits(p: PlainLayout)
    requires
        crate::write::sizes_fit(p.hunk_bytes, p.unit_bytes),
    ensures
        p.within_limits() <==> p.data_start() / p.hunk_bytes as nat + p.count() <= 0xffff_ffff,
        p.data_start() >= 124 + 4 * p.count(),
        p.metadata.len() == 0 ==> p.data_start() < 124 + 4 * p.count() + p.hunk_bytes,
{
    metadata::lemma_entry_offset(p.metadata, p.meta_start(), 0, p.metadata.len() as int);
    crate::bytes::lemma_rounded_up(p.meta_end(), p.hunk_bytes as nat);
}

/// Which error a job comes to: sizes that do not fit together, and no codecs or more than four, are
/// wrong parameters; a codec that there is no compression for is not supported; and one that cannot
/// compress hunks of the size is a codec error.
pub proof fn errors_of_jobs(job: Job)
    ensures
        job.hunk_bytes == 0 || job.unit_bytes == 0 || job.hunk_bytes as int % job.unit_bytes as int != 0
            || job.codecs.len() == 0 || job.codecs.len() > 4 ==> job.fault() == Some(Error::InvalidParameter),
        crate::write::sizes_fit(job.hunk_bytes, job.unit_bytes) && job.codecs.len() == 1
            && !codecs::can_encode(job.codecs[0], job.hunk_bytes) ==> job.fault() == Some(
            if job.codecs[0] is Zlib || job.codecs[0] is ZlibPlus || job.codecs[0] is AV
                || job.codecs[0] is AVHuffV5 {
                Error::UnsupportedFormat
            } else {
                Error::CodecError
            },
        ),
{
    reveal_with_fuel(crate::write::unfit_codec, 2);
}

/// Which error slots come to.
pub proof fn errors_of_slots(slots: Seq<u32>)
    ensures
        !crate::write::all_known(slots) ==> crate::write::slots_fault(slots) == Some(Error::UnsupportedFormat),
        crate::write::all_known(slots) && crate::write::has_gap(slots) ==> crate::write::slots_fault(slots)
            == Some(Error::InvalidParameter),
{
}

/// Which lines of a sheet are refused: a file without a name, or of another kind than `BINARY` and
/// `MOTOROLA`; a track of an unknown type, or before any file; an index or a gap before any track, or
/// without a number.
pub proof fn lines_that_are_refused(sh: Sheet, w: Seq<Seq<u8>>)
    requires
        w.len() > 0,
    ensures
        w[0] == "FILE".spec_bytes() ==> (cue::line_read(sh, w) is Ok <==> w.len() >= 3 && (w[2]
            == "BINARY".spec_bytes() || w[2] == "MOTOROLA".spec_bytes())),
        w[0] == "TRACK".spec_bytes() ==> (cue::line_read(sh, w) is Ok <==> w.len() >= 3 && sh.files.len() > 0
            && cd::type_named(w[2]) is Some),
        w[0] == "INDEX".spec_bytes() ==> (cue::line_read(sh, w) is Ok <==> w.len() >= 3 && sh.tracks.len() > 0
            && cue::signed_number(w[1]) is Some && i64::MIN <= cue::frames_of(w[2]) <= i64::MAX),
        w[0] == "PREGAP".spec_bytes() || w[0] == "POSTGAP".spec_bytes() ==> (cue::line_read(sh, w) is Ok
            <==> w.len() >= 2 && sh.tracks.len() > 0 && i64::MIN <= cue::frames_of(w[1]) <= i64::MAX),
{
    crate::cue_laws::lemma_commands();
}

/// Which tracks cannot be measured: one without index 1; one whose next track in the same file does not
/// start behind it; one whose file cannot be read; one that would start behind the end of its file.
pub proof fn tracks_that_are_refused(ts: Seq<CdTrack>, files: Seq<SourceFile>, i: int)
    requires
        0 <= i < ts.len(),
        ts[i].offset == 0,
        ts[i].frames == 0,
    ensures
        ts[i].idx1 == -1 ==> cue::measured(ts, files, i) == Err::<CdTrack, Error>(Error::InvalidData),
        ts[i].idx1 != -1 && i + 1 < ts.len() && cd::same_file(files, ts[i + 1].file, ts[i].file) && ts[i
            + 1].idx0 <= ts[i].idx0 ==> cue::measured(ts, files, i) == Err::<CdTrack, Error>(
            Error::InvalidData,
        ),
        ts[i].idx1 != -1 && !(i + 1 < ts.len() && cd::same_file(files, ts[i + 1].file, ts[i].file))
            && cd::contents(files, ts[i].file as int) is None ==> cue::measured(ts, files, i) == Err::<
            CdTrack,
            Error,
        >(Error::ReadError),
        ts[i].idx1 != -1 && !(i + 1 < ts.len() && cd::same_file(files, ts[i + 1].file, ts[i].file)) && (
        cd::contents(files, ts[i].file as int) matches Some(d) && (i == 0 || ts[i - 1].offset + ts[i
            - 1].frames * (ts[i - 1].datasize + ts[i - 1].subsize) <= d.len())) ==> cue::measured(ts, files, i) is Ok,
{
}

/// Whether a file has the frames of a track, and whether an image can be made.
pub proof fn images_that_can_be_made(datas: Seq<Option<Seq<u8>>>, ts: Seq<CdTrack>)
    ensures
        cd::image_fault(datas, ts) is None <==> {
            &&& forall|i: int| 0 <= i < ts.len() ==> (#[trigger] ts[i]).frames <= 0xffff_fffc
            &&& cd::total_frames(ts) * 2448 <= usize::MAX
            &&& forall|i: int|
                0 <= i < ts.len() && (#[trigger] ts[i]).frames > 0 ==> {
                    &&& ts[i].file < datas.len()
                    &&& datas[ts[i].file as int] matches Some(d)
                    &&& ts[i].offset + ts[i].frames * (ts[i].datasize + ts[i].subsize) <= d.len()
                }
        },
{
    if cd::image_fault(datas, ts) is None {
        assert forall|i: int| 0 <= i < ts.len() && (#[trigger] ts[i]).frames > 0 implies {
            &&& ts[i].file < datas.len()
            &&& datas[ts[i].file as int] matches Some(d)
            &&& ts[i].offset + ts[i].frames * (ts[i].datasize + ts[i].subsize) <= d.len()
        } by {
            assert(cd::is_held(datas, ts[i]));
        }
    }
}

} // verus!
