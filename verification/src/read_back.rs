//! What reading a file gives back of writing it.

use crate::bytes;
use crate::chdfile;
use crate::chdfile::{Image, MapModel};
use crate::compression::codecs;
use crate::copy;
use crate::copy::CopyOptions;
use crate::hash;
use crate::header;
use crate::header::{CodecType, Header};
use crate::hunk_index::HunkKey;
use crate::map::{RawEntry, COMPRESSION_NONE, COMPRESSION_PARENT, COMPRESSION_SELF};
use crate::metadata;
use crate::metadata::Meta;
use crate::metadata_laws;
use crate::write::{Job, Outcomes, Plan, PlainLayout, Written};
use vstd::arithmetic::power2::*;
use vstd::prelude::*;

verus! {

/// Whether hunks that have the same checksums are the same.
pub open spec fn no_collision(job: Job) -> bool {
    forall|i: int, j: int|
        0 <= i < job.count() && 0 <= j < job.count() && crate::write::key_of(#[trigger] job.hunk(i))
            == crate::write::key_of(#[trigger] job.hunk(j)) ==> job.hunk(i) == job.hunk(j)
}

/// Whether a file that the job makes can be read again: the lengths of hunks fit their 24 bits, the
/// packed map fits its 32, the first slot does not say that nothing is compressed, the codecs are known
/// to give back what they are given, and checksums tell hunks apart.
pub open spec fn readable(job: Job, outcomes: Seq<Outcomes>) -> bool {
    &&& job.fault() is None
    &&& job.within_limits()
    &&& job.may_come(outcomes)
    &&& outcomes.len() == job.count()
    &&& job.hunk_bytes < 0x100_0000
    &&& job.codecs[0] !is Uncompressed
    &&& forall|k: int|
        0 <= k < job.codecs.len() ==> codecs::encoder_reliable(#[trigger] job.codecs[k], job.hunk_bytes)
    &&& crate::map::map_bits(
        job.written(outcomes, job.count()).map,
        job.hunk_bytes,
        job.unit_bytes,
    ).len() <= 8 * u32::MAX
    &&& no_collision(job)
}

/// A file that the job makes can be read again where there are no more than 2^29 hunks of less than
/// 16 mebibytes, the codecs are known to give back what they are given and checksums tell hunks apart:
/// the packed map then fits its 32 bits.
pub proof fn usual_jobs_are_readable(job: Job, outcomes: Seq<Outcomes>)
    requires
        job.fault() is None,
        job.within_limits(),
        job.may_come(outcomes),
        outcomes.len() == job.count(),
        job.count() <= 0x2000_0000,
        job.hunk_bytes < 0x100_0000,
        job.codecs[0] !is Uncompressed,
        forall|k: int|
            0 <= k < job.codecs.len() ==> codecs::encoder_reliable(#[trigger] job.codecs[k], job.hunk_bytes),
        no_collision(job),
    ensures
        readable(job, outcomes),
{
    crate::write::lemma_can_pack(job, outcomes);
    crate::write::lemma_written(job, outcomes, job.count());
    crate::map::packed_map_fits(
        job.written(outcomes, job.count()).map,
        job.hunk_bytes,
        job.unit_bytes,
    );
}

/// What hunk `i` is stored as.
pub open spec fn stored(job: Job, outcomes: Seq<Outcomes>, i: int) -> (u8, Seq<u8>) {
    crate::write::best_of(outcomes[i], job.hunk(i), job.codecs.len())
}

/// What entry `i` of the map says of its hunk.
spec fn entry_right(job: Job, outcomes: Seq<Outcomes>, w: Written, i: int) -> bool {
    let e = w.map[i];
    let key = crate::write::key_of(job.hunk(i));
    if e.kind <= COMPRESSION_NONE {
        let best = stored(job, outcomes, i);
        let at = e.offset - job.start();
        &&& e.kind == best.0
        &&& e.length == (best.1.len() % 0x100_0000)
        &&& 0 <= at
        &&& at + best.1.len() <= w.stream.len()
        &&& w.stream.subrange(at, at + best.1.len()) == best.1
        &&& job.is_stored(job.written(outcomes, i as nat), i)
    } else if e.kind == COMPRESSION_SELF {
        &&& e.offset < i
        &&& w.map[e.offset as int].kind <= COMPRESSION_NONE
        &&& crate::write::key_of(job.hunk(e.offset as int)) == key
    } else {
        &&& e.kind == COMPRESSION_PARENT
        &&& job.parent_index().contains_key(key)
        &&& e.offset == job.parent_index()[key]
    }
}

/// What the index says of a hunk.
spec fn index_right(job: Job, w: Written, key: HunkKey) -> bool {
    let j = w.index[key] as int;
    &&& j < w.map.len()
    &&& w.map[j].kind <= COMPRESSION_NONE
    &&& crate::write::key_of(job.hunk(j)) == key
}

#[verifier::rlimit(50)]
proof fn lemma_right(job: Job, outcomes: Seq<Outcomes>, n: nat)
    requires
        job.within_limits(),
        job.fault() is None,
        n <= job.count(),
        n <= outcomes.len(),
    ensures
        job.written(outcomes, n).map.len() == n,
        forall|i: int|
            0 <= i < n ==> #[trigger] entry_right(job, outcomes, job.written(outcomes, n), i),
        forall|k: HunkKey| #[trigger]
            job.written(outcomes, n).index.contains_key(k) ==> index_right(
                job,
                job.written(outcomes, n),
                k,
            ),
    decreases n,
{
    if n > 0 {
        let m = (n - 1) as nat;
        lemma_right(job, outcomes, m);
        crate::write::lemma_written(job, outcomes, n);
        crate::write::lemma_written(job, outcomes, m);
        crate::write::lemma_best_of_bound(outcomes[n - 1], job.hunk(n - 1), job.codecs.len());
        crate::write::lemma_room(job, n);
        crate::write::lemma_room(job, m);
        let w = job.written(outcomes, m);
        let v = job.written(outcomes, n);
        let key = crate::write::key_of(job.hunk(n - 1));
        let best = stored(job, outcomes, n - 1);
        assert(v == job.step(w, n - 1, outcomes[n - 1]));
        assert forall|i: int| 0 <= i < n implies #[trigger] entry_right(job, outcomes, v, i) by {
            if i < m {
                assert(entry_right(job, outcomes, w, i));
                let e = w.map[i];
                assert(v.map[i] == e);
                if e.kind <= COMPRESSION_NONE {
                    let at = e.offset - job.start();
                    let len = stored(job, outcomes, i).1.len();
                    assert(v.stream.subrange(at, at + len) =~= w.stream.subrange(at, at + len));
                } else if e.kind == COMPRESSION_SELF {
                    assert(v.map[e.offset as int] == w.map[e.offset as int]);
                }
            } else {
                if w.index.contains_key(key) {
                    assert(index_right(job, w, key));
                } else if !job.parent_index().contains_key(key) {
                    let at = w.stream.len() as int;
                    assert(v.stream.subrange(at, at + best.1.len()) =~= best.1);
                }
            }
        }
        assert forall|k: HunkKey| #[trigger] v.index.contains_key(k) implies index_right(job, v, k) by {
            if w.index.contains_key(k) {
                assert(index_right(job, w, k));
            }
        }
    }
}

/// The stored hunks follow each other.
proof fn lemma_laid_out(job: Job, outcomes: Seq<Outcomes>, n: nat)
    requires
        job.within_limits(),
        job.fault() is None,
        job.hunk_bytes < 0x100_0000,
        n <= job.count(),
        n <= outcomes.len(),
    ensures
        ({
            let w = job.written(outcomes, n);
            &&& crate::map::stored_end(w.map, job.start(), n) == job.start() + w.stream.len()
            &&& forall|i: int|
                0 <= i < n && (#[trigger] w.map[i]).kind <= COMPRESSION_NONE ==> w.map[i].offset
                    == crate::map::stored_end(w.map, job.start(), i as nat)
        }),
    decreases n,
{
    if n > 0 {
        let m = (n - 1) as nat;
        lemma_laid_out(job, outcomes, m);
        lemma_right(job, outcomes, n);
        lemma_right(job, outcomes, m);
        crate::write::lemma_written(job, outcomes, m);
        crate::write::lemma_room(job, n);
        crate::write::lemma_room(job, m);
        crate::write::lemma_best_of_bound(outcomes[n - 1], job.hunk(n - 1), job.codecs.len());
        let w = job.written(outcomes, m);
        let v = job.written(outcomes, n);
        assert(v == job.step(w, n - 1, outcomes[n - 1]));
        assert(v.map.take(m as int) =~= w.map);
        lemma_stored_end_prefix(w.map, v.map, job.start(), m);
        assert forall|i: int| 0 <= i < n && (#[trigger] v.map[i]).kind <= COMPRESSION_NONE implies v.map[i].offset
            == crate::map::stored_end(v.map, job.start(), i as nat) by {
            if i < m {
                assert(v.map[i] == w.map[i]);
                lemma_stored_end_prefix(w.map, v.map, job.start(), i as nat);
            }
        }
    }
}

proof fn lemma_stored_end_prefix(a: Seq<RawEntry>, b: Seq<RawEntry>, start: nat, n: nat)
    requires
        n <= a.len(),
        n <= b.len(),
        forall|k: int| 0 <= k < n ==> a[k] == b[k],
    ensures
        crate::map::stored_end(a, start, n) == crate::map::stored_end(b, start, n),
    decreases n,
{
    if n > 0 {
        lemma_stored_end_prefix(a, b, start, (n - 1) as nat);
    }
}

/// The map that is written has the shape that can be packed and read again.
proof fn lemma_map_laid_out(job: Job, outcomes: Seq<Outcomes>)
    requires
        job.within_limits(),
        job.fault() is None,
        outcomes.len() == job.count(),
        job.hunk_bytes < 0x100_0000,
    ensures
        crate::map::laid_out(
            job.written(outcomes, job.count()).map,
            job.start(),
            job.hunk_bytes,
        ),
        job.written(outcomes, job.count()).map.len() == job.count(),
{
    let n = job.count();
    let w = job.written(outcomes, n);
    crate::write::lemma_written(job, outcomes, n);
    lemma_laid_out(job, outcomes, n);
    lemma_right(job, outcomes, n);
    crate::write::lemma_room(job, n);
    metadata::lemma_entry_offset(job.metadata, 124, 0, job.metadata.len() as int);
    assert forall|i: int| 0 <= i < w.map.len() && (#[trigger] w.map[i]).kind == COMPRESSION_NONE implies w.map[i].length
        == job.hunk_bytes by {
        assert(entry_right(job, outcomes, w, i));
        crate::write::lemma_best_of_bound(outcomes[i], job.hunk(i), job.codecs.len());
    }
    assert forall|i: int| 0 <= i < w.map.len() && (#[trigger] w.map[i]).kind > COMPRESSION_NONE implies w.map[i].length
        == 0 && w.map[i].crc == 0 by {
        assert(crate::write::entry_sound(job, w.map[i], i));
    }
}

/// The map that is written is read back from the end of the file.
proof fn lemma_map_read(job: Job, outcomes: Seq<Outcomes>)
    requires
        job.within_limits(),
        job.fault() is None,
        outcomes.len() == job.count(),
        job.hunk_bytes < 0x100_0000,
        crate::map::map_bits(
            job.written(outcomes, job.count()).map,
            job.hunk_bytes,
            job.unit_bytes,
        ).len() <= 8 * u32::MAX,
    ensures
        crate::map::unpacked_map(
            crate::map::packed_map(
                job.written(outcomes, job.count()).map,
                job.hunk_bytes,
                job.unit_bytes,
            ),
            job.count(),
            job.hunk_bytes,
            job.unit_bytes,
        ) == Some(job.written(outcomes, job.count()).map),
{
    lemma_map_laid_out(job, outcomes);
    crate::write::lemma_can_pack(job, outcomes);
    let m = job.written(outcomes, job.count()).map;
    crate::map::packed_map_is_unpacked(m, job.start(), job.hunk_bytes, job.unit_bytes);
}

pub proof fn lemma_fields_fit(job: Job, outcomes: Seq<Outcomes>)
    requires
        job.within_limits(),
        job.fault() is None,
        outcomes.len() == job.count(),
    ensures
        job.fields(job.written(outcomes, job.count()).stream.len()).fit(),
        job.count() <= u32::MAX,
{
    crate::write::lemma_written(job, outcomes, job.count());
    crate::write::lemma_room(job, job.count());
}

/// Where the parts of the file are.
#[verifier::spinoff_prover]
#[verifier::rlimit(60)]
pub proof fn lemma_file(job: Job, outcomes: Seq<Outcomes>)
    requires
        job.within_limits(),
        job.fault() is None,
        outcomes.len() == job.count(),
    ensures
        ({
            let w = job.written(outcomes, job.count());
            let f = job.file(outcomes);
            let h = job.fields(w.stream.len());
            &&& header::header_fault(f) is None
            &&& header::fields_at(f) == h
            &&& job.start() >= 124
            &&& f.subrange(124, job.start() as int) == metadata::blob(job.metadata, 124)
            &&& f.subrange(job.start() as int, (job.start() + w.stream.len()) as int) == w.stream
            &&& f.len() >= job.start() + w.stream.len()
            &&& f.skip(h.map_offset as int) == crate::map::packed_map(
                w.map,
                job.hunk_bytes,
                job.unit_bytes,
            )
        }),
{
    let w = job.written(outcomes, job.count());
    let h = job.fields(w.stream.len());
    let b = metadata::blob(job.metadata, 124);
    let m = crate::map::packed_map(w.map, job.hunk_bytes, job.unit_bytes);
    let f = job.file(outcomes);
    lemma_fields_fit(job, outcomes);
    header::lemma_v5_header_len(h);
    metadata::lemma_blob_len(job.metadata, 124, 0);
    metadata::lemma_entry_offset(job.metadata, 124, 0, job.metadata.len() as int);
    header::header_is_read_back(h, b + w.stream + m);
    assert(f =~= header::v5_header(h) + (b + w.stream + m));
    assert(f.subrange(124, job.start() as int) =~= b);
    assert(f.subrange(job.start() as int, (job.start() + w.stream.len()) as int) =~= w.stream);
    assert(f.skip(h.map_offset as int) =~= m);
}

proof fn lemma_named(c: CodecType)
    ensures
        CodecType::named(c.spec_code()) == Some(c),
{
    header::codes_are_distinct(c, CodecType::named(c.spec_code())->0);
}

/// The codecs of the file are those that wrote it.
proof fn lemma_codecs_read(job: Job, outcomes: Seq<Outcomes>)
    requires
        job.within_limits(),
        job.fault() is None,
        outcomes.len() == job.count(),
    ensures
        ({
            let codes = job.fields(job.written(outcomes, job.count()).stream.len()).compression;
            &&& chdfile::codec_fault(codes, job.hunk_bytes, 0) is None
            &&& forall|k: int|
                0 <= k < job.codecs.len() ==> #[trigger] chdfile::codec_kinds(codes)[k]
                    == job.codecs[k]
        }),
{
    let codes = job.fields(job.written(outcomes, job.count()).stream.len()).compression;
    assert forall|k: int| 0 <= k < 4 implies (CodecType::named(#[trigger] codes[k]) matches Some(c)
        && codecs::can_decode(c, job.hunk_bytes) && (k < job.codecs.len() ==> c == job.codecs[k]
        && codecs::decoder_kind(c) == c)) by {
        if k < job.codecs.len() {
            lemma_named(job.codecs[k]);
            crate::write::lemma_all_fit(job.codecs, job.hunk_bytes, k);
            codecs::lemma_can_decode(job.codecs[k], job.hunk_bytes);
        } else {
            lemma_named(CodecType::Uncompressed);
        }
    }
    reveal_with_fuel(chdfile::codec_fault, 5);
    assert(codes[0] == codes[0] && codes[1] == codes[1] && codes[2] == codes[2] && codes[3] == codes[3]);
}

/// Whether reading units of the parent gives every hunk that refers to them.
pub open spec fn parent_serves(job: Job, img: Image) -> bool {
    forall|i: int|
        0 <= i < job.count() && job.parent_index().contains_key(
            crate::write::key_of(#[trigger] job.hunk(i)),
        ) ==> {
            let unit = job.parent_index()[crate::write::key_of(job.hunk(i))] as int;
            let per_hunk = (job.hunk_bytes / job.unit_bytes) as int;
            &&& img.parent matches Some(p)
            &&& ({
                let at = (unit % 0x1_0000_0000) / per_hunk;
                let first = p.read(at, bytes::zeros(job.hunk_bytes as nat), p.count as nat);
                let second = p.read(at + 1, first->Ok_0.0, p.count as nat);
                chdfile::joined(unit, img, first, second) matches Ok((out, n)) && out == job.hunk(i) && n
                    == job.hunk_bytes
            })
        }
}

/// The bytes of a stored hunk are where its entry says.
#[verifier::spinoff_prover]
#[verifier::rlimit(60)]
pub proof fn lemma_part(job: Job, outcomes: Seq<Outcomes>, i: int)
    requires
        job.within_limits(),
        job.fault() is None,
        outcomes.len() == job.count(),
        job.hunk_bytes < 0x100_0000,
        0 <= i < job.count(),
        job.written(outcomes, job.count()).map[i].kind <= COMPRESSION_NONE,
    ensures
        ({
            let e = job.written(outcomes, job.count()).map[i];
            let best = stored(job, outcomes, i);
            &&& e.kind == best.0
            &&& e.length == best.1.len()
            &&& chdfile::part_at(job.file(outcomes), e.offset as int, e.length as int) == best.1
            &&& job.is_stored(job.written(outcomes, i as nat), i)
            &&& e.kind == COMPRESSION_NONE ==> best.1 == job.hunk(i)
            &&& e.kind < COMPRESSION_NONE ==> e.kind < job.codecs.len() && outcomes[i][e.kind as int]
                == Some(best.1)
        }),
{
    let n = job.count();
    let w = job.written(outcomes, n);
    let e = w.map[i];
    let f = job.file(outcomes);
    let best = stored(job, outcomes, i);
    lemma_right(job, outcomes, n);
    assert(entry_right(job, outcomes, w, i));
    lemma_file(job, outcomes);
    crate::write::lemma_best_of_bound(outcomes[i], job.hunk(i), job.codecs.len());
    let at = e.offset - job.start();
    let len = best.1.len() as int;
    let lo = job.start() as int;
    let hi = (job.start() + w.stream.len()) as int;
    assert(f.subrange(e.offset as int, e.offset + len) =~= f.subrange(lo, hi).subrange(at, at + len));
    if len == 0 {
        assert(best.1 =~= Seq::empty());
    }
}

/// What a codec made of a stored hunk is decompressed to the hunk.
proof fn lemma_unpacked(job: Job, outcomes: Seq<Outcomes>, i: int, k: int, s: Seq<u8>, old_out: Seq<u8>)
    requires
        job.fault() is None,
        job.within_limits(),
        job.may_come(outcomes),
        0 <= i < outcomes.len(),
        job.is_stored(job.written(outcomes, i as nat), i),
        0 <= k < job.codecs.len(),
        codecs::encoder_reliable(job.codecs[k], job.hunk_bytes),
        outcomes[i][k] == Some(s),
        old_out.len() == job.hunk_bytes,
    ensures
        codecs::codec_decoded(job.codecs[k], job.hunk_bytes, s, old_out) matches Ok((out, n, m)) && out
            == job.hunk(i) && n == job.hunk_bytes,
{
    assert(crate::write::may_come(job.codecs, job.hunk_bytes, job.hunk(i), outcomes[i]));
    assert(codecs::encoder_outcome(
        job.codecs[k],
        job.hunk_bytes,
        job.hunk(i),
        job.hunk_bytes as nat,
        outcomes[i][k],
    ));
    crate::write::lemma_all_fit(job.codecs, job.hunk_bytes, k);
    codecs::encoded_hunk_is_decoded(
        job.codecs[k],
        job.hunk_bytes,
        job.hunk(i),
        job.hunk_bytes as nat,
        s,
        old_out,
    );
}

/// What there is of the file once it is opened.
pub proof fn lemma_opened(job: Job, outcomes: Seq<Outcomes>, parent: Option<Box<Image>>)
    requires
        job.within_limits(),
        job.fault() is None,
        outcomes.len() == job.count(),
        job.hunk_bytes < 0x100_0000,
        job.codecs[0] !is Uncompressed,
        crate::map::map_bits(
            job.written(outcomes, job.count()).map,
            job.hunk_bytes,
            job.unit_bytes,
        ).len() <= 8 * u32::MAX,
    ensures
        ({
            let f = job.file(outcomes);
            let img = chdfile::opened(f, parent);
            &&& header::header_fault(f) is None
            &&& chdfile::map_of(f) is Ok
            &&& chdfile::codec_fault(header::fields_at(f).compression, job.hunk_bytes, 0) is None
            &&& img.file == f
            &&& img.hunk_bytes == job.hunk_bytes
            &&& img.unit_bytes == job.unit_bytes
            &&& img.count == job.count()
            &&& img.map == MapModel::Packed(job.written(outcomes, job.count()).map)
            &&& forall|k: int| 0 <= k < job.codecs.len() ==> #[trigger] img.codecs[k] == job.codecs[k]
            &&& img.codecs.len() == 4
            &&& img.parent == parent
            &&& header::fields_at(f) == job.fields(job.written(outcomes, job.count()).stream.len())
        }),
{
    let f = job.file(outcomes);
    let h = job.fields(job.written(outcomes, job.count()).stream.len());
    lemma_file(job, outcomes);
    lemma_fields_fit(job, outcomes);
    lemma_map_read(job, outcomes);
    lemma_codecs_read(job, outcomes);
    assert(h.compression[0] == job.codecs[0].spec_code());
    assert(h.compression[0] != 0);
}

/// A hunk that is stored is read back.
#[verifier::spinoff_prover]
#[verifier::rlimit(60)]
proof fn lemma_stored_read(job: Job, outcomes: Seq<Outcomes>, img: Image, i: int, old_out: Seq<u8>, fuel: nat)
    requires
        readable(job, outcomes),
        img == chdfile::opened(job.file(outcomes), img.parent),
        0 <= i < job.count(),
        old_out.len() == job.hunk_bytes,
        job.written(outcomes, job.count()).map[i].kind <= COMPRESSION_NONE,
    ensures
        img.read(i, old_out, fuel) matches Ok((out, n)) && out == job.hunk(i) && n == job.hunk_bytes,
{
    let e = job.written(outcomes, job.count()).map[i];
    let best = stored(job, outcomes, i);
    lemma_opened(job, outcomes, img.parent);
    lemma_part(job, outcomes, i);
    reveal_with_fuel(Image::read, 2);
    if e.kind == COMPRESSION_NONE {
        assert(best.1 + old_out.skip(best.1.len() as int) =~= job.hunk(i));
    } else {
        let k = e.kind as int;
        lemma_unpacked(job, outcomes, i, k, best.1, old_out);
        assert(img.codec(k) == Some(job.codecs[k]));
    }
}

/// A reference to another hunk of the file is read as that hunk.
proof fn lemma_self_read(img: Image, i: int, old_out: Seq<u8>, fuel: nat)
    requires
        0 <= i < img.count,
        old_out.len() == img.hunk_bytes,
        img.map matches MapModel::Packed(m) && m[i].kind == COMPRESSION_SELF && m[i].offset <= u32::MAX,
        fuel > 0,
    ensures
        img.map matches MapModel::Packed(m) && img.read(i, old_out, fuel) == img.read(
            m[i].offset as int,
            old_out,
            (fuel - 1) as nat,
        ),
{
    reveal_with_fuel(Image::read, 1);
}

/// A reference to units of the parent is read as those units.
proof fn lemma_parent_read(img: Image, i: int, old_out: Seq<u8>, fuel: nat)
    requires
        0 <= i < img.count,
        old_out.len() == img.hunk_bytes,
        img.unit_bytes <= img.hunk_bytes,
        img.map matches MapModel::Packed(m) && m[i].kind == COMPRESSION_PARENT,
        img.parent is Some,
    ensures
        img.map matches MapModel::Packed(m) && (img.parent matches Some(p) && ({
            let unit = m[i].offset as int;
            let at = (unit % 0x1_0000_0000) / (img.hunk_bytes / img.unit_bytes) as int;
            let first = p.read(at, bytes::zeros(img.hunk_bytes as nat), p.count as nat);
            let second = p.read(at + 1, first->Ok_0.0, p.count as nat);
            img.read(i, old_out, fuel) == chdfile::joined(unit, img, first, second)
        })),
{
    reveal_with_fuel(Image::read, 2);
}

/// A file that was written can be opened, and each of its hunks is read back.
pub proof fn hunk_is_read_back(
    job: Job,
    outcomes: Seq<Outcomes>,
    parent: Option<Box<Image>>,
    i: int,
    old_out: Seq<u8>,
)
    requires
        readable(job, outcomes),
        parent_serves(job, chdfile::opened(job.file(outcomes), parent)),
        0 <= i < job.count(),
        old_out.len() == job.hunk_bytes,
    ensures
        chdfile::open_fault(job.file(outcomes), None) is None,
        chdfile::opened(job.file(outcomes), parent).read(i, old_out, job.count()) matches Ok((out, n))
            && out == job.hunk(i) && n == job.hunk_bytes,
{
    let n = job.count();
    let w = job.written(outcomes, n);
    let e = w.map[i];
    let img = chdfile::opened(job.file(outcomes), parent);
    lemma_opened(job, outcomes, parent);
    lemma_right(job, outcomes, n);
    lemma_fields_fit(job, outcomes);
    assert(entry_right(job, outcomes, w, i));
    if e.kind <= COMPRESSION_NONE {
        lemma_stored_read(job, outcomes, img, i, old_out, n);
    } else if e.kind == COMPRESSION_SELF {
        let j = e.offset as int;
        lemma_self_read(img, i, old_out, n);
        lemma_stored_read(job, outcomes, img, j, old_out, (n - 1) as nat);
        assert(job.hunk(i) == job.hunk(j));
    } else {
        let key = crate::write::key_of(job.hunk(i));
        assert(job.parent_index().contains_key(key));
        lemma_unit_no_more(job.hunk_bytes, job.unit_bytes);
        lemma_parent_read(img, i, old_out, n);
    }
}

proof fn lemma_unit_no_more(hunk_bytes: u32, unit_bytes: u32)
    requires
        crate::write::sizes_fit(hunk_bytes, unit_bytes),
    ensures
        unit_bytes <= hunk_bytes,
{
    if unit_bytes > hunk_bytes {
        vstd::arithmetic::div_mod::lemma_small_mod(hunk_bytes as nat, unit_bytes as nat);
    }
}

/// Hunks that are read back one by one make up the image.
#[verifier::rlimit(50)]
proof fn lemma_gathered(img: Image, data: Seq<u8>, n: nat)
    requires
        img.hunk_bytes > 0,
        img.count == header::pieces(data.len(), img.hunk_bytes as nat),
        n <= img.count,
        forall|i: int, old_out: Seq<u8>|
            0 <= i < img.count && old_out.len() == img.hunk_bytes ==> (#[trigger] img.read(
                i,
                old_out,
                img.count as nat,
            ) matches Ok((out, k)) && out == crate::write::hunk_at(data, img.hunk_bytes as nat, i)),
    ensures
        chdfile::gathered(img, data.len(), n) matches Ok((d, buf)) && buf.len() == img.hunk_bytes && d
            == data.take(
            if n * img.hunk_bytes < data.len() {
                n * img.hunk_bytes
            } else {
                data.len() as int
            },
        ),
    decreases n,
{
    let hb = img.hunk_bytes as int;
    if n == 0 {
        assert(0 * hb == 0);
        assert(data.take(0) =~= Seq::empty());
    } else {
        let m = (n - 1) as nat;
        lemma_gathered(img, data, m);
        let g = chdfile::gathered(img, data.len(), m)->Ok_0;
        let r = img.read(m as int, g.1, img.count as nat);
        let out = r->Ok_0.0;
        let hunk = crate::write::hunk_at(data, img.hunk_bytes as nat, m as int);
        assert(out == hunk);
        header::lemma_pieces(data.len(), img.hunk_bytes as nat);
        assert(m * hb + hb == n * hb) by (nonlinear_arith)
            requires
                m == n - 1,
        ;
        assert(n * hb <= img.count * hb) by (nonlinear_arith)
            requires
                n <= img.count,
                hb > 0,
        ;
        assert(m * hb < data.len());
        let d = chdfile::gathered(img, data.len(), n)->Ok_0.0;
        let to = if n * hb < data.len() {
            n * hb
        } else {
            data.len() as int
        };
        let take = to - m * hb;
        assert(d =~= g.0 + hunk.take(take));
        assert(d =~= data.take(to)) by {
            assert forall|k: int| 0 <= k < to implies d[k] == data[k] by {
                if k >= m * hb {
                    assert(hunk[k - m * hb] == data[m * hb + (k - m * hb)]);
                }
            }
        }
    }
}

/// The image that was written is read back.
#[verifier::spinoff_prover]
#[verifier::rlimit(60)]
pub proof fn image_is_read_back(job: Job, outcomes: Seq<Outcomes>, parent: Option<Box<Image>>)
    requires
        readable(job, outcomes),
        parent_serves(job, chdfile::opened(job.file(outcomes), parent)),
    ensures
        chdfile::open_fault(job.file(outcomes), None) is None,
        header::fields_at(job.file(outcomes)).logical_bytes == job.data.len(),
        chdfile::gathered(
            chdfile::opened(job.file(outcomes), parent),
            job.data.len(),
            job.count(),
        ) matches Ok((d, buf)) && d == job.data,
{
    let img = chdfile::opened(job.file(outcomes), parent);
    lemma_opened(job, outcomes, parent);
    lemma_fields_fit(job, outcomes);
    assert forall|i: int, old_out: Seq<u8>|
        0 <= i < img.count && old_out.len() == img.hunk_bytes implies (#[trigger] img.read(
        i,
        old_out,
        img.count as nat,
    ) matches Ok((out, k)) && out == crate::write::hunk_at(job.data, img.hunk_bytes as nat, i)) by {
        hunk_is_read_back(job, outcomes, parent, i, old_out);
    }
    lemma_gathered(img, job.data, job.count());
    header::lemma_pieces(job.data.len(), job.hunk_bytes as nat);
    assert(job.data.take(job.data.len() as int) =~= job.data);
}

/// The metadata that was written is read back.
pub proof fn metadata_is_read_back(job: Job, outcomes: Seq<Outcomes>)
    requires
        job.within_limits(),
        job.fault() is None,
        outcomes.len() == job.count(),
        job.file(outcomes).len() <= u64::MAX,
        forall|i: int|
            0 <= i < job.metadata.len() ==> (#[trigger] job.metadata[i]).payload.len() < 0x100_0000,
    ensures
        metadata_laws::listed(job.file(outcomes)) == job.metadata,
        chdfile::all_held(job.file(outcomes), metadata_laws::places(job.file(outcomes))),
        metadata::list(job.file(outcomes), metadata_laws::first_entry(job.file(outcomes))).1 is Done,
{
    let f = job.file(outcomes);
    let w = job.written(outcomes, job.count());
    lemma_file(job, outcomes);
    assert(metadata_laws::first_entry(f) == header::fields_at(f).meta_offset);
    if job.metadata.len() > 0 {
        metadata_laws::blob_is_read_back(f, job.metadata, 124);
        let ns = metadata_laws::places(f);
        assert(metadata_laws::listed(f) =~= job.metadata);
    } else {
        assert(metadata_laws::places(f) =~= Seq::empty());
        assert(metadata_laws::listed(f) =~= job.metadata);
    }
}

/// A file that was written verifies: both digests are those in its header.
#[verifier::spinoff_prover]
#[verifier::rlimit(60)]
pub proof fn written_file_verifies(
    job: Job,
    outcomes: Seq<Outcomes>,
    parent: Option<Box<Image>>,
    h: Header,
)
    requires
        readable(job, outcomes),
        parent_serves(job, chdfile::opened(job.file(outcomes), parent)),
        job.file(outcomes).len() <= u64::MAX,
        forall|i: int|
            0 <= i < job.metadata.len() ==> (#[trigger] job.metadata[i]).payload.len() < 0x100_0000,
        chdfile::has_header(h, job.file(outcomes)),
    ensures
        chdfile::verified(h, chdfile::opened(job.file(outcomes), parent)) matches Ok(
            (raw, overall, expected_raw, expected),
        ) && raw == expected_raw && overall == expected && raw == hash::digest(job.data),
{
    let f = job.file(outcomes);
    let img = chdfile::opened(f, parent);
    lemma_opened(job, outcomes, parent);
    lemma_fields_fit(job, outcomes);
    image_is_read_back(job, outcomes, parent);
    metadata_is_read_back(job, outcomes);
    let fields = header::fields_at(f);
    assert(h.fields() == fields);
    assert(h.fields().compression[0] == fields.compression[0]);
    assert(h.fields().meta_offset == h.meta_offset);
    assert(h.fields().logical_bytes == h.logical_bytes);
    let ns = metadata::list(f, h.meta_offset as nat).0;
    assert(ns == metadata_laws::places(f));
    assert(chdfile::metas_at(f, ns) =~= metadata_laws::listed(f));
}

/// What the windows of an image say of one that is found.
proof fn lemma_windows(img: Seq<u8>, hunk_bytes: u32, unit_bytes: u32, n: nat, key: HunkKey)
    requires
        n <= u64::MAX,
        crate::write::windows(img, hunk_bytes, unit_bytes, n).contains_key(key),
    ensures
        ({
            let q = crate::write::windows(img, hunk_bytes, unit_bytes, n)[key];
            &&& q < n
            &&& crate::write::key_of(crate::write::window_at(img, hunk_bytes, unit_bytes, q as int))
                == key
        }),
    decreases n,
{
    if n > 0 {
        let m = (n - 1) as nat;
        if crate::write::windows(img, hunk_bytes, unit_bytes, m).contains_key(key) {
            lemma_windows(img, hunk_bytes, unit_bytes, m, key);
        }
    }
}

/// Where the units of a window are among the hunks.
#[verifier::rlimit(50)]
proof fn lemma_unit_place(hunk_bytes: u32, unit_bytes: u32, count: u32, q: int)
    requires
        crate::write::sizes_fit(hunk_bytes, unit_bytes),
        0 <= q < crate::write::window_count(hunk_bytes, unit_bytes, count),
    ensures
        ({
            let per = (hunk_bytes / unit_bytes) as int;
            let at = q / per;
            let rem = q % per;
            &&& per > 0
            &&& 0 <= at < count
            &&& rem != 0 ==> at + 1 < count
            &&& q * unit_bytes == at * hunk_bytes + rem * unit_bytes
            &&& 0 <= rem * unit_bytes < hunk_bytes
            &&& (at + 1) * hunk_bytes == at * hunk_bytes + hunk_bytes
            &&& (at + 2) * hunk_bytes == at * hunk_bytes + 2 * hunk_bytes
            &&& 0 <= at * hunk_bytes
            &&& (at + 1) * hunk_bytes <= count * hunk_bytes
            &&& rem != 0 ==> (at + 2) * hunk_bytes <= count * hunk_bytes
        }),
{
    let per = (hunk_bytes / unit_bytes) as int;
    lemma_unit_no_more(hunk_bytes, unit_bytes);
    vstd::arithmetic::div_mod::lemma_fundamental_div_mod(hunk_bytes as int, unit_bytes as int);
    assert(unit_bytes * per == hunk_bytes);
    assert(per > 0) by (nonlinear_arith)
        requires
            unit_bytes * per == hunk_bytes,
            hunk_bytes > 0,
            unit_bytes > 0,
    ;
    let at = q / per;
    let rem = q % per;
    vstd::arithmetic::div_mod::lemma_fundamental_div_mod(q, per);
    vstd::arithmetic::div_mod::lemma_mod_bound(q, per);
    assert(q == per * at + rem);
    assert(0 <= at) by {
        vstd::arithmetic::div_mod::lemma_div_pos_is_pos(q, per);
    }
    assert(at <= count - 1) by (nonlinear_arith)
        requires
            q == per * at + rem,
            q <= (count - 1) * per,
            0 <= rem,
            per > 0,
    ;
    assert(rem != 0 ==> at < count - 1) by (nonlinear_arith)
        requires
            q == per * at + rem,
            q <= (count - 1) * per,
            0 <= rem,
            per > 0,
            at <= count - 1,
    ;
    assert(q * unit_bytes == at * hunk_bytes + rem * unit_bytes) by (nonlinear_arith)
        requires
            q == per * at + rem,
            unit_bytes * per == hunk_bytes,
    ;
    assert(0 <= rem * unit_bytes < hunk_bytes) by (nonlinear_arith)
        requires
            0 <= rem < per,
            unit_bytes * per == hunk_bytes,
            unit_bytes > 0,
    ;
    assert((at + 1) * hunk_bytes == at * hunk_bytes + hunk_bytes) by (nonlinear_arith);
    assert((at + 2) * hunk_bytes == at * hunk_bytes + 2 * hunk_bytes) by (nonlinear_arith);
    assert(0 <= at * hunk_bytes) by (nonlinear_arith)
        requires
            0 <= at,
    ;
    assert((at + 1) * hunk_bytes <= count * hunk_bytes) by (nonlinear_arith)
        requires
            at + 1 <= count,
    ;
    if rem != 0 {
        assert((at + 2) * hunk_bytes <= count * hunk_bytes) by (nonlinear_arith)
            requires
                at + 2 <= count,
        ;
    }
}

/// Whether a parent reads as an image, hunk by hunk.
pub open spec fn reads_as(p: Image, img: Seq<u8>) -> bool {
    &&& img.len() == p.count * p.hunk_bytes
    &&& forall|h: int, old_out: Seq<u8>|
        0 <= h < p.count && old_out.len() == p.hunk_bytes ==> (#[trigger] p.read(
            h,
            old_out,
            p.count as nat,
        ) matches Ok((out, n)) && out == img.subrange(h * p.hunk_bytes, (h + 1) * p.hunk_bytes) && n
            == p.hunk_bytes)
}

/// An image with the zeros that fill up its last hunk.
pub open spec fn filled_up(data: Seq<u8>, hunk_bytes: u32) -> Seq<u8> {
    data + bytes::zeros(
        (header::pieces(data.len(), hunk_bytes as nat) * hunk_bytes - data.len()) as nat,
    )
}

/// A hunk of an image is the part of it that is in its place.
pub proof fn hunk_of_filled_up(data: Seq<u8>, hunk_bytes: u32, i: int)
    requires
        hunk_bytes > 0,
        0 <= i < header::pieces(data.len(), hunk_bytes as nat),
    ensures
        filled_up(data, hunk_bytes).len() == header::pieces(data.len(), hunk_bytes as nat) * hunk_bytes,
        0 <= i * hunk_bytes,
        (i + 1) * hunk_bytes == i * hunk_bytes + hunk_bytes,
        (i + 1) * hunk_bytes <= filled_up(data, hunk_bytes).len(),
        crate::write::hunk_at(data, hunk_bytes as nat, i) == filled_up(data, hunk_bytes).subrange(
            i * hunk_bytes,
            (i + 1) * hunk_bytes,
        ),
{
    let hb = hunk_bytes as int;
    let count = header::pieces(data.len(), hunk_bytes as nat) as int;
    header::lemma_pieces(data.len(), hunk_bytes as nat);
    assert((i + 1) * hb == i * hb + hb) by (nonlinear_arith);
    assert((i + 1) * hb <= count * hb) by (nonlinear_arith)
        requires
            i + 1 <= count,
            hb > 0,
    ;
    assert(0 <= i * hb) by (nonlinear_arith)
        requires
            0 <= i,
            hb > 0,
    ;
    assert(crate::write::hunk_at(data, hunk_bytes as nat, i) =~= filled_up(data, hunk_bytes).subrange(
        i * hb,
        (i + 1) * hb,
    ));
}

/// A file that was written reads as its image, hunk by hunk, whatever the buffer held.
pub proof fn written_file_reads_as_its_image(
    job: Job,
    outcomes: Seq<Outcomes>,
    parent: Option<Box<Image>>,
)
    requires
        readable(job, outcomes),
        parent_serves(job, chdfile::opened(job.file(outcomes), parent)),
    ensures
        reads_as(
            chdfile::opened(job.file(outcomes), parent),
            filled_up(job.data, job.hunk_bytes),
        ),
{
    let p = chdfile::opened(job.file(outcomes), parent);
    let img = filled_up(job.data, job.hunk_bytes);
    lemma_opened(job, outcomes, parent);
    header::lemma_pieces(job.data.len(), job.hunk_bytes as nat);
    assert forall|h: int, old_out: Seq<u8>|
        0 <= h < p.count && old_out.len() == p.hunk_bytes implies (#[trigger] p.read(
        h,
        old_out,
        p.count as nat,
    ) matches Ok((out, n)) && out == img.subrange(h * p.hunk_bytes, (h + 1) * p.hunk_bytes) && n
        == p.hunk_bytes) by {
        hunk_is_read_back(job, outcomes, parent, h, old_out);
        hunk_of_filled_up(job.data, job.hunk_bytes, h);
    }
}

/// The windows of the parent's image serve every hunk that refers to the parent, where checksums tell
/// them apart from the hunks.
#[verifier::rlimit(50)]
pub proof fn windows_serve(job: Job, img: Image, p: Image, padded: Seq<u8>)
    requires
        crate::write::sizes_fit(job.hunk_bytes, job.unit_bytes),
        job.within_limits(),
        reads_as(p, padded),
        p.hunk_bytes == job.hunk_bytes,
        img.parent == Some(Box::new(p)),
        img.hunk_bytes == job.hunk_bytes,
        img.unit_bytes == job.unit_bytes,
        job.parent matches Some(parts) && parts.0 == crate::write::windows(
            padded,
            job.hunk_bytes,
            job.unit_bytes,
            crate::write::window_count(job.hunk_bytes, job.unit_bytes, p.count),
        ),
        crate::write::window_count(job.hunk_bytes, job.unit_bytes, p.count) <= u64::MAX,
        forall|i: int, q: int|
            0 <= i < job.count() && 0 <= q < crate::write::window_count(
                job.hunk_bytes,
                job.unit_bytes,
                p.count,
            ) && crate::write::key_of(#[trigger] job.hunk(i)) == crate::write::key_of(
                #[trigger] crate::write::window_at(padded, job.hunk_bytes, job.unit_bytes, q),
            ) ==> job.hunk(i) == crate::write::window_at(padded, job.hunk_bytes, job.unit_bytes, q),
    ensures
        parent_serves(job, img),
{
    let hb = job.hunk_bytes;
    let ub = job.unit_bytes;
    let n = crate::write::window_count(hb, ub, p.count);
    assert forall|i: int|
        0 <= i < job.count() && job.parent_index().contains_key(
            crate::write::key_of(#[trigger] job.hunk(i)),
        ) implies ({
        let unit = job.parent_index()[crate::write::key_of(job.hunk(i))] as int;
        let per_hunk = (hb / ub) as int;
        let at = (unit % 0x1_0000_0000) / per_hunk;
        let first = p.read(at, bytes::zeros(hb as nat), p.count as nat);
        let second = p.read(at + 1, first->Ok_0.0, p.count as nat);
        chdfile::joined(unit, img, first, second) matches Ok((out, n)) && out == job.hunk(i) && n == hb
    }) by {
        let key = crate::write::key_of(job.hunk(i));
        let q = job.parent_index()[key] as int;
        lemma_windows(padded, hb, ub, n, key);
        lemma_unit_place(hb, ub, p.count, q);
        let window = crate::write::window_at(padded, hb, ub, q);
        assert(job.hunk(i) == window);
        let per = (hb / ub) as int;
        let at = q / per;
        let cut = (q % per) * ub;
        let first = p.read(at, bytes::zeros(hb as nat), p.count as nat);
        let buf = first->Ok_0.0;
        assert(buf == padded.subrange(at * hb, (at + 1) * hb));
        if q % per == 0 {
            assert(cut == 0);
            assert(buf =~= window);
        } else {
            let second = p.read(at + 1, buf, p.count as nat);
            let more = second->Ok_0.0;
            assert((at + 1) + 1 == at + 2);
            assert(more == padded.subrange((at + 1) * hb, (at + 2) * hb));
            assert(buf.skip(cut) + more.take(cut) =~= window);
        }
    }
}

/// An entry of the map of a file without compression.
pub proof fn lemma_plain_entry(base: nat, n: nat, i: int)
    requires
        0 <= i < n,
    ensures
        crate::write::plain_map(base, n).len() == 4 * n,
        crate::write::plain_map(base, n).subrange(4 * i, 4 * i + 4) == bytes::be_bytes(
            (base + i) as nat,
            4,
        ),
    decreases n,
{
    let m = (n - 1) as nat;
    let last = bytes::be_bytes((base + n - 1) as nat, 4);
    bytes::lemma_be_len((base + n - 1) as nat, 4);
    if m > 0 {
        lemma_plain_entry(
            base,
            m,
            if i < m {
                i
            } else {
                0
            },
        );
    } else {
        assert(crate::write::plain_map(base, 0) =~= Seq::empty());
    }
    let all = crate::write::plain_map(base, n);
    assert(all == crate::write::plain_map(base, m) + last);
    if i < m {
        assert(all.subrange(4 * i, 4 * i + 4) =~= crate::write::plain_map(base, m).subrange(
            4 * i,
            4 * i + 4,
        ));
    } else {
        assert(all.subrange(4 * i, 4 * i + 4) =~= last);
    }
}

/// Where the parts of the front of a file without compression are.
#[verifier::spinoff_prover]
#[verifier::rlimit(60)]
pub proof fn lemma_plain_front(p: PlainLayout, plan: Seq<u8>, parent_sha1: Seq<u8>, rest: Seq<u8>)
    requires
        crate::write::sizes_fit(p.hunk_bytes, p.unit_bytes),
        p.front_fits(),
        p.count() <= u32::MAX,
        p.logical_bytes <= u64::MAX,
        plan.len() == 4 * p.count(),
        parent_sha1.len() == 20,
    ensures
        ({
            let f = p.front(plan, parent_sha1) + rest;
            &&& header::header_fault(f) is None
            &&& header::fields_at(f) == p.fields(parent_sha1)
            &&& p.front(plan, parent_sha1).len() == p.data_start()
            &&& f.subrange(124, p.meta_start() as int) == plan
            &&& f.skip(p.data_start() as int) == rest
            &&& f.len() == p.data_start() + rest.len()
            &&& f.subrange(p.meta_start() as int, p.meta_end() as int) == metadata::blob(
                p.metadata,
                p.meta_start(),
            )
        }),
{
    let h = p.fields(parent_sha1);
    let b = metadata::blob(p.metadata, p.meta_start());
    let pad = bytes::zeros((p.data_start() - p.meta_end()) as nat);
    let f = p.front(plan, parent_sha1) + rest;
    crate::write::lemma_front_layout(p);
    header::lemma_v5_header_len(h);
    header::header_is_read_back(h, plan + b + pad + rest);
    assert(f =~= header::v5_header(h) + (plan + b + pad + rest));
    assert(f.subrange(124, p.meta_start() as int) =~= plan);
    assert(f.skip(p.data_start() as int) =~= rest);
    assert(f.subrange(p.meta_start() as int, p.meta_end() as int) =~= b);
}

/// The codecs of a file without compression.
proof fn lemma_plain_codecs(p: PlainLayout, parent_sha1: Seq<u8>)
    ensures
        chdfile::codec_fault(p.fields(parent_sha1).compression, p.hunk_bytes, 0) is None,
{
    lemma_named(CodecType::Uncompressed);
    reveal_with_fuel(chdfile::codec_fault, 5);
}

/// A file without compression can be opened, and each of its hunks is read back.
#[verifier::spinoff_prover]
#[verifier::rlimit(60)]
pub proof fn plain_hunk_is_read_back(p: PlainLayout, data: Seq<u8>, i: int, old_out: Seq<u8>, fuel: nat)
    requires
        crate::write::sizes_fit(p.hunk_bytes, p.unit_bytes),
        p.within_limits(),
        p.logical_bytes == data.len(),
        data.len() <= u64::MAX,
        0 <= i < p.count(),
        old_out.len() == p.hunk_bytes,
    ensures
        chdfile::open_fault(p.file(data), None) is None,
        chdfile::opened(p.file(data), None).read(i, old_out, fuel) matches Ok((out, n)) && out
            == crate::write::hunk_at(data, p.hunk_bytes as nat, i) && n == p.hunk_bytes,
{
    let hb = p.hunk_bytes as int;
    let plan = crate::write::plain_map(p.base(), p.count());
    let tail = bytes::zeros((p.count() * p.hunk_bytes - data.len()) as nat);
    let rest = data + tail;
    let f = p.file(data);
    crate::write::lemma_plain_layout(p);
    lemma_plain_entry(p.base(), p.count(), i);
    lemma_plain_front(p, plan, header::no_digest(), rest);
    lemma_plain_codecs(p, header::no_digest());
    assert(f =~= p.front(plan, header::no_digest()) + rest);
    let img = chdfile::opened(f, None);
    lemma2_to64();
    assert(f.subrange(124 + 4 * i, 124 + 4 * i + 4) =~= f.subrange(124, p.meta_start() as int).subrange(
        4 * i,
        4 * i + 4,
    ));
    bytes::lemma_be_at(f, 124 + 4 * i, (p.base() + i) as nat, 4);
    let place = (p.base() + i) as int;
    assert(p.base() > 0) by (nonlinear_arith)
        requires
            p.base() * hb == p.data_start(),
            p.data_start() > 0,
    ;
    assert(place * hb == p.data_start() + i * hb) by (nonlinear_arith)
        requires
            place == p.base() + i,
            p.base() * hb == p.data_start(),
    ;
    assert((i + 1) * hb == i * hb + hb) by (nonlinear_arith);
    assert((i + 1) * hb <= p.count() * hb) by (nonlinear_arith)
        requires
            i + 1 <= p.count(),
            hb > 0,
    ;
    assert(0 <= i * hb) by (nonlinear_arith)
        requires
            0 <= i,
            hb > 0,
    ;
    let hunk = crate::write::hunk_at(data, p.hunk_bytes as nat, i);
    assert(rest.subrange(i * hb, i * hb + hb) =~= hunk);
    assert(f.subrange(place * hb, place * hb + hb) =~= f.skip(p.data_start() as int).subrange(
        i * hb,
        i * hb + hb,
    ));
    assert(hunk + old_out.skip(hb) =~= hunk);
    assert(img.map matches MapModel::Plain(m) && m[i] == place);
    reveal_with_fuel(Image::read, 1);
}

/// The image of a file without compression is read back.
#[verifier::spinoff_prover]
#[verifier::rlimit(60)]
pub proof fn plain_image_is_read_back(p: PlainLayout, data: Seq<u8>)
    requires
        crate::write::sizes_fit(p.hunk_bytes, p.unit_bytes),
        p.within_limits(),
        p.logical_bytes == data.len(),
        data.len() <= u64::MAX,
    ensures
        chdfile::open_fault(p.file(data), None) is None,
        chdfile::gathered(chdfile::opened(p.file(data), None), data.len(), p.count()) matches Ok((d, buf))
            && d == data,
{
    let f = p.file(data);
    let img = chdfile::opened(f, None);
    crate::write::lemma_plain_layout(p);
    let plan = crate::write::plain_map(p.base(), p.count());
    let rest = data + bytes::zeros((p.count() * p.hunk_bytes - data.len()) as nat);
    header::lemma_pieces(data.len(), p.hunk_bytes as nat);
    if p.count() > 0 {
        lemma_plain_entry(p.base(), p.count(), 0);
    }
    lemma_plain_codecs(p, header::no_digest());
    lemma_plain_front(p, plan, header::no_digest(), rest);
    assert(f =~= p.front(plan, header::no_digest()) + rest);
    assert(img.count == p.count());
    assert(img.hunk_bytes == p.hunk_bytes);
    assert forall|i: int, old_out: Seq<u8>|
        0 <= i < img.count && old_out.len() == img.hunk_bytes implies (#[trigger] img.read(
        i,
        old_out,
        img.count as nat,
    ) matches Ok((out, k)) && out == crate::write::hunk_at(data, img.hunk_bytes as nat, i)) by {
        plain_hunk_is_read_back(p, data, i, old_out, img.count as nat);
    }
    lemma_gathered(img, data, p.count());
    assert(data.take(data.len() as int) =~= data);
}

/// A file that takes every hunk from its parent reads as the parent.
#[verifier::spinoff_prover]
#[verifier::rlimit(60)]
pub proof fn empty_diff_reads_as_parent(
    p: PlainLayout,
    parent_sha1: Seq<u8>,
    parent: Box<Image>,
    i: int,
    old_out: Seq<u8>,
    fuel: nat,
)
    requires
        crate::write::sizes_fit(p.hunk_bytes, p.unit_bytes),
        p.front_fits(),
        p.count() <= u32::MAX,
        p.logical_bytes <= u64::MAX,
        parent_sha1.len() == 20,
        parent_sha1 != header::no_digest(),
        0 <= i < p.count(),
        old_out.len() == p.hunk_bytes,
    ensures
        chdfile::open_fault(p.empty_diff(parent_sha1), None) is None,
        chdfile::opened(p.empty_diff(parent_sha1), Some(parent)).read(i, old_out, fuel) == parent.read(
            i,
            old_out,
            parent.count as nat,
        ),
        chdfile::opened(p.empty_diff(parent_sha1), None).read(i, old_out, fuel) == chdfile::Read::Err(
            crate::error::Error::RequiresParent,
        ),
{
    let f = p.empty_diff(parent_sha1);
    let plan = bytes::zeros(4 * p.count());
    crate::write::lemma_front_layout(p);
    lemma_plain_front(p, plan, parent_sha1, Seq::empty());
    lemma_plain_codecs(p, parent_sha1);
    assert(f =~= p.front(plan, parent_sha1) + Seq::<u8>::empty());
    let img = chdfile::opened(f, Some(parent));
    assert(f.subrange(124 + 4 * i, 124 + 4 * i + 4) =~= plan.subrange(4 * i, 4 * i + 4)) by {
        assert(f.subrange(124 + 4 * i, 124 + 4 * i + 4) =~= f.subrange(124, p.meta_start() as int).subrange(
            4 * i,
            4 * i + 4,
        ));
    }
    assert(plan.subrange(4 * i, 4 * i + 4) =~= bytes::be_bytes(0, 4)) by {
        crate::write::lemma_be_zero();
    }
    lemma2_to64();
    bytes::lemma_be_at(f, 124 + 4 * i, 0, 4);
    assert(img.map matches MapModel::Plain(m) && m[i] == 0);
    reveal_with_fuel(Image::read, 1);
}

/// The metadata of a file without compression is read back.
pub proof fn plain_metadata_is_read_back(p: PlainLayout, data: Seq<u8>)
    requires
        crate::write::sizes_fit(p.hunk_bytes, p.unit_bytes),
        p.within_limits(),
        p.logical_bytes == data.len(),
        data.len() <= u64::MAX,
        forall|i: int|
            0 <= i < p.metadata.len() ==> (#[trigger] p.metadata[i]).payload.len() < 0x100_0000,
    ensures
        metadata_laws::listed(p.file(data)) == p.metadata,
        chdfile::all_held(p.file(data), metadata_laws::places(p.file(data))),
        metadata::list(p.file(data), metadata_laws::first_entry(p.file(data))).1 is Done,
{
    let f = p.file(data);
    let plan = crate::write::plain_map(p.base(), p.count());
    let rest = data + bytes::zeros((p.count() * p.hunk_bytes - data.len()) as nat);
    crate::write::lemma_plain_layout(p);
    if p.count() > 0 {
        lemma_plain_entry(p.base(), p.count(), 0);
    }
    lemma_plain_front(p, plan, header::no_digest(), rest);
    assert(f =~= p.front(plan, header::no_digest()) + rest);
    assert(metadata_laws::first_entry(f) == header::fields_at(f).meta_offset);
    if p.metadata.len() > 0 {
        metadata_laws::blob_is_read_back(f, p.metadata, p.meta_start());
        let ns = metadata_laws::places(f);
        assert(metadata_laws::listed(f) =~= p.metadata);
    } else {
        assert(metadata_laws::places(f) =~= Seq::empty());
        assert(metadata_laws::listed(f) =~= p.metadata);
    }
}

/// What the header of a file without compression says.
pub proof fn lemma_plain_fields(p: PlainLayout, data: Seq<u8>)
    requires
        crate::write::sizes_fit(p.hunk_bytes, p.unit_bytes),
        p.within_limits(),
        p.logical_bytes == data.len(),
        data.len() <= u64::MAX,
    ensures
        header::fields_at(p.file(data)) == p.fields(header::no_digest()),
{
    let plan = crate::write::plain_map(p.base(), p.count());
    let rest = data + bytes::zeros((p.count() * p.hunk_bytes - data.len()) as nat);
    crate::write::lemma_plain_layout(p);
    if p.count() > 0 {
        lemma_plain_entry(p.base(), p.count(), 0);
    }
    lemma_plain_front(p, plan, header::no_digest(), rest);
    assert(p.file(data) =~= p.front(plan, header::no_digest()) + rest);
}

/// What a file without compression holds, once it is opened.
proof fn lemma_plain_opened(p: PlainLayout, data: Seq<u8>)
    requires
        crate::write::sizes_fit(p.hunk_bytes, p.unit_bytes),
        p.within_limits(),
        p.logical_bytes == data.len(),
        data.len() <= u64::MAX,
    ensures
        header::fields_at(p.file(data)).logical_bytes == data.len(),
        chdfile::opened(p.file(data), None).count == p.count(),
{
    crate::write::lemma_plain_layout(p);
    lemma_plain_fields(p, data);
}

/// Whether a file can be opened, and gives an image and metadata when it is read.
pub open spec fn gives(file: Seq<u8>, data: Seq<u8>, metas: Seq<Meta>) -> bool {
    let img = chdfile::opened(file, None);
    &&& chdfile::open_fault(file, None) is None
    &&& header::fields_at(file).logical_bytes == data.len()
    &&& chdfile::gathered(img, data.len(), img.count as nat) matches Ok((d, buf)) && d == data
    &&& metadata_laws::listed(file) == metas
    &&& chdfile::all_held(file, metadata_laws::places(file))
}

/// Whether a file that a plan comes to can be read again. Without compression it always can; with
/// compression there are the limits of `readable`.
pub open spec fn plan_readable(p: Plan, file: Seq<u8>) -> bool {
    let job = crate::write::job_for(p.data, p.hunk_size, p.unit_size, p.codecs, p.metadata, None);
    &&& p.fault() is None
    &&& p.within_limits()
    &&& p.may_create(file)
    &&& p.data.len() <= u64::MAX
    &&& file.len() <= u64::MAX
    &&& forall|i: int|
        0 <= i < p.metadata.len() ==> (#[trigger] p.metadata[i]).payload.len() < 0x100_0000
    &&& p.codecs.len() > 0 ==> forall|o: Seq<Outcomes>|
        o.len() == job.count() && #[trigger] job.may_come(o) && file == job.file(o) ==> readable(job, o)
}

/// What a plan with compression comes to can be read again where there are no more than 2^29 hunks of
/// less than 16 mebibytes, the codecs are known to give back what they are given and checksums tell
/// hunks apart.
pub proof fn usual_plans_are_readable(p: Plan, file: Seq<u8>)
    requires
        p.fault() is None,
        p.within_limits(),
        p.may_create(file),
        p.data.len() <= u64::MAX,
        file.len() <= u64::MAX,
        forall|i: int|
            0 <= i < p.metadata.len() ==> (#[trigger] p.metadata[i]).payload.len() < 0x100_0000,
        p.codecs.len() > 0,
        p.codecs[0] !is Uncompressed,
        p.hunk_size < 0x100_0000,
        forall|k: int|
            0 <= k < p.codecs.len() ==> codecs::encoder_reliable(#[trigger] p.codecs[k], p.hunk_size),
        header::pieces(p.data.len(), p.hunk_size as nat) <= 0x2000_0000,
        no_collision(
            crate::write::job_for(p.data, p.hunk_size, p.unit_size, p.codecs, p.metadata, None),
        ),
    ensures
        plan_readable(p, file),
{
    let job = crate::write::job_for(p.data, p.hunk_size, p.unit_size, p.codecs, p.metadata, None);
    assert forall|o: Seq<Outcomes>|
        o.len() == job.count() && #[trigger] job.may_come(o) && file == job.file(o) implies readable(
        job,
        o,
    ) by {
        usual_jobs_are_readable(job, o);
    }
}

/// What a plan comes to gives back the image and the metadata of the plan.
pub proof fn created_file_is_read_back(p: Plan, file: Seq<u8>)
    requires
        plan_readable(p, file),
    ensures
        gives(file, p.data, p.metadata),
{
    if p.codecs.len() == 0 {
        let l = crate::write::plain_layout(p.data.len(), p.hunk_size, p.unit_size, p.metadata);
        plain_image_is_read_back(l, p.data);
        plain_metadata_is_read_back(l, p.data);
        lemma_plain_opened(l, p.data);
    } else {
        let job = crate::write::job_for(
            p.data,
            p.hunk_size,
            p.unit_size,
            p.codecs,
            p.metadata,
            None,
        );
        let o = choose|o: Seq<Outcomes>|
            o.len() == job.count() && #[trigger] job.may_come(o) && file == job.file(o);
        assert(readable(job, o));
        assert(parent_serves(job, chdfile::opened(file, None)));
        image_is_read_back(job, o, None);
        metadata_is_read_back(job, o);
        lemma_opened(job, o, None);
    }
}

/// A copy gives the image and the metadata of the file that was copied.
pub proof fn copy_keeps_image_and_metadata(f: Seq<u8>, o: CopyOptions, file: Seq<u8>)
    requires
        copy::plan_fault(f, o) is None,
        plan_readable(copy::plan_of(f, o), file),
    ensures
        ({
            let h = header::fields_at(f);
            let img = chdfile::opened(f, None);
            chdfile::gathered(img, h.logical_bytes, img.count as nat) matches Ok((data, buf)) && gives(
                file,
                data,
                chdfile::metas_at(f, metadata::list(f, h.meta_offset).0),
            )
        }),
{
    created_file_is_read_back(copy::plan_of(f, o), file);
}

} // verus!
