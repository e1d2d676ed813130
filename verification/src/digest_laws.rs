//! What verifying makes of the digests in a header.

use crate::chdfile;
use crate::chdfile::{Image, MapModel};
use crate::error::Error;
use crate::hash;
use crate::header;
use crate::header::Header;
use crate::map::COMPRESSION_NONE;
use crate::metadata;
use crate::metadata::Meta;
use crate::metadata_laws;
use crate::write::{Job, Outcomes, PlainLayout};
use vstd::prelude::*;

verus! {

/// A file with other digests in its header, that of the image and the overall one.
pub open spec fn with_digests(f: Seq<u8>, raw: Seq<u8>, all: Seq<u8>) -> Seq<u8> {
    f.take(64) + raw + all + f.skip(104)
}

/// Whether a compressed file has its map, its stored hunks and its metadata behind the header.
pub open spec fn behind_header(f: Seq<u8>) -> bool {
    let h = header::fields_at(f);
    let ns = metadata::list(f, h.meta_offset).0;
    &&& header::header_fault(f) is None
    &&& h.compression[0] != 0
    &&& h.map_offset >= 124
    &&& chdfile::map_of(f) matches Ok(MapModel::Packed(m)) && forall|i: int|
        0 <= i < header::pieces(h.logical_bytes, h.hunk_bytes) && (#[trigger] m[i]).kind
            <= COMPRESSION_NONE ==> m[i].offset >= 124
    &&& forall|i: int| 0 <= i < ns.len() ==> (#[trigger] ns[i]).offset >= 124
}

/// Whether two files are the same but for the digests in their headers.
spec fn alike(f: Seq<u8>, g: Seq<u8>) -> bool {
    &&& f.len() == g.len()
    &&& forall|k: int| 0 <= k < f.len() && !(64 <= k < 104) ==> f[k] == g[k]
}

proof fn lemma_nodes_alike(f: Seq<u8>, g: Seq<u8>, offset: nat, fuel: nat)
    requires
        alike(f, g),
        forall|i: int|
            0 <= i < metadata::nodes(f, offset, fuel).0.len() ==> (#[trigger] metadata::nodes(
                f,
                offset,
                fuel,
            ).0[i]).offset >= 124,
    ensures
        metadata::nodes(g, offset, fuel) == metadata::nodes(f, offset, fuel),
    decreases fuel,
{
    if offset != 0 && offset + 16 <= f.len() && fuel > 0 {
        let n = metadata::node_at(f, offset)->0;
        let rest = metadata::nodes(f, n.next, (fuel - 1) as nat);
        let all = metadata::nodes(f, offset, fuel).0;
        assert(all[0] == n);
        let at = offset as int;
        assert(f.subrange(at, at + 4) =~= g.subrange(at, at + 4));
        assert(f.subrange(at + 5, at + 8) =~= g.subrange(at + 5, at + 8));
        assert(f.subrange(at + 8, at + 16) =~= g.subrange(at + 8, at + 16));
        assert(metadata::node_at(g, offset) == Some(n));
        assert forall|i: int| 0 <= i < rest.0.len() implies (#[trigger] rest.0[i]).offset >= 124 by {
            assert(rest.0[i] == all[i + 1]);
        }
        lemma_nodes_alike(f, g, n.next, (fuel - 1) as nat);
    }
}

/// A hunk of an opened file does not depend on the digests.
proof fn lemma_read_alike(a: Image, b: Image, n: int, old_out: Seq<u8>, fuel: nat)
    requires
        alike(a.file, b.file),
        b == (Image { file: b.file, ..a }),
        a.map matches MapModel::Packed(m) && forall|i: int|
            0 <= i < a.count && (#[trigger] m[i]).kind <= COMPRESSION_NONE ==> m[i].offset >= 124,
    ensures
        b.read(n, old_out, fuel) == a.read(n, old_out, fuel),
    decreases fuel,
{
    reveal_with_fuel(Image::read, 1);
    if 0 <= n < a.count {
        let e = a.map->Packed_0[n];
        if e.kind <= COMPRESSION_NONE {
            assert(chdfile::part_at(a.file, e.offset as int, e.length as int) =~= chdfile::part_at(
                b.file,
                e.offset as int,
                e.length as int,
            ));
        } else if fuel > 0 {
            lemma_read_alike(a, b, e.offset as int % 0x1_0000_0000, old_out, (fuel - 1) as nat);
        }
    }
}

proof fn lemma_gathered_alike(a: Image, b: Image, logical: nat, n: nat)
    requires
        alike(a.file, b.file),
        b == (Image { file: b.file, ..a }),
        a.map matches MapModel::Packed(m) && forall|i: int|
            0 <= i < a.count && (#[trigger] m[i]).kind <= COMPRESSION_NONE ==> m[i].offset >= 124,
    ensures
        chdfile::gathered(b, logical, n) == chdfile::gathered(a, logical, n),
    decreases n,
{
    if n > 0 {
        lemma_gathered_alike(a, b, logical, (n - 1) as nat);
        if let Ok((data, buf)) = chdfile::gathered(a, logical, (n - 1) as nat) {
            lemma_read_alike(a, b, n - 1, buf, a.count as nat);
        }
    }
}

/// Opening a file with other digests comes to the same, but for the digests.
proof fn lemma_opened_alike(f: Seq<u8>, raw: Seq<u8>, all: Seq<u8>, parent: Option<Box<Image>>)
    requires
        behind_header(f),
        raw.len() == 20,
        all.len() == 20,
    ensures
        ({
            let g = with_digests(f, raw, all);
            &&& alike(f, g)
            &&& header::fields_at(g) == (header::Fields {
                raw_sha1: raw,
                sha1: all,
                ..header::fields_at(f)
            })
            &&& header::header_fault(g) is None
            &&& chdfile::map_of(g) == chdfile::map_of(f)
            &&& chdfile::opened(g, parent) == (Image { file: g, ..chdfile::opened(f, parent) })
        }),
{
    let g = with_digests(f, raw, all);
    let h = header::fields_at(f);
    let k = header::fields_at(g);
    assert(g.take(8) =~= f.take(8));
    assert(g.subrange(8, 12) =~= f.subrange(8, 12));
    assert(g.subrange(12, 16) =~= f.subrange(12, 16));
    assert(g.subrange(32, 40) =~= f.subrange(32, 40));
    assert(g.subrange(40, 48) =~= f.subrange(40, 48));
    assert(g.subrange(48, 56) =~= f.subrange(48, 56));
    assert(g.subrange(56, 60) =~= f.subrange(56, 60));
    assert(g.subrange(60, 64) =~= f.subrange(60, 64));
    assert(g.subrange(64, 84) =~= raw);
    assert(g.subrange(84, 104) =~= all);
    assert(g.subrange(104, 124) =~= f.subrange(104, 124));
    assert forall|i: int| 0 <= i < 4 implies #[trigger] k.compression[i] == h.compression[i] by {
        assert(g.subrange(16 + 4 * i, 16 + 4 * i + 4) =~= f.subrange(16 + 4 * i, 16 + 4 * i + 4));
    }
    assert(k.compression =~= h.compression);
    if h.map_offset <= f.len() {
        assert(g.skip(h.map_offset as int) =~= f.skip(h.map_offset as int));
    }
}

/// What a file with other digests gives to verifying.
proof fn lemma_verified_alike(
    f: Seq<u8>,
    raw: Seq<u8>,
    all: Seq<u8>,
    parent: Option<Box<Image>>,
    k: Header,
)
    requires
        behind_header(f),
        raw.len() == 20,
        all.len() == 20,
        chdfile::has_header(k, with_digests(f, raw, all)),
    ensures
        ({
            let fields = header::fields_at(f);
            let ns = metadata::list(f, fields.meta_offset).0;
            let img = chdfile::opened(f, parent);
            chdfile::verified(k, chdfile::opened(with_digests(f, raw, all), parent))
                == if !chdfile::all_held(f, ns) {
                Err(Error::ReadError)
            } else {
                match chdfile::gathered(img, fields.logical_bytes, img.count as nat) {
                    Err(e) => Err(e),
                    Ok((data, buf)) => Ok(
                        (
                            hash::digest(data),
                            metadata::overall(hash::digest(data), chdfile::metas_at(f, ns)),
                            raw,
                            all,
                        ),
                    ),
                }
            }
        }),
{
    let g = with_digests(f, raw, all);
    let a = chdfile::opened(f, parent);
    let b = chdfile::opened(g, parent);
    lemma_opened_alike(f, raw, all, parent);
    let fields = header::fields_at(f);
    assert(k.fields() == header::fields_at(g));
    assert(k.fields().compression[0] == fields.compression[0]);
    assert(k.fields().meta_offset == fields.meta_offset);
    assert(k.fields().logical_bytes == fields.logical_bytes);
    let ns = metadata::list(f, fields.meta_offset).0;
    lemma_nodes_alike(f, g, fields.meta_offset, f.len());
    assert(metadata::list(g, k.meta_offset as nat).0 == ns);
    assert(chdfile::all_held(g, ns) == chdfile::all_held(f, ns));
    if chdfile::all_held(f, ns) {
        assert forall|i: int| 0 <= i < ns.len() implies #[trigger] metadata::contents(g, ns[i])
            == metadata::contents(f, ns[i]) by {
            assert(metadata::holds_contents(f, ns[i]));
            assert(metadata::contents(g, ns[i]) =~= metadata::contents(f, ns[i]));
        }
        assert(chdfile::metas_at(g, ns) =~= chdfile::metas_at(f, ns));
    }
    lemma_gathered_alike(a, b, fields.logical_bytes, a.count as nat);
}

/// Verifying goes by the digests in the header: with others there it computes what it computed, and
/// expects the others. A digest that was right and is changed is then wrong.
pub proof fn changed_digests_are_noticed(
    f: Seq<u8>,
    raw: Seq<u8>,
    all: Seq<u8>,
    parent: Option<Box<Image>>,
    h: Header,
    k: Header,
)
    requires
        behind_header(f),
        raw.len() == 20,
        all.len() == 20,
        chdfile::has_header(h, f),
        chdfile::has_header(k, with_digests(f, raw, all)),
    ensures
        chdfile::verified(k, chdfile::opened(with_digests(f, raw, all), parent)) == match chdfile::verified(
            h,
            chdfile::opened(f, parent),
        ) {
            Ok((a, b, c, d)) => Ok((a, b, raw, all)),
            Err(e) => Err(e),
        },
{
    let fields = header::fields_at(f);
    lemma_verified_alike(f, raw, all, parent, k);
    assert(h.fields() == fields);
    assert(h.fields().compression[0] == fields.compression[0]);
    assert(h.fields().meta_offset == fields.meta_offset);
    assert(h.fields().logical_bytes == fields.logical_bytes);
}

/// A file that was written has what it holds behind its header.
#[verifier::spinoff_prover]
#[verifier::rlimit(60)]
proof fn lemma_written_behind(job: Job, outcomes: Seq<Outcomes>)
    requires
        crate::read_back::readable(job, outcomes),
        job.file(outcomes).len() <= u64::MAX,
        forall|i: int|
            0 <= i < job.metadata.len() ==> (#[trigger] job.metadata[i]).payload.len() < 0x100_0000,
    ensures
        behind_header(job.file(outcomes)),
{
    let f = job.file(outcomes);
    let w = job.written(outcomes, job.count());
    crate::read_back::lemma_opened(job, outcomes, None);
    crate::read_back::lemma_file(job, outcomes);
    crate::write::lemma_written(job, outcomes, job.count());
    assert(header::fields_at(f).compression[0] == job.codecs[0].spec_code());
    assert(chdfile::opened(f, None).map == MapModel::Packed(w.map));
    assert forall|i: int| 0 <= i < job.count() && (#[trigger] w.map[i]).kind <= COMPRESSION_NONE implies w.map[i].offset
        >= 124 by {
        assert(crate::write::entry_sound(job, w.map[i], i));
    }
    if job.metadata.len() > 0 {
        metadata_laws::blob_is_read_back(f, job.metadata, 124);
        let ns = metadata::list(f, 124).0;
        assert forall|i: int| 0 <= i < ns.len() implies (#[trigger] ns[i]).offset >= 124 by {
            metadata::lemma_entry_offset(job.metadata, 124, 0, i);
        }
    }
}

/// A file that was written does not verify once a digest in its header is another one: that of the
/// image is wrong unless it is the digest of the image, and the overall one unless it is the digest
/// of that and the metadata.
pub proof fn written_file_with_other_digests(
    job: Job,
    outcomes: Seq<Outcomes>,
    parent: Option<Box<Image>>,
    raw: Seq<u8>,
    all: Seq<u8>,
    k: Header,
)
    requires
        crate::read_back::readable(job, outcomes),
        crate::read_back::parent_serves(job, chdfile::opened(job.file(outcomes), parent)),
        job.file(outcomes).len() <= u64::MAX,
        forall|i: int|
            0 <= i < job.metadata.len() ==> (#[trigger] job.metadata[i]).payload.len() < 0x100_0000,
        raw.len() == 20,
        all.len() == 20,
        chdfile::has_header(k, with_digests(job.file(outcomes), raw, all)),
    ensures
        chdfile::verified(k, chdfile::opened(with_digests(job.file(outcomes), raw, all), parent)) == Ok::<
            (Seq<u8>, Seq<u8>, Seq<u8>, Seq<u8>),
            Error,
        >(
            (
                hash::digest(job.data),
                metadata::overall(hash::digest(job.data), job.metadata),
                raw,
                all,
            ),
        ),
{
    let f = job.file(outcomes);
    lemma_written_behind(job, outcomes);
    lemma_verified_alike(f, raw, all, parent, k);
    crate::read_back::image_is_read_back(job, outcomes, parent);
    crate::read_back::metadata_is_read_back(job, outcomes);
    crate::read_back::lemma_file(job, outcomes);
    let ns = metadata::list(f, header::fields_at(f).meta_offset).0;
    assert(ns == metadata_laws::places(f));
    assert(chdfile::metas_at(f, ns) =~= metadata_laws::listed(f));
}

/// A file with other metadata entries in the place of those that it starts with.
pub open spec fn with_metadata(f: Seq<u8>, ms: Seq<Meta>) -> Seq<u8> {
    let b = metadata::blob(ms, 124);
    f.take(124) + b + f.skip(124 + b.len() as int)
}

/// Whether two lists of metadata entries are as long, entry by entry.
pub open spec fn as_long(a: Seq<Meta>, b: Seq<Meta>) -> bool {
    &&& a.len() == b.len()
    &&& forall|i: int| 0 <= i < a.len() ==> (#[trigger] a[i]).payload.len() == b[i].payload.len()
}

proof fn lemma_offsets_as_long(a: Seq<Meta>, b: Seq<Meta>, i: int)
    requires
        as_long(a, b),
        i <= a.len(),
    ensures
        metadata::entry_offset(a, 124, i) == metadata::entry_offset(b, 124, i),
    decreases i,
{
    if i > 0 {
        lemma_offsets_as_long(a, b, i - 1);
        assert(a[i - 1].payload.len() == b[i - 1].payload.len());
    }
}

/// The hunks are stored alike with metadata that is as long.
proof fn lemma_written_as_long(job: Job, ms: Seq<Meta>, outcomes: Seq<Outcomes>, n: nat)
    requires
        as_long(ms, job.metadata),
    ensures
        (Job { metadata: ms, ..job }).written(outcomes, n) == job.written(outcomes, n),
    decreases n,
{
    if n > 0 {
        lemma_written_as_long(job, ms, outcomes, (n - 1) as nat);
        lemma_offsets_as_long(ms, job.metadata, ms.len() as int);
        let other = Job { metadata: ms, ..job };
        assert(other.hunk(n - 1) == job.hunk(n - 1));
        assert(other.parent_index() == job.parent_index());
        assert(other.start() == job.start());
    }
}

proof fn lemma_readable_as_long(job: Job, ms: Seq<Meta>, outcomes: Seq<Outcomes>)
    requires
        crate::read_back::readable(job, outcomes),
        as_long(ms, job.metadata),
    ensures
        crate::read_back::readable(Job { metadata: ms, ..job }, outcomes),
{
    let other = Job { metadata: ms, ..job };
    lemma_offsets_as_long(ms, job.metadata, ms.len() as int);
    lemma_written_as_long(job, ms, outcomes, job.count());
    assert(other.count() == job.count());
    assert forall|i: int| #![trigger other.hunk(i)] other.hunk(i) == job.hunk(i) by {}
    assert forall|i: int|
        0 <= i < outcomes.len() && other.is_stored(other.written(outcomes, i as nat), i) implies crate::write::may_come(
        other.codecs,
        other.hunk_bytes,
        other.hunk(i),
        #[trigger] outcomes[i],
    ) by {
        lemma_written_as_long(job, ms, outcomes, i as nat);
        assert(job.is_stored(job.written(outcomes, i as nat), i));
    }
    assert(other.may_come(outcomes));
    assert(crate::read_back::no_collision(other)) by {
        assert forall|i: int, j: int|
            0 <= i < other.count() && 0 <= j < other.count() && crate::write::key_of(
                #[trigger] other.hunk(i),
            ) == crate::write::key_of(#[trigger] other.hunk(j)) implies other.hunk(i) == other.hunk(j) by {
            assert(job.hunk(i) == other.hunk(i) && job.hunk(j) == other.hunk(j));
        }
    }
}

/// A header with another overall digest.
proof fn lemma_header_alike(h: header::Fields, all: Seq<u8>)
    requires
        h.fit(),
        all.len() == 20,
    ensures
        ({
            let k = header::v5_header(header::Fields { sha1: all, ..h });
            &&& header::v5_header(h).len() == 124
            &&& k.len() == 124
            &&& k == header::v5_header(h).take(64) + h.raw_sha1 + all + header::v5_header(h).skip(104)
        }),
{
    let other = header::Fields { sha1: all, ..h };
    header::lemma_v5_header_len(h);
    header::lemma_v5_header_len(other);
    let a = header::v5_header(h);
    let b = header::v5_header(other);
    assert(b =~= a.take(64) + h.raw_sha1 + all + a.skip(104));
}

/// Changed metadata is noticed: a file that was written, with other entries of the same lengths in
/// the place of its own, is expected to have the digest that covers its own entries, and verifying
/// computes the one that covers the others.
#[verifier::spinoff_prover]
#[verifier::rlimit(60)]
pub proof fn changed_metadata_is_noticed(
    job: Job,
    outcomes: Seq<Outcomes>,
    ms: Seq<Meta>,
    parent: Option<Box<Image>>,
    k: Header,
)
    requires
        crate::read_back::readable(job, outcomes),
        crate::read_back::parent_serves(job, chdfile::opened(job.file(outcomes), parent)),
        job.file(outcomes).len() <= u64::MAX,
        as_long(ms, job.metadata),
        forall|i: int|
            0 <= i < job.metadata.len() ==> (#[trigger] job.metadata[i]).payload.len() < 0x100_0000,
        chdfile::has_header(k, with_metadata(job.file(outcomes), ms)),
    ensures
        chdfile::verified(k, chdfile::opened(with_metadata(job.file(outcomes), ms), parent)) == Ok::<
            (Seq<u8>, Seq<u8>, Seq<u8>, Seq<u8>),
            Error,
        >(
            (
                hash::digest(job.data),
                metadata::overall(hash::digest(job.data), ms),
                hash::digest(job.data),
                metadata::overall(hash::digest(job.data), job.metadata),
            ),
        ),
{
    let other = Job { metadata: ms, ..job };
    let raw = hash::digest(job.data);
    let all = metadata::overall(raw, job.metadata);
    let f = job.file(outcomes);
    let g = other.file(outcomes);
    let w = job.written(outcomes, job.count());
    lemma_offsets_as_long(ms, job.metadata, ms.len() as int);
    lemma_written_as_long(job, ms, outcomes, job.count());
    lemma_readable_as_long(job, ms, outcomes);
    crate::read_back::lemma_fields_fit(job, outcomes);
    crate::read_back::lemma_fields_fit(other, outcomes);
    let fields = job.fields(w.stream.len());
    let others = other.fields(w.stream.len());
    assert(fields =~= (header::Fields { sha1: all, ..others }));
    lemma_header_alike(others, all);
    metadata::lemma_blob_len(job.metadata, 124, 0);
    metadata::lemma_blob_len(ms, 124, 0);
    let b = metadata::blob(ms, 124);
    assert(b.len() == metadata::blob(job.metadata, 124).len());
    let tail = w.stream + crate::map::packed_map(w.map, job.hunk_bytes, job.unit_bytes);
    assert(f =~= header::v5_header(fields) + metadata::blob(job.metadata, 124) + tail);
    assert(g =~= header::v5_header(others) + b + tail);
    assert(with_metadata(f, ms) =~= header::v5_header(fields) + b + tail);
    assert(with_digests(g, raw, all) =~= header::v5_header(fields) + b + tail);
    assert(g.len() == f.len());
    assert(crate::read_back::parent_serves(other, chdfile::opened(g, parent))) by {
        crate::read_back::lemma_opened(job, outcomes, parent);
        crate::read_back::lemma_opened(other, outcomes, parent);
        assert forall|i: int| #![trigger other.hunk(i)] other.hunk(i) == job.hunk(i) by {}
    }
    assert forall|i: int| 0 <= i < ms.len() implies (#[trigger] ms[i]).payload.len() < 0x100_0000 by {
        assert(ms[i].payload.len() == job.metadata[i].payload.len());
    }
    written_file_with_other_digests(other, outcomes, parent, raw, all, k);
}

/// A file whose header names no codec has no digests to verify.
pub proof fn plain_file_is_not_verified(h: Header, img: Image)
    requires
        h.compression@[0] == 0,
    ensures
        chdfile::verified(h, img) == Err::<(Seq<u8>, Seq<u8>, Seq<u8>, Seq<u8>), Error>(
            Error::UnsupportedFormat,
        ),
{
}

/// The header of a file that was written without compression names no codec.
#[verifier::spinoff_prover]
#[verifier::rlimit(60)]
pub proof fn plain_file_names_no_codec(p: PlainLayout, data: Seq<u8>, h: Header)
    requires
        crate::write::sizes_fit(p.hunk_bytes, p.unit_bytes),
        p.within_limits(),
        p.logical_bytes == data.len(),
        data.len() <= u64::MAX,
        h.fields() == header::fields_at(p.file(data)),
    ensures
        h.compression@[0] == 0,
{
    let none = header::no_digest();
    assert(header::fields_at(p.file(data)) == p.fields(none)) by {
        crate::read_back::lemma_plain_fields(p, data);
    }
    lemma_first_codec(h, p.fields(none));
    lemma_no_codec(p, none);
}

proof fn lemma_no_codec(p: PlainLayout, parent_sha1: Seq<u8>)
    ensures
        p.fields(parent_sha1).compression[0] == 0,
{
}

proof fn lemma_first_codec(h: Header, fields: header::Fields)
    requires
        h.fields() == fields,
    ensures
        h.compression@[0] == fields.compression[0],
{
}

} // verus!
