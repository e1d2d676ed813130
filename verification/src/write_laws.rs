//! What holds of every file that is written, and of every run that writes one.

use crate::compression::codecs;
use crate::hash;
use crate::header;
use crate::metadata;
use crate::hunk_index::HunkKey;
use crate::write::{Job, Outcomes};
use vstd::prelude::*;

verus! {

/// The reports of a run: one before each hunk, for the hunks that are done by then, and one at the
/// end. They start with nothing done and nothing stored, never go back, count whole hunks, and end
/// with the whole image and all that is stored. What is reported depends on the hunks that are done
/// and on nothing else.
pub proof fn reports_of_a_run(job: Job, outcomes: Seq<Outcomes>, i: nat, j: nat)
    requires
        job.fault() is None,
        outcomes.len() == job.count(),
        i <= j <= job.count(),
    ensures
        job.report(outcomes, 0) == (0nat, job.data.len(), 0nat),
        i < job.count() ==> job.report(outcomes, i).0 == i * job.hunk_bytes,
        i < job.count() ==> i * job.hunk_bytes < job.data.len(),
        job.report(outcomes, i).0 <= job.report(outcomes, j).0,
        job.report(outcomes, i).2 <= job.report(outcomes, j).2,
        job.report(outcomes, job.count()) == (
            job.data.len(),
            job.data.len(),
            job.written(outcomes, job.count()).stream.len(),
        ),
        job.report(outcomes.take(i as int), i) == job.report(outcomes, i),
{
    let hb = job.hunk_bytes as int;
    header::lemma_pieces(job.data.len(), job.hunk_bytes as nat);
    assert(0 * hb == 0) by (nonlinear_arith);
    if i < job.count() {
        assert(i * hb + hb <= job.count() * hb) by (nonlinear_arith)
            requires
                i + 1 <= job.count(),
                hb > 0,
        ;
    }
    assert(i * hb <= j * hb) by (nonlinear_arith)
        requires
            i <= j,
            hb > 0,
    ;
    lemma_stream_grows(job, outcomes, i, j);
    crate::write::lemma_written_prefix(job, outcomes.take(i as int), outcomes, i);
}

proof fn lemma_stream_grows(job: Job, outcomes: Seq<Outcomes>, i: nat, j: nat)
    requires
        i <= j,
    ensures
        job.written(outcomes, i).stream.len() <= job.written(outcomes, j).stream.len(),
    decreases j,
{
    if i < j {
        lemma_stream_grows(job, outcomes, i, (j - 1) as nat);
    }
}

/// Two runs of a job without FLAC come to the same.
proof fn lemma_same_written(job: Job, a: Seq<Outcomes>, b: Seq<Outcomes>, n: nat)
    requires
        n <= a.len(),
        n <= b.len(),
        job.may_come(a),
        job.may_come(b),
        forall|k: int| 0 <= k < job.codecs.len() ==> !codecs::uses_flac(#[trigger] job.codecs[k]),
    ensures
        job.written(a, n) == job.written(b, n),
    decreases n,
{
    if n > 0 {
        let i = n - 1;
        lemma_same_written(job, a, b, i as nat);
        if job.is_stored(job.written(a, i as nat), i) {
            assert(crate::write::may_come(job.codecs, job.hunk_bytes, job.hunk(i), a[i]));
            assert(crate::write::may_come(job.codecs, job.hunk_bytes, job.hunk(i), b[i]));
            assert forall|k: int| 0 <= k < job.codecs.len() implies #[trigger] a[i][k] == b[i][k] by {
                codecs::outcome_is_one(
                    job.codecs[k],
                    job.hunk_bytes,
                    job.hunk(i),
                    job.hunk_bytes as nat,
                    a[i][k],
                    b[i][k],
                );
            }
            assert(a[i] =~= b[i]);
        }
    }
}

/// Where no codec uses FLAC, one file comes out of a job, however often it is run and whatever is
/// done with the reports. With one codec it is the same whether the codec is given alone or as a
/// list of one.
pub proof fn one_file_without_flac(job: Job, f: Seq<u8>, g: Seq<u8>)
    requires
        job.may_write(f),
        job.may_write(g),
        forall|k: int| 0 <= k < job.codecs.len() ==> !codecs::uses_flac(#[trigger] job.codecs[k]),
    ensures
        f == g,
{
    let a = choose|o: Seq<Outcomes>|
        o.len() == job.count() && #[trigger] job.may_come(o) && f == job.file(o);
    let b = choose|o: Seq<Outcomes>|
        o.len() == job.count() && #[trigger] job.may_come(o) && g == job.file(o);
    lemma_same_written(job, a, b, job.count());
}

/// Every file holds the digest of its image and the overall digest. Without metadata the latter is
/// the digest of the former.
pub proof fn digests_of_a_file(job: Job, f: Seq<u8>)
    requires
        job.within_limits(),
        job.fault() is None,
        job.may_write(f),
    ensures
        f.len() >= 124,
        f.subrange(64, 84) == hash::digest(job.data),
        f.subrange(84, 104) == metadata::overall(hash::digest(job.data), job.metadata),
        job.metadata.len() == 0 ==> f.subrange(84, 104) == hash::digest(f.subrange(64, 84)),
{
    let o = choose|o: Seq<Outcomes>|
        o.len() == job.count() && #[trigger] job.may_come(o) && f == job.file(o);
    assert(header::fields_at(f) == job.fields(job.written(o, job.count()).stream.len())
        && header::header_fault(f) is None) by {
        crate::read_back::lemma_file(job, o);
    }
    if job.metadata.len() == 0 {
        assert(job.metadata =~= Seq::empty());
        metadata::overall_without_metadata(hash::digest(job.data));
    }
    assert(header::fields_at(f).raw_sha1 == hash::digest(job.data));
    assert(header::fields_at(f).sha1 == metadata::overall(hash::digest(job.data), job.metadata));
}

/// Of what several codecs make of a hunk and the hunk itself, none is shorter than what is kept, and
/// none that comes before it is as short. The hunk itself comes first.
pub proof fn kept_form_is_shortest(o: Outcomes, hunk: Seq<u8>, n: nat)
    requires
        n <= o.len(),
        n <= 4,
    ensures
        ({
            let (slot, kept) = crate::write::best_of(o, hunk, n);
            &&& slot <= 4
            &&& kept.len() <= hunk.len()
            &&& forall|k: int|
                0 <= k < n ==> (#[trigger] o[k] matches Some(s) ==> kept.len() <= s.len())
            &&& slot < 4 ==> slot < n && o[slot as int] == Some(kept) && kept.len() < hunk.len()
            &&& slot < 4 ==> forall|k: int|
                0 <= k < slot ==> (#[trigger] o[k] matches Some(s) ==> kept.len() < s.len())
            &&& slot == 4 ==> kept == hunk
        }),
    decreases n,
{
    if n > 0 {
        kept_form_is_shortest(o, hunk, (n - 1) as nat);
    }
}

/// A hunk that is stored is stored in its shortest form: no codec of the list makes it shorter than
/// the bytes in the file, and those are no longer than the hunk. Of several slots that make it as
/// short the first one is kept, and the hunk is kept as it is where none makes it shorter. The entry
/// in the map says which slot it is, with 4 for the hunk as it is, how long the stored form is, where
/// it is, and which checksum the hunk has.
pub proof fn stored_hunk_is_shortest(job: Job, outcomes: Seq<Outcomes>, i: int)
    requires
        job.within_limits(),
        job.fault() is None,
        job.may_come(outcomes),
        outcomes.len() == job.count(),
        job.hunk_bytes < 0x100_0000,
        0 <= i < job.count(),
        job.written(outcomes, job.count()).map[i].kind <= 4,
    ensures
        ({
            let e = job.written(outcomes, job.count()).map[i];
            let f = job.file(outcomes);
            let bytes = f.subrange(e.offset as int, e.offset + e.length);
            &&& outcomes[i].len() == job.codecs.len()
            &&& e.offset + e.length <= f.len()
            &&& e.crc == hash::crc16_of(job.hunk(i))
            &&& e.length <= job.hunk_bytes
            &&& forall|k: int|
                0 <= k < job.codecs.len() ==> {
                    &&& codecs::encoder_outcome(
                        job.codecs[k],
                        job.hunk_bytes,
                        job.hunk(i),
                        job.hunk_bytes as nat,
                        #[trigger] outcomes[i][k],
                    )
                    &&& outcomes[i][k] matches Some(s) ==> e.length <= s.len()
                }
            &&& e.kind < 4 ==> e.kind < job.codecs.len() && outcomes[i][e.kind as int] == Some(bytes)
                && e.length < job.hunk_bytes
            &&& e.kind < 4 ==> forall|k: int|
                0 <= k < e.kind ==> (#[trigger] outcomes[i][k] matches Some(s) ==> e.length < s.len())
            &&& e.kind == 4 ==> bytes == job.hunk(i)
        }),
{
    let n = job.count();
    let e = job.written(outcomes, n).map[i];
    let f = job.file(outcomes);
    crate::read_back::lemma_part(job, outcomes, i);
    lemma_stored_place(job, outcomes, i);
    assert(crate::write::may_come(job.codecs, job.hunk_bytes, job.hunk(i), outcomes[i]));
    kept_form_is_shortest(outcomes[i], job.hunk(i), job.codecs.len());
    assert(f.subrange(e.offset as int, e.offset + e.length).len() == e.length);
    lemma_entry_kept(job, outcomes, i + 1, n, i);
}

/// Where a stored hunk ends.
#[verifier::spinoff_prover]
#[verifier::rlimit(60)]
proof fn lemma_stored_place(job: Job, outcomes: Seq<Outcomes>, i: int)
    requires
        job.within_limits(),
        job.fault() is None,
        outcomes.len() == job.count(),
        job.hunk_bytes < 0x100_0000,
        0 <= i < job.count(),
        job.written(outcomes, job.count()).map[i].kind <= 4,
    ensures
        ({
            let e = job.written(outcomes, job.count()).map[i];
            e.offset + e.length <= job.file(outcomes).len()
        }),
{
    let n = job.count();
    let e = job.written(outcomes, n).map[i];
    let w = job.written(outcomes, i as nat);
    let v = job.written(outcomes, (i + 1) as nat);
    crate::read_back::lemma_part(job, outcomes, i);
    crate::read_back::lemma_file(job, outcomes);
    lemma_entry_kept(job, outcomes, i + 1, n, i);
    lemma_stream_grows(job, outcomes, (i + 1) as nat, n);
    crate::write::lemma_written(job, outcomes, i as nat);
    crate::write::lemma_room(job, i as nat);
    assert(v == job.step(w, i, outcomes[i]));
}

/// Entries of the map stay as they are.
proof fn lemma_entry_kept(job: Job, outcomes: Seq<Outcomes>, a: int, b: nat, i: int)
    requires
        job.within_limits(),
        job.fault() is None,
        0 <= i < a <= b <= job.count(),
    ensures
        job.written(outcomes, b).map[i] == job.written(outcomes, a as nat).map[i],
        job.written(outcomes, a as nat).map[a - 1] == job.step(
            job.written(outcomes, (a - 1) as nat),
            a - 1,
            outcomes[a - 1],
        ).map.last(),
    decreases b,
{
    crate::write::lemma_written(job, outcomes, b);
    crate::write::lemma_written(job, outcomes, (b - 1) as nat);
    crate::write::lemma_written(job, outcomes, a as nat);
    if a < b {
        lemma_entry_kept(job, outcomes, a, (b - 1) as nat, i);
    }
}

/// What the index of stored hunks holds: the first hunk of each key that the parent has not.
proof fn lemma_index(job: Job, outcomes: Seq<Outcomes>, n: nat)
    requires
        job.within_limits(),
        job.fault() is None,
        n <= job.count(),
    ensures
        forall|k: HunkKey| #[trigger]
            job.written(outcomes, n).index.contains_key(k) ==> {
                let j = job.written(outcomes, n).index[k] as int;
                &&& 0 <= j < n
                &&& crate::write::key_of(job.hunk(j)) == k
                &&& !job.parent_index().contains_key(k)
                &&& job.written(outcomes, n).map[j].kind <= 4
                &&& forall|i: int| 0 <= i < j ==> crate::write::key_of(#[trigger] job.hunk(i)) != k
            },
        forall|i: int|
            0 <= i < n && !job.parent_index().contains_key(crate::write::key_of(#[trigger] job.hunk(i)))
                ==> job.written(outcomes, n).index.contains_key(crate::write::key_of(job.hunk(i))),
    decreases n,
{
    if n > 0 {
        let m = (n - 1) as nat;
        lemma_index(job, outcomes, m);
        crate::write::lemma_written(job, outcomes, m);
        crate::write::lemma_written(job, outcomes, n);
        crate::write::lemma_best_of_bound(outcomes[n - 1], job.hunk(n - 1), job.codecs.len());
        let w = job.written(outcomes, m);
        let v = job.written(outcomes, n);
        assert(v == job.step(w, n - 1, outcomes[n - 1]));
        assert forall|k: HunkKey| #[trigger] v.index.contains_key(k) implies ({
            let j = v.index[k] as int;
            &&& 0 <= j < n
            &&& crate::write::key_of(job.hunk(j)) == k
            &&& !job.parent_index().contains_key(k)
            &&& v.map[j].kind <= 4
            &&& forall|i: int| 0 <= i < j ==> crate::write::key_of(#[trigger] job.hunk(i)) != k
        }) by {
            if w.index.contains_key(k) {
                assert(v.map[v.index[k] as int] == w.map[w.index[k] as int]);
            }
        }
    }
}

/// Each hunk is stored once. A hunk whose checksum and digest are those of an earlier hunk is not
/// stored: its entry names the first such hunk, which is stored, or the same place in the parent as
/// the entry of that one. A hunk that the parent has is not stored either. Every other hunk is.
pub proof fn hunks_are_stored_once(job: Job, outcomes: Seq<Outcomes>, i: int)
    requires
        job.within_limits(),
        job.fault() is None,
        0 <= i < job.count(),
    ensures
        ({
            let m = job.written(outcomes, job.count()).map;
            let in_parent = job.parent_index().contains_key(crate::write::key_of(job.hunk(i)));
            &&& m.len() == job.count()
            &&& in_parent ==> m[i].kind == 6 && m[i].offset == job.parent_index()[crate::write::key_of(job.hunk(i))]
            &&& !in_parent && (forall|j: int|
                0 <= j < i ==> crate::write::key_of(#[trigger] job.hunk(j)) != crate::write::key_of(job.hunk(i))) ==> m[i].kind <= 4
            &&& !in_parent ==> forall|j: int|
                0 <= j < i && crate::write::key_of(#[trigger] job.hunk(j)) == crate::write::key_of(job.hunk(i)) ==> {
                    &&& m[i].kind == 5
                    &&& m[i].offset <= j
                    &&& crate::write::key_of(job.hunk(m[i].offset as int)) == crate::write::key_of(job.hunk(i))
                    &&& m[m[i].offset as int].kind <= 4
                    &&& m[j].kind <= 4 <==> m[i].offset == j
                }
        }),
{
    let n = job.count();
    let m = job.written(outcomes, n).map;
    let w = job.written(outcomes, i as nat);
    let key = crate::write::key_of(job.hunk(i));
    crate::write::lemma_written(job, outcomes, n);
    crate::write::lemma_best_of_bound(outcomes[i], job.hunk(i), job.codecs.len());
    lemma_entry_kept(job, outcomes, i + 1, n, i);
    lemma_index(job, outcomes, i as nat);
    if !job.parent_index().contains_key(key) {
        assert forall|j: int| 0 <= j < i && crate::write::key_of(#[trigger] job.hunk(j)) == key implies {
            &&& m[i].kind == 5
            &&& m[i].offset <= j
            &&& crate::write::key_of(job.hunk(m[i].offset as int)) == key
            &&& m[m[i].offset as int].kind <= 4
            &&& m[j].kind <= 4 <==> m[i].offset == j
        } by {
            assert(w.index.contains_key(key));
            let first = w.index[key] as int;
            lemma_index(job, outcomes, j as nat);
            lemma_entry_kept(job, outcomes, j + 1, n, j);
            lemma_entry_kept(job, outcomes, i + 1, n, first);
            lemma_entry_kept(job, outcomes, i, (i + 1) as nat, first);
            crate::write::lemma_best_of_bound(outcomes[j], job.hunk(j), job.codecs.len());
            if first < j {
                assert(crate::write::key_of(job.hunk(first)) == key);
                assert(job.written(outcomes, j as nat).index.contains_key(key));
            }
        }
    }
}

/// The hunks of an image follow each other without gaps, and the last one is filled up with zeros.
pub proof fn hunks_cut_the_image(job: Job, p: int)
    requires
        job.fault() is None,
        0 <= p < job.count() * job.hunk_bytes,
    ensures
        0 <= p / job.hunk_bytes as int,
        p / (job.hunk_bytes as int) < job.count(),
        job.hunk(p / job.hunk_bytes as int).len() == job.hunk_bytes,
        job.hunk(p / job.hunk_bytes as int)[p % job.hunk_bytes as int] == if p < job.data.len() {
            job.data[p]
        } else {
            0
        },
        job.data.len() <= job.count() * job.hunk_bytes < job.data.len() + job.hunk_bytes,
{
    let hb = job.hunk_bytes as int;
    header::lemma_pieces(job.data.len(), job.hunk_bytes as nat);
    vstd::arithmetic::div_mod::lemma_fundamental_div_mod(p, hb);
    vstd::arithmetic::div_mod::lemma_div_pos_is_pos(p, hb);
    assert(p / hb < job.count()) by (nonlinear_arith)
        requires
            p < job.count() * hb,
            p == hb * (p / hb) + p % hb,
            0 <= p % hb < hb,
    ;
    assert((p / hb) * hb == hb * (p / hb)) by (nonlinear_arith);
}

/// The windows of a parent: each piece of the size of a hunk that starts at a unit and lies within
/// the hunks of the parent is found by its checksum and digest, at the first such place.
pub proof fn windows_are_complete(img: Seq<u8>, hunk_bytes: u32, unit_bytes: u32, n: nat, p: int)
    requires
        0 <= p < n <= u32::MAX,
    ensures
        ({
            let key = crate::write::key_of(img.subrange(p * unit_bytes, p * unit_bytes + hunk_bytes));
            let ws = crate::write::windows(img, hunk_bytes, unit_bytes, n);
            &&& ws.contains_key(key)
            &&& ws[key] <= p
            &&& crate::write::key_of(img.subrange(ws[key] * unit_bytes, ws[key] * unit_bytes + hunk_bytes)) == key
        }),
    decreases n,
{
    let m = (n - 1) as nat;
    let key = crate::write::key_of(img.subrange(p * unit_bytes, p * unit_bytes + hunk_bytes));
    if p < m {
        windows_are_complete(img, hunk_bytes, unit_bytes, m, p);
    } else {
        let ws = crate::write::windows(img, hunk_bytes, unit_bytes, m);
        lemma_windows_below(img, hunk_bytes, unit_bytes, m, key);
    }
}

proof fn lemma_windows_below(img: Seq<u8>, hunk_bytes: u32, unit_bytes: u32, n: nat, key: HunkKey)
    requires
        n <= u32::MAX,
    ensures
        crate::write::windows(img, hunk_bytes, unit_bytes, n).contains_key(key) ==> {
            let q = crate::write::windows(img, hunk_bytes, unit_bytes, n)[key];
            &&& q < n
            &&& crate::write::key_of(img.subrange(q * unit_bytes, q * unit_bytes + hunk_bytes)) == key
        },
    decreases n,
{
    if n > 0 {
        lemma_windows_below(img, hunk_bytes, unit_bytes, (n - 1) as nat, key);
    }
}

/// A window at each unit from which a whole hunk is left, and at no other.
pub proof fn windows_at_all_units(hunk_bytes: u32, unit_bytes: u32, hunk_count: u32, p: int)
    requires
        hunk_bytes > 0,
        unit_bytes > 0,
        hunk_bytes % unit_bytes == 0,
        0 <= p,
    ensures
        p < crate::write::window_count(hunk_bytes, unit_bytes, hunk_count) <==> p * unit_bytes + hunk_bytes
            <= hunk_count * hunk_bytes,
{
    let r = (hunk_bytes / unit_bytes) as int;
    let u = unit_bytes as int;
    let h = hunk_bytes as int;
    let c = hunk_count as int;
    vstd::arithmetic::div_mod::lemma_fundamental_div_mod(h, u);
    assert(h == u * r);
    if c > 0 {
        let last = (c - 1) * r;
        assert((c - 1) * h == last * u) by (nonlinear_arith)
            requires
                h == u * r,
                last == (c - 1) * r,
        ;
        assert(c * h == (c - 1) * h + h) by (nonlinear_arith);
        assert(p <= last <==> p * u <= last * u) by (nonlinear_arith)
            requires
                u > 0,
        ;
    } else {
        assert(p * u >= 0) by (nonlinear_arith)
            requires
                p >= 0,
                u > 0,
        ;
        assert(c * h == 0) by (nonlinear_arith)
            requires
                c == 0,
        ;
    }
}

} // verus!
