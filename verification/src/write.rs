//! Writing files of version 5.

use crate::bytes;
use crate::bytes::{push_be, round_up};
use crate::compression::codecs;
use crate::compression::codecs::Encoder;
use crate::error::Error;
use crate::hash;
use crate::hash::{crc16, sha1_digest};
use crate::header;
use crate::header::{push_header, CodecType};
use crate::hunk_index::{HunkIndex, HunkKey};
use crate::map::{compress_v5_map, RawEntry, COMPRESSION_NONE, COMPRESSION_PARENT, COMPRESSION_SELF};
use crate::metadata;
use crate::metadata::{build_metadata_blob, compute_overall_sha1, Meta, MetaEntry};
use vstd::prelude::*;

verus! {

/// The number of leading slots that name a codec.
pub open spec fn slots_in_use(slots: Seq<u32>, k: int) -> int
    decreases slots.len() - k,
{
    if 0 <= k < slots.len() && slots[k] != 0 {
        slots_in_use(slots, k + 1)
    } else {
        k
    }
}

/// Whether the list of codecs goes on behind an empty slot.
pub open spec fn has_gap(slots: Seq<u32>) -> bool {
    exists|k: int| slots_in_use(slots, 0) <= k < slots.len() && #[trigger] slots[k] != 0
}

/// Whether every slot in use names a codec.
pub open spec fn all_known(slots: Seq<u32>) -> bool {
    forall|k: int| 0 <= k < slots_in_use(slots, 0) ==> CodecType::named(#[trigger] slots[k]) is Some
}

/// The codecs that leading slots name.
pub open spec fn resolved(slots: Seq<u32>) -> Seq<CodecType> {
    Seq::new(slots_in_use(slots, 0) as nat, |k: int| CodecType::named(slots[k])->0)
}

/// What is wrong with slots, if anything.
pub open spec fn slots_fault(slots: Seq<u32>) -> Option<Error> {
    if !all_known(slots) {
        Some(Error::UnsupportedFormat)
    } else if has_gap(slots) {
        Some(Error::InvalidParameter)
    } else {
        None
    }
}

/// Looks up the codecs of the leading slots that are in use. A slot in use behind an empty one is
/// refused.
pub fn resolve_codecs(slots: &[u32; 4]) -> (r: Result<Vec<CodecType>, Error>)
    ensures
        match r {
            Ok(v) => slots_fault(slots@) is None && v@ == resolved(slots@),
            Err(e) => slots_fault(slots@) == Some(e),
        },
{
    let mut out: Vec<CodecType> = Vec::new();
    let mut n: usize = 0;
    while n < 4 && slots[n] != 0
        invariant
            n <= 4,
            out@.len() == n,
            slots_in_use(slots@, 0) == slots_in_use(slots@, n as int),
            forall|k: int| 0 <= k < n ==> CodecType::named(slots@[k]) == Some(#[trigger] out@[k]),
        decreases 4 - n,
    {
        proof {
            lemma_slots_in_use(slots@, n + 1);
        }
        match CodecType::from_u32(slots[n]) {
            None => {
                assert(CodecType::named(slots@[n as int]) is None);
                return Err(Error::UnsupportedFormat);
            },
            Some(c) => {
                out.push(c);
            },
        }
        n = n + 1;
    }
    assert(slots_in_use(slots@, 0) == n);
    assert forall|k: int| 0 <= k < n implies CodecType::named(#[trigger] slots@[k]) is Some by {
        let c = out@[k];
    }
    assert(out@ =~= resolved(slots@));
    let mut k: usize = n;
    while k < 4
        invariant
            n <= k <= 4,
            slots_in_use(slots@, 0) == n,
            all_known(slots@),
            out@ == resolved(slots@),
            forall|j: int| n <= j < k ==> slots@[j] == 0,
        decreases 4 - k,
    {
        if slots[k] != 0 {
            return Err(Error::InvalidParameter);
        }
        k = k + 1;
    }
    Ok(out)
}

proof fn lemma_slots_in_use(slots: Seq<u32>, k: int)
    requires
        0 <= k <= slots.len(),
    ensures
        k <= slots_in_use(slots, k) <= slots.len(),
    decreases slots.len() - k,
{
    if k < slots.len() && slots[k] != 0 {
        lemma_slots_in_use(slots, k + 1);
    }
}

/// Hunk `i` of an image, with zeros behind the end of the image.
pub open spec fn hunk_at(data: Seq<u8>, hunk_bytes: nat, i: int) -> Seq<u8> {
    Seq::new(
        hunk_bytes,
        |k: int|
            if i * hunk_bytes + k < data.len() {
                data[i * hunk_bytes + k]
            } else {
                0u8
            },
    )
}

/// What tells a hunk apart.
pub open spec fn key_of(hunk: Seq<u8>) -> HunkKey {
    (hash::crc16_of(hunk), hash::digest(hunk))
}

/// What each codec made of a hunk, by slot; nothing where a codec gave up.
pub type Outcomes = Seq<Option<Seq<u8>>>;

/// The shortest of the first `n` outcomes and its slot, where it is shorter than the hunk; of two of
/// one length the earlier. The hunk itself, and the kind for it, where there is none.
pub open spec fn best_of(outcomes: Outcomes, hunk: Seq<u8>, n: nat) -> (u8, Seq<u8>)
    decreases n,
{
    if n == 0 {
        (COMPRESSION_NONE, hunk)
    } else {
        let best = best_of(outcomes, hunk, (n - 1) as nat);
        match outcomes[n - 1] {
            Some(s) => if s.len() < best.1.len() {
                ((n - 1) as u8, s)
            } else {
                best
            },
            None => best,
        }
    }
}

/// Whether the codecs may make of a hunk what is said.
pub open spec fn may_come(codecs: Seq<CodecType>, hunk_bytes: u32, hunk: Seq<u8>, o: Outcomes) -> bool {
    &&& o.len() == codecs.len()
    &&& forall|k: int|
        0 <= k < codecs.len() ==> codecs::encoder_outcome(
            codecs[k],
            hunk_bytes,
            hunk,
            hunk_bytes as nat,
            #[trigger] o[k],
        )
}

/// What has been written of an image: the map, the stored hunks, and the index of the stored hunks.
pub struct Written {
    pub map: Seq<RawEntry>,
    pub stream: Seq<u8>,
    pub index: Map<HunkKey, u64>,
}

/// What is to be written.
pub struct Job {
    pub data: Seq<u8>,
    pub hunk_bytes: u32,
    pub unit_bytes: u32,
    pub codecs: Seq<CodecType>,
    pub metadata: Seq<Meta>,
    /// The index of the parent's windows, and the digest of the parent.
    pub parent: Option<(Map<HunkKey, u64>, Seq<u8>)>,
}

/// The first codec from `k` on that cannot compress hunks of the given size.
pub open spec fn unfit_codec(codecs: Seq<CodecType>, hunk_bytes: u32, k: int) -> Option<CodecType>
    decreases codecs.len() - k,
{
    if k < 0 || k >= codecs.len() {
        None
    } else if !codecs::can_encode(codecs[k], hunk_bytes) {
        Some(codecs[k])
    } else {
        unfit_codec(codecs, hunk_bytes, k + 1)
    }
}

/// Whether the sizes of hunks and units fit together.
pub open spec fn sizes_fit(hunk_bytes: u32, unit_bytes: u32) -> bool {
    hunk_bytes > 0 && unit_bytes > 0 && hunk_bytes % unit_bytes == 0
}

impl Job {
    /// The number of hunks.
    pub open spec fn count(self) -> nat {
        header::pieces(self.data.len(), self.hunk_bytes as nat)
    }

    /// Where the stored hunks start: behind the header and the metadata.
    pub open spec fn start(self) -> nat {
        metadata::entry_offset(self.metadata, 124, self.metadata.len() as int)
    }

    /// What is wrong with the job, if anything.
    pub open spec fn fault(self) -> Option<Error> {
        if !sizes_fit(self.hunk_bytes, self.unit_bytes) {
            Some(Error::InvalidParameter)
        } else if self.codecs.len() == 0 || self.codecs.len() > 4 {
            Some(Error::InvalidParameter)
        } else {
            match unfit_codec(self.codecs, self.hunk_bytes, 0) {
                Some(c) => Some(codecs::encoder_error(c)),
                None => None,
            }
        }
    }

    /// Whether the sizes stay within what the format can hold and the codecs can be given.
    pub open spec fn within_limits(self) -> bool {
        &&& self.start() + self.data.len() + self.hunk_bytes < 0x1_0000_0000_0000
        &&& self.hunk_bytes > 0 ==> 2 * self.count() <= u32::MAX
        &&& forall|k: int|
            0 <= k < self.codecs.len() ==> codecs::encoder_takes(
                #[trigger] self.codecs[k],
                self.hunk_bytes,
            )
        &&& self.parent matches Some(p) ==> p.1.len() == 20 && forall|k: HunkKey| #[trigger]
            p.0.contains_key(k) ==> p.0[k] <= u32::MAX
    }

    /// The hunks of the parent.
    pub open spec fn parent_index(self) -> Map<HunkKey, u64> {
        match self.parent {
            Some(p) => p.0,
            None => Map::empty(),
        }
    }

    /// The digest of the parent.
    pub open spec fn parent_sha1(self) -> Seq<u8> {
        match self.parent {
            Some(p) => p.1,
            None => header::no_digest(),
        }
    }

    /// Hunk `i`.
    pub open spec fn hunk(self, i: int) -> Seq<u8> {
        hunk_at(self.data, self.hunk_bytes as nat, i)
    }

    /// Whether hunk `i` has to be stored: it is neither like a stored hunk nor like a part of the
    /// parent.
    pub open spec fn is_stored(self, w: Written, i: int) -> bool {
        !w.index.contains_key(key_of(self.hunk(i))) && !self.parent_index().contains_key(
            key_of(self.hunk(i)),
        )
    }

    /// What has been written once hunk `i` is too.
    pub open spec fn step(self, w: Written, i: int, o: Outcomes) -> Written {
        let key = key_of(self.hunk(i));
        if w.index.contains_key(key) {
            let e = RawEntry { kind: COMPRESSION_SELF, length: 0, offset: w.index[key], crc: 0 };
            Written { map: w.map.push(e), ..w }
        } else if self.parent_index().contains_key(key) {
            let e = RawEntry {
                kind: COMPRESSION_PARENT,
                length: 0,
                offset: self.parent_index()[key],
                crc: 0,
            };
            Written { map: w.map.push(e), ..w }
        } else {
            let best = best_of(o, self.hunk(i), self.codecs.len());
            let e = RawEntry {
                kind: best.0,
                length: (best.1.len() % 0x100_0000) as u32,
                offset: (self.start() + w.stream.len()) as u64,
                crc: key.0,
            };
            Written {
                map: w.map.push(e),
                stream: w.stream + best.1,
                index: w.index.insert(key, i as u64),
            }
        }
    }

    /// What has been written of the first `n` hunks.
    pub open spec fn written(self, outcomes: Seq<Outcomes>, n: nat) -> Written
        decreases n,
    {
        if n == 0 {
            Written { map: Seq::empty(), stream: Seq::empty(), index: Map::empty() }
        } else {
            self.step(self.written(outcomes, (n - 1) as nat), n - 1, outcomes[n - 1])
        }
    }

    /// Whether the codecs may make of the hunks that have to be stored what is said.
    pub open spec fn may_come(self, outcomes: Seq<Outcomes>) -> bool {
        forall|i: int|
            0 <= i < outcomes.len() && self.is_stored(self.written(outcomes, i as nat), i) ==> may_come(
                self.codecs,
                self.hunk_bytes,
                self.hunk(i),
                #[trigger] outcomes[i],
            )
    }

    /// What is reported once the first `i` hunks are done: the bytes of the image that are done, all
    /// its bytes, and the bytes that are stored.
    pub open spec fn report(self, outcomes: Seq<Outcomes>, i: nat) -> (nat, nat, nat) {
        (
            if i * self.hunk_bytes < self.data.len() {
                (i * self.hunk_bytes) as nat
            } else {
                self.data.len()
            },
            self.data.len(),
            self.written(outcomes, i).stream.len(),
        )
    }

    /// The header of the file.
    pub open spec fn fields(self, stream_len: nat) -> header::Fields {
        header::Fields {
            compression: Seq::new(
                4,
                |k: int|
                    if k < self.codecs.len() {
                        self.codecs[k].spec_code()
                    } else {
                        0
                    },
            ),
            logical_bytes: self.data.len(),
            map_offset: self.start() + stream_len,
            meta_offset: if self.metadata.len() == 0 {
                0
            } else {
                124
            },
            hunk_bytes: self.hunk_bytes as nat,
            unit_bytes: self.unit_bytes as nat,
            raw_sha1: hash::digest(self.data),
            sha1: metadata::overall(hash::digest(self.data), self.metadata),
            parent_sha1: self.parent_sha1(),
        }
    }

    /// The file: header, metadata, stored hunks, map.
    pub open spec fn file(self, outcomes: Seq<Outcomes>) -> Seq<u8> {
        let w = self.written(outcomes, self.count());
        header::v5_header(self.fields(w.stream.len())) + metadata::blob(self.metadata, 124) + w.stream
            + crate::map::packed_map(w.map, self.hunk_bytes, self.unit_bytes)
    }
}

/// The window of the size of a hunk that starts at unit `p` of an image.
pub open spec fn window_at(img: Seq<u8>, hunk_bytes: u32, unit_bytes: u32, p: int) -> Seq<u8> {
    img.subrange(p * unit_bytes, p * unit_bytes + hunk_bytes)
}

/// The first `n` windows of an image, by their checksums. The first of several alike counts.
pub open spec fn windows(img: Seq<u8>, hunk_bytes: u32, unit_bytes: u32, n: nat) -> Map<HunkKey, u64>
    decreases n,
{
    if n == 0 {
        Map::empty()
    } else {
        let before = windows(img, hunk_bytes, unit_bytes, (n - 1) as nat);
        let key = key_of(window_at(img, hunk_bytes, unit_bytes, n - 1));
        if before.contains_key(key) {
            before
        } else {
            before.insert(key, (n - 1) as u64)
        }
    }
}

/// The number of windows: one at each unit, up to the first unit of the last hunk.
pub open spec fn window_count(hunk_bytes: u32, unit_bytes: u32, hunk_count: u32) -> nat {
    if hunk_count == 0 {
        0
    } else {
        ((hunk_count - 1) * (hunk_bytes / unit_bytes) + 1) as nat
    }
}

/// The windows of a parent by their checksums, and the digest of the parent.
pub struct ParentRef {
    index: HunkIndex,
    sha1: [u8; 20],
}

impl ParentRef {
    pub closed spec fn wf(&self) -> bool {
        self.index.wf()
    }

    /// The windows by their checksums.
    pub closed spec fn index(&self) -> Map<HunkKey, u64> {
        self.index@
    }

    /// The digest of the parent.
    pub closed spec fn sha1(&self) -> Seq<u8> {
        self.sha1@
    }
}

proof fn lemma_window_fits(hunk_bytes: u32, unit_bytes: u32, hunk_count: u32, p: int)
    requires
        sizes_fit(hunk_bytes, unit_bytes),
        0 <= p < window_count(hunk_bytes, unit_bytes, hunk_count),
    ensures
        0 <= p * unit_bytes,
        p * unit_bytes + hunk_bytes <= hunk_count * hunk_bytes,
{
    let uph = (hunk_bytes / unit_bytes) as int;
    vstd::arithmetic::div_mod::lemma_fundamental_div_mod(hunk_bytes as int, unit_bytes as int);
    assert(p * unit_bytes <= ((hunk_count - 1) * uph) * unit_bytes) by (nonlinear_arith)
        requires
            0 <= p <= (hunk_count - 1) * uph,
            unit_bytes > 0,
    ;
    assert(((hunk_count - 1) * uph) * unit_bytes == (hunk_count - 1) * hunk_bytes)
        by (nonlinear_arith)
        requires
            unit_bytes * uph == hunk_bytes,
    ;
    assert((hunk_count - 1) * hunk_bytes == hunk_count * hunk_bytes - hunk_bytes) by (nonlinear_arith);
    assert(0 <= p * unit_bytes) by (nonlinear_arith)
        requires
            0 <= p,
    ;
}

/// Looks up every window of the parent's image, which is padded to whole hunks.
pub fn build_parent_ref(
    padded_img: &[u8],
    hunk_bytes: u32,
    unit_bytes: u32,
    hunk_count: u32,
    sha1: [u8; 20],
) -> (r: ParentRef)
    requires
        sizes_fit(hunk_bytes, unit_bytes),
        padded_img@.len() == hunk_count * hunk_bytes,
    ensures
        r.wf(),
        r.index() == windows(
            padded_img@,
            hunk_bytes,
            unit_bytes,
            window_count(hunk_bytes, unit_bytes, hunk_count),
        ),
        r.sha1() == sha1@,
{
    let uph: u32 = hunk_bytes / unit_bytes;
    let size = padded_img.len();
    let mut index = HunkIndex::new();
    if hunk_count > 0 {
        assert((hunk_count - 1) * uph <= 0xffff_fffe * 0xffff_ffff) by (nonlinear_arith)
            requires
                hunk_count > 0,
        ;
        let total: u64 = (hunk_count as u64 - 1) * uph as u64 + 1;
        let mut pos: u64 = 0;
        while pos < total
            invariant
                pos <= total,
                total == window_count(hunk_bytes, unit_bytes, hunk_count),
                sizes_fit(hunk_bytes, unit_bytes),
                size == padded_img@.len() == hunk_count * hunk_bytes,
                index.wf(),
                index@ == windows(padded_img@, hunk_bytes, unit_bytes, pos as nat),
            decreases total - pos,
        {
            proof {
                lemma_window_fits(hunk_bytes, unit_bytes, hunk_count, pos as int);
                assert(pos <= pos * unit_bytes) by (nonlinear_arith)
                    requires
                        unit_bytes >= 1,
                ;
            }
            let at: usize = pos as usize * unit_bytes as usize;
            let window = &padded_img[at..at + hunk_bytes as usize];
            assert(window@ =~= window_at(padded_img@, hunk_bytes, unit_bytes, pos as int));
            let crc = crc16(window);
            let digest = sha1_digest(window);
            if index.get(crc, &digest).is_none() {
                index.insert(crc, &digest, pos);
            }
            pos = pos + 1;
        }
    }
    ParentRef { index, sha1 }
}

/// How far a job has come.
#[derive(Debug, Clone, Copy, PartialEq, Eq, Structural)]
pub struct Progress {
    /// The bytes of the image that are done.
    pub bytes_done: u64,
    /// The bytes of the image.
    pub bytes_total: u64,
    /// The bytes of the stored hunks.
    pub bytes_stored: u64,
}

impl View for Progress {
    type V = (nat, nat, nat);

    open spec fn view(&self) -> (nat, nat, nat) {
        (self.bytes_done as nat, self.bytes_total as nat, self.bytes_stored as nat)
    }
}

/// An image that is being compressed, hunk by hunk.
pub struct Compressor<'a> {
    data: &'a [u8],
    hunk_bytes: u32,
    unit_bytes: u32,
    count: u64,
    codecs: Vec<CodecType>,
    encoders: Vec<Encoder>,
    metadata: &'a [MetaEntry],
    parent: Option<&'a ParentRef>,
    blob: Vec<u8>,
    start: u64,
    map: Vec<RawEntry>,
    stream: Vec<u8>,
    index: HunkIndex,
    outcomes: Ghost<Seq<Outcomes>>,
}

/// The parts of a parent that a job needs.
pub open spec fn parent_parts(parent: Option<&ParentRef>) -> Option<(Map<HunkKey, u64>, Seq<u8>)> {
    match parent {
        Some(p) => Some((p.index(), p.sha1())),
        None => None,
    }
}

/// The job of writing an image with the given settings.
pub open spec fn job_for(
    data: Seq<u8>,
    hunk_bytes: u32,
    unit_bytes: u32,
    codecs: Seq<CodecType>,
    entries: Seq<Meta>,
    parent: Option<&ParentRef>,
) -> Job {
    Job {
        data,
        hunk_bytes,
        unit_bytes,
        codecs,
        metadata: entries,
        parent: parent_parts(parent),
    }
}

/// Copies `size` bytes from `start` on, with zeros behind the end.
fn copy_padded(data: &[u8], start: usize, size: usize) -> (r: Vec<u8>)
    requires
        start <= data@.len(),
    ensures
        r@ == Seq::new(
            size as nat,
            |k: int|
                if start + k < data@.len() {
                    data@[start + k]
                } else {
                    0u8
                },
        ),
{
    let len = data.len();
    let end: usize = if size <= len - start {
        start + size
    } else {
        len
    };
    let mut out: Vec<u8> = Vec::new();
    out.extend_from_slice(&data[start..end]);
    let ghost part = out@;
    assert(part =~= data@.subrange(start as int, end as int));
    out.resize(size, 0);
    assert forall|k: int| 0 <= k < size implies out@[k] == if start + k < data@.len() {
        data@[start + k]
    } else {
        0u8
    } by {
        if k < part.len() {
            assert(out@[k] == part[k]);
        }
    }
    out
}

/// Tries the codecs on a hunk and keeps the shortest outcome.
fn find_best(encoders: &mut Vec<Encoder>, hunk: &Vec<u8>, Ghost(codecs): Ghost<Seq<CodecType>>) -> (r: (
    u8,
    Vec<u8>,
    Ghost<Outcomes>,
))
    requires
        0 < hunk@.len() <= u32::MAX,
        codecs.len() <= 4,
        old(encoders)@.len() == codecs.len(),
        forall|k: int|
            0 <= k < codecs.len() ==> {
                let e = #[trigger] old(encoders)@[k];
                &&& e.wf() && e.kind() == codecs[k] && e.hunk() == hunk@.len()
                &&& codecs::encoder_takes(codecs[k], hunk@.len() as u32)
            },
    ensures
        final(encoders)@.len() == codecs.len(),
        forall|k: int|
            0 <= k < codecs.len() ==> {
                let e = #[trigger] final(encoders)@[k];
                e.wf() && e.kind() == codecs[k] && e.hunk() == hunk@.len()
            },
        may_come(codecs, hunk@.len() as u32, hunk@, r.2@),
        best_of(r.2@, hunk@, codecs.len()) == (r.0, r.1@),
        r.0 <= COMPRESSION_NONE,
        r.1@.len() <= hunk@.len(),
{
    let n = encoders.len();
    let size = hunk.len();
    let mut best: Vec<u8> = Vec::new();
    best.extend_from_slice(hunk.as_slice());
    assert(best@ =~= hunk@);
    let mut kind: u8 = COMPRESSION_NONE;
    let mut buf: Vec<u8> = vec![0u8; size];
    let ghost mut seen: Outcomes = Seq::empty();
    let mut k: usize = 0;
    while k < n
        invariant
            k <= n == codecs.len() <= 4,
            size == hunk@.len(),
            0 < hunk@.len() <= u32::MAX,
            encoders@.len() == n,
            buf@.len() == size,
            forall|j: int|
                0 <= j < codecs.len() ==> {
                    let e = #[trigger] encoders@[j];
                    &&& e.wf() && e.kind() == codecs[j] && e.hunk() == hunk@.len()
                    &&& codecs::encoder_takes(codecs[j], hunk@.len() as u32)
                },
            seen.len() == k,
            forall|j: int|
                0 <= j < k ==> codecs::encoder_outcome(
                    codecs[j],
                    hunk@.len() as u32,
                    hunk@,
                    hunk@.len(),
                    #[trigger] seen[j],
                ),
            best_of(seen, hunk@, k as nat) == (kind, best@),
            kind <= COMPRESSION_NONE,
            best@.len() <= hunk@.len(),
        decreases n - k,
    {
        let ghost before = encoders@;
        assert(encoders@[k as int].wf());
        let got = encoders[k].compress(hunk.as_slice(), buf.as_mut_slice());
        let ghost o: Option<Seq<u8>> = match got {
            Ok(len) => Some(buf@.take(len as int)),
            Err(_) => None,
        };
        proof {
            assert forall|j: int| 0 <= j < codecs.len() implies ({
                let e = #[trigger] encoders@[j];
                &&& e.wf() && e.kind() == codecs[j] && e.hunk() == hunk@.len()
                &&& codecs::encoder_takes(codecs[j], hunk@.len() as u32)
            }) by {
                let e = before[j];
            }
            lemma_best_of_prefix(seen, seen.push(o), hunk@, k as nat);
        }
        if let Ok(len) = got {
            if len < best.len() {
                let mut shorter: Vec<u8> = Vec::new();
                shorter.extend_from_slice(&buf[0..len]);
                assert(shorter@ =~= buf@.take(len as int));
                best = shorter;
                kind = k as u8;
            }
        }
        proof {
            seen = seen.push(o);
        }
        k = k + 1;
    }
    (kind, best, Ghost(seen))
}

proof fn lemma_best_of_prefix(a: Outcomes, b: Outcomes, hunk: Seq<u8>, n: nat)
    requires
        n <= a.len(),
        n <= b.len(),
        forall|k: int| 0 <= k < n ==> a[k] == b[k],
    ensures
        best_of(a, hunk, n) == best_of(b, hunk, n),
    decreases n,
{
    if n > 0 {
        lemma_best_of_prefix(a, b, hunk, (n - 1) as nat);
    }
}

pub proof fn lemma_best_of_bound(o: Outcomes, hunk: Seq<u8>, n: nat)
    requires
        n <= 4,
    ensures
        best_of(o, hunk, n).0 <= COMPRESSION_NONE,
        best_of(o, hunk, n).0 < COMPRESSION_NONE ==> best_of(o, hunk, n).0 < n && o[best_of(
            o,
            hunk,
            n,
        ).0 as int] == Some(best_of(o, hunk, n).1),
        best_of(o, hunk, n).0 == COMPRESSION_NONE ==> best_of(o, hunk, n).1 == hunk,
        best_of(o, hunk, n).1.len() <= hunk.len(),
    decreases n,
{
    if n > 0 {
        lemma_best_of_bound(o, hunk, (n - 1) as nat);
    }
}

pub proof fn lemma_written_prefix(job: Job, a: Seq<Outcomes>, b: Seq<Outcomes>, n: nat)
    requires
        n <= a.len(),
        n <= b.len(),
        forall|k: int| 0 <= k < n ==> a[k] == b[k],
    ensures
        job.written(a, n) == job.written(b, n),
    decreases n,
{
    if n > 0 {
        lemma_written_prefix(job, a, b, (n - 1) as nat);
    }
}

pub proof fn lemma_room(job: Job, n: nat)
    requires
        job.within_limits(),
        job.hunk_bytes > 0,
        n <= job.count(),
    ensures
        n * job.hunk_bytes <= job.data.len() + job.hunk_bytes,
        job.start() + n * job.hunk_bytes < 0x1_0000_0000_0000,
{
    header::lemma_pieces(job.data.len(), job.hunk_bytes as nat);
    assert(n * job.hunk_bytes <= job.count() * job.hunk_bytes) by (nonlinear_arith)
        requires
            n <= job.count(),
    ;
}

/// What every entry that is written meets.
pub open spec fn entry_sound(job: Job, e: RawEntry, i: int) -> bool {
    &&& e.kind <= COMPRESSION_PARENT
    &&& e.kind == COMPRESSION_SELF ==> e.offset < i
    &&& e.kind == COMPRESSION_PARENT ==> e.offset <= u32::MAX
    &&& e.kind > COMPRESSION_NONE ==> e.length == 0 && e.crc == 0
    &&& e.kind <= COMPRESSION_NONE ==> e.offset >= job.start()
    &&& e.offset < 0x1_0000_0000_0000
}

pub proof fn lemma_written(job: Job, outcomes: Seq<Outcomes>, n: nat)
    requires
        job.within_limits(),
        job.fault() is None,
        n <= job.count(),
    ensures
        job.written(outcomes, n).map.len() == n,
        job.written(outcomes, n).stream.len() <= n * job.hunk_bytes,
        forall|k: HunkKey| #[trigger]
            job.written(outcomes, n).index.contains_key(k) ==> job.written(outcomes, n).index[k] < n,
        forall|i: int|
            0 <= i < n ==> entry_sound(job, #[trigger] job.written(outcomes, n).map[i], i),
    decreases n,
{
    if n > 0 {
        let m = (n - 1) as nat;
        lemma_written(job, outcomes, m);
        lemma_room(job, n);
        lemma_best_of_bound(outcomes[n - 1], job.hunk(n - 1), job.codecs.len());
        assert(m * job.hunk_bytes + job.hunk_bytes == n * job.hunk_bytes) by (nonlinear_arith)
            requires
                m == n - 1,
        ;
        let w = job.written(outcomes, m);
        let v = job.written(outcomes, n);
        assert forall|i: int| 0 <= i < n implies entry_sound(job, #[trigger] v.map[i], i) by {
            if i < m {
                assert(v.map[i] == w.map[i]);
            }
        }
    }
}

proof fn lemma_max_parent(m: Seq<RawEntry>, kinds: Seq<u8>, n: nat)
    requires
        n <= m.len(),
        n <= kinds.len(),
        forall|i: int| 0 <= i < n && kinds[i] == COMPRESSION_PARENT ==> (#[trigger] m[i]).offset <= u32::MAX,
    ensures
        crate::map::max_ref(m, kinds, COMPRESSION_PARENT, n) <= u32::MAX,
    decreases n,
{
    if n > 0 {
        lemma_max_parent(m, kinds, (n - 1) as nat);
    }
}

/// The map that is written can be packed.
pub proof fn lemma_can_pack(job: Job, outcomes: Seq<Outcomes>)
    requires
        job.within_limits(),
        job.fault() is None,
    ensures
        crate::map::can_pack(
            job.written(outcomes, job.count()).map,
            job.hunk_bytes,
            job.unit_bytes,
        ),
{
    let m = job.written(outcomes, job.count()).map;
    lemma_written(job, outcomes, job.count());
    let kinds = crate::map::compact_kinds(m, job.hunk_bytes, job.unit_bytes);
    assert forall|i: int| 0 <= i < m.len() && kinds[i] == COMPRESSION_PARENT implies (#[trigger] m[i]).offset
        <= u32::MAX by {
        assert(entry_sound(job, m[i], i));
    }
    lemma_max_parent(m, kinds, m.len());
    crate::map::lemma_bit_length_32(
        crate::map::max_ref(m, kinds, COMPRESSION_PARENT, m.len()) as nat,
    );
    assert forall|i: int| 0 <= i < m.len() implies (#[trigger] m[i]).kind <= COMPRESSION_PARENT by {
        assert(entry_sound(job, m[i], i));
    }
    assert forall|i: int| 0 <= i < m.len() && (#[trigger] m[i]).kind == COMPRESSION_SELF implies m[i].offset
        < u32::MAX by {
        assert(entry_sound(job, m[i], i));
    }
    assert forall|i: int| 0 <= i < m.len() implies (#[trigger] m[i]).offset < 0x1_0000_0000_0000 by {
        assert(entry_sound(job, m[i], i));
    }
}

proof fn lemma_unfit_none(codecs: Seq<CodecType>, hunk_bytes: u32, k: int)
    requires
        0 <= k <= codecs.len(),
        forall|j: int| 0 <= j < k ==> codecs::can_encode(#[trigger] codecs[j], hunk_bytes),
    ensures
        unfit_codec(codecs, hunk_bytes, 0) == unfit_codec(codecs, hunk_bytes, k),
    decreases k,
{
    if k > 0 {
        lemma_unfit_none(codecs, hunk_bytes, k - 1);
        assert(codecs::can_encode(codecs[k - 1], hunk_bytes));
    }
}

/// Where no codec is unfit, each of them can compress.
pub proof fn lemma_all_fit(codecs: Seq<CodecType>, hunk_bytes: u32, k: int)
    requires
        unfit_codec(codecs, hunk_bytes, 0) is None,
        0 <= k < codecs.len(),
    ensures
        codecs::can_encode(codecs[k], hunk_bytes),
{
    lemma_all_fit_from(codecs, hunk_bytes, 0, k);
}

proof fn lemma_all_fit_from(codecs: Seq<CodecType>, hunk_bytes: u32, j: int, k: int)
    requires
        unfit_codec(codecs, hunk_bytes, j) is None,
        0 <= j <= k < codecs.len(),
    ensures
        codecs::can_encode(codecs[k], hunk_bytes),
    decreases k - j,
{
    if j < k {
        lemma_all_fit_from(codecs, hunk_bytes, j + 1, k);
    }
}

impl<'a> Compressor<'a> {
    /// What is being written.
    pub closed spec fn job(&self) -> Job {
        job_for(
            self.data@,
            self.hunk_bytes,
            self.unit_bytes,
            self.codecs@,
            metadata::metas(self.metadata@),
            self.parent,
        )
    }

    /// What the codecs made of the hunks that are done.
    pub closed spec fn outcomes(&self) -> Seq<Outcomes> {
        self.outcomes@
    }

    /// The number of hunks that are done.
    pub open spec fn position(&self) -> nat {
        self.outcomes().len()
    }

    /// Whether all that is held is what the job comes to so far.
    pub closed spec fn wf(&self) -> bool {
        let job = self.job();
        let w = job.written(self.outcomes@, self.outcomes@.len());
        &&& job.fault() is None
        &&& job.within_limits()
        &&& self.count == job.count()
        &&& self.start == job.start()
        &&& self.blob@ == metadata::blob(job.metadata, 124)
        &&& self.encoders@.len() == self.codecs@.len()
        &&& forall|k: int|
            0 <= k < self.codecs@.len() ==> {
                let e = #[trigger] self.encoders@[k];
                e.wf() && e.kind() == self.codecs@[k] && e.hunk() == self.hunk_bytes
            }
        &&& self.parent matches Some(p) ==> p.wf()
        &&& self.index.wf()
        &&& self.outcomes@.len() <= self.count
        &&& job.may_come(self.outcomes@)
        &&& self.map@ == w.map
        &&& self.map@.len() == self.outcomes@.len()
        &&& self.stream@ == w.stream
        &&& self.index@ == w.index
    }

    /// Takes up a job.
    pub fn start(
        data: &'a [u8],
        hunk_bytes: u32,
        unit_bytes: u32,
        codecs: &[CodecType],
        metadata: &'a [MetaEntry],
        parent: Option<&'a ParentRef>,
    ) -> (r: Result<Compressor<'a>, Error>)
        requires
            parent matches Some(p) ==> p.wf(),
            job_for(data@, hunk_bytes, unit_bytes, codecs@, metadata::metas(metadata@), parent).within_limits(),
        ensures
            ({
                let job = job_for(data@, hunk_bytes, unit_bytes, codecs@, metadata::metas(metadata@), parent);
                match r {
                    Ok(c) => job.fault() is None && c.wf() && c.job() == job && c.position() == 0,
                    Err(e) => job.fault() == Some(e),
                }
            }),
    {
        let ghost job = job_for(data@, hunk_bytes, unit_bytes, codecs@, metadata::metas(metadata@), parent);
        if hunk_bytes == 0 || unit_bytes == 0 || hunk_bytes % unit_bytes != 0 {
            return Err(Error::InvalidParameter);
        }
        if codecs.len() == 0 || codecs.len() > 4 {
            return Err(Error::InvalidParameter);
        }
        let blob = build_metadata_blob(metadata, 124);
        let start: u64 = 124 + blob.len() as u64;
        proof {
            header::lemma_pieces(data@.len(), hunk_bytes as nat);
        }
        let count = round_up(data.len() as u64, hunk_bytes as u64) / hunk_bytes as u64;
        let mut encoders: Vec<Encoder> = Vec::new();
        let mut kept: Vec<CodecType> = Vec::new();
        let mut k: usize = 0;
        let n = codecs.len();
        while k < n
            invariant
                k <= n == codecs@.len(),
                encoders@.len() == k,
                kept@ == codecs@.take(k as int),
                job == job_for(data@, hunk_bytes, unit_bytes, codecs@, metadata::metas(metadata@), parent),
                sizes_fit(job.hunk_bytes, job.unit_bytes),
                0 < codecs@.len() <= 4,
                forall|j: int|
                    0 <= j < k ==> {
                        let e = #[trigger] encoders@[j];
                        e.wf() && e.kind() == codecs@[j] && e.hunk() == hunk_bytes
                    },
                forall|j: int| 0 <= j < k ==> codecs::can_encode(#[trigger] codecs@[j], hunk_bytes),
            decreases n - k,
        {
            proof {
                lemma_unfit_none(codecs@, hunk_bytes, k as int);
            }
            let c = codecs[k];
            match c.init_encoder(hunk_bytes) {
                Err(e) => {
                    return Err(e);
                },
                Ok(e) => {
                    encoders.push(e);
                    kept.push(c);
                },
            }
            assert(codecs@.take(k + 1) =~= codecs@.take(k as int).push(c));
            k = k + 1;
        }
        proof {
            lemma_unfit_none(codecs@, hunk_bytes, n as int);
            assert(codecs@.take(n as int) =~= codecs@);
        }
        let r = Compressor {
            data,
            hunk_bytes,
            unit_bytes,
            count,
            codecs: kept,
            encoders,
            metadata,
            parent,
            blob,
            start,
            map: Vec::new(),
            stream: Vec::new(),
            index: HunkIndex::new(),
            outcomes: Ghost(Seq::empty()),
        };
        assert(r.job() == job);
        assert(r.map@ =~= Seq::empty());
        assert(r.stream@ =~= Seq::empty());
        Ok(r)
    }

    /// Whether every hunk is done.
    pub fn is_done(&self) -> (r: bool)
        requires
            self.wf(),
        ensures
            r == (self.position() == self.job().count()),
    {
        self.map.len() as u64 == self.count
    }

    /// How far the job has come.
    pub fn progress(&self) -> (r: Progress)
        requires
            self.wf(),
        ensures
            r@ == self.job().report(self.outcomes(), self.position()),
    {
        proof {
            lemma_room(self.job(), self.position());
        }
        let total = self.data.len() as u64;
        let stored = self.stream.len() as u64;
        let n = self.map.len() as u64;
        let done: u64 = n * self.hunk_bytes as u64;
        Progress {
            bytes_done: if done < total {
                done
            } else {
                total
            },
            bytes_total: total,
            bytes_stored: stored,
        }
    }

    /// Copies the next hunk out of the image, with zeros behind the end of the image.
    fn next_hunk(&self) -> (r: Vec<u8>)
        requires
            self.wf(),
            self.position() < self.job().count(),
        ensures
            r@ == self.job().hunk(self.position() as int),
            r@.len() == self.job().hunk_bytes,
    {
        let ghost job = self.job();
        let ghost i = self.position();
        proof {
            lemma_room(job, i);
            lemma_room(job, i + 1);
            header::lemma_pieces(job.data.len(), job.hunk_bytes as nat);
            assert((i + 1) * job.hunk_bytes == i * job.hunk_bytes + job.hunk_bytes) by (nonlinear_arith);
            assert((i + 1) * job.hunk_bytes <= job.count() * job.hunk_bytes) by (nonlinear_arith)
                requires
                    i + 1 <= job.count(),
            ;
        }
        let len = self.data.len();
        let n = self.map.len() as u64;
        let at: u64 = n * self.hunk_bytes as u64;
        copy_padded(self.data, at as usize, self.hunk_bytes as usize)
    }

    /// Writes the next hunk. Does nothing where every hunk is done, or where the job is cancelled.
    pub fn advance(&mut self, cancel: bool) -> (r: Result<bool, Error>)
        requires
            old(self).wf(),
        ensures
            final(self).wf(),
            final(self).job() == old(self).job(),
            match r {
                Ok(true) => {
                    &&& old(self).position() < old(self).job().count()
                    &&& !cancel
                    &&& final(self).position() == old(self).position() + 1
                    &&& final(self).outcomes().drop_last() == old(self).outcomes()
                },
                Ok(false) => {
                    &&& old(self).position() == old(self).job().count()
                    &&& final(self).outcomes() == old(self).outcomes()
                },
                Err(e) => {
                    &&& e == Error::Cancelled
                    &&& cancel
                    &&& old(self).position() < old(self).job().count()
                    &&& final(self).outcomes() == old(self).outcomes()
                },
            },
    {
        if self.map.len() as u64 == self.count {
            return Ok(false);
        }
        if cancel {
            return Err(Error::Cancelled);
        }
        let ghost job = self.job();
        let ghost done = self.outcomes@;
        let ghost w = job.written(done, done.len());
        proof {
            lemma_written(job, done, done.len());
            lemma_room(job, done.len());
        }
        let hunk = self.next_hunk();
        let i = self.map.len();
        let crc = crc16(hunk.as_slice());
        let sha1 = sha1_digest(hunk.as_slice());
        let ghost mut o: Outcomes = Seq::empty();
        let parent_unit: Option<u64> = match self.parent {
            None => None,
            Some(p) => p.index.get(crc, &sha1),
        };
        match self.index.get(crc, &sha1) {
            Some(first) => {
                self.map.push(RawEntry { kind: COMPRESSION_SELF, length: 0, offset: first, crc: 0 });
            },
            None => match parent_unit {
                Some(unit) => {
                    self.map.push(
                        RawEntry { kind: COMPRESSION_PARENT, length: 0, offset: unit, crc: 0 },
                    );
                },
                None => {
                    let (kind, best, Ghost(seen)) = find_best(
                        &mut self.encoders,
                        &hunk,
                        Ghost(self.codecs@),
                    );
                    proof {
                        o = seen;
                    }
                    let stored = self.stream.len() as u64;
                    self.map.push(
                        RawEntry {
                            kind,
                            length: (best.len() % 0x100_0000) as u32,
                            offset: self.start + stored,
                            crc,
                        },
                    );
                    self.stream.extend_from_slice(best.as_slice());
                    self.index.insert(crc, &sha1, i as u64);
                },
            },
        }
        self.outcomes = Ghost(done.push(o));
        proof {
            let now = done.push(o);
            assert(self.job() == job);
            lemma_written_prefix(job, done, now, done.len());
            assert(now.drop_last() =~= done);
            let v = job.written(now, now.len());
            assert(v == job.step(w, i as int, o));
            assert(self.map@ =~= v.map);
            assert(self.stream@ =~= v.stream);
            assert forall|k: int|
                0 <= k < now.len() && job.is_stored(job.written(now, k as nat), k) implies may_come(
                job.codecs,
                job.hunk_bytes,
                job.hunk(k),
                #[trigger] now[k],
            ) by {
                lemma_written_prefix(job, done, now, k as nat);
                if k < done.len() {
                    assert(now[k] == done[k]);
                }
            }
        }
        Ok(true)
    }

    /// Appends the file to `out`, once every hunk is done.
    #[verifier::spinoff_prover]
    #[verifier::rlimit(60)]
    pub fn finish(self, out: &mut Vec<u8>)
        requires
            self.wf(),
            self.position() == self.job().count(),
        ensures
            self.job().may_come(self.outcomes()),
            final(out)@ == old(out)@ + self.job().file(self.outcomes()),
    {
        let ghost job = self.job();
        let ghost w = job.written(self.outcomes@, job.count());
        proof {
            lemma_can_pack(job, self.outcomes@);
            lemma_written(job, self.outcomes@, job.count());
            lemma_room(job, job.count());
            metadata::lemma_blob_len(job.metadata, 124, 0);
            metadata::lemma_entry_offset(job.metadata, 124, 0, job.metadata.len() as int);
        }
        let stored_map = compress_v5_map(self.map.as_slice(), self.hunk_bytes, self.unit_bytes);
        let raw_sha1 = sha1_digest(self.data);
        let sha1 = compute_overall_sha1(&raw_sha1, self.metadata);
        let zero: [u8; 20] = [0u8; 20];
        assert(zero@ =~= header::no_digest());
        let parent_sha1: [u8; 20] = match self.parent {
            Some(p) => p.sha1,
            None => zero,
        };
        let mut slots: [u32; 4] = [0, 0, 0, 0];
        let mut k: usize = 0;
        let n = self.codecs.len();
        while k < n
            invariant
                k <= n == self.codecs@.len() <= 4,
                slots@.len() == 4,
                forall|j: int|
                    0 <= j < 4 ==> #[trigger] slots@[j] == if j < k {
                        self.codecs@[j].spec_code()
                    } else {
                        0
                    },
            decreases n - k,
        {
            let c = self.codecs[k];
            slots[k] = c.code();
            k = k + 1;
        }
        assert(slots@ =~= job.fields(w.stream.len()).compression);
        let stored = self.stream.len() as u64;
        let logical = self.data.len() as u64;
        let meta_offset: u64 = if self.metadata.len() == 0 {
            0
        } else {
            124
        };
        push_header(
            out,
            &slots,
            logical,
            self.start + stored,
            meta_offset,
            self.hunk_bytes,
            self.unit_bytes,
            (&raw_sha1, &sha1, &parent_sha1),
        );
        out.extend_from_slice(self.blob.as_slice());
        out.extend_from_slice(self.stream.as_slice());
        out.extend_from_slice(stored_map.as_slice());
        assert(out@ =~= old(out)@ + job.file(self.outcomes@));
    }
}

impl Job {
    /// Whether a file may come out of the job.
    pub open spec fn may_write(self, file: Seq<u8>) -> bool {
        exists|o: Seq<Outcomes>|
            o.len() == self.count() && #[trigger] self.may_come(o) && file == self.file(o)
    }
}

/// Writes a file with compressed hunks behind what `out` holds. Each hunk is stored once, as the
/// shortest that a codec makes of it, or as it is; a hunk that is like a stored one, or like a part
/// of the parent, is a reference.
pub fn write_raw_inner(
    out: &mut Vec<u8>,
    data: &[u8],
    hunk_bytes: u32,
    unit_bytes: u32,
    codecs: &[CodecType],
    metadata: &[MetaEntry],
    parent: Option<&ParentRef>,
) -> (r: Result<(), Error>)
    requires
        parent matches Some(p) ==> p.wf(),
        job_for(data@, hunk_bytes, unit_bytes, codecs@, metadata::metas(metadata@), parent).within_limits(),
    ensures
        ({
            let job = job_for(data@, hunk_bytes, unit_bytes, codecs@, metadata::metas(metadata@), parent);
            match r {
                Ok(()) => {
                    &&& job.fault() is None
                    &&& final(out)@.len() >= old(out)@.len()
                    &&& final(out)@.take(old(out)@.len() as int) == old(out)@
                    &&& job.may_write(final(out)@.skip(old(out)@.len() as int))
                },
                Err(e) => job.fault() == Some(e) && final(out)@ == old(out)@,
            }
        }),
{
    let ghost job = job_for(data@, hunk_bytes, unit_bytes, codecs@, metadata::metas(metadata@), parent);
    let mut c = match Compressor::start(data, hunk_bytes, unit_bytes, codecs, metadata, parent) {
        Ok(c) => c,
        Err(e) => {
            return Err(e);
        },
    };
    while !c.is_done()
        invariant
            c.wf(),
            c.job() == job,
            c.position() <= job.count(),
        decreases job.count() - c.position(),
    {
        let _ = c.advance(false);
    }
    let ghost o = c.outcomes();
    c.finish(out);
    proof {
        let file = out@.skip(old(out)@.len() as int);
        assert(file =~= job.file(o));
        assert(out@.take(old(out)@.len() as int) =~= old(out)@);
        assert(job.may_come(o));
    }
    Ok(())
}

/// Writes a file with hunks that are compressed by one of one to four codecs.
pub fn write_raw(
    out: &mut Vec<u8>,
    data: &[u8],
    hunk_bytes: u32,
    unit_bytes: u32,
    codecs: &[CodecType],
) -> (r: Result<(), Error>)
    requires
        job_for(data@, hunk_bytes, unit_bytes, codecs@, Seq::empty(), None).within_limits(),
    ensures
        ({
            let job = job_for(data@, hunk_bytes, unit_bytes, codecs@, Seq::empty(), None);
            match r {
                Ok(()) => {
                    &&& job.fault() is None
                    &&& final(out)@.len() >= old(out)@.len()
                    &&& final(out)@.take(old(out)@.len() as int) == old(out)@
                    &&& job.may_write(final(out)@.skip(old(out)@.len() as int))
                },
                Err(e) => job.fault() == Some(e) && final(out)@ == old(out)@,
            }
        }),
{
    let none: Vec<MetaEntry> = Vec::new();
    assert(metadata::metas(none@) =~= Seq::empty());
    write_raw_inner(out, data, hunk_bytes, unit_bytes, codecs, none.as_slice(), None)
}

/// Writes a file with hunks that are compressed by one codec.
pub fn write_raw_compressed(
    out: &mut Vec<u8>,
    data: &[u8],
    hunk_bytes: u32,
    unit_bytes: u32,
    codec: CodecType,
) -> (r: Result<(), Error>)
    requires
        job_for(data@, hunk_bytes, unit_bytes, seq![codec], Seq::empty(), None).within_limits(),
    ensures
        ({
            let job = job_for(data@, hunk_bytes, unit_bytes, seq![codec], Seq::empty(), None);
            match r {
                Ok(()) => {
                    &&& job.fault() is None
                    &&& final(out)@.len() >= old(out)@.len()
                    &&& final(out)@.take(old(out)@.len() as int) == old(out)@
                    &&& job.may_write(final(out)@.skip(old(out)@.len() as int))
                },
                Err(e) => job.fault() == Some(e) && final(out)@ == old(out)@,
            }
        }),
{
    let one: [CodecType; 1] = [codec];
    assert(one@ =~= seq![codec]);
    write_raw(out, data, hunk_bytes, unit_bytes, one.as_slice())
}

/// Appends `n` zeros.
fn push_zeros(out: &mut Vec<u8>, n: usize)
    ensures
        final(out)@ == old(out)@ + bytes::zeros(n as nat),
{
    let mut i: usize = 0;
    assert(out@ =~= old(out)@ + bytes::zeros(0));
    while i < n
        invariant
            i <= n,
            out@ == old(out)@ + bytes::zeros(i as nat),
        decreases n - i,
    {
        out.push(0);
        i = i + 1;
        assert(out@ =~= old(out)@ + bytes::zeros(i as nat));
    }
}

/// The map of a file without compression: the numbers from `base` on, four bytes each.
pub open spec fn plain_map(base: nat, n: nat) -> Seq<u8>
    decreases n,
{
    if n == 0 {
        Seq::empty()
    } else {
        plain_map(base, (n - 1) as nat) + bytes::be_bytes((base + n - 1) as nat, 4)
    }
}

/// A file without compression, as far as its shape depends on sizes and metadata.
pub struct PlainLayout {
    pub logical_bytes: nat,
    pub hunk_bytes: u32,
    pub unit_bytes: u32,
    pub metadata: Seq<Meta>,
}

impl PlainLayout {
    /// The number of hunks.
    pub open spec fn count(self) -> nat {
        header::pieces(self.logical_bytes, self.hunk_bytes as nat)
    }

    /// Where the metadata starts: behind the map.
    pub open spec fn meta_start(self) -> nat {
        124 + 4 * self.count()
    }

    /// Where the metadata ends.
    pub open spec fn meta_end(self) -> nat {
        metadata::entry_offset(self.metadata, self.meta_start(), self.metadata.len() as int)
    }

    /// Where the hunks start.
    pub open spec fn data_start(self) -> nat {
        bytes::rounded_up(self.meta_end(), self.hunk_bytes as nat)
    }

    /// The number of the first hunk's place, in hunks.
    pub open spec fn base(self) -> nat {
        self.data_start() / self.hunk_bytes as nat
    }

    /// Whether the places of all hunks fit the map.
    pub open spec fn within_limits(self) -> bool {
        sizes_fit(self.hunk_bytes, self.unit_bytes) ==> self.base() + self.count() <= u32::MAX
    }

    /// Whether 64 bits hold the place of the hunks.
    pub open spec fn front_fits(self) -> bool {
        sizes_fit(self.hunk_bytes, self.unit_bytes) ==> self.meta_end() + self.hunk_bytes <= u64::MAX
    }

    /// The header. The digests of the image are left out.
    pub open spec fn fields(self, parent_sha1: Seq<u8>) -> header::Fields {
        header::Fields {
            compression: seq![0, 0, 0, 0],
            logical_bytes: self.logical_bytes,
            map_offset: 124,
            meta_offset: if self.metadata.len() == 0 {
                0
            } else {
                self.meta_start()
            },
            hunk_bytes: self.hunk_bytes as nat,
            unit_bytes: self.unit_bytes as nat,
            raw_sha1: header::no_digest(),
            sha1: header::no_digest(),
            parent_sha1,
        }
    }

    /// The file up to the hunks: header, map, metadata, zeros up to a multiple of the hunk size.
    pub open spec fn front(self, plan: Seq<u8>, parent_sha1: Seq<u8>) -> Seq<u8> {
        header::v5_header(self.fields(parent_sha1)) + plan + metadata::blob(
            self.metadata,
            self.meta_start(),
        ) + bytes::zeros((self.data_start() - self.meta_end()) as nat)
    }

    /// The file for an image.
    pub open spec fn file(self, data: Seq<u8>) -> Seq<u8> {
        self.front(plain_map(self.base(), self.count()), header::no_digest()) + data + bytes::zeros(
            (self.count() * self.hunk_bytes - data.len()) as nat,
        )
    }

    /// The file that takes every hunk from its parent.
    pub open spec fn empty_diff(self, parent_sha1: Seq<u8>) -> Seq<u8> {
        self.front(bytes::zeros(4 * self.count()), parent_sha1)
    }
}

/// How the parts of a file without compression follow each other.
pub proof fn lemma_front_layout(p: PlainLayout)
    requires
        sizes_fit(p.hunk_bytes, p.unit_bytes),
    ensures
        124 <= p.meta_start() <= p.meta_end() <= p.data_start() < p.meta_end() + p.hunk_bytes,
        p.data_start() == p.base() * p.hunk_bytes,
        p.logical_bytes <= p.count() * p.hunk_bytes < p.logical_bytes + p.hunk_bytes,
        metadata::blob(p.metadata, p.meta_start()).len() == p.meta_end() - p.meta_start(),
{
    metadata::lemma_entry_offset(p.metadata, p.meta_start(), 0, p.metadata.len() as int);
    metadata::lemma_blob_len(p.metadata, p.meta_start(), 0);
    bytes::lemma_rounded_up(p.meta_end(), p.hunk_bytes as nat);
    header::lemma_pieces(p.meta_end(), p.hunk_bytes as nat);
    header::lemma_pieces(p.logical_bytes, p.hunk_bytes as nat);
}

pub proof fn lemma_plain_layout(p: PlainLayout)
    requires
        p.within_limits(),
        sizes_fit(p.hunk_bytes, p.unit_bytes),
    ensures
        124 <= p.meta_start() <= p.meta_end() <= p.data_start() < p.meta_end() + p.hunk_bytes,
        p.data_start() == p.base() * p.hunk_bytes,
        p.logical_bytes <= p.count() * p.hunk_bytes < p.logical_bytes + p.hunk_bytes,
        p.data_start() + p.count() * p.hunk_bytes <= u32::MAX * p.hunk_bytes,
        u32::MAX * p.hunk_bytes < 0xffff_ffff_0000_0000,
        p.count() <= u32::MAX,
        metadata::blob(p.metadata, p.meta_start()).len() == p.meta_end() - p.meta_start(),
        p.front_fits(),
{
    lemma_front_layout(p);
    assert(p.base() * p.hunk_bytes + p.count() * p.hunk_bytes <= u32::MAX * p.hunk_bytes)
        by (nonlinear_arith)
        requires
            p.base() + p.count() <= u32::MAX,
    ;
    assert(u32::MAX * p.hunk_bytes < 0xffff_ffff_0000_0000) by (nonlinear_arith);
    assert(0 <= p.count() * p.hunk_bytes);
}

/// The layout of a file without compression.
pub open spec fn plain_layout(
    logical_bytes: nat,
    hunk_bytes: u32,
    unit_bytes: u32,
    entries: Seq<Meta>,
) -> PlainLayout {
    PlainLayout { logical_bytes, hunk_bytes, unit_bytes, metadata: entries }
}

/// Appends the front of a file without compression. The map counts up from the place of the first
/// hunk, or is all zeros where the hunks come from the parent.
#[verifier::spinoff_prover]
#[verifier::rlimit(60)]
fn push_front(
    out: &mut Vec<u8>,
    logical_bytes: u64,
    hunk_bytes: u32,
    unit_bytes: u32,
    entries: &[MetaEntry],
    parent_sha1: &[u8; 20],
    counts_up: bool,
)
    requires
        sizes_fit(hunk_bytes, unit_bytes),
        plain_layout(logical_bytes as nat, hunk_bytes, unit_bytes, metadata::metas(entries@)).front_fits(),
        counts_up ==> plain_layout(
            logical_bytes as nat,
            hunk_bytes,
            unit_bytes,
            metadata::metas(entries@),
        ).within_limits(),
    ensures
        ({
            let p = plain_layout(logical_bytes as nat, hunk_bytes, unit_bytes, metadata::metas(entries@));
            final(out)@ == old(out)@ + p.front(
                if counts_up {
                    plain_map(p.base(), p.count())
                } else {
                    bytes::zeros(4 * p.count())
                },
                parent_sha1@,
            )
        }),
{
    let ghost p = plain_layout(logical_bytes as nat, hunk_bytes, unit_bytes, metadata::metas(entries@));
    proof {
        lemma_front_layout(p);
        header::lemma_pieces(p.meta_end(), hunk_bytes as nat);
    }
    let count = pieces_of(logical_bytes, hunk_bytes as u64);
    let meta_start: u64 = 124 + 4 * count;
    let blob = build_metadata_blob(entries, meta_start);
    let meta_end: u64 = meta_start + blob.len() as u64;
    let data_start = round_up(meta_end, hunk_bytes as u64);
    let base: u64 = data_start / hunk_bytes as u64;
    let slots: [u32; 4] = [0, 0, 0, 0];
    assert(slots@ =~= seq![0, 0, 0, 0]);
    let zero: [u8; 20] = [0u8; 20];
    assert(zero@ =~= header::no_digest());
    let meta_offset: u64 = if entries.len() == 0 {
        0
    } else {
        meta_start
    };
    push_header(
        out,
        &slots,
        logical_bytes,
        124,
        meta_offset,
        hunk_bytes,
        unit_bytes,
        (&zero, &zero, parent_sha1),
    );
    let ghost head = out@;
    assert(head == old(out)@ + header::v5_header(p.fields(parent_sha1@)));
    let mut i: u64 = 0;
    assert(plain_map(p.base(), 0) =~= bytes::zeros(0));
    assert(head + bytes::zeros(0) =~= head);
    while i < count
        invariant
            i <= count == p.count(),
            base == p.base(),
            counts_up ==> base + count <= u32::MAX,
            out@ == head + if counts_up {
                plain_map(p.base(), i as nat)
            } else {
                bytes::zeros(4 * i as nat)
            },
        decreases count - i,
    {
        let ghost before = out@;
        let v: u64 = if counts_up {
            base + i
        } else {
            0
        };
        push_be(out, v, 4);
        proof {
            if counts_up {
                assert(out@ =~= head + plain_map(p.base(), (i + 1) as nat));
            } else {
                lemma_be_zero();
                assert(out@ =~= head + bytes::zeros(4 * (i + 1) as nat));
            }
        }
        i = i + 1;
    }
    out.extend_from_slice(blob.as_slice());
    push_zeros(out, (data_start - meta_end) as usize);
    proof {
        let plan = if counts_up {
            plain_map(p.base(), p.count())
        } else {
            bytes::zeros(4 * p.count())
        };
        assert(out@ =~= old(out)@ + p.front(plan, parent_sha1@));
    }
}

pub proof fn lemma_be_zero()
    ensures
        bytes::be_bytes(0, 4) =~= bytes::zeros(4),
{
    reveal_with_fuel(bytes::be_bytes, 5);
}

/// Writes a file without compression behind what `out` holds.
pub fn write_uncompressed_inner(
    out: &mut Vec<u8>,
    data: &[u8],
    hunk_bytes: u32,
    unit_bytes: u32,
    metadata: &[MetaEntry],
) -> (r: Result<(), Error>)
    requires
        plain_layout(data@.len(), hunk_bytes, unit_bytes, metadata::metas(metadata@)).within_limits(),
    ensures
        match r {
            Ok(()) => sizes_fit(hunk_bytes, unit_bytes) && final(out)@ == old(out)@ + plain_layout(
                data@.len(),
                hunk_bytes,
                unit_bytes,
                metadata::metas(metadata@),
            ).file(data@),
            Err(e) => !sizes_fit(hunk_bytes, unit_bytes) && e == Error::InvalidParameter && final(out)@ == old(out)@,
        },
{
    if hunk_bytes == 0 || unit_bytes == 0 || hunk_bytes % unit_bytes != 0 {
        return Err(Error::InvalidParameter);
    }
    let ghost p = plain_layout(data@.len(), hunk_bytes, unit_bytes, metadata::metas(metadata@));
    let logical_bytes = data.len() as u64;
    let none: [u8; 20] = [0u8; 20];
    assert(none@ =~= header::no_digest());
    proof {
        lemma_plain_layout(p);
    }
    push_front(out, logical_bytes, hunk_bytes, unit_bytes, metadata, &none, true);
    out.extend_from_slice(data);
    proof {
        lemma_plain_layout(p);
        header::lemma_pieces(data@.len(), hunk_bytes as nat);
    }
    let rest: u64 = logical_bytes % hunk_bytes as u64;
    let short: u64 = if rest != 0 {
        hunk_bytes as u64 - rest
    } else {
        0
    };
    proof {
        vstd::arithmetic::div_mod::lemma_fundamental_div_mod(logical_bytes as int, hunk_bytes as int);
        let q = logical_bytes as int / hunk_bytes as int;
        assert((q + 1) * hunk_bytes == hunk_bytes * q + hunk_bytes) by (nonlinear_arith);
        assert(q * hunk_bytes == hunk_bytes * q) by (nonlinear_arith);
        assert(short == p.count() * p.hunk_bytes - data@.len());
    }
    push_zeros(out, short as usize);
    assert(out@ =~= old(out)@ + p.file(data@));
    Ok(())
}

/// Writes a file without compression.
pub fn write_raw_uncompressed(
    out: &mut Vec<u8>,
    data: &[u8],
    hunk_bytes: u32,
    unit_bytes: u32,
) -> (r: Result<(), Error>)
    requires
        plain_layout(data@.len(), hunk_bytes, unit_bytes, Seq::empty()).within_limits(),
    ensures
        match r {
            Ok(()) => sizes_fit(hunk_bytes, unit_bytes) && final(out)@ == old(out)@ + plain_layout(
                data@.len(),
                hunk_bytes,
                unit_bytes,
                Seq::empty(),
            ).file(data@),
            Err(e) => !sizes_fit(hunk_bytes, unit_bytes) && e == Error::InvalidParameter && final(out)@ == old(out)@,
        },
{
    let none: Vec<MetaEntry> = Vec::new();
    assert(metadata::metas(none@) =~= Seq::empty());
    write_uncompressed_inner(out, data, hunk_bytes, unit_bytes, none.as_slice())
}

/// Writes a file that takes every hunk from its parent. It ends where hunks of its own can be added.
pub fn write_empty_diff(
    out: &mut Vec<u8>,
    logical_bytes: u64,
    hunk_bytes: u32,
    unit_bytes: u32,
    parent_sha1: &[u8; 20],
    metadata: &[MetaEntry],
) -> (r: Result<(), Error>)
    requires
        plain_layout(logical_bytes as nat, hunk_bytes, unit_bytes, metadata::metas(metadata@)).front_fits(),
    ensures
        match r {
            Ok(()) => sizes_fit(hunk_bytes, unit_bytes) && final(out)@ == old(out)@ + plain_layout(
                logical_bytes as nat,
                hunk_bytes,
                unit_bytes,
                metadata::metas(metadata@),
            ).empty_diff(parent_sha1@),
            Err(e) => !sizes_fit(hunk_bytes, unit_bytes) && e == Error::InvalidParameter && final(out)@ == old(out)@,
        },
{
    if hunk_bytes == 0 || unit_bytes == 0 || hunk_bytes % unit_bytes != 0 {
        return Err(Error::InvalidParameter);
    }
    push_front(out, logical_bytes, hunk_bytes, unit_bytes, metadata, parent_sha1, false);
    Ok(())
}

/// The size of an image for which `logical_size` is asked; zero asks for the size of the input.
pub open spec fn padded_size(len: nat, logical_size: u64) -> nat {
    if logical_size != 0 {
        logical_size as nat
    } else {
        len
    }
}

/// Whether an input of `len` bytes can be padded to whole units.
pub open spec fn can_pad(len: nat, logical_size: u64, unit_size: u32, hunk_size: u32) -> bool {
    &&& sizes_fit(hunk_size, unit_size)
    &&& padded_size(len, logical_size) % unit_size as nat == 0
    &&& len <= padded_size(len, logical_size)
}

/// Pads an input with zeros to the size of the image.
pub fn read_and_pad(data: Vec<u8>, logical_size: u64, unit_size: u32, hunk_size: u32) -> (r: Result<
    Vec<u8>,
    Error,
>)
    requires
        logical_size <= usize::MAX,
    ensures
        match r {
            Ok(v) => can_pad(data@.len(), logical_size, unit_size, hunk_size) && v@ == data@ + bytes::zeros(
                (padded_size(data@.len(), logical_size) - data@.len()) as nat,
            ),
            Err(e) => !can_pad(data@.len(), logical_size, unit_size, hunk_size) && e
                == Error::InvalidParameter,
        },
{
    if unit_size == 0 || hunk_size == 0 || hunk_size % unit_size != 0 {
        return Err(Error::InvalidParameter);
    }
    let len = data.len() as u64;
    let logical: u64 = if logical_size != 0 {
        logical_size
    } else {
        len
    };
    if logical % unit_size as u64 != 0 || len > logical {
        return Err(Error::InvalidParameter);
    }
    let mut data = data;
    push_zeros(&mut data, (logical - len) as usize);
    Ok(data)
}

/// A file that is being created: without compression in one step, with it hunk by hunk.
pub enum Creation<'a> {
    /// A file without compression.
    Plain {
        data: &'a [u8],
        hunk_bytes: u32,
        unit_bytes: u32,
        metadata: &'a [MetaEntry],
        done: bool,
    },
    /// A file with compressed hunks.
    Packed(Compressor<'a>),
}

/// Whether the sizes of a file to create stay within what the format can hold.
pub open spec fn create_limits(
    data: Seq<u8>,
    hunk_bytes: u32,
    unit_bytes: u32,
    codecs: Seq<CodecType>,
    entries: Seq<Meta>,
) -> bool {
    if codecs.len() == 0 {
        plain_layout(data.len(), hunk_bytes, unit_bytes, entries).within_limits()
    } else {
        job_for(data, hunk_bytes, unit_bytes, codecs, entries, None).within_limits()
    }
}

/// What stands in the way of creating a file, if anything.
pub open spec fn create_fault(
    data: Seq<u8>,
    hunk_bytes: u32,
    unit_bytes: u32,
    codecs: Seq<CodecType>,
    entries: Seq<Meta>,
) -> Option<Error> {
    if codecs.len() == 0 {
        if sizes_fit(hunk_bytes, unit_bytes) {
            None
        } else {
            Some(Error::InvalidParameter)
        }
    } else {
        job_for(data, hunk_bytes, unit_bytes, codecs, entries, None).fault()
    }
}

/// Whether a file may be what creating comes to: without codecs a file without compression.
pub open spec fn may_create(
    data: Seq<u8>,
    hunk_bytes: u32,
    unit_bytes: u32,
    codecs: Seq<CodecType>,
    entries: Seq<Meta>,
    file: Seq<u8>,
) -> bool {
    if codecs.len() == 0 {
        file == plain_layout(data.len(), hunk_bytes, unit_bytes, entries).file(data)
    } else {
        job_for(data, hunk_bytes, unit_bytes, codecs, entries, None).may_write(file)
    }
}

impl<'a> Creation<'a> {
    pub open spec fn wf(&self) -> bool {
        match self {
            Creation::Plain { data, hunk_bytes, unit_bytes, metadata, done } => {
                &&& plain_layout(data@.len(), *hunk_bytes, *unit_bytes, metadata::metas(metadata@)).within_limits()
                &&& *done ==> sizes_fit(*hunk_bytes, *unit_bytes)
            },
            Creation::Packed(c) => c.wf(),
        }
    }

    /// Whether the sizes of a file without compression do not fit together.
    pub open spec fn has_bad_sizes(&self) -> bool {
        match self {
            Creation::Plain { data, hunk_bytes, unit_bytes, metadata, done } => !sizes_fit(
                *hunk_bytes,
                *unit_bytes,
            ),
            Creation::Packed(c) => false,
        }
    }

    /// The number of steps that are left.
    pub open spec fn steps_left(&self) -> nat {
        match self {
            Creation::Plain { data, hunk_bytes, unit_bytes, metadata, done } => if *done {
                0
            } else {
                1
            },
            Creation::Packed(c) => (c.job().count() - c.position()) as nat,
        }
    }

    /// What the codecs made of the hunks that are done.
    pub open spec fn outcomes(&self) -> Seq<Outcomes> {
        match self {
            Creation::Plain { data, hunk_bytes, unit_bytes, metadata, done } => Seq::empty(),
            Creation::Packed(c) => c.outcomes(),
        }
    }

    /// Whether the file is made of the given parts.
    pub open spec fn is_for(
        &self,
        data: Seq<u8>,
        hunk_bytes: u32,
        unit_bytes: u32,
        codecs: Seq<CodecType>,
        entries: Seq<Meta>,
    ) -> bool {
        match self {
            Creation::Plain { data: d, hunk_bytes: h, unit_bytes: u, metadata: m, done } => {
                codecs.len() == 0 && d@ == data && *h == hunk_bytes && *u == unit_bytes && metadata::metas(m@)
                    == entries
            },
            Creation::Packed(c) => {
                codecs.len() > 0 && c.job() == job_for(
                    data,
                    hunk_bytes,
                    unit_bytes,
                    codecs,
                    entries,
                    None,
                ) && c.job().fault() is None
            },
        }
    }

    /// Takes up the creation of a file. The sizes of a file without compression are looked at in
    /// its only step.
    pub fn start(
        data: &'a [u8],
        hunk_bytes: u32,
        unit_bytes: u32,
        codecs: &[CodecType],
        metadata: &'a [MetaEntry],
    ) -> (r: Result<Creation<'a>, Error>)
        requires
            create_limits(data@, hunk_bytes, unit_bytes, codecs@, metadata::metas(metadata@)),
        ensures
            match r {
                Ok(c) => {
                    &&& c.wf()
                    &&& c.is_for(data@, hunk_bytes, unit_bytes, codecs@, metadata::metas(metadata@))
                    &&& c.steps_left() == if codecs@.len() == 0 {
                        1
                    } else {
                        header::pieces(data@.len(), hunk_bytes as nat)
                    }
                },
                Err(e) => codecs@.len() > 0 && create_fault(
                    data@,
                    hunk_bytes,
                    unit_bytes,
                    codecs@,
                    metadata::metas(metadata@),
                ) == Some(e),
            },
    {
        if codecs.len() == 0 {
            return Ok(Creation::Plain { data, hunk_bytes, unit_bytes, metadata, done: false });
        }
        match Compressor::start(data, hunk_bytes, unit_bytes, codecs, metadata, None) {
            Ok(c) => Ok(Creation::Packed(c)),
            Err(e) => Err(e),
        }
    }

    /// Whether no step is left.
    pub fn is_done(&self) -> (r: bool)
        requires
            self.wf(),
        ensures
            r == (self.steps_left() == 0),
    {
        match self {
            Creation::Plain { data, hunk_bytes, unit_bytes, metadata, done } => *done,
            Creation::Packed(c) => {
                let r = c.is_done();
                proof {
                    c.lemma_position();
                }
                r
            },
        }
    }

    /// How far the creation has come. Without compression what is stored is the image itself.
    pub fn progress(&self) -> (r: Progress)
        requires
            self.wf(),
        ensures
            match self {
                Creation::Plain { data, hunk_bytes, unit_bytes, metadata, done } => {
                    &&& r.bytes_total == data@.len()
                    &&& r.bytes_done == if *done {
                        data@.len()
                    } else {
                        0
                    }
                    &&& r.bytes_stored == r.bytes_done
                },
                Creation::Packed(c) => r@ == c.job().report(c.outcomes(), c.position()),
            },
    {
        match self {
            Creation::Plain { data, hunk_bytes, unit_bytes, metadata, done } => {
                let total = data.len() as u64;
                let now: u64 = if *done {
                    total
                } else {
                    0
                };
                Progress { bytes_done: now, bytes_total: total, bytes_stored: now }
            },
            Creation::Packed(c) => c.progress(),
        }
    }

    /// Takes the next step, unless the creation is cancelled.
    pub fn advance(&mut self, cancel: bool) -> (r: Result<bool, Error>)
        requires
            old(self).wf(),
        ensures
            final(self).wf(),
            *final(self) is Packed == *old(self) is Packed,
            forall|d: Seq<u8>, h: u32, u: u32, c: Seq<CodecType>, m: Seq<Meta>|
                old(self).is_for(d, h, u, c, m) ==> #[trigger] final(self).is_for(d, h, u, c, m),
            match r {
                Ok(true) => {
                    &&& !cancel
                    &&& final(self).steps_left() == old(self).steps_left() - 1
                    &&& *old(self) is Packed ==> final(self).outcomes().len() > 0
                        && final(self).outcomes().drop_last() == old(self).outcomes()
                },
                Ok(false) => {
                    &&& old(self).steps_left() == 0
                    &&& final(self).steps_left() == 0
                    &&& final(self).outcomes() == old(self).outcomes()
                },
                Err(e) => {
                    &&& old(self).steps_left() > 0
                    &&& final(self).steps_left() == old(self).steps_left()
                    &&& final(self).outcomes() == old(self).outcomes()
                    &&& if cancel {
                        e == Error::Cancelled
                    } else {
                        e == Error::InvalidParameter && old(self).has_bad_sizes()
                    }
                },
            },
    {
        match self {
            Creation::Plain { data, hunk_bytes, unit_bytes, metadata, done } => {
                if *done {
                    return Ok(false);
                }
                if cancel {
                    return Err(Error::Cancelled);
                }
                if *hunk_bytes == 0 || *unit_bytes == 0 || *hunk_bytes % *unit_bytes != 0 {
                    return Err(Error::InvalidParameter);
                }
                *done = true;
                Ok(true)
            },
            Creation::Packed(c) => {
                proof {
                    c.lemma_position();
                }
                c.advance(cancel)
            },
        }
    }

    /// Appends the file to `out`, once no step is left.
    pub fn finish(self, out: &mut Vec<u8>)
        requires
            self.wf(),
            self.steps_left() == 0,
        ensures
            final(out)@.len() >= old(out)@.len(),
            final(out)@.take(old(out)@.len() as int) == old(out)@,
            forall|d: Seq<u8>, h: u32, u: u32, c: Seq<CodecType>, m: Seq<Meta>| #[trigger]
                self.is_for(d, h, u, c, m) ==> create_fault(d, h, u, c, m) is None && may_create(
                    d,
                    h,
                    u,
                    c,
                    m,
                    final(out)@.skip(old(out)@.len() as int),
                ),
    {
        match self {
            Creation::Plain { data, hunk_bytes, unit_bytes, metadata, done } => {
                let _ = write_uncompressed_inner(out, data, hunk_bytes, unit_bytes, metadata);
                proof {
                    let file = plain_layout(data@.len(), hunk_bytes, unit_bytes, metadata::metas(metadata@)).file(data@);
                    assert(out@.skip(old(out)@.len() as int) =~= file);
                    assert(out@.take(old(out)@.len() as int) =~= old(out)@);
                }
            },
            Creation::Packed(c) => {
                let ghost o = c.outcomes();
                let ghost job = c.job();
                proof {
                    c.lemma_position();
                }
                c.finish(out);
                proof {
                    assert(out@.skip(old(out)@.len() as int) =~= job.file(o));
                    assert(out@.take(old(out)@.len() as int) =~= old(out)@);
                    assert(job.may_come(o));
                }
            },
        }
    }
}

impl<'a> Compressor<'a> {
    /// No more hunks are done than there are.
    pub proof fn lemma_position(&self)
        requires
            self.wf(),
        ensures
            self.position() <= self.job().count(),
    {
    }
}

/// Creates a file, without compression where no codec is named.
pub fn write_create(
    out: &mut Vec<u8>,
    data: &[u8],
    hunk_size: u32,
    unit_size: u32,
    codecs: &[CodecType],
    metadata: &[MetaEntry],
) -> (r: Result<(), Error>)
    requires
        create_limits(data@, hunk_size, unit_size, codecs@, metadata::metas(metadata@)),
    ensures
        match r {
            Ok(()) => {
                &&& create_fault(data@, hunk_size, unit_size, codecs@, metadata::metas(metadata@)) is None
                &&& final(out)@.len() >= old(out)@.len()
                &&& final(out)@.take(old(out)@.len() as int) == old(out)@
                &&& may_create(
                    data@,
                    hunk_size,
                    unit_size,
                    codecs@,
                    metadata::metas(metadata@),
                    final(out)@.skip(old(out)@.len() as int),
                )
            },
            Err(e) => create_fault(data@, hunk_size, unit_size, codecs@, metadata::metas(metadata@)) == Some(e)
                && final(out)@ == old(out)@,
        },
{
    let mut job = match Creation::start(data, hunk_size, unit_size, codecs, metadata) {
        Ok(job) => job,
        Err(e) => {
            return Err(e);
        },
    };
    while !job.is_done()
        invariant
            job.wf(),
            job.is_for(data@, hunk_size, unit_size, codecs@, metadata::metas(metadata@)),
            out@ == old(out)@,
        decreases job.steps_left(),
    {
        if let Err(e) = job.advance(false) {
            return Err(e);
        }
    }
    job.finish(out);
    Ok(())
}

/// A file that is ready to be created.
#[derive(Debug)]
pub struct CreatePlan {
    /// The image.
    pub data: Vec<u8>,
    /// The size of a hunk.
    pub hunk_size: u32,
    /// The size of a unit.
    pub unit_size: u32,
    /// The codecs; none for a file without compression.
    pub codecs: Vec<CodecType>,
    /// The metadata.
    pub metadata: Vec<MetaEntry>,
}

/// A file that is ready to be created, as a specification.
pub struct Plan {
    pub data: Seq<u8>,
    pub hunk_size: u32,
    pub unit_size: u32,
    pub codecs: Seq<CodecType>,
    pub metadata: Seq<Meta>,
}

impl Plan {
    /// Whether the sizes stay within what the format can hold.
    pub open spec fn within_limits(self) -> bool {
        create_limits(self.data, self.hunk_size, self.unit_size, self.codecs, self.metadata)
    }

    /// What stands in the way of creating the file, if anything.
    pub open spec fn fault(self) -> Option<Error> {
        create_fault(self.data, self.hunk_size, self.unit_size, self.codecs, self.metadata)
    }

    /// Whether a file may come out.
    pub open spec fn may_create(self, file: Seq<u8>) -> bool {
        may_create(self.data, self.hunk_size, self.unit_size, self.codecs, self.metadata, file)
    }
}

impl View for CreatePlan {
    type V = Plan;

    open spec fn view(&self) -> Plan {
        Plan {
            data: self.data@,
            hunk_size: self.hunk_size,
            unit_size: self.unit_size,
            codecs: self.codecs@,
            metadata: metadata::metas(self.metadata@),
        }
    }
}

/// What an input of `len` bytes is padded to.
pub open spec fn padded(data: Seq<u8>, logical_size: u64) -> Seq<u8> {
    data + bytes::zeros((padded_size(data.len(), logical_size) - data.len()) as nat)
}

/// Where list of entries ends, as far as 64 bits hold it.
fn entries_end(entries: &[MetaEntry], start: u64) -> (r: Option<u64>)
    ensures
        match r {
            Some(e) => e == metadata::entry_offset(
                metadata::metas(entries@),
                start as nat,
                entries@.len() as int,
            ),
            None => metadata::entry_offset(
                metadata::metas(entries@),
                start as nat,
                entries@.len() as int,
            ) > u64::MAX,
        },
{
    let ghost ms = metadata::metas(entries@);
    let n = entries.len();
    let mut end: u64 = start;
    let mut i: usize = 0;
    while i < n
        invariant
            i <= n == entries@.len(),
            ms == metadata::metas(entries@),
            end == metadata::entry_offset(ms, start as nat, i as int),
        decreases n - i,
    {
        let len = entries[i].payload.len() as u64;
        proof {
            assert(ms[i as int] == entries@[i as int]@);
            metadata::lemma_entry_offset(ms, start as nat, i + 1, n as int);
        }
        if len > 0xffff_ffff_ffff_ffef || end > 0xffff_ffff_ffff_ffef - len {
            return None;
        }
        end = end + 16 + len;
        i = i + 1;
    }
    Some(end)
}

/// The number of pieces of `size` bytes that hold `n` bytes.
pub(crate) fn pieces_of(n: u64, size: u64) -> (r: u64)
    requires
        size > 0,
    ensures
        r == header::pieces(n as nat, size as nat),
{
    proof {
        header::lemma_pieces(n as nat, size as nat);
    }
    let whole: u64 = n / size;
    if n % size != 0 {
        proof {
            if size == 1 {
                assert(n % 1 == 0);
            }
            assert(n as int / size as int <= n as int / 2) by (nonlinear_arith)
                requires
                    size >= 2,
            ;
        }
        whole + 1
    } else {
        whole
    }
}

/// Whether 64 bits hold the place of the hunks of a file without compression.
pub fn diff_fits(logical_bytes: u64, hunk_bytes: u32, unit_bytes: u32, entries: &[MetaEntry]) -> (r: bool)
    ensures
        r == plain_layout(
            logical_bytes as nat,
            hunk_bytes,
            unit_bytes,
            metadata::metas(entries@),
        ).front_fits(),
{
    if hunk_bytes == 0 || unit_bytes == 0 || hunk_bytes % unit_bytes != 0 {
        return true;
    }
    let ghost p = plain_layout(
        logical_bytes as nat,
        hunk_bytes,
        unit_bytes,
        metadata::metas(entries@),
    );
    proof {
        lemma_front_layout(p);
    }
    let count = pieces_of(logical_bytes, hunk_bytes as u64);
    if count > 0x3fff_ffff_ffff_ffe0 {
        return false;
    }
    match entries_end(entries, 124 + 4 * count) {
        None => false,
        Some(end) => end <= 0xffff_ffff_ffff_ffff - hunk_bytes as u64,
    }
}

impl CreatePlan {
    /// Whether the sizes stay within what the format can hold and the codecs can be given.
    pub fn fits(&self) -> (r: bool)
        ensures
            r == self@.within_limits(),
    {
        let logical = self.data.len() as u64;
        let hunk = self.hunk_size as u64;
        if self.hunk_size == 0 {
            if self.codecs.len() == 0 {
                return true;
            }
        } else {
            proof {
                header::lemma_pieces(logical as nat, hunk as nat);
            }
        }
        let count: u64 = if self.hunk_size == 0 {
            0
        } else {
            pieces_of(logical, hunk)
        };
        if self.codecs.len() == 0 {
            if self.unit_size == 0 || self.hunk_size % self.unit_size != 0 {
                return true;
            }
            let ghost p = plain_layout(
                logical as nat,
                self.hunk_size,
                self.unit_size,
                metadata::metas(self.metadata@),
            );
            proof {
                header::lemma_pieces(p.meta_end(), hunk as nat);
                metadata::lemma_entry_offset(p.metadata, p.meta_start(), 0, p.metadata.len() as int);
                bytes::lemma_rounded_up(p.meta_end(), hunk as nat);
            }
            if count > 0xffff_ffff {
                return false;
            }
            match entries_end(self.metadata.as_slice(), 124 + 4 * count) {
                None => {
                    proof {
                        assert(p.base() * hunk >= 0x1_0000_0000_0000_0000);
                        assert(p.base() > u32::MAX) by (nonlinear_arith)
                            requires
                                p.base() * hunk >= 0x1_0000_0000_0000_0000,
                                hunk <= u32::MAX,
                        ;
                    }
                    false
                },
                Some(end) => {
                    let base = pieces_of(end, hunk);
                    base <= 0xffff_ffff && base + count <= 0xffff_ffff
                },
            }
        } else {
            if count > 0x7fff_ffff {
                return false;
            }
            let ghost job = job_for(
                self.data@,
                self.hunk_size,
                self.unit_size,
                self.codecs@,
                metadata::metas(self.metadata@),
                None,
            );
            match entries_end(self.metadata.as_slice(), 124) {
                None => false,
                Some(start) => {
                    if start >= 0x1_0000_0000_0000 || logical >= 0x1_0000_0000_0000 || start + logical
                        + hunk >= 0x1_0000_0000_0000 {
                        return false;
                    }
                    let mut k: usize = 0;
                    let n = self.codecs.len();
                    while k < n
                        invariant
                            k <= n == self.codecs@.len(),
                            n > 0,
                            job == job_for(
                                self.data@,
                                self.hunk_size,
                                self.unit_size,
                                self.codecs@,
                                metadata::metas(self.metadata@),
                                None,
                            ),
                            forall|j: int|
                                0 <= j < k ==> codecs::encoder_takes(
                                    #[trigger] self.codecs@[j],
                                    self.hunk_size,
                                ),
                        decreases n - k,
                    {
                        if !self.codecs[k].takes_hunks(self.hunk_size) {
                            assert(!codecs::encoder_takes(job.codecs[k as int], job.hunk_bytes));
                            return false;
                        }
                        k = k + 1;
                    }
                    true
                },
            }
        }
    }

    /// Creates the file.
    pub fn create(&self, out: &mut Vec<u8>) -> (r: Result<(), Error>)
        requires
            self@.within_limits(),
        ensures
            match r {
                Ok(()) => {
                    &&& self@.fault() is None
                    &&& final(out)@.len() >= old(out)@.len()
                    &&& final(out)@.take(old(out)@.len() as int) == old(out)@
                    &&& self@.may_create(final(out)@.skip(old(out)@.len() as int))
                },
                Err(e) => self@.fault() == Some(e) && final(out)@ == old(out)@,
            },
    {
        write_create(
            out,
            self.data.as_slice(),
            self.hunk_size,
            self.unit_size,
            self.codecs.as_slice(),
            self.metadata.as_slice(),
        )
    }
}

} // verus!
