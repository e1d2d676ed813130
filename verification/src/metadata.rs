//! Metadata entries: a linked list in the file, and its part in the digest of the file.

use crate::bytes;
use crate::bytes::{get_be, push_be};
use crate::error::Error;
use crate::hash;
use crate::hash::sha1_digest;
use crate::header;
use crate::header::digest_at;
use vstd::arithmetic::power2::*;
use vstd::prelude::*;
use vstd::relations::*;
use vstd::seq_lib::*;

verus! {

/// The length of what stands before the contents of an entry.
pub const METADATA_HEADER_SIZE: usize = 16;

/// The flag of entries that are part of the digest of the file.
pub const METADATA_FLAG_CHECKSUM: u8 = 0x01;

/// An entry, as a specification.
pub struct Meta {
    pub tag: u32,
    pub flags: u8,
    pub payload: Seq<u8>,
}

/// A metadata entry to write.
#[derive(Debug)]
pub struct MetaEntry {
    /// What kind of entry it is.
    pub tag: u32,
    /// Usually `METADATA_FLAG_CHECKSUM`.
    pub flags: u8,
    /// The contents.
    pub payload: Vec<u8>,
}

impl View for MetaEntry {
    type V = Meta;

    open spec fn view(&self) -> Meta {
        Meta { tag: self.tag, flags: self.flags, payload: self.payload@ }
    }
}

/// The entries of a list.
pub open spec fn metas(s: Seq<MetaEntry>) -> Seq<Meta> {
    Seq::new(s.len(), |i: int| s[i]@)
}

/// An entry as it stands in a file. Only the low 24 bits of the length are kept.
pub open spec fn entry_bytes(m: Meta, next: nat) -> Seq<u8> {
    bytes::be_bytes(m.tag as nat, 4) + seq![m.flags] + bytes::be_bytes(m.payload.len(), 3)
        + bytes::be_bytes(next, 8) + m.payload
}

/// Where entry `i` of a list that starts at `start` begins.
pub open spec fn entry_offset(ms: Seq<Meta>, start: nat, i: int) -> nat
    decreases i,
{
    if i <= 0 {
        start
    } else {
        entry_offset(ms, start, i - 1) + 16 + ms[i - 1].payload.len()
    }
}

/// The entries from `i` on, each with the place of the one behind it; the last one has zero.
pub open spec fn blob_from(ms: Seq<Meta>, start: nat, i: int) -> Seq<u8>
    decreases ms.len() - i,
{
    if i < 0 || i >= ms.len() {
        Seq::empty()
    } else {
        let next = if i + 1 < ms.len() {
            entry_offset(ms, start, i + 1)
        } else {
            0
        };
        entry_bytes(ms[i], next) + blob_from(ms, start, i + 1)
    }
}

/// A list of entries that starts at `start`.
pub open spec fn blob(ms: Seq<Meta>, start: nat) -> Seq<u8> {
    blob_from(ms, start, 0)
}

pub proof fn lemma_entry_len(m: Meta, next: nat)
    ensures
        entry_bytes(m, next).len() == 16 + m.payload.len(),
{
    bytes::lemma_be_len(m.tag as nat, 4);
    bytes::lemma_be_len(m.payload.len(), 3);
    bytes::lemma_be_len(next, 8);
}

pub proof fn lemma_entry_offset(ms: Seq<Meta>, start: nat, i: int, j: int)
    requires
        0 <= i <= j <= ms.len(),
    ensures
        entry_offset(ms, start, i) + 16 * (j - i) <= entry_offset(ms, start, j),
    decreases j - i,
{
    if i < j {
        lemma_entry_offset(ms, start, i, j - 1);
    }
}

pub proof fn lemma_blob_len(ms: Seq<Meta>, start: nat, i: int)
    requires
        0 <= i <= ms.len(),
    ensures
        blob_from(ms, start, i).len() == entry_offset(ms, start, ms.len() as int) - entry_offset(
            ms,
            start,
            i,
        ),
    decreases ms.len() - i,
{
    if i < ms.len() {
        let next = if i + 1 < ms.len() {
            entry_offset(ms, start, i + 1)
        } else {
            0
        };
        lemma_entry_len(ms[i], next);
        lemma_blob_len(ms, start, i + 1);
    }
}

/// Makes a list of entries that starts at `meta_start`.
pub fn build_metadata_blob(entries: &[MetaEntry], meta_start: u64) -> (r: Vec<u8>)
    requires
        entry_offset(metas(entries@), meta_start as nat, entries@.len() as int) <= u64::MAX,
    ensures
        r@ == blob(metas(entries@), meta_start as nat),
        r@.len() == entry_offset(metas(entries@), meta_start as nat, entries@.len() as int)
            - meta_start,
{
    let ghost ms = metas(entries@);
    let n = entries.len();
    let mut out: Vec<u8> = Vec::new();
    let mut off: u64 = meta_start;
    let mut i: usize = 0;
    assert(out@ + blob_from(ms, meta_start as nat, 0) =~= blob(ms, meta_start as nat));
    while i < n
        invariant
            i <= n == entries@.len(),
            ms == metas(entries@),
            off == entry_offset(ms, meta_start as nat, i as int),
            entry_offset(ms, meta_start as nat, n as int) <= u64::MAX,
            out@ + blob_from(ms, meta_start as nat, i as int) == blob(ms, meta_start as nat),
        decreases n - i,
    {
        let ghost before = out@;
        proof {
            lemma_entry_offset(ms, meta_start as nat, i + 1, n as int);
            assert(ms[i as int] == entries@[i as int]@);
        }
        let len = entries[i].payload.len();
        let after: u64 = off + 16 + len as u64;
        let next: u64 = if i + 1 < n {
            after
        } else {
            0
        };
        push_be(&mut out, entries[i].tag as u64, 4);
        out.push(entries[i].flags);
        push_be(&mut out, len as u64, 3);
        push_be(&mut out, next, 8);
        out.extend_from_slice(entries[i].payload.as_slice());
        proof {
            let e = entry_bytes(ms[i as int], next as nat);
            assert(out@ =~= before + e);
            assert(out@ + blob_from(ms, meta_start as nat, i + 1) =~= before + (e + blob_from(
                ms,
                meta_start as nat,
                i + 1,
            )));
        }
        off = after;
        i = i + 1;
    }
    proof {
        assert(out@ + blob_from(ms, meta_start as nat, n as int) =~= out@);
        lemma_blob_len(ms, meta_start as nat, 0);
    }
    out
}

/// What an entry adds to the digest of a file: its tag and the digest of its contents.
pub open spec fn hash_bytes(m: Meta) -> Seq<u8> {
    bytes::be_bytes(m.tag as nat, 4) + hash::digest(m.payload)
}

/// The entries of the first `n` that have the checksum flag, each as the number that its part of
/// the digest stands for.
pub open spec fn hash_keys(ms: Seq<Meta>, n: nat) -> Seq<nat>
    decreases n,
{
    if n == 0 {
        Seq::empty()
    } else if ms[n - 1].flags % 2 == 1 {
        hash_keys(ms, (n - 1) as nat).push(bytes::be_value(hash_bytes(ms[n - 1])))
    } else {
        hash_keys(ms, (n - 1) as nat)
    }
}

/// The order by which numbers are sorted.
pub open spec fn no_greater() -> spec_fn(nat, nat) -> bool {
    |a: nat, b: nat| a <= b
}

/// The numbers in ascending order, each as 24 bytes.
pub open spec fn joined(keys: Seq<nat>) -> Seq<u8>
    decreases keys.len(),
{
    if keys.len() == 0 {
        Seq::empty()
    } else {
        joined(keys.drop_last()) + bytes::be_bytes(keys.last(), 24)
    }
}

/// The digest of a file: that of the image's digest and the parts of the entries with the checksum
/// flag, sorted byte by byte.
pub open spec fn overall(raw_sha1: Seq<u8>, ms: Seq<Meta>) -> Seq<u8> {
    hash::digest(raw_sha1 + joined(hash_keys(ms, ms.len()).sort_by(no_greater())))
}

proof fn lemma_total()
    ensures
        total_ordering(no_greater()),
{
}

/// The keys of the entries, one of them taken apart.
proof fn lemma_hash_keys_remove(ms: Seq<Meta>, j: int)
    requires
        0 <= j < ms.len(),
    ensures
        hash_keys(ms, ms.len()).to_multiset() == if ms[j].flags % 2 == 1 {
            hash_keys(ms.remove(j), (ms.len() - 1) as nat).to_multiset().insert(
                bytes::be_value(hash_bytes(ms[j])),
            )
        } else {
            hash_keys(ms.remove(j), (ms.len() - 1) as nat).to_multiset()
        },
    decreases ms.len(),
{
    broadcast use vstd::multiset::group_multiset_axioms;

    let n = ms.len();
    let rest = ms.remove(j);
    let last = bytes::be_value(hash_bytes(ms[n - 1]));
    if j == n - 1 {
        lemma_hash_keys_prefix(ms, rest, (n - 1) as nat);
        to_multiset_build(hash_keys(ms, (n - 1) as nat), last);
    } else {
        let front = ms.take(n - 1);
        lemma_hash_keys_prefix(ms, front, (n - 1) as nat);
        lemma_hash_keys_remove(front, j);
        lemma_hash_keys_prefix(front.remove(j), rest, (n - 2) as nat);
        to_multiset_build(hash_keys(ms, (n - 1) as nat), last);
        to_multiset_build(hash_keys(rest, (n - 2) as nat), last);
        assert(rest[n - 2] == ms[n - 1]);
        let a = hash_keys(ms, n).to_multiset();
        let b = hash_keys(rest, (n - 1) as nat).to_multiset();
        if ms[j].flags % 2 == 1 {
            assert(a =~= b.insert(bytes::be_value(hash_bytes(ms[j]))));
        } else {
            assert(a =~= b);
        }
    }
}

proof fn lemma_hash_keys_permuted(a: Seq<Meta>, b: Seq<Meta>)
    requires
        a.to_multiset() == b.to_multiset(),
    ensures
        hash_keys(a, a.len()).to_multiset() == hash_keys(b, b.len()).to_multiset(),
    decreases a.len(),
{
    broadcast use group_to_multiset_ensures;

    assert(a.to_multiset().len() == a.len());
    assert(b.to_multiset().len() == b.len());
    if a.len() > 0 {
        let x = a[0];
        assert(a.contains(x));
        assert(a.to_multiset().count(x) > 0);
        assert(b.to_multiset().count(x) > 0);
        assert(b.contains(x));
        let j = b.index_of(x);
        lemma_hash_keys_permuted(a.remove(0), b.remove(j));
        lemma_hash_keys_remove(a, 0);
        lemma_hash_keys_remove(b, j);
    }
}

/// The digest of a file does not depend on the order of its metadata entries.
pub proof fn overall_ignores_order(raw_sha1: Seq<u8>, a: Seq<Meta>, b: Seq<Meta>)
    requires
        a.to_multiset() == b.to_multiset(),
    ensures
        overall(raw_sha1, a) == overall(raw_sha1, b),
{
    lemma_total();
    lemma_hash_keys_permuted(a, b);
    let x = hash_keys(a, a.len());
    let y = hash_keys(b, b.len());
    x.lemma_sort_by_ensures(no_greater());
    y.lemma_sort_by_ensures(no_greater());
    lemma_sorted_unique(x.sort_by(no_greater()), y.sort_by(no_greater()), no_greater());
}

/// Without metadata, the overall digest is that of the digest of the image.
pub proof fn overall_without_metadata(raw_sha1: Seq<u8>)
    ensures
        overall(raw_sha1, Seq::empty()) == hash::digest(raw_sha1),
{
    lemma_total();
    let none = hash_keys(Seq::empty(), 0);
    let sorted = none.sort_by(no_greater());
    none.lemma_sort_by_ensures(no_greater());
    if sorted.len() > 0 {
        assert(sorted.contains(sorted[0]));
        assert(none.contains(sorted[0]));
    }
    assert(raw_sha1 + joined(sorted) =~= raw_sha1);
}

/// An entry without the checksum flag is no part of the digest of a file.
pub proof fn overall_ignores_unflagged(raw_sha1: Seq<u8>, ms: Seq<Meta>, m: Meta)
    requires
        m.flags % 2 == 0,
    ensures
        overall(raw_sha1, ms.push(m)) == overall(raw_sha1, ms),
{
    lemma_hash_keys_prefix(ms, ms.push(m), ms.len());
}

pub proof fn lemma_hash_keys_prefix(a: Seq<Meta>, b: Seq<Meta>, n: nat)
    requires
        n <= a.len(),
        n <= b.len(),
        forall|k: int| 0 <= k < n ==> a[k] == b[k],
    ensures
        hash_keys(a, n) == hash_keys(b, n),
    decreases n,
{
    if n > 0 {
        lemma_hash_keys_prefix(a, b, (n - 1) as nat);
    }
}

/// Where two runs of one length first differ, the greater byte decides which number is greater.
proof fn lemma_first_difference(a: Seq<u8>, b: Seq<u8>, i: int)
    requires
        a.len() == b.len(),
        0 <= i < a.len(),
        a.take(i) == b.take(i),
        a[i] < b[i],
    ensures
        bytes::be_value(a) < bytes::be_value(b),
    decreases a.len(),
{
    if i == a.len() - 1 {
        assert(a.drop_last() =~= a.take(i));
        assert(b.drop_last() =~= b.take(i));
    } else {
        assert(a.drop_last().take(i) =~= a.take(i));
        assert(b.drop_last().take(i) =~= b.take(i));
        lemma_first_difference(a.drop_last(), b.drop_last(), i);
    }
}

/// Whether the first of two runs of one length sorts before the second.
fn sorts_before(a: &[u8], b: &[u8]) -> (r: bool)
    requires
        a@.len() == b@.len(),
    ensures
        r == (bytes::be_value(a@) < bytes::be_value(b@)),
{
    let mut i: usize = 0;
    assert(a@.take(0) =~= b@.take(0));
    while i < a.len()
        invariant
            i <= a@.len() == b@.len(),
            a@.take(i as int) == b@.take(i as int),
        decreases a@.len() - i,
    {
        if a[i] < b[i] {
            proof {
                lemma_first_difference(a@, b@, i as int);
            }
            return true;
        }
        if b[i] < a[i] {
            proof {
                lemma_first_difference(b@, a@, i as int);
            }
            return false;
        }
        assert(a@.take(i + 1) =~= a@.take(i as int).push(a@[i as int]));
        assert(b@.take(i + 1) =~= b@.take(i as int).push(b@[i as int]));
        i = i + 1;
    }
    assert(a@.take(i as int) =~= a@);
    assert(b@.take(i as int) =~= b@);
    false
}

/// The numbers that runs of bytes stand for.
spec fn values(v: Seq<Vec<u8>>) -> Seq<nat> {
    Seq::new(v.len(), |i: int| bytes::be_value(v[i]@))
}

/// Puts a run of bytes in its place among those that are sorted.
fn insert_sorted(sorted: &mut Vec<Vec<u8>>, key: Vec<u8>)
    requires
        key@.len() == 24,
        forall|i: int| 0 <= i < old(sorted)@.len() ==> (#[trigger] old(sorted)@[i])@.len() == 24,
        sorted_by(values(old(sorted)@), no_greater()),
    ensures
        forall|i: int| 0 <= i < final(sorted)@.len() ==> (#[trigger] final(sorted)@[i])@.len() == 24,
        sorted_by(values(final(sorted)@), no_greater()),
        values(final(sorted)@).to_multiset() == values(old(sorted)@).to_multiset().insert(
            bytes::be_value(key@),
        ),
{
    let ghost vals = values(sorted@);
    let ghost k = bytes::be_value(key@);
    let mut p: usize = 0;
    while p < sorted.len() && !sorts_before(key.as_slice(), sorted[p].as_slice())
        invariant
            p <= sorted@.len(),
            vals == values(sorted@),
            k == bytes::be_value(key@),
            key@.len() == 24,
            forall|i: int| 0 <= i < sorted@.len() ==> (#[trigger] sorted@[i])@.len() == 24,
            forall|i: int| 0 <= i < p ==> vals[i] <= k,
        decreases sorted@.len() - p,
    {
        p = p + 1;
    }
    proof {
        assert(p < vals.len() ==> k < vals[p as int]);
        assert forall|i: int| p <= i < vals.len() implies k <= vals[i] by {
            if i > p {
                assert(no_greater()(vals[p as int], vals[i]));
            }
        }
    }
    sorted.insert(p, key);
    proof {
        let now = values(sorted@);
        assert(now =~= vals.insert(p as int, k));
        assert forall|i: int, j: int| 0 <= i < j < now.len() implies #[trigger] no_greater()(
            now[i],
            now[j],
        ) by {
            if j < p {
                assert(no_greater()(vals[i], vals[j]));
            } else if j == p {
            } else if i < p {
                assert(no_greater()(vals[i], vals[j - 1]));
            } else if i == p {
            } else {
                assert(no_greater()(vals[i - 1], vals[j - 1]));
            }
        }
        assert(now.remove(p as int) =~= vals);
        to_multiset_remove(now, p as int);
        broadcast use vstd::multiset::group_multiset_axioms;
        broadcast use group_to_multiset_ensures;
        assert(now.contains(k)) by {
            assert(now[p as int] == k);
        }
        assert(now.to_multiset() =~= vals.to_multiset().insert(k));
    }
}

/// The digest of a file, from that of its image and the metadata entries.
pub fn compute_overall_sha1(raw_sha1: &[u8; 20], entries: &[MetaEntry]) -> (r: [u8; 20])
    ensures
        r@ == overall(raw_sha1@, metas(entries@)),
{
    let ghost ms = metas(entries@);
    let n = entries.len();
    let mut sorted: Vec<Vec<u8>> = Vec::new();
    let mut i: usize = 0;
    proof {
        assert(values(sorted@) =~= Seq::empty());
    }
    while i < n
        invariant
            i <= n == entries@.len(),
            ms == metas(entries@),
            forall|k: int| 0 <= k < sorted@.len() ==> (#[trigger] sorted@[k])@.len() == 24,
            sorted_by(values(sorted@), no_greater()),
            values(sorted@).to_multiset() == hash_keys(ms, i as nat).to_multiset(),
        decreases n - i,
    {
        assert(ms[i as int] == entries@[i as int]@);
        if entries[i].flags % 2 == 1 {
            let mut key: Vec<u8> = Vec::new();
            push_be(&mut key, entries[i].tag as u64, 4);
            let d = sha1_digest(entries[i].payload.as_slice());
            key.extend_from_slice(d.as_slice());
            proof {
                bytes::lemma_be_len(ms[i as int].tag as nat, 4);
                assert(key@ =~= hash_bytes(ms[i as int]));
                to_multiset_build(hash_keys(ms, i as nat), bytes::be_value(key@));
            }
            insert_sorted(&mut sorted, key);
        }
        i = i + 1;
    }
    proof {
        lemma_total();
        let keys = hash_keys(ms, n as nat);
        keys.lemma_sort_by_ensures(no_greater());
        lemma_sorted_unique(values(sorted@), keys.sort_by(no_greater()), no_greater());
    }
    let mut all: Vec<u8> = Vec::new();
    all.extend_from_slice(raw_sha1.as_slice());
    let ghost vals = values(sorted@);
    let mut j: usize = 0;
    assert(all@ =~= raw_sha1@ + joined(vals.take(0)));
    while j < sorted.len()
        invariant
            j <= sorted@.len(),
            vals == values(sorted@),
            forall|k: int| 0 <= k < sorted@.len() ==> (#[trigger] sorted@[k])@.len() == 24,
            all@ == raw_sha1@ + joined(vals.take(j as int)),
        decreases sorted@.len() - j,
    {
        let ghost before = all@;
        all.extend_from_slice(sorted[j].as_slice());
        proof {
            let t = vals.take(j + 1);
            assert(t.drop_last() =~= vals.take(j as int));
            bytes::be_bytes_of_value(sorted@[j as int]@);
            assert(all@ =~= before + sorted@[j as int]@);
            assert(all@ =~= raw_sha1@ + joined(t));
        }
        j = j + 1;
    }
    assert(vals.take(j as int) =~= vals);
    sha1_digest(all.as_slice())
}

/// What stands before the contents of an entry in a file, and where it stands.
pub struct Node {
    pub offset: nat,
    pub tag: u32,
    pub flags: u8,
    pub length: nat,
    pub next: nat,
}

/// The entry at a place in a file. There is none at zero, nor where the file ends too early.
pub open spec fn node_at(f: Seq<u8>, offset: nat) -> Option<Node> {
    if offset == 0 || offset + 16 > f.len() {
        None
    } else {
        Some(
            Node {
                offset,
                tag: bytes::be_at(f, offset as int, 4) as u32,
                flags: f[offset as int + 4],
                length: bytes::be_at(f, offset as int + 5, 3),
                next: bytes::be_at(f, offset as int + 8, 8),
            },
        )
    }
}

/// How a list ends.
pub enum ListEnd {
    /// With an entry that is the last one.
    Done,
    /// With a place where the file has no entry.
    Broken,
    /// Not at all.
    Circular,
}

/// The list from `offset` on, up to `fuel` entries.
pub open spec fn nodes(f: Seq<u8>, offset: nat, fuel: nat) -> (Seq<Node>, ListEnd)
    decreases fuel,
{
    if offset == 0 {
        (Seq::empty(), ListEnd::Done)
    } else {
        match node_at(f, offset) {
            None => (Seq::empty(), ListEnd::Broken),
            Some(n) => if fuel == 0 {
                (Seq::empty(), ListEnd::Circular)
            } else {
                let rest = nodes(f, n.next, (fuel - 1) as nat);
                (seq![n] + rest.0, rest.1)
            },
        }
    }
}

/// The list from `offset` on. There are fewer places in a file than bytes, so that a longer list
/// comes to one of them again.
pub open spec fn list(f: Seq<u8>, offset: nat) -> (Seq<Node>, ListEnd) {
    nodes(f, offset, f.len())
}

/// The number of the first `n` entries that have a tag.
pub open spec fn count_tag(ns: Seq<Node>, tag: u32, n: nat) -> nat
    decreases n,
{
    if n == 0 {
        0
    } else {
        count_tag(ns, tag, (n - 1) as nat) + if ns[n - 1].tag == tag {
            1nat
        } else {
            0nat
        }
    }
}

proof fn lemma_count_prefix(a: Seq<Node>, b: Seq<Node>, tag: u32, n: nat)
    requires
        n <= a.len(),
        n <= b.len(),
        forall|k: int| 0 <= k < n ==> a[k] == b[k],
    ensures
        count_tag(a, tag, n) == count_tag(b, tag, n),
    decreases n,
{
    if n > 0 {
        lemma_count_prefix(a, b, tag, (n - 1) as nat);
    }
}

/// The well-known kinds of metadata.
#[derive(Debug, Clone, Copy, PartialEq, Eq, Structural)]
pub enum KnownMetadata {
    /// Any kind.
    Wildcard,
    /// Hard disk (`GDDD`).
    HardDisk,
    /// Hard disk identification (`IDNT`).
    HardDiskIdent,
    /// Hard disk key (`KEY `).
    HardDiskKey,
    /// PCMCIA card information (`CIS `).
    PcmciaCIS,
    /// CD-ROM, old form (`CHCD`).
    CdRomOld,
    /// CD-ROM track (`CHTR`).
    CdRomTrack,
    /// CD-ROM track (`CHT2`).
    CdRomTrack2,
    /// GD-ROM, old form (`CHGT`).
    GdRomOld,
    /// GD-ROM track (`CHGD`).
    GdRomTrack,
    /// Audio and video (`AVAV`).
    AudioVideo,
    /// LaserDisc (`AVLD`).
    AudioVideoLaserDisc,
}

/// Something that has a metadata tag.
pub trait MetadataTag {
    /// The tag, as a specification.
    spec fn spec_metatag(&self) -> u32;

    /// The tag.
    fn metatag(&self) -> (r: u32)
        ensures
            r == self.spec_metatag(),
    ;
}

impl MetadataTag for KnownMetadata {
    open spec fn spec_metatag(&self) -> u32 {
        match self {
            KnownMetadata::Wildcard => 0,
            KnownMetadata::HardDisk => 0x47444444,
            KnownMetadata::HardDiskIdent => 0x49444e54,
            KnownMetadata::HardDiskKey => 0x4b455920,
            KnownMetadata::PcmciaCIS => 0x43495320,
            KnownMetadata::CdRomOld => 0x43484344,
            KnownMetadata::CdRomTrack => 0x43485452,
            KnownMetadata::CdRomTrack2 => 0x43485432,
            KnownMetadata::GdRomOld => 0x43484754,
            KnownMetadata::GdRomTrack => 0x43484744,
            KnownMetadata::AudioVideo => 0x41564156,
            KnownMetadata::AudioVideoLaserDisc => 0x41564c44,
        }
    }

    fn metatag(&self) -> (r: u32) {
        match self {
            KnownMetadata::Wildcard => 0,
            KnownMetadata::HardDisk => 0x47444444,
            KnownMetadata::HardDiskIdent => 0x49444e54,
            KnownMetadata::HardDiskKey => 0x4b455920,
            KnownMetadata::PcmciaCIS => 0x43495320,
            KnownMetadata::CdRomOld => 0x43484344,
            KnownMetadata::CdRomTrack => 0x43485452,
            KnownMetadata::CdRomTrack2 => 0x43485432,
            KnownMetadata::GdRomOld => 0x43484754,
            KnownMetadata::GdRomTrack => 0x43484744,
            KnownMetadata::AudioVideo => 0x41564156,
            KnownMetadata::AudioVideoLaserDisc => 0x41564c44,
        }
    }
}

impl KnownMetadata {
    /// Whether a tag says that a file holds a CD-ROM or a GD-ROM.
    pub fn is_cdrom(tag: u32) -> (r: bool)
        ensures
            r == (tag == KnownMetadata::CdRomOld.spec_metatag() || tag
                == KnownMetadata::CdRomTrack.spec_metatag() || tag
                == KnownMetadata::CdRomTrack2.spec_metatag() || tag
                == KnownMetadata::GdRomOld.spec_metatag() || tag
                == KnownMetadata::GdRomTrack.spec_metatag()),
    {
        tag == KnownMetadata::CdRomOld.metatag() || tag == KnownMetadata::CdRomTrack.metatag() || tag
            == KnownMetadata::CdRomTrack2.metatag() || tag == KnownMetadata::GdRomOld.metatag() || tag
            == KnownMetadata::GdRomTrack.metatag()
    }
}

/// A metadata entry with its contents.
#[derive(Debug)]
pub struct Metadata {
    /// The tag.
    pub metatag: u32,
    /// The contents.
    pub value: Vec<u8>,
    /// The flags.
    pub flags: u8,
    /// The number of earlier entries with the same tag.
    pub index: u32,
    /// The length of the contents.
    pub length: u32,
}

impl Metadata {
    /// Whether this is what reading an entry comes to that has `before` entries with the same tag
    /// before it.
    pub open spec fn is_read(self, f: Seq<u8>, n: Node, before: nat) -> bool {
        &&& self.metatag == n.tag
        &&& self.flags == n.flags
        &&& self.length == n.length
        &&& self.value@ == contents(f, n)
        &&& self.index == capped(before)
    }
}

impl MetadataTag for Metadata {
    open spec fn spec_metatag(&self) -> u32 {
        self.metatag
    }

    fn metatag(&self) -> (r: u32) {
        self.metatag
    }
}

/// A metadata entry in a file.
#[derive(Debug, Clone, Copy)]
pub struct MetadataRef {
    offset: u64,
    length: u32,
    flags: u8,
    index: u32,
    metatag: u32,
}

impl MetadataTag for MetadataRef {
    closed spec fn spec_metatag(&self) -> u32 {
        self.metatag
    }

    fn metatag(&self) -> (r: u32) {
        self.metatag
    }
}

impl MetadataRef {
    /// What the reference says of the entry.
    pub closed spec fn is_at(&self, n: Node) -> bool {
        &&& self.offset == n.offset
        &&& self.length == n.length
        &&& self.flags == n.flags
        &&& self.metatag == n.tag
    }

    /// The number of earlier entries with the same tag.
    pub closed spec fn spec_index(&self) -> u32 {
        self.index
    }

    /// The place of the entry.
    pub closed spec fn place(&self) -> int {
        self.offset as int
    }

    /// The length of the contents.
    pub closed spec fn size(&self) -> int {
        self.length as int
    }

    /// The flags.
    pub closed spec fn spec_flags(&self) -> u8 {
        self.flags
    }

    /// What a reference to an entry says.
    pub proof fn lemma_tag(&self, n: Node)
        requires
            self.is_at(n),
        ensures
            self.spec_metatag() == n.tag,
            self.spec_flags() == n.flags,
            self.place() == n.offset,
            self.size() == n.length,
    {
    }

    /// The number of earlier entries with the same tag.
    pub fn index(&self) -> (r: u32)
        ensures
            r == self.spec_index(),
    {
        self.index
    }

    /// Reads the contents of the entry out of the file.
    pub fn read(&self, file: &[u8]) -> (r: Result<Metadata, Error>)
        ensures
            match r {
                Ok(m) => {
                    &&& self.place() + 16 + self.size() <= file@.len()
                    &&& m.value@ == file@.subrange(
                        self.place() + 16,
                        self.place() + 16 + self.size(),
                    )
                    &&& m.metatag == self.spec_metatag()
                    &&& m.flags == self.spec_flags()
                    &&& m.index == self.spec_index()
                    &&& m.length == self.size()
                },
                Err(e) => e == Error::ReadError && self.place() + 16 + self.size() > file@.len(),
            },
    {
        let len = file.len() as u64;
        if len < 16 || self.offset > len - 16 || self.length as u64 > len - 16 - self.offset {
            return Err(Error::ReadError);
        }
        let at = self.offset as usize + 16;
        let mut value: Vec<u8> = Vec::new();
        value.extend_from_slice(&file[at..at + self.length as usize]);
        assert(value@ =~= file@.subrange(self.place() + 16, self.place() + 16 + self.size()));
        Ok(
            Metadata {
                metatag: self.metatag,
                value,
                flags: self.flags,
                index: self.index,
                length: self.length,
            },
        )
    }
}

/// A number of entries, as far as 32 bits hold it.
pub open spec fn capped(n: nat) -> u32 {
    if n > u32::MAX {
        u32::MAX
    } else {
        n as u32
    }
}

/// A walk along the metadata entries of a file.
pub struct MetadataRefs<'a> {
    file: &'a [u8],
    curr_offset: u64,
    indices: Vec<(u32, u32)>,
    seen: Ghost<Seq<Node>>,
}

impl<'a> MetadataRefs<'a> {
    /// The file.
    pub closed spec fn file(&self) -> Seq<u8> {
        self.file@
    }

    /// Where the walk goes on.
    pub closed spec fn here(&self) -> nat {
        self.curr_offset as nat
    }

    /// The entries that the walk has come by.
    pub closed spec fn seen(&self) -> Seq<Node> {
        self.seen@
    }

    /// Whether the counts are those of the entries that the walk has come by.
    pub closed spec fn wf(&self) -> bool {
        &&& forall|j: int|
            0 <= j < self.indices@.len() ==> (#[trigger] self.indices@[j]).1 > 0
                && self.indices@[j].1 == capped(
                count_tag(self.seen@, self.indices@[j].0, self.seen@.len()),
            )
        &&& forall|i: int, j: int|
            0 <= i < j < self.indices@.len() ==> (#[trigger] self.indices@[i]).0 != (
            #[trigger] self.indices@[j]).0
        &&& forall|tag: u32| #[trigger]
            count_tag(self.seen@, tag, self.seen@.len()) > 0 ==> has_tag(self.indices@, tag)
    }

    /// Starts at a place in a file.
    pub fn from_stream(file: &'a [u8], initial_offset: u64) -> (r: MetadataRefs<'a>)
        ensures
            r.wf(),
            r.file() == file@,
            r.here() == initial_offset,
            r.seen() == Seq::<Node>::empty(),
    {
        MetadataRefs {
            file,
            curr_offset: initial_offset,
            indices: Vec::new(),
            seen: Ghost(Seq::empty()),
        }
    }

    /// A walk that comes by nothing.
    pub fn dead(file: &'a [u8]) -> (r: MetadataRefs<'a>)
        ensures
            r.wf(),
            r.file() == file@,
            r.here() == 0,
            r.seen() == Seq::<Node>::empty(),
    {
        MetadataRefs::from_stream(file, 0)
    }

    /// The next entry, if there is one.
    pub fn next(&mut self) -> (r: Option<MetadataRef>)
        requires
            old(self).wf(),
        ensures
            final(self).wf(),
            final(self).file() == old(self).file(),
            match node_at(old(self).file(), old(self).here()) {
                None => r is None && *final(self) == *old(self),
                Some(n) => {
                    &&& r matches Some(e) && e.is_at(n) && e.spec_index() == capped(
                        count_tag(old(self).seen(), n.tag, old(self).seen().len()),
                    )
                    &&& final(self).here() == n.next
                    &&& final(self).seen() == old(self).seen().push(n)
                },
            },
    {
        let len = self.file.len() as u64;
        if self.curr_offset == 0 || len < 16 || self.curr_offset > len - 16 {
            return None;
        }
        proof {
            lemma2_to64();
        }
        let at = self.curr_offset as usize;
        let ghost n = node_at(self.file@, self.curr_offset as nat)->0;
        let metatag = get_be(self.file, at, 4) as u32;
        let flags = self.file[at + 4];
        let length = get_be(self.file, at + 5, 3) as u32;
        let next = get_be(self.file, at + 8, 8);
        let ghost tags = self.indices@;
        let ghost before = self.seen@;
        let ghost after = self.seen@.push(n);
        proof {
            assert forall|tag: u32| count_tag(after, tag, after.len()) == #[trigger] count_tag(
                before,
                tag,
                before.len(),
            ) + if tag == metatag {
                1nat
            } else {
                0nat
            } by {
                lemma_count_prefix(before, after, tag, before.len());
            }
        }
        let mut index: u32 = 0;
        let mut j: usize = 0;
        while j < self.indices.len() && self.indices[j].0 != metatag
            invariant
                j <= self.indices@.len(),
                self.indices@ == tags,
                forall|k: int| 0 <= k < j ==> (#[trigger] tags[k]).0 != metatag,
            decreases self.indices@.len() - j,
        {
            j = j + 1;
        }
        if j < self.indices.len() {
            index = self.indices[j].1;
            let more: u32 = if index == u32::MAX {
                index
            } else {
                index + 1
            };
            self.indices.set(j, (metatag, more));
        } else {
            assert(!has_tag(tags, metatag));
            self.indices.push((metatag, 1));
        }
        let r = MetadataRef { offset: self.curr_offset, length, flags, index, metatag };
        self.curr_offset = next;
        self.seen = Ghost(after);
        proof {
            assert forall|k: int| 0 <= k < self.indices@.len() implies (#[trigger] self.indices@[k]).1 > 0
                && self.indices@[k].1 == capped(
                count_tag(self.seen@, self.indices@[k].0, self.seen@.len()),
            ) by {
                if k < tags.len() {
                    assert(tags[k].1 == capped(count_tag(before, tags[k].0, before.len())));
                    if k == j {
                        assert(tags[k].0 == metatag);
                    } else if j < tags.len() {
                        assert(tags[k].0 != tags[j as int].0);
                    }
                } else {
                    assert(count_tag(before, metatag, before.len()) == 0);
                }
            }
            assert forall|tag: u32| #[trigger]
                count_tag(self.seen@, tag, self.seen@.len()) > 0 implies has_tag(
                self.indices@,
                tag,
            ) by {
                if tag == metatag {
                    assert(self.indices@[j as int].0 == tag);
                } else {
                    assert(count_tag(before, tag, before.len()) > 0);
                    let k = choose|k: int| 0 <= k < tags.len() && (#[trigger] tags[k]).0 == tag;
                    assert(self.indices@[k].0 == tag);
                }
            }
        }
        Some(r)
    }

    /// Every entry that is left with its contents, in the order of the list.
    pub fn read_all(self) -> (r: Result<Vec<Metadata>, Error>)
        requires
            self.wf(),
        ensures
            ({
                let f = self.file();
                let ns = list(f, self.here()).0;
                let all = self.seen() + ns;
                match r {
                    Ok(v) => {
                        &&& v@.len() == ns.len()
                        &&& forall|i: int| 0 <= i < ns.len() ==> holds_contents(f, #[trigger] ns[i])
                        &&& forall|i: int|
                            0 <= i < v@.len() ==> (#[trigger] v@[i]).is_read(
                                f,
                                ns[i],
                                count_tag(all, ns[i].tag, (self.seen().len() + i) as nat),
                            )
                    },
                    Err(e) => e == Error::ReadError && exists|i: int|
                        0 <= i < ns.len() && !holds_contents(f, #[trigger] ns[i]),
                }
            }),
    {
        let file = self.file;
        let ghost f = self.file();
        let ghost ns = list(f, self.here()).0;
        let ghost all = self.seen() + ns;
        let ghost first = self.seen().len();
        let refs = self.collect();
        let mut out: Vec<Metadata> = Vec::new();
        let mut i: usize = 0;
        while i < refs.len()
            invariant
                i <= refs@.len() == ns.len(),
                out@.len() == i,
                f == file@,
                f == self.file(),
                ns == list(self.file(), self.here()).0,
                forall|k: int| 0 <= k < i ==> holds_contents(f, #[trigger] ns[k]),
                forall|k: int|
                    0 <= k < i ==> (#[trigger] out@[k]).is_read(
                        f,
                        ns[k],
                        count_tag(all, ns[k].tag, (first + k) as nat),
                    ),
                forall|k: int|
                    0 <= k < refs@.len() ==> (#[trigger] refs@[k]).is_at(ns[k])
                        && refs@[k].spec_index() == capped(
                        count_tag(all, ns[k].tag, (first + k) as nat),
                    ),
            decreases refs@.len() - i,
        {
            proof {
                refs@[i as int].lemma_tag(ns[i as int]);
            }
            match refs[i].read(file) {
                Err(e) => {
                    assert(!holds_contents(f, ns[i as int]));
                    return Err(e);
                },
                Ok(m) => {
                    out.push(m);
                },
            }
            i = i + 1;
        }
        Ok(out)
    }

    /// Every entry that is left, in the order of the list.
    pub fn collect(self) -> (r: Vec<MetadataRef>)
        requires
            self.wf(),
        ensures
            r@.len() == list(self.file(), self.here()).0.len(),
            forall|i: int|
                0 <= i < r@.len() ==> {
                    let n = list(self.file(), self.here()).0[i];
                    let all = self.seen() + list(self.file(), self.here()).0;
                    &&& (#[trigger] r@[i]).is_at(n)
                    &&& r@[i].spec_index() == capped(
                        count_tag(all, n.tag, (self.seen().len() + i) as nat),
                    )
                },
    {
        let ghost f = self.file@;
        let ghost ns = list(f, self.here()).0;
        let ghost all = self.seen@ + ns;
        let ghost first = self.seen@.len();
        let mut walk = self;
        let mut out: Vec<MetadataRef> = Vec::new();
        let mut fuel: usize = walk.file.len();
        assert(nodes(f, walk.here(), fuel as nat).0 =~= ns.skip(0));
        while fuel > 0
            invariant
                walk.wf(),
                walk.file() == f,
                f == self.file(),
                ns == list(self.file(), self.here()).0,
                out@.len() <= ns.len(),
                all == self.seen() + ns,
                first == self.seen().len(),
                walk.seen() == all.take((first + out@.len()) as int),
                nodes(f, walk.here(), fuel as nat).0 == ns.skip(out@.len() as int),
                forall|i: int|
                    0 <= i < out@.len() ==> (#[trigger] out@[i]).is_at(ns[i]) && out@[i].spec_index()
                        == capped(count_tag(all, ns[i].tag, (first + i) as nat)),
            decreases fuel,
        {
            let ghost k = out@.len();
            let ghost rest = nodes(f, walk.here(), fuel as nat).0;
            let ghost node = node_at(f, walk.here());
            match walk.next() {
                None => {
                    assert(rest.len() == 0);
                    return out;
                },
                Some(e) => {
                    proof {
                        let n = node->0;
                        assert(rest == seq![n] + nodes(f, n.next, (fuel - 1) as nat).0);
                        assert(rest[0] == n);
                        assert(ns[k as int] == n);
                        assert(all[(first + k) as int] == n);
                        assert(all.take((first + k + 1) as int) =~= all.take((first + k) as int).push(n));
                        assert(nodes(f, n.next, (fuel - 1) as nat).0 =~= ns.skip(k as int + 1)) by {
                            assert(rest.skip(1) =~= nodes(f, n.next, (fuel - 1) as nat).0);
                            assert(rest.skip(1) =~= ns.skip(k as int + 1));
                        }
                        lemma_count_prefix(
                            all.take((first + k) as int),
                            all,
                            n.tag,
                            (first + k) as nat,
                        );
                    }
                    out.push(e);
                },
            }
            fuel = fuel - 1;
        }
        proof {
            assert(nodes(f, walk.here(), 0).0.len() == 0);
            assert(ns.skip(out@.len() as int).len() == 0);
        }
        out
    }
}

/// Whether counts hold a tag.
spec fn has_tag(indices: Seq<(u32, u32)>, tag: u32) -> bool {
    exists|j: int| 0 <= j < indices.len() && (#[trigger] indices[j]).0 == tag
}

/// The contents of an entry, where the file holds them.
pub open spec fn contents(f: Seq<u8>, n: Node) -> Seq<u8> {
    f.subrange(n.offset as int + 16, n.offset as int + 16 + n.length)
}

/// The entry of a place in the list, with its contents.
pub open spec fn meta_of(f: Seq<u8>, n: Node) -> Meta {
    Meta { tag: n.tag, flags: n.flags, payload: contents(f, n) }
}

/// Whether the file holds the contents of an entry.
pub open spec fn holds_contents(f: Seq<u8>, n: Node) -> bool {
    n.offset + 16 + n.length <= f.len()
}

/// The entries of the first `n` that have the checksum flag.
pub open spec fn flagged(f: Seq<u8>, ns: Seq<Node>, n: nat) -> Seq<Meta>
    decreases n,
{
    if n == 0 {
        Seq::empty()
    } else if ns[n - 1].flags % 2 == 1 {
        flagged(f, ns, (n - 1) as nat).push(
            Meta {
                tag: ns[n - 1].tag,
                flags: ns[n - 1].flags,
                payload: contents(f, ns[n - 1]),
            },
        )
    } else {
        flagged(f, ns, (n - 1) as nat)
    }
}

/// Whether the contents of each of the first `n` entries that has the checksum flag are there.
pub open spec fn flagged_held(f: Seq<u8>, ns: Seq<Node>, n: nat) -> bool {
    forall|i: int| 0 <= i < n && (#[trigger] ns[i]).flags % 2 == 1 ==> holds_contents(f, ns[i])
}

/// What is wrong with a list that ends as it does.
pub open spec fn end_fault(end: ListEnd) -> Option<Error> {
    match end {
        ListEnd::Done => None,
        ListEnd::Broken => Some(Error::ReadError),
        ListEnd::Circular => Some(Error::InvalidData),
    }
}

/// The digest of a file with the metadata list that starts at `offset`.
pub open spec fn listed_overall(f: Seq<u8>, raw_sha1: Seq<u8>, offset: nat) -> Result<Seq<u8>, Error> {
    let l = list(f, offset);
    if !flagged_held(f, l.0, l.0.len()) {
        Err(Error::ReadError)
    } else {
        match end_fault(l.1) {
            Some(e) => Err(e),
            None => Ok(overall(raw_sha1, flagged(f, l.0, l.0.len()))),
        }
    }
}

/// The place behind `k` more entries with a tag, from entry `i` on: the entry that has the tag.
pub open spec fn position_from(ns: Seq<Node>, tag: u32, k: nat, i: int) -> Option<int>
    decreases ns.len() - i,
{
    if i < 0 || i >= ns.len() {
        None
    } else if ns[i].tag != tag {
        position_from(ns, tag, k, i + 1)
    } else if k == 0 {
        Some(i)
    } else {
        position_from(ns, tag, (k - 1) as nat, i + 1)
    }
}

/// Which entry has `index` entries with the same tag before it. Indices from 2^31 on match none.
pub open spec fn position(ns: Seq<Node>, tag: u32, index: u32) -> Option<int> {
    if index >= 0x8000_0000 {
        None
    } else {
        position_from(ns, tag, index as nat, 0)
    }
}

/// The place of the entry before entry `i`; zero before the first.
pub open spec fn prev_offset(ns: Seq<Node>, i: int) -> nat {
    if i <= 0 {
        0
    } else {
        ns[i - 1].offset
    }
}

/// An entry that was searched for.
struct Found {
    found: bool,
    offset: u64,
    prev: u64,
    next: u64,
    length: u32,
}

/// Whether the search for an entry came to the right end.
spec fn found_right(f: Seq<u8>, meta_offset: nat, tag: u32, index: u32, r: Result<Found, Error>) -> bool {
    let l = list(f, meta_offset);
    match position(l.0, tag, index) {
        Some(p) => {
            &&& r matches Ok(x)
            &&& x.found
            &&& x.offset == l.0[p].offset
            &&& x.prev == prev_offset(l.0, p)
            &&& x.next == l.0[p].next
            &&& x.length == l.0[p].length
        },
        None => match end_fault(l.1) {
            Some(e) => r == Err::<Found, Error>(e),
            None => {
                &&& r matches Ok(x)
                &&& !x.found
                &&& x.prev == prev_offset(l.0, l.0.len() as int)
            },
        },
    }
}

/// One step along a list.
proof fn lemma_nodes_step(f: Seq<u8>, start: nat, visited: Seq<Node>, offset: nat, fuel: nat)
    requires
        list(f, start).0 == visited + nodes(f, offset, fuel).0,
        list(f, start).1 == nodes(f, offset, fuel).1,
        fuel > 0,
        node_at(f, offset) is Some,
    ensures
        ({
            let n = node_at(f, offset)->0;
            &&& list(f, start).0 == visited.push(n) + nodes(f, n.next, (fuel - 1) as nat).0
            &&& list(f, start).1 == nodes(f, n.next, (fuel - 1) as nat).1
            &&& list(f, start).0[visited.len() as int] == n
            &&& visited.len() < list(f, start).0.len()
        }),
{
    let n = node_at(f, offset)->0;
    let rest = nodes(f, n.next, (fuel - 1) as nat);
    assert(visited + (seq![n] + rest.0) =~= visited.push(n) + rest.0);
}

/// Every entry of a list lies in the file.
pub proof fn lemma_nodes_at(f: Seq<u8>, offset: nat, fuel: nat, i: int)
    requires
        0 <= i < nodes(f, offset, fuel).0.len(),
    ensures
        node_at(f, nodes(f, offset, fuel).0[i].offset) == Some(nodes(f, offset, fuel).0[i]),
        i == 0 ==> nodes(f, offset, fuel).0[i].offset == offset,
        i > 0 ==> nodes(f, offset, fuel).0[i].offset == nodes(f, offset, fuel).0[i - 1].next,
    decreases fuel,
{
    let n = node_at(f, offset)->0;
    let rest = nodes(f, n.next, (fuel - 1) as nat);
    if i > 0 {
        lemma_nodes_at(f, n.next, (fuel - 1) as nat, i - 1);
        assert((seq![n] + rest.0)[i] == rest.0[i - 1]);
        if i > 1 {
            assert((seq![n] + rest.0)[i - 1] == rest.0[i - 2]);
        }
    }
}

/// Searches a list for an entry.
fn metadata_find(file: &[u8], meta_offset: u64, tag: u32, index: u32) -> (r: Result<Found, Error>)
    ensures
        found_right(file@, meta_offset as nat, tag, index, r),
{
    let ghost f = file@;
    let ghost start = meta_offset as nat;
    let ghost all = list(f, start).0;
    let ghost mut visited: Seq<Node> = Seq::empty();
    let len = file.len();
    let mut fuel: usize = len;
    let mut offset: u64 = meta_offset;
    let mut prev: u64 = 0;
    let mut left: u32 = index;
    proof {
        lemma2_to64();
        assert(visited + nodes(f, start, f.len()).0 =~= all);
    }
    while offset != 0
        invariant
            f == file@,
            start == meta_offset,
            len == f.len(),
            all == list(f, start).0,
            all == visited + nodes(f, offset as nat, fuel as nat).0,
            list(f, start).1 == nodes(f, offset as nat, fuel as nat).1,
            prev == prev_offset(all, visited.len() as int),
            index >= 0x8000_0000 ==> left == index,
            index < 0x8000_0000 ==> left <= index && position_from(all, tag, index as nat, 0)
                == position_from(all, tag, left as nat, visited.len() as int),
            pow2(32) == 0x1_0000_0000,
            pow2(24) == 0x100_0000,
        decreases fuel + if offset != 0 {
            1int
        } else {
            0int
        },
    {
        let ghost here = node_at(f, offset as nat);
        if len < 16 || offset > len as u64 - 16 {
            assert(all =~= visited);
            return Err(Error::ReadError);
        }
        if fuel == 0 {
            assert(all =~= visited);
            return Err(Error::InvalidData);
        }
        let at = offset as usize;
        let etag = get_be(file, at, 4) as u32;
        let elen = get_be(file, at + 5, 3) as u32;
        let enext = get_be(file, at + 8, 8);
        proof {
            lemma_nodes_step(f, start, visited, offset as nat, fuel as nat);
        }
        if etag == tag {
            if left == 0 {
                return Ok(Found { found: true, offset, prev, next: enext, length: elen });
            }
            if index < 0x8000_0000 {
                left = left - 1;
            }
        }
        proof {
            visited = visited.push(here->0);
        }
        prev = offset;
        offset = enext;
        fuel = fuel - 1;
    }
    assert(all =~= visited);
    Ok(Found { found: false, offset: 0, prev, next: 0, length: 0 })
}

/// A file with bytes written over those from `at` on, and behind the end where they are more.
pub open spec fn overwritten(f: Seq<u8>, at: int, b: Seq<u8>) -> Seq<u8> {
    f.take(at) + b + if at + b.len() < f.len() {
        f.skip(at + b.len())
    } else {
        Seq::empty()
    }
}

/// Writes bytes over those from `at` on.
pub fn overwrite(f: &mut Vec<u8>, at: usize, b: &[u8])
    requires
        at <= old(f)@.len(),
    ensures
        final(f)@ == overwritten(old(f)@, at as int, b@),
{
    let len = f.len();
    let mut i: usize = 0;
    let n = b.len();
    while i < n
        invariant
            i <= n == b@.len(),
            at <= len == old(f)@.len(),
            at + i <= usize::MAX,
            f@.len() == if at + i < len {
                len as int
            } else {
                at + i
            },
            forall|k: int|
                0 <= k < f@.len() ==> #[trigger] f@[k] == if at <= k < at + i {
                    b@[k - at]
                } else {
                    old(f)@[k]
                },
        decreases n - i,
    {
        if i < len - at {
            f[at + i] = b[i];
        } else {
            f.push(b[i]);
            let now = f.len();
        }
        i = i + 1;
    }
    assert(f@ =~= overwritten(old(f)@, at as int, b@));
}

/// A file in which the entry at `prev`, or the header where that is zero, is followed by `next`.
pub open spec fn relinked(f: Seq<u8>, prev: nat, next: nat) -> Seq<u8> {
    overwritten(
        f,
        if prev == 0 {
            48
        } else {
            prev as int + 8
        },
        bytes::be_bytes(next, 8),
    )
}

/// Puts `next` behind the entry at `prev`, or behind the header.
fn set_previous_next(f: &mut Vec<u8>, prev: u64, next: u64)
    requires
        old(f)@.len() >= 56,
        prev + 16 <= old(f)@.len(),
    ensures
        final(f)@ == relinked(old(f)@, prev as nat, next as nat),
{
    let len = f.len();
    let mut b: Vec<u8> = Vec::new();
    push_be(&mut b, next, 8);
    assert(b@ =~= bytes::be_bytes(next as nat, 8));
    if prev == 0 {
        overwrite(f, 48, b.as_slice());
    } else {
        overwrite(f, prev as usize + 8, b.as_slice());
    }
}

/// What keeps a file from being edited, if anything: it has to be of version 5.
pub open spec fn edit_fault(f: Seq<u8>) -> Option<Error> {
    if f.len() < 8 {
        Some(Error::ReadError)
    } else if !header::has_magic(f) {
        Some(Error::InvalidFile)
    } else if f.len() < 16 {
        Some(Error::ReadError)
    } else if bytes::be_at(f, 12, 4) != 5 {
        Some(Error::UnsupportedVersion)
    } else if f.len() < 56 {
        Some(Error::ReadError)
    } else {
        None
    }
}

/// Makes sure that a file can be edited, and says where its metadata starts.
fn check_v5(file: &[u8]) -> (r: Result<u64, Error>)
    ensures
        match r {
            Ok(offset) => edit_fault(file@) is None && offset == bytes::be_at(file@, 48, 8),
            Err(e) => edit_fault(file@) == Some(e),
        },
{
    if file.len() < 8 {
        return Err(Error::ReadError);
    }
    let word: [u8; 8] = [0x4d, 0x43, 0x6f, 0x6d, 0x70, 0x72, 0x48, 0x44];
    assert(word@ =~= header::magic());
    assert(file@.take(8) =~= file@.subrange(0, 8));
    if !header::same_bytes(&file[0..8], word.as_slice()) {
        return Err(Error::InvalidFile);
    }
    if file.len() < 16 {
        return Err(Error::ReadError);
    }
    if get_be(file, 12, 4) != 5 {
        return Err(Error::UnsupportedVersion);
    }
    if file.len() < 56 {
        return Err(Error::ReadError);
    }
    Ok(get_be(file, 48, 8))
}

/// The digest of a file with the metadata list that starts at `meta_offset`.
fn overall_sha1(file: &[u8], raw_sha1: &[u8; 20], meta_offset: u64) -> (r: Result<[u8; 20], Error>)
    ensures
        match r {
            Ok(d) => listed_overall(file@, raw_sha1@, meta_offset as nat) == Ok::<Seq<u8>, Error>(d@),
            Err(e) => listed_overall(file@, raw_sha1@, meta_offset as nat) == Err::<Seq<u8>, Error>(e),
        },
{
    let ghost f = file@;
    let ghost start = meta_offset as nat;
    let ghost all = list(f, start).0;
    let ghost mut visited: Seq<Node> = Seq::empty();
    let len = file.len();
    let mut fuel: usize = len;
    let mut offset: u64 = meta_offset;
    let mut entries: Vec<MetaEntry> = Vec::new();
    proof {
        lemma2_to64();
        assert(visited + nodes(f, start, f.len()).0 =~= all);
        assert(metas(entries@) =~= Seq::empty());
    }
    while offset != 0
        invariant
            f == file@,
            start == meta_offset,
            len == f.len(),
            all == list(f, start).0,
            visited.len() <= all.len(),
            all == visited + nodes(f, offset as nat, fuel as nat).0,
            list(f, start).1 == nodes(f, offset as nat, fuel as nat).1,
            flagged_held(f, all, visited.len()),
            metas(entries@) == flagged(f, all, visited.len()),
            pow2(32) == 0x1_0000_0000,
            pow2(24) == 0x100_0000,
        decreases fuel + if offset != 0 {
            1int
        } else {
            0int
        },
    {
        let ghost here = node_at(f, offset as nat);
        if len < 16 || offset > len as u64 - 16 {
            assert(all =~= visited);
            return Err(Error::ReadError);
        }
        if fuel == 0 {
            assert(all =~= visited);
            return Err(Error::InvalidData);
        }
        let at = offset as usize;
        let etag = get_be(file, at, 4) as u32;
        let eflags = file[at + 4];
        let elen = get_be(file, at + 5, 3) as u32;
        let enext = get_be(file, at + 8, 8);
        let ghost k = visited.len();
        proof {
            lemma_nodes_step(f, start, visited, offset as nat, fuel as nat);
        }
        if eflags % 2 == 1 {
            if elen as usize > len - 16 - at {
                assert(!holds_contents(f, all[k as int]));
                return Err(Error::ReadError);
            }
            let mut payload: Vec<u8> = Vec::new();
            payload.extend_from_slice(&file[at + 16..at + 16 + elen as usize]);
            assert(payload@ =~= contents(f, all[k as int]));
            let ghost before = entries@;
            let e = MetaEntry { tag: etag, flags: eflags, payload };
            entries.push(e);
            assert(metas(entries@) =~= metas(before).push(e@));
        }
        proof {
            visited = visited.push(here->0);
        }
        offset = enext;
        fuel = fuel - 1;
    }
    assert(all =~= visited);
    Ok(compute_overall_sha1(raw_sha1, entries.as_slice()))
}

/// A file with its digest brought up to date. A file without compression has none.
pub open spec fn rehashed(f: Seq<u8>) -> Result<Seq<u8>, Error> {
    if bytes::be_at(f, 16, 4) == 0 {
        Ok(f)
    } else if f.len() < 84 {
        Err(Error::ReadError)
    } else {
        match listed_overall(f, f.subrange(64, 84), bytes::be_at(f, 48, 8)) {
            Ok(d) => Ok(overwritten(f, 84, d)),
            Err(e) => Err(e),
        }
    }
}

/// Brings the digest of a file up to date.
fn update_hash(file: &mut Vec<u8>) -> (r: Result<(), Error>)
    requires
        old(file)@.len() >= 56,
    ensures
        match rehashed(old(file)@) {
            Ok(g) => r is Ok && final(file)@ == g,
            Err(e) => r == Err::<(), Error>(e) && final(file)@ == old(file)@,
        },
{
    if get_be(file.as_slice(), 16, 4) == 0 {
        return Ok(());
    }
    if file.len() < 84 {
        return Err(Error::ReadError);
    }
    let raw = digest_at(file.as_slice(), 64);
    let meta_offset = get_be(file.as_slice(), 48, 8);
    match overall_sha1(file.as_slice(), &raw, meta_offset) {
        Err(e) => Err(e),
        Ok(d) => {
            overwrite(file, 84, d.as_slice());
            Ok(())
        },
    }
}

/// A file with the contents of the entry at `offset` written over by ones that fit.
pub open spec fn refilled(f: Seq<u8>, offset: int, length: nat, data: Seq<u8>) -> Seq<u8> {
    let g = overwritten(f, offset + 16, data);
    if data.len() == length {
        g
    } else {
        overwritten(g, offset + 5, bytes::be_bytes(data.len(), 3))
    }
}

/// A file with an entry added at its end, behind the entry at `prev`.
pub open spec fn extended(f: Seq<u8>, prev: nat, m: Meta) -> Seq<u8> {
    relinked(f + entry_bytes(m, 0), prev, f.len())
}

/// Writes over the contents of an entry.
fn refill(file: &mut Vec<u8>, offset: u64, length: u32, data: &[u8])
    requires
        offset + 16 <= old(file)@.len(),
        data@.len() <= length,
    ensures
        final(file)@ == refilled(old(file)@, offset as int, length as nat, data@),
        final(file)@.len() >= old(file)@.len(),
{
    let len = file.len();
    let n = data.len();
    let ghost f = file@;
    overwrite(file, offset as usize + 16, data);
    if n as u32 != length {
        let mut b: Vec<u8> = Vec::new();
        push_be(&mut b, n as u64, 3);
        assert(b@ =~= bytes::be_bytes(data@.len(), 3));
        overwrite(file, offset as usize + 5, b.as_slice());
        proof {
            bytes::lemma_be_len(data@.len(), 3);
        }
    }
}

/// Adds an entry at the end.
fn extend(file: &mut Vec<u8>, prev: u64, tag: u32, flags: u8, data: &[u8])
    requires
        old(file)@.len() >= 56,
        prev + 16 <= old(file)@.len(),
    ensures
        final(file)@ == extended(
            old(file)@,
            prev as nat,
            Meta { tag, flags, payload: data@ },
        ),
        final(file)@.len() >= old(file)@.len(),
{
    let ghost f = file@;
    let ghost m = Meta { tag, flags, payload: data@ };
    let offset = file.len() as u64;
    let n = data.len();
    push_be(file, tag as u64, 4);
    file.push(flags);
    push_be(file, n as u64, 3);
    push_be(file, 0, 8);
    file.extend_from_slice(data);
    assert(file@ =~= f + entry_bytes(m, 0));
    set_previous_next(file, prev, offset);
    proof {
        lemma_relinked_len(f + entry_bytes(m, 0), prev as nat, offset as nat);
    }
}

/// A file with an entry written to it, the digest not yet brought up to date. The entry that is there
/// is written over where the new contents fit. Otherwise it is taken out, and an entry is added at
/// the end of the file behind the one that was before it; where there was none, behind the last one.
pub open spec fn edited(f: Seq<u8>, tag: u32, index: u32, data: Seq<u8>, flags: u8) -> Result<Seq<u8>, Error> {
    if data.len() == 0 || data.len() >= 0x100_0000 {
        Err(Error::InvalidParameter)
    } else if edit_fault(f) is Some {
        Err(edit_fault(f)->0)
    } else {
        let l = list(f, bytes::be_at(f, 48, 8));
        let m = Meta { tag, flags, payload: data };
        match position(l.0, tag, index) {
            Some(p) => if data.len() <= l.0[p].length {
                Ok(refilled(f, l.0[p].offset as int, l.0[p].length, data))
            } else {
                let prev = prev_offset(l.0, p);
                Ok(extended(relinked(f, prev, l.0[p].next), prev, m))
            },
            None => match end_fault(l.1) {
                Some(e) => Err(e),
                None => Ok(extended(f, prev_offset(l.0, l.0.len() as int), m)),
            },
        }
    }
}

/// Writes an entry to a file of version 5. The entry with the tag and index is written over where the
/// new contents fit; otherwise one is added at the end of the file. The index `u32::MAX` always adds
/// one. The digest of a compressed file is brought up to date.
pub fn write_metadata(file: &mut Vec<u8>, tag: u32, index: u32, data: &[u8], flags: u8) -> (r: Result<
    (),
    Error,
>)
    ensures
        match edited(old(file)@, tag, index, data@, flags) {
            Err(e) => r == Err::<(), Error>(e) && final(file)@ == old(file)@,
            Ok(g) => match rehashed(g) {
                Ok(h) => r is Ok && final(file)@ == h,
                Err(e) => r == Err::<(), Error>(e) && final(file)@ == g,
            },
        },
{
    let n = data.len();
    if n == 0 || n >= 0x100_0000 {
        return Err(Error::InvalidParameter);
    }
    let meta_offset = match check_v5(file.as_slice()) {
        Ok(o) => o,
        Err(e) => {
            return Err(e);
        },
    };
    let ghost f = file@;
    let ghost l = list(f, meta_offset as nat);
    let found = match metadata_find(file.as_slice(), meta_offset, tag, index) {
        Ok(x) => x,
        Err(e) => {
            return Err(e);
        },
    };
    proof {
        lemma_positions(l.0, tag, index);
        if let Some(p) = position(l.0, tag, index) {
            lemma_nodes_at(f, meta_offset as nat, f.len(), p);
            if p > 0 {
                lemma_nodes_at(f, meta_offset as nat, f.len(), p - 1);
            }
        }
        if l.0.len() > 0 {
            lemma_nodes_at(f, meta_offset as nat, f.len(), l.0.len() - 1);
        }
    }
    if !found.found {
        extend(file, found.prev, tag, flags, data);
    } else if n as u32 <= found.length {
        refill(file, found.offset, found.length, data);
    } else {
        proof {
            lemma_relinked_len(f, found.prev as nat, found.next as nat);
        }
        set_previous_next(file, found.prev, found.next);
        extend(file, found.prev, tag, flags, data);
    }
    update_hash(file)
}

proof fn lemma_relinked_len(f: Seq<u8>, prev: nat, next: nat)
    requires
        f.len() >= 56,
        prev + 16 <= f.len(),
    ensures
        relinked(f, prev, next).len() == f.len(),
{
    bytes::lemma_be_len(next, 8);
}

pub proof fn lemma_position_from(ns: Seq<Node>, tag: u32, k: nat, i: int)
    requires
        0 <= i,
    ensures
        position_from(ns, tag, k, i) matches Some(p) ==> i <= p < ns.len() && ns[p].tag == tag,
    decreases ns.len() - i,
{
    if i < ns.len() {
        if ns[i].tag != tag {
            lemma_position_from(ns, tag, k, i + 1);
        } else if k > 0 {
            lemma_position_from(ns, tag, (k - 1) as nat, i + 1);
        }
    }
}

proof fn lemma_positions(ns: Seq<Node>, tag: u32, index: u32)
    ensures
        position(ns, tag, index) matches Some(p) ==> 0 <= p < ns.len() && ns[p].tag == tag,
{
    lemma_position_from(ns, tag, index as nat, 0);
}

/// A file without one of its entries.
pub open spec fn removed(f: Seq<u8>, tag: u32, index: u32) -> Result<Seq<u8>, Error> {
    if edit_fault(f) is Some {
        Err(edit_fault(f)->0)
    } else {
        let l = list(f, bytes::be_at(f, 48, 8));
        match position(l.0, tag, index) {
            Some(p) => Ok(relinked(f, prev_offset(l.0, p), l.0[p].next)),
            None => match end_fault(l.1) {
                Some(e) => Err(e),
                None => Err(Error::MetadataNotFound),
            },
        }
    }
}

/// Takes an entry out of the list of a file of version 5. Its bytes stay, and the digest of the file
/// is left as it is.
pub fn delete_metadata(file: &mut Vec<u8>, tag: u32, index: u32) -> (r: Result<(), Error>)
    ensures
        match removed(old(file)@, tag, index) {
            Ok(g) => r is Ok && final(file)@ == g,
            Err(e) => r == Err::<(), Error>(e) && final(file)@ == old(file)@,
        },
{
    let meta_offset = match check_v5(file.as_slice()) {
        Ok(o) => o,
        Err(e) => {
            return Err(e);
        },
    };
    let ghost f = file@;
    let ghost l = list(f, meta_offset as nat);
    let found = match metadata_find(file.as_slice(), meta_offset, tag, index) {
        Ok(x) => x,
        Err(e) => {
            return Err(e);
        },
    };
    if !found.found {
        return Err(Error::MetadataNotFound);
    }
    proof {
        lemma_positions(l.0, tag, index);
        let p = position(l.0, tag, index)->0;
        if p > 0 {
            lemma_nodes_at(f, meta_offset as nat, f.len(), p - 1);
        }
    }
    set_previous_next(file, found.prev, found.next);
    Ok(())
}

} // verus!
