//! Laws of the overall digest of a file.

use crate::bytes;
use crate::hash;
use crate::metadata;
use crate::metadata::Meta;
use vstd::prelude::*;
use vstd::relations::*;
use vstd::seq_lib::*;

verus! {

/// The four bytes of a tag, the greatest first.
pub open spec fn tag_bytes(tag: u32) -> Seq<u8> {
    seq![
        (tag / 0x100_0000) as u8,
        (tag / 0x1_0000 % 0x100) as u8,
        (tag / 0x100 % 0x100) as u8,
        (tag % 0x100) as u8,
    ]
}

/// What an entry adds to the overall digest: its tag and the SHA-1 of its contents, 24 bytes.
pub open spec fn run_of(m: Meta) -> Seq<u8> {
    tag_bytes(m.tag) + Seq::new(20, |i: int| hash::sha1_of(m.payload)[i])
}

/// The entries with the checksum flag.
pub open spec fn with_flag(ms: Seq<Meta>) -> Seq<Meta> {
    ms.filter(|m: Meta| m.flags % 2 == 1)
}

/// Whether bytes do not come behind others of the same number: the first byte that differs decides.
pub open spec fn in_order(a: Seq<u8>, b: Seq<u8>) -> bool {
    a == b || exists|k: int|
        0 <= k < a.len() && a[k] < b[k] && forall|j: int| 0 <= j < k ==> #[trigger] a[j] == b[j]
}

/// Whether runs of bytes are in ascending order.
pub open spec fn ascending(runs: Seq<Seq<u8>>) -> bool {
    forall|i: int, j: int| 0 <= i < j < runs.len() ==> in_order(#[trigger] runs[i], #[trigger] runs[j])
}

proof fn lemma_tag_bytes(tag: u32)
    ensures
        bytes::be_bytes(tag as nat, 4) == tag_bytes(tag),
{
    reveal_with_fuel(bytes::be_bytes, 5);
    let t = tag as nat;
    assert(t / 256 / 256 == t / 0x1_0000);
    assert(t / 256 / 256 / 256 == t / 0x100_0000);
    assert(t / 0x100_0000 < 256);
    assert(bytes::be_bytes(t, 4) =~= tag_bytes(tag));
}

proof fn lemma_run(m: Meta)
    ensures
        metadata::hash_bytes(m) == run_of(m),
        run_of(m).len() == 24,
        bytes::be_bytes(bytes::be_value(metadata::hash_bytes(m)), 24) == run_of(m),
{
    lemma_tag_bytes(m.tag);
    assert(metadata::hash_bytes(m) =~= run_of(m));
    bytes::be_bytes_of_value(run_of(m));
}

proof fn lemma_order(a: Seq<u8>, b: Seq<u8>)
    requires
        a.len() == b.len(),
        bytes::be_value(a) <= bytes::be_value(b),
    ensures
        in_order(a, b),
    decreases a.len(),
{
    if a.len() == 0 {
        assert(a =~= b);
    } else {
        let x = a.drop_last();
        let y = b.drop_last();
        lemma_order(x, y);
        if x == y {
            if a.last() == b.last() {
                assert(a =~= x.push(a.last()));
                assert(b =~= y.push(b.last()));
            } else {
                let k = a.len() - 1;
                assert forall|j: int| 0 <= j < k implies #[trigger] a[j] == b[j] by {
                    assert(x[j] == y[j]);
                }
                assert(a[k] < b[k]);
            }
        } else {
            let k = choose|k: int|
                0 <= k < x.len() && x[k] < y[k] && forall|j: int| 0 <= j < k ==> #[trigger] x[j] == y[j];
            assert forall|j: int| 0 <= j < k implies #[trigger] a[j] == b[j] by {
                assert(x[j] == y[j]);
            }
            assert(a[k] < b[k]);
        }
    }
}

/// The runs that keys stand for.
spec fn runs_of(keys: Seq<nat>) -> Seq<Seq<u8>> {
    keys.map_values(|k: nat| bytes::be_bytes(k, 24))
}

proof fn lemma_with_flag(ms: Seq<Meta>)
    ensures
        with_flag(ms) == if ms.len() == 0 {
            Seq::<Meta>::empty()
        } else if ms.last().flags % 2 == 1 {
            with_flag(ms.drop_last()).push(ms.last())
        } else {
            with_flag(ms.drop_last())
        },
{
    reveal(Seq::filter);
    if ms.len() == 0 {
        assert(ms =~= Seq::empty());
    }
}

proof fn lemma_keys(ms: Seq<Meta>, n: nat)
    requires
        n <= ms.len(),
    ensures
        runs_of(metadata::hash_keys(ms, n)) == with_flag(ms.take(n as int)).map_values(
            |m: Meta| run_of(m),
        ),
        forall|i: int|
            0 <= i < metadata::hash_keys(ms, n).len() ==> exists|m: Meta| #[trigger]
                metadata::hash_keys(ms, n)[i] == bytes::be_value(#[trigger] run_of(m)),
    decreases n,
{
    let t = ms.take(n as int);
    lemma_with_flag(t);
    if n > 0 {
        lemma_keys(ms, (n - 1) as nat);
        lemma_run(ms[n - 1]);
        assert(t.drop_last() =~= ms.take(n - 1));
        assert(t.last() == ms[n - 1]);
        let keys = metadata::hash_keys(ms, (n - 1) as nat);
        let k = bytes::be_value(metadata::hash_bytes(ms[n - 1]));
        assert(runs_of(keys.push(k)) =~= runs_of(keys).push(bytes::be_bytes(k, 24)));
        let before = with_flag(t.drop_last());
        assert(before.push(t.last()).map_values(|m: Meta| run_of(m)) =~= before.map_values(
            |m: Meta| run_of(m),
        ).push(run_of(t.last())));
    } else {
        assert(runs_of(metadata::hash_keys(ms, n)) =~= with_flag(t).map_values(|m: Meta| run_of(m)));
    }
}

proof fn lemma_same_runs(a: Seq<nat>, b: Seq<nat>)
    requires
        a.to_multiset() == b.to_multiset(),
    ensures
        runs_of(a).to_multiset() == runs_of(b).to_multiset(),
    decreases a.len(),
{
    broadcast use group_to_multiset_ensures;

    assert(a.to_multiset().len() == a.len());
    assert(b.to_multiset().len() == b.len());
    if a.len() > 0 {
        let x = a[0];
        assert(a.contains(x));
        assert(a.to_multiset().count(x) > 0);
        assert(b.to_multiset().count(x) > 0);
        assert(b.contains(x));
        let j = b.index_of(x);
        lemma_same_runs(a.remove(0), b.remove(j));
        let ra = runs_of(a);
        let rb = runs_of(b);
        assert(runs_of(a.remove(0)) =~= ra.remove(0));
        assert(runs_of(b.remove(j)) =~= rb.remove(j));
        assert(ra[0] == rb[j]);
        to_multiset_remove(ra, 0);
        to_multiset_remove(rb, j);
        assert(ra.contains(ra[0]));
        assert(rb.contains(rb[j]));
        assert(ra.to_multiset() =~= ra.remove(0).to_multiset().insert(ra[0]));
        assert(rb.to_multiset() =~= rb.remove(j).to_multiset().insert(rb[j]));
    } else {
        assert(runs_of(a) =~= runs_of(b));
    }
}

proof fn lemma_joined(keys: Seq<nat>)
    ensures
        metadata::joined(keys) == runs_of(keys).flatten(),
    decreases keys.len(),
{
    let rs = runs_of(keys);
    if keys.len() > 0 {
        lemma_joined(keys.drop_last());
        assert(rs.drop_last() =~= runs_of(keys.drop_last()));
        assert(rs.drop_last().push(rs.last()) =~= rs);
        rs.drop_last().lemma_flatten_push(rs.last());
    } else {
        assert(rs =~= Seq::empty());
    }
}

/// The overall digest of a file is the SHA-1 of the digest of its image and of one run for each
/// entry with the checksum flag, that is its tag, greatest byte first, and the SHA-1 of its
/// contents. The runs are in ascending order, byte by byte.
pub proof fn overall_is_of_sorted_runs(raw_sha1: Seq<u8>, ms: Seq<Meta>) -> (runs: Seq<Seq<u8>>)
    ensures
        runs.to_multiset() == with_flag(ms).map_values(|m: Meta| run_of(m)).to_multiset(),
        ascending(runs),
        metadata::overall(raw_sha1, ms) == hash::digest(raw_sha1 + runs.flatten()),
{
    let keys = metadata::hash_keys(ms, ms.len());
    let order = metadata::no_greater();
    let sorted = keys.sort_by(order);
    assert(total_ordering(order));
    keys.lemma_sort_by_ensures(order);
    lemma_keys(ms, ms.len());
    assert(ms.take(ms.len() as int) =~= ms);
    lemma_same_runs(sorted, keys);
    lemma_joined(sorted);
    let runs = runs_of(sorted);
    assert forall|i: int, j: int| 0 <= i < j < runs.len() implies in_order(
        #[trigger] runs[i],
        #[trigger] runs[j],
    ) by {
        assert(sorted.contains(sorted[i]));
        assert(sorted.contains(sorted[j]));
        lemma_kept(sorted, keys, sorted[i]);
        lemma_kept(sorted, keys, sorted[j]);
        let a = keys.index_of(sorted[i]);
        let b = keys.index_of(sorted[j]);
        let m = choose|m: Meta| keys[a] == bytes::be_value(#[trigger] run_of(m));
        let n = choose|n: Meta| keys[b] == bytes::be_value(#[trigger] run_of(n));
        lemma_run(m);
        lemma_run(n);
        assert(order(sorted[i], sorted[j]));
        lemma_order(runs[i], runs[j]);
    }
    runs
}

proof fn lemma_kept(a: Seq<nat>, b: Seq<nat>, x: nat)
    requires
        a.to_multiset() == b.to_multiset(),
        a.contains(x),
    ensures
        b.contains(x),
{
    broadcast use group_to_multiset_ensures;

    assert(a.to_multiset().count(x) > 0);
    assert(b.to_multiset().count(x) > 0);
}

/// With one entry that has the checksum flag, the overall digest is the SHA-1 of the digest of the
/// image, the tag and the SHA-1 of the contents.
pub proof fn overall_of_one_entry(raw_sha1: Seq<u8>, m: Meta)
    requires
        m.flags % 2 == 1,
    ensures
        metadata::overall(raw_sha1, seq![m]) == hash::digest(
            raw_sha1 + tag_bytes(m.tag) + hash::digest(m.payload),
        ),
{
    let ms = seq![m];
    let runs = overall_is_of_sorted_runs(raw_sha1, ms);
    assert(ms.drop_last() =~= Seq::empty());
    lemma_with_flag(ms);
    lemma_with_flag(ms.drop_last());
    assert(with_flag(ms) =~= seq![m]);
    assert(with_flag(ms).map_values(|m: Meta| run_of(m)) =~= seq![run_of(m)]);
    lemma_one(runs, run_of(m));
    assert(raw_sha1 + run_of(m) =~= raw_sha1 + tag_bytes(m.tag) + hash::digest(m.payload));
}

proof fn lemma_one(runs: Seq<Seq<u8>>, r: Seq<u8>)
    requires
        runs.to_multiset() == seq![r].to_multiset(),
    ensures
        runs == seq![r],
        runs.flatten() == r,
{
    broadcast use group_to_multiset_ensures;

    assert(runs.to_multiset().len() == runs.len());
    assert(seq![r].to_multiset().len() == 1);
    assert(runs.contains(runs[0]));
    assert(runs.to_multiset().count(runs[0]) > 0);
    assert(seq![r].contains(runs[0]));
    assert(runs =~= seq![r]);
    assert(runs.drop_first() =~= Seq::empty());
    reveal_with_fuel(Seq::flatten, 2);
    assert(runs.flatten() =~= r);
}

} // verus!
