//! What reading metadata gives back of writing it.

use crate::bytes;
use crate::metadata;
use crate::metadata::{ListEnd, Meta, Metadata, Node};
use vstd::arithmetic::power2::*;
use vstd::prelude::*;

verus! {

/// Where a file's metadata starts.
pub open spec fn first_entry(f: Seq<u8>) -> nat {
    bytes::be_at(f, 48, 8)
}

/// The places of the metadata entries of a file.
pub open spec fn places(f: Seq<u8>) -> Seq<Node> {
    metadata::list(f, first_entry(f)).0
}

/// The metadata entries of a file.
pub open spec fn listed(f: Seq<u8>) -> Seq<Meta> {
    Seq::new(places(f).len(), |i: int| metadata::meta_of(f, places(f)[i]))
}

/// Whether two entries do not overlap.
pub open spec fn apart(a: Node, b: Node) -> bool {
    a.offset + 16 + a.length <= b.offset || b.offset + 16 + b.length <= a.offset
}

/// Whether the metadata list of a file comes to an end, and its entries lie in the file, behind the
/// header, without overlap.
pub open spec fn sound(f: Seq<u8>) -> bool {
    let ns = places(f);
    &&& f.len() >= 124
    &&& metadata::list(f, first_entry(f)).1 is Done
    &&& forall|i: int|
        0 <= i < ns.len() ==> (#[trigger] ns[i]).offset >= 124 && metadata::holds_contents(f, ns[i])
    &&& forall|i: int, j: int|
        0 <= i < j < ns.len() ==> apart(#[trigger] ns[i], #[trigger] ns[j])
}

/// Whether entries are a list that starts at `start` and comes to an end.
pub open spec fn is_chain(f: Seq<u8>, start: nat, ns: Seq<Node>) -> bool {
    &&& start == if ns.len() == 0 {
        0
    } else {
        ns[0].offset
    }
    &&& forall|i: int|
        0 <= i < ns.len() ==> metadata::node_at(f, (#[trigger] ns[i]).offset) == Some(ns[i])
    &&& forall|i: int| 0 <= i < ns.len() ==> #[trigger] linked(ns, i)
}

/// Whether entry `i` is followed by the next one, and the last one by nothing.
pub open spec fn linked(ns: Seq<Node>, i: int) -> bool {
    ns[i].next == if i + 1 < ns.len() {
        ns[i + 1].offset
    } else {
        0
    }
}

proof fn lemma_chain(f: Seq<u8>, start: nat, ns: Seq<Node>, fuel: nat)
    requires
        is_chain(f, start, ns),
        ns.len() <= fuel,
    ensures
        metadata::nodes(f, start, fuel) == (ns, ListEnd::Done),
    decreases ns.len(),
{
    if ns.len() == 0 {
        assert(ns =~= Seq::empty());
    } else {
        assert(metadata::node_at(f, ns[0].offset) == Some(ns[0]));
        let rest = ns.skip(1);
        assert forall|i: int| 0 <= i < rest.len() implies metadata::node_at(
            f,
            (#[trigger] rest[i]).offset,
        ) == Some(rest[i]) by {
            assert(rest[i] == ns[i + 1]);
        }
        assert forall|i: int| 0 <= i < rest.len() implies #[trigger] linked(rest, i) by {
            assert(linked(ns, i + 1));
        }
        assert(linked(ns, 0));
        assert(ns[0].next == if rest.len() == 0 {
            0
        } else {
            rest[0].offset
        });
        lemma_chain(f, ns[0].next, rest, (fuel - 1) as nat);
        assert(seq![ns[0]] + rest =~= ns);
    }
}

proof fn lemma_is_chain(f: Seq<u8>, start: nat, fuel: nat)
    requires
        metadata::nodes(f, start, fuel).1 is Done,
    ensures
        is_chain(f, start, metadata::nodes(f, start, fuel).0),
        metadata::nodes(f, start, fuel).0.len() <= fuel,
    decreases fuel,
{
    let ns = metadata::nodes(f, start, fuel).0;
    if start != 0 {
        let n = metadata::node_at(f, start)->0;
        let rest = metadata::nodes(f, n.next, (fuel - 1) as nat).0;
        lemma_is_chain(f, n.next, (fuel - 1) as nat);
        assert forall|i: int| 0 <= i < ns.len() implies metadata::node_at(f, (#[trigger] ns[i]).offset)
            == Some(ns[i]) by {
            if i > 0 {
                assert(ns[i] == rest[i - 1]);
            }
        }
        assert forall|i: int| 0 <= i < ns.len() implies #[trigger] linked(ns, i) by {
            if i > 0 {
                assert(linked(rest, i - 1));
                assert(ns[i] == rest[i - 1]);
            }
            if i + 1 < ns.len() {
                assert(ns[i + 1] == rest[i]);
            }
        }
    }
}

/// Files that agree from `at` on for `n` bytes hold the same number there.
proof fn lemma_be_same(f: Seq<u8>, g: Seq<u8>, at: int, n: int)
    requires
        0 <= at,
        0 <= n,
        at + n <= f.len(),
        at + n <= g.len(),
        forall|k: int| at <= k < at + n ==> f[k] == g[k],
    ensures
        bytes::be_at(f, at, n) == bytes::be_at(g, at, n),
{
    assert(f.subrange(at, at + n) =~= g.subrange(at, at + n));
}

proof fn lemma_node_same(f: Seq<u8>, g: Seq<u8>, offset: nat)
    requires
        offset + 16 <= f.len(),
        offset + 16 <= g.len(),
        forall|k: int| offset <= k < offset + 16 ==> f[k] == g[k],
    ensures
        metadata::node_at(f, offset) == metadata::node_at(g, offset),
{
    lemma_be_same(f, g, offset as int, 4);
    lemma_be_same(f, g, offset as int + 5, 3);
    lemma_be_same(f, g, offset as int + 8, 8);
}

/// What an entry that was written reads as.
proof fn lemma_node_written(f: Seq<u8>, offset: nat, m: Meta, next: nat)
    requires
        offset > 0,
        next <= u64::MAX,
        m.payload.len() < 0x100_0000,
        offset + 16 + m.payload.len() <= f.len(),
        f.subrange(offset as int, (offset + 16 + m.payload.len()) as int) == metadata::entry_bytes(
            m,
            next,
        ),
    ensures
        metadata::node_at(f, offset) == Some(
            Node { offset, tag: m.tag, flags: m.flags, length: m.payload.len(), next },
        ),
        f.subrange(offset as int + 16, (offset + 16 + m.payload.len()) as int) == m.payload,
{
    lemma2_to64();
    let e = metadata::entry_bytes(m, next);
    let o = offset as int;
    bytes::lemma_be_len(m.tag as nat, 4);
    bytes::lemma_be_len(m.payload.len(), 3);
    bytes::lemma_be_len(next, 8);
    let all = f.subrange(o, (offset + 16 + m.payload.len()) as int);
    assert(all.subrange(0, 4) =~= bytes::be_bytes(m.tag as nat, 4));
    assert(all.subrange(5, 8) =~= bytes::be_bytes(m.payload.len(), 3));
    assert(all.subrange(8, 16) =~= bytes::be_bytes(next, 8));
    assert(all.skip(16) =~= m.payload);
    assert(all[4] == m.flags);
    assert(f.subrange(o, o + 4) =~= all.subrange(0, 4));
    assert(f.subrange(o + 5, o + 8) =~= all.subrange(5, 8));
    assert(f.subrange(o + 8, o + 16) =~= all.subrange(8, 16));
    assert(f.subrange(o + 16, (offset + 16 + m.payload.len()) as int) =~= all.skip(16));
    bytes::lemma_be_at(f, o, m.tag as nat, 4);
    bytes::lemma_be_at(f, o + 5, m.payload.len(), 3);
    bytes::lemma_be_at(f, o + 8, next, 8);
}

/// A list that was written at `start` is read back.
#[verifier::rlimit(50)]
pub proof fn blob_is_read_back(f: Seq<u8>, ms: Seq<Meta>, start: nat)
    requires
        start > 0,
        ms.len() > 0,
        forall|i: int| 0 <= i < ms.len() ==> (#[trigger] ms[i]).payload.len() < 0x100_0000,
        metadata::entry_offset(ms, start, ms.len() as int) <= f.len(),
        f.len() <= u64::MAX,
        f.subrange(start as int, metadata::entry_offset(ms, start, ms.len() as int) as int)
            == metadata::blob(ms, start),
    ensures
        metadata::list(f, start).1 is Done,
        metadata::list(f, start).0.len() == ms.len(),
        forall|i: int|
            0 <= i < ms.len() ==> {
                let n = #[trigger] metadata::list(f, start).0[i];
                &&& n.offset == metadata::entry_offset(ms, start, i)
                &&& metadata::holds_contents(f, n)
                &&& metadata::meta_of(f, n) == ms[i]
            },
{
    let ns = Seq::new(
        ms.len(),
        |i: int|
            Node {
                offset: metadata::entry_offset(ms, start, i),
                tag: ms[i].tag,
                flags: ms[i].flags,
                length: ms[i].payload.len(),
                next: if i + 1 < ms.len() {
                    metadata::entry_offset(ms, start, i + 1)
                } else {
                    0
                },
            },
    );
    let end = metadata::entry_offset(ms, start, ms.len() as int);
    assert forall|i: int| 0 <= i < ms.len() implies metadata::node_at(f, (#[trigger] ns[i]).offset)
        == Some(ns[i]) && metadata::contents(f, ns[i]) == ms[i].payload && metadata::holds_contents(
        f,
        ns[i],
    ) by {
        let o = metadata::entry_offset(ms, start, i);
        let len = 16 + ms[i].payload.len();
        metadata::lemma_entry_offset(ms, start, 0, i);
        metadata::lemma_entry_offset(ms, start, i + 1, ms.len() as int);
        lemma_blob_part(ms, start, 0, i);
        metadata::lemma_entry_len(ms[i], ns[i].next);
        let b = metadata::blob(ms, start);
        metadata::lemma_blob_len(ms, start, 0);
        assert(f.subrange(o as int, (o + len) as int) =~= metadata::entry_bytes(ms[i], ns[i].next)) by {
            let part = b.subrange((o - start) as int, (o - start + len) as int);
            assert(f.subrange(start as int, end as int).subrange(
                (o - start) as int,
                (o - start + len) as int,
            ) =~= f.subrange(o as int, (o + len) as int));
        }
        lemma_node_written(f, o, ms[i], ns[i].next);
    }
    metadata::lemma_entry_offset(ms, start, 0, ms.len() as int);
    assert forall|i: int| 0 <= i < ns.len() implies #[trigger] linked(ns, i) by {}
    lemma_chain(f, start, ns, f.len());
    assert forall|i: int| 0 <= i < ms.len() implies ({
        let n = #[trigger] metadata::list(f, start).0[i];
        &&& n.offset == metadata::entry_offset(ms, start, i)
        &&& metadata::holds_contents(f, n)
        &&& metadata::meta_of(f, n) == ms[i]
    }) by {
        let n = ns[i];
    }
}

/// The number of the first `n` entries that have a tag.
pub open spec fn tags_before(ms: Seq<Meta>, tag: u32, n: nat) -> nat
    decreases n,
{
    if n == 0 {
        0
    } else {
        tags_before(ms, tag, (n - 1) as nat) + if ms[n - 1].tag == tag {
            1nat
        } else {
            0nat
        }
    }
}

proof fn lemma_tags_before(ms: Seq<Meta>, ns: Seq<Node>, tag: u32, n: nat)
    requires
        n <= ms.len() == ns.len(),
        forall|i: int| 0 <= i < ms.len() ==> (#[trigger] ns[i]).tag == ms[i].tag,
    ensures
        metadata::count_tag(ns, tag, n) == tags_before(ms, tag, n) <= n,
    decreases n,
{
    if n > 0 {
        lemma_tags_before(ms, ns, tag, (n - 1) as nat);
        assert(ns[n - 1].tag == ms[n - 1].tag);
    }
}

/// Reading all entries of a list that was written at `start` gives them back, in their order, each
/// with its length and the number of earlier entries that have its tag.
pub proof fn written_entries_are_read(f: Seq<u8>, ms: Seq<Meta>, start: nat, v: Seq<Metadata>)
    requires
        start > 0,
        ms.len() > 0,
        forall|i: int| 0 <= i < ms.len() ==> (#[trigger] ms[i]).payload.len() < 0x100_0000,
        metadata::entry_offset(ms, start, ms.len() as int) <= f.len(),
        f.len() <= u64::MAX,
        f.subrange(start as int, metadata::entry_offset(ms, start, ms.len() as int) as int)
            == metadata::blob(ms, start),
        v.len() == metadata::list(f, start).0.len(),
        forall|i: int|
            0 <= i < v.len() ==> {
                let ns = metadata::list(f, start).0;
                (#[trigger] v[i]).is_read(f, ns[i], metadata::count_tag(ns, ns[i].tag, i as nat))
            },
    ensures
        forall|i: int|
            0 <= i < metadata::list(f, start).0.len() ==> metadata::holds_contents(
                f,
                #[trigger] metadata::list(f, start).0[i],
            ),
        v.len() == ms.len(),
        forall|i: int|
            0 <= i < ms.len() ==> {
                &&& (#[trigger] v[i]).metatag == ms[i].tag
                &&& v[i].flags == ms[i].flags
                &&& v[i].length == ms[i].payload.len()
                &&& v[i].value@ == ms[i].payload
                &&& v[i].index == metadata::capped(tags_before(ms, ms[i].tag, i as nat))
            },
{
    blob_is_read_back(f, ms, start);
    let ns = metadata::list(f, start).0;
    assert forall|i: int| 0 <= i < ms.len() implies (#[trigger] ns[i]).tag == ms[i].tag by {
        assert(metadata::meta_of(f, ns[i]) == ms[i]);
    }
    assert forall|i: int| 0 <= i < ms.len() implies ({
        &&& (#[trigger] v[i]).metatag == ms[i].tag
        &&& v[i].flags == ms[i].flags
        &&& v[i].length == ms[i].payload.len()
        &&& v[i].value@ == ms[i].payload
        &&& v[i].index == metadata::capped(tags_before(ms, ms[i].tag, i as nat))
    }) by {
        let n = ns[i];
        assert(metadata::meta_of(f, n) == ms[i]);
        assert(metadata::holds_contents(f, n));
        assert(metadata::contents(f, n).len() == n.length);
        assert(v[i].is_read(f, n, metadata::count_tag(ns, n.tag, i as nat)));
        lemma_tags_before(ms, ns, ms[i].tag, i as nat);
    }
}

/// An entry is where it belongs in a list.
proof fn lemma_blob_part(ms: Seq<Meta>, start: nat, i: int, j: int)
    requires
        0 <= i <= j < ms.len(),
    ensures
        ({
            let next = if j + 1 < ms.len() {
                metadata::entry_offset(ms, start, j + 1)
            } else {
                0
            };
            let at = metadata::entry_offset(ms, start, j) - metadata::entry_offset(ms, start, i);
            &&& 0 <= at
            &&& at + 16 + ms[j].payload.len() <= metadata::blob_from(ms, start, i).len()
            &&& metadata::blob_from(ms, start, i).subrange(at, at + 16 + ms[j].payload.len())
                == metadata::entry_bytes(ms[j], next)
        }),
    decreases j - i,
{
    let next = if i + 1 < ms.len() {
        metadata::entry_offset(ms, start, i + 1)
    } else {
        0
    };
    let head = metadata::entry_bytes(ms[i], next);
    let rest = metadata::blob_from(ms, start, i + 1);
    metadata::lemma_entry_len(ms[i], next);
    if i == j {
        assert((head + rest).subrange(0, head.len() as int) =~= head);
    } else {
        lemma_blob_part(ms, start, i + 1, j);
        let at = metadata::entry_offset(ms, start, j) - metadata::entry_offset(ms, start, i + 1);
        let len = 16 + ms[j].payload.len();
        assert((head + rest).subrange(head.len() + at, head.len() + at + len) =~= rest.subrange(
            at,
            at + len,
        ));
    }
}

/// A file in which only the link behind an entry, or behind the header, differs.
proof fn lemma_relinked(f: Seq<u8>, prev: nat, next: nat)
    requires
        f.len() >= 124,
        prev == 0 || prev >= 124,
        prev + 16 <= f.len(),
        next <= u64::MAX,
    ensures
        ({
            let g = metadata::relinked(f, prev, next);
            let at = if prev == 0 {
                48
            } else {
                prev as int + 8
            };
            &&& g.len() == f.len()
            &&& forall|k: int| 0 <= k < f.len() && !(at <= k < at + 8) ==> g[k] == f[k]
            &&& bytes::be_at(g, at, 8) == next
        }),
{
    lemma2_to64();
    bytes::lemma_be_len(next, 8);
    let g = metadata::relinked(f, prev, next);
    let at = if prev == 0 {
        48
    } else {
        prev as int + 8
    };
    assert(g.subrange(at, at + 8) =~= bytes::be_bytes(next, 8));
    bytes::lemma_be_at(g, at, next, 8);
}

/// An entry that is not where a file was changed.
proof fn lemma_kept(f: Seq<u8>, g: Seq<u8>, n: Node, lo: int, hi: int)
    requires
        metadata::node_at(f, n.offset) == Some(n),
        metadata::holds_contents(f, n),
        f.len() <= g.len(),
        forall|k: int| 0 <= k < f.len() && !(lo <= k < hi) ==> g[k] == f[k],
        n.offset + 16 + n.length <= lo || hi <= n.offset,
    ensures
        metadata::node_at(g, n.offset) == Some(n),
        metadata::holds_contents(g, n),
        metadata::meta_of(g, n) == metadata::meta_of(f, n),
{
    lemma_node_same(f, g, n.offset);
    assert(metadata::contents(g, n) =~= metadata::contents(f, n));
}

/// The entry whose link was changed.
proof fn lemma_relinked_node(f: Seq<u8>, n: Node, next: nat)
    requires
        f.len() >= 124,
        n.offset >= 124,
        metadata::node_at(f, n.offset) == Some(n),
        metadata::holds_contents(f, n),
        next <= u64::MAX,
    ensures
        ({
            let g = metadata::relinked(f, n.offset, next);
            let m = Node { next, ..n };
            &&& metadata::node_at(g, n.offset) == Some(m)
            &&& metadata::holds_contents(g, m)
            &&& metadata::meta_of(g, m) == metadata::meta_of(f, n)
        }),
{
    let g = metadata::relinked(f, n.offset, next);
    lemma_relinked(f, n.offset, next);
    lemma_be_same(f, g, n.offset as int, 4);
    lemma_be_same(f, g, n.offset as int + 5, 3);
    assert(metadata::contents(g, Node { next, ..n }) =~= metadata::contents(f, n));
}

/// Whether `m` is an entry of `g` with the tag, flags and contents of `n` in `f`.
spec fn carried(f: Seq<u8>, n: Node, g: Seq<u8>, m: Node) -> bool {
    &&& m.offset == n.offset
    &&& m.length == n.length
    &&& metadata::node_at(g, m.offset) == Some(m)
    &&& metadata::holds_contents(g, m)
    &&& metadata::meta_of(g, m) == metadata::meta_of(f, n)
}

/// A file after the entry before place `p`, or the header, was made to point at `next`.
proof fn lemma_front(f: Seq<u8>, p: int, next: nat)
    requires
        sound(f),
        0 <= p <= places(f).len(),
        next <= u64::MAX,
    ensures
        ({
            let ns = places(f);
            let g = metadata::relinked(f, metadata::prev_offset(ns, p), next);
            &&& g.len() == f.len()
            &&& first_entry(g) == if p == 0 {
                next
            } else {
                ns[0].offset
            }
        }),
{
    let ns = places(f);
    let prev = metadata::prev_offset(ns, p);
    let g = metadata::relinked(f, prev, next);
    lemma_is_chain(f, first_entry(f), f.len());
    if p > 0 {
        assert(metadata::node_at(f, ns[p - 1].offset) == Some(ns[p - 1]));
    }
    lemma_relinked(f, prev, next);
    if p > 0 {
        lemma_be_same(f, g, 48, 8);
    }
}

/// Entry `i` of such a file.
proof fn lemma_front_entry(f: Seq<u8>, p: int, next: nat, i: int)
    requires
        sound(f),
        0 <= p <= places(f).len(),
        next <= u64::MAX,
        0 <= i < places(f).len(),
    ensures
        carried(
            f,
            places(f)[i],
            metadata::relinked(f, metadata::prev_offset(places(f), p), next),
            if i == p - 1 {
                Node { next, ..places(f)[i] }
            } else {
                places(f)[i]
            },
        ),
{
    let ns = places(f);
    let n = ns[i];
    let prev = metadata::prev_offset(ns, p);
    let g = metadata::relinked(f, prev, next);
    lemma_is_chain(f, first_entry(f), f.len());
    assert(metadata::node_at(f, n.offset) == Some(n));
    if i == p - 1 {
        lemma_relinked_node(f, n, next);
    } else if p == 0 {
        lemma_relinked(f, prev, next);
        lemma_kept(f, g, n, 48, 56);
    } else {
        let q = ns[p - 1];
        assert(metadata::node_at(f, q.offset) == Some(q));
        assert(apart(n, q) || apart(q, n));
        lemma_relinked(f, prev, next);
        lemma_kept(f, g, n, q.offset as int + 8, q.offset as int + 16);
    }
}

/// A list that is found in a file is its list.
proof fn lemma_new_list(g: Seq<u8>, ms: Seq<Node>, src: Seq<Meta>)
    requires
        g.len() >= 124,
        ms.len() <= g.len(),
        is_chain(g, first_entry(g), ms),
        src.len() == ms.len(),
        forall|i: int|
            0 <= i < ms.len() ==> (#[trigger] ms[i]).offset >= 124 && metadata::holds_contents(g, ms[i])
                && metadata::meta_of(g, ms[i]) == src[i],
        forall|i: int, j: int|
            0 <= i < j < ms.len() ==> apart(#[trigger] ms[i], #[trigger] ms[j]),
    ensures
        sound(g),
        listed(g) == src,
        places(g) == ms,
{
    lemma_chain(g, first_entry(g), ms, g.len());
    assert(listed(g) =~= src);
}

/// The list without entry `p`.
spec fn without(ns: Seq<Node>, p: int) -> Seq<Node> {
    Seq::new(
        (ns.len() - 1) as nat,
        |i: int|
            if i == p - 1 {
                Node { next: ns[p].next, ..ns[i] }
            } else {
                ns[skipping(p, i)]
            },
    )
}

/// Counting that leaves out `p`.
spec fn skipping(p: int, i: int) -> int {
    if i < p {
        i
    } else {
        i + 1
    }
}

#[verifier::rlimit(50)]
proof fn lemma_without(f: Seq<u8>, p: int)
    requires
        sound(f),
        0 <= p < places(f).len(),
    ensures
        ({
            let ns = places(f);
            let ms = without(ns, p);
            let g = metadata::relinked(f, metadata::prev_offset(ns, p), ns[p].next);
            &&& g.len() == f.len()
            &&& is_chain(g, first_entry(g), ms)
            &&& forall|i: int|
                0 <= i < ms.len() ==> (#[trigger] ms[i]).offset >= 124 && metadata::holds_contents(
                    g,
                    ms[i],
                ) && metadata::meta_of(g, ms[i]) == metadata::meta_of(f, ns[skipping(p, i)])
            &&& forall|i: int, j: int|
                0 <= i < j < ms.len() ==> apart(#[trigger] ms[i], #[trigger] ms[j])
        }),
{
    let ns = places(f);
    let ms = without(ns, p);
    let next = ns[p].next;
    let g = metadata::relinked(f, metadata::prev_offset(ns, p), next);
    lemma_is_chain(f, first_entry(f), f.len());
    assert(metadata::node_at(f, ns[p].offset) == Some(ns[p]));
    lemma_next_fits(f, ns[p]);
    lemma_front(f, p, next);
    assert forall|i: int| 0 <= i < ms.len() implies metadata::node_at(g, (#[trigger] ms[i]).offset)
        == Some(ms[i]) && ms[i].offset >= 124 && metadata::holds_contents(g, ms[i]) && metadata::meta_of(g, ms[i])
        == metadata::meta_of(f, ns[skipping(p, i)]) by {
        lemma_front_entry(f, p, next, skipping(p, i));
        assert(ns[skipping(p, i)].offset >= 124);
    }
    assert forall|i: int| 0 <= i < ms.len() implies #[trigger] linked(ms, i) by {
        assert(linked(ns, skipping(p, i)));
        assert(linked(ns, p));
    }
    assert forall|i: int, j: int| 0 <= i < j < ms.len() implies apart(
        #[trigger] ms[i],
        #[trigger] ms[j],
    ) by {
        assert(apart(ns[skipping(p, i)], ns[skipping(p, j)]));
    }
    assert(linked(ns, p));
}

/// Taking an entry out leaves the others as they are.
#[verifier::spinoff_prover]
#[verifier::rlimit(60)]
pub proof fn removed_entry_is_gone(f: Seq<u8>, tag: u32, index: u32)
    requires
        sound(f),
        metadata::removed(f, tag, index) is Ok,
    ensures
        ({
            let g = metadata::removed(f, tag, index)->Ok_0;
            let p = metadata::position(places(f), tag, index)->0;
            &&& 0 <= p < listed(f).len()
            &&& listed(g) == listed(f).remove(p)
            &&& sound(g)
        }),
{
    let ns = places(f);
    let p = metadata::position(ns, tag, index)->0;
    let g = metadata::removed(f, tag, index)->Ok_0;
    metadata::lemma_position_from(ns, tag, index as nat, 0);
    lemma_without(f, p);
    lemma_is_chain(f, first_entry(f), f.len());
    lemma_new_list(g, without(ns, p), listed(f).remove(p));
}

proof fn lemma_next_fits(f: Seq<u8>, n: Node)
    requires
        metadata::node_at(f, n.offset) == Some(n),
    ensures
        n.next <= u64::MAX,
        n.length < 0x100_0000,
{
    lemma2_to64();
    bytes::lemma_be_bound(f.subrange(n.offset as int + 8, n.offset as int + 16));
    bytes::lemma_be_bound(f.subrange(n.offset as int + 5, n.offset as int + 8));
}

/// A file with bytes added at its end has the same list.
proof fn lemma_longer(f: Seq<u8>, more: Seq<u8>)
    requires
        sound(f),
    ensures
        sound(f + more),
        places(f + more) == places(f),
        listed(f + more) == listed(f),
{
    change_elsewhere_keeps_metadata(f, f + more, f.len() as int, f.len() as int);
}

/// A change between `lo` and `hi`, where the file has neither its header nor an entry, and what is
/// added at its end, leave the metadata as it is.
pub proof fn change_elsewhere_keeps_metadata(f: Seq<u8>, g: Seq<u8>, lo: int, hi: int)
    requires
        sound(f),
        124 <= lo,
        f.len() <= g.len(),
        forall|k: int| 0 <= k < f.len() && !(lo <= k < hi) ==> g[k] == f[k],
        forall|i: int|
            0 <= i < places(f).len() ==> (#[trigger] places(f)[i]).offset + 16 + places(f)[i].length <= lo
                || hi <= places(f)[i].offset,
    ensures
        sound(g),
        places(g) == places(f),
        listed(g) == listed(f),
{
    let ns = places(f);
    lemma_is_chain(f, first_entry(f), f.len());
    lemma_be_same(f, g, 48, 8);
    assert forall|i: int| 0 <= i < ns.len() implies metadata::node_at(g, (#[trigger] ns[i]).offset)
        == Some(ns[i]) && ns[i].offset >= 124 && metadata::holds_contents(g, ns[i]) && metadata::meta_of(g, ns[i])
        == listed(f)[i] by {
        assert(metadata::node_at(f, ns[i].offset) == Some(ns[i]));
        lemma_kept(f, g, ns[i], lo, hi);
    }
    lemma_new_list(g, ns, listed(f));
}

/// The list of a file whose entry `p - 1`, or whose header, was made to point at a new entry behind
/// its end.
spec fn lengthened(ns: Seq<Node>, p: int, end: nat, m: Meta) -> Seq<Node> {
    Seq::new(
        (p + 1) as nat,
        |i: int|
            if i == p {
                Node { offset: end, tag: m.tag, flags: m.flags, length: m.payload.len(), next: 0 }
            } else if i == p - 1 {
                Node { next: end, ..ns[i] }
            } else {
                ns[i]
            },
    )
}

/// An entry added behind the first `p` entries is the last one.
#[verifier::spinoff_prover]
#[verifier::rlimit(60)]
proof fn lemma_extended(f: Seq<u8>, p: int, m: Meta)
    requires
        sound(f),
        0 <= p <= places(f).len(),
        m.payload.len() < 0x100_0000,
        f.len() + 16 + m.payload.len() <= u64::MAX,
    ensures
        ({
            let g = metadata::extended(f, metadata::prev_offset(places(f), p), m);
            &&& sound(g)
            &&& listed(g) == listed(f).take(p).push(m)
        }),
{
    let ns = places(f);
    let fresh = metadata::entry_bytes(m, 0);
    let f2 = f + fresh;
    let prev = metadata::prev_offset(ns, p);
    let g = metadata::extended(f, prev, m);
    let end = f.len();
    let ms = lengthened(ns, p, end, m);
    metadata::lemma_entry_len(m, 0);
    lemma_longer(f, fresh);
    lemma_is_chain(f, first_entry(f), f.len());
    lemma_front(f2, p, end);
    let at = if p == 0 {
        48
    } else {
        prev as int + 8
    };
    if p > 0 {
        assert(metadata::node_at(f, ns[p - 1].offset) == Some(ns[p - 1]));
    }
    lemma_relinked(f2, prev, end);
    assert(g.subrange(end as int, (end + 16 + m.payload.len()) as int) =~= fresh);
    lemma_node_written(g, end, m, 0);
    assert forall|i: int| 0 <= i < ms.len() implies metadata::node_at(g, (#[trigger] ms[i]).offset)
        == Some(ms[i]) && ms[i].offset >= 124 && metadata::holds_contents(g, ms[i]) && metadata::meta_of(g, ms[i])
        == listed(f).take(p).push(m)[i] by {
        if i < p {
            lemma_front_entry(f2, p, end, i);
            assert(ns[i].offset >= 124);
            assert(listed(f2)[i] == listed(f)[i]);
        }
    }
    assert forall|i: int| 0 <= i < ms.len() implies #[trigger] linked(ms, i) by {
        if i < p - 1 {
            assert(linked(ns, i));
        }
    }
    assert forall|i: int, j: int| 0 <= i < j < ms.len() implies apart(
        #[trigger] ms[i],
        #[trigger] ms[j],
    ) by {
        if j < p {
            assert(apart(ns[i], ns[j]));
        } else {
            assert(metadata::holds_contents(f, ns[i]));
        }
    }
    lemma_new_list(g, ms, listed(f).take(p).push(m));
}

/// Contents written over are those of the entry, and the other entries stay.
#[verifier::spinoff_prover]
#[verifier::rlimit(60)]
proof fn lemma_refilled(f: Seq<u8>, p: int, data: Seq<u8>)
    requires
        sound(f),
        0 <= p < places(f).len(),
        data.len() <= places(f)[p].length,
    ensures
        ({
            let n = places(f)[p];
            let g = metadata::refilled(f, n.offset as int, n.length, data);
            &&& sound(g)
            &&& listed(g) == listed(f).update(p, Meta { tag: n.tag, flags: n.flags, payload: data })
        }),
{
    let ns = places(f);
    let n = ns[p];
    let g = metadata::refilled(f, n.offset as int, n.length, data);
    let m = Meta { tag: n.tag, flags: n.flags, payload: data };
    let o = n.offset as int;
    lemma_is_chain(f, first_entry(f), f.len());
    assert(metadata::node_at(f, n.offset) == Some(n));
    lemma_next_fits(f, n);
    lemma2_to64();
    bytes::lemma_be_len(data.len(), 3);
    let mid = metadata::overwritten(f, o + 16, data);
    assert(mid.len() == f.len());
    assert(g.len() == f.len());
    let hi = o + 16 + n.length;
    assert(forall|k: int| 0 <= k < f.len() && !(o + 5 <= k < hi) ==> g[k] == f[k]);
    let v = Node { length: data.len(), ..n };
    lemma_be_same(f, g, o, 4);
    assert(forall|k: int| o + 8 <= k < o + 16 ==> g[k] == f[k]);
    lemma_be_same(f, g, o + 8, 8);
    if data.len() == n.length {
        lemma_be_same(f, g, o + 5, 3);
    } else {
        assert(g.subrange(o + 5, o + 8) =~= bytes::be_bytes(data.len(), 3));
        bytes::lemma_be_at(g, o + 5, data.len(), 3);
    }
    assert(metadata::node_at(g, n.offset) == Some(v));
    assert(metadata::contents(g, v) =~= data);
    lemma_be_same(f, g, 48, 8);
    let ms = ns.update(p, v);
    assert forall|i: int| 0 <= i < ms.len() implies metadata::node_at(g, (#[trigger] ms[i]).offset)
        == Some(ms[i]) && ms[i].offset >= 124 && metadata::holds_contents(g, ms[i]) && metadata::meta_of(g, ms[i])
        == listed(f).update(p, m)[i] by {
        if i != p {
            assert(metadata::node_at(f, ns[i].offset) == Some(ns[i]));
            assert(apart(ns[i], n) || apart(n, ns[i]));
            lemma_kept(f, g, ns[i], o + 5, hi);
        }
    }
    assert forall|i: int| 0 <= i < ms.len() implies #[trigger] linked(ms, i) by {
        assert(linked(ns, i));
    }
    assert forall|i: int, j: int| 0 <= i < j < ms.len() implies apart(
        #[trigger] ms[i],
        #[trigger] ms[j],
    ) by {
        assert(apart(ns[i], ns[j]));
    }
    lemma_new_list(g, ms, listed(f).update(p, m));
}

/// The entries of a file once one is written: in its place where it fits, otherwise as the last one.
/// Where it is too long for its place, the entries from there on are gone.
pub open spec fn listed_after(f: Seq<u8>, tag: u32, index: u32, data: Seq<u8>, flags: u8) -> Seq<Meta> {
    match metadata::position(places(f), tag, index) {
        Some(p) => if data.len() <= places(f)[p].length {
            listed(f).update(p, Meta { tag, flags: places(f)[p].flags, payload: data })
        } else {
            listed(f).take(p).push(Meta { tag, flags, payload: data })
        },
        None => listed(f).push(Meta { tag, flags, payload: data }),
    }
}

/// The file after entry `p` is taken out.
spec fn unlinked(f: Seq<u8>, p: int) -> Seq<u8> {
    metadata::relinked(f, metadata::prev_offset(places(f), p), places(f)[p].next)
}

#[verifier::spinoff_prover]
#[verifier::rlimit(60)]
proof fn lemma_unlinked(f: Seq<u8>, p: int)
    requires
        sound(f),
        0 <= p < places(f).len(),
    ensures
        sound(unlinked(f, p)),
        places(unlinked(f, p)) == without(places(f), p),
        listed(unlinked(f, p)) == listed(f).remove(p),
        metadata::prev_offset(places(unlinked(f, p)), p) == metadata::prev_offset(places(f), p),
        unlinked(f, p).len() == f.len(),
{
    let ns = places(f);
    lemma_without(f, p);
    lemma_is_chain(f, first_entry(f), f.len());
    lemma_new_list(unlinked(f, p), without(ns, p), listed(f).remove(p));
}

/// An entry that is too long for its place takes the place of the entries from there on.
#[verifier::spinoff_prover]
#[verifier::rlimit(60)]
proof fn lemma_replaced(f: Seq<u8>, p: int, m: Meta)
    requires
        sound(f),
        0 <= p < places(f).len(),
        m.payload.len() < 0x100_0000,
        f.len() + 16 + m.payload.len() <= u64::MAX,
    ensures
        ({
            let g = metadata::extended(unlinked(f, p), metadata::prev_offset(places(f), p), m);
            &&& sound(g)
            &&& listed(g) == listed(f).take(p).push(m)
        }),
{
    let f1 = unlinked(f, p);
    lemma_unlinked(f, p);
    lemma_extended(f1, p, m);
    assert(listed(f1).take(p) =~= listed(f).take(p));
}

#[verifier::spinoff_prover]
#[verifier::rlimit(60)]
proof fn lemma_edited(f: Seq<u8>, tag: u32, index: u32, data: Seq<u8>, flags: u8)
    requires
        sound(f),
        metadata::edit_fault(f) is None,
        0 < data.len() < 0x100_0000,
        f.len() + 16 + data.len() <= u64::MAX,
    ensures
        metadata::edited(f, tag, index, data, flags) matches Ok(g) && sound(g) && listed(g)
            == listed_after(f, tag, index, data, flags),
{
    let ns = places(f);
    let m = Meta { tag, flags, payload: data };
    metadata::lemma_position_from(ns, tag, index as nat, 0);
    match metadata::position(ns, tag, index) {
        None => {
            lemma_extended(f, ns.len() as int, m);
            assert(listed(f).take(ns.len() as int) =~= listed(f));
        },
        Some(p) => {
            if data.len() <= ns[p].length {
                lemma_refilled(f, p, data);
            } else {
                lemma_replaced(f, p, m);
                assert(metadata::extended(unlinked(f, p), metadata::prev_offset(ns, p), m)
                    == metadata::edited(f, tag, index, data, flags)->Ok_0);
            }
        },
    }
}

/// The entries of a file with the digest written over.
proof fn lemma_rehashed(f: Seq<u8>, d: Seq<u8>)
    requires
        sound(f),
        d.len() == 20,
    ensures
        ({
            let g = metadata::overwritten(f, 84, d);
            &&& sound(g)
            &&& listed(g) == listed(f)
            &&& g.subrange(84, 104) == d
            &&& g.subrange(64, 84) == f.subrange(64, 84)
            &&& bytes::be_at(g, 16, 4) == bytes::be_at(f, 16, 4)
        }),
{
    let g = metadata::overwritten(f, 84, d);
    let ns = places(f);
    lemma_is_chain(f, first_entry(f), f.len());
    assert(g.len() == f.len());
    lemma_be_same(f, g, 48, 8);
    lemma_be_same(f, g, 16, 4);
    assert(g.subrange(84, 104) =~= d);
    assert(g.subrange(64, 84) =~= f.subrange(64, 84));
    assert forall|i: int| 0 <= i < ns.len() implies metadata::node_at(g, (#[trigger] ns[i]).offset)
        == Some(ns[i]) && ns[i].offset >= 124 && metadata::holds_contents(g, ns[i]) && metadata::meta_of(g, ns[i])
        == listed(f)[i] by {
        assert(metadata::node_at(f, ns[i].offset) == Some(ns[i]));
        lemma_kept(f, g, ns[i], 84, 104);
    }
    lemma_new_list(g, ns, listed(f));
}

/// Entries without the checksum flag make no difference to the digest.
proof fn lemma_flagged(f: Seq<u8>, ns: Seq<Node>, all: Seq<Meta>, n: nat)
    requires
        n <= ns.len(),
        all.len() == ns.len(),
        forall|i: int| 0 <= i < n ==> #[trigger] all[i] == metadata::meta_of(f, ns[i]),
    ensures
        metadata::hash_keys(metadata::flagged(f, ns, n), metadata::flagged(f, ns, n).len())
            == metadata::hash_keys(all, n),
    decreases n,
{
    if n > 0 {
        let m = (n - 1) as nat;
        lemma_flagged(f, ns, all, m);
        assert(all[n - 1] == metadata::meta_of(f, ns[n - 1]));
        let before = metadata::flagged(f, ns, m);
        let after = metadata::flagged(f, ns, n);
        if ns[n - 1].flags % 2 == 1 {
            metadata::lemma_hash_keys_prefix(before, after, before.len());
        }
    }
}

/// What is written to a file's metadata is read back, and the digest of a compressed file is that of
/// its image and its new metadata.
pub proof fn written_entry_is_read_back(f: Seq<u8>, tag: u32, index: u32, data: Seq<u8>, flags: u8)
    requires
        sound(f),
        metadata::edit_fault(f) is None,
        0 < data.len() < 0x100_0000,
        f.len() + 16 + data.len() <= u64::MAX,
    ensures
        metadata::edited(f, tag, index, data, flags) matches Ok(g) && (metadata::rehashed(g) matches Ok(
            h,
        ) && sound(h) && listed(h) == listed_after(f, tag, index, data, flags) && (bytes::be_at(h, 16, 4)
            != 0 ==> h.subrange(84, 104) == metadata::overall(h.subrange(64, 84), listed(h)))),
{
    lemma_edited(f, tag, index, data, flags);
    let g = metadata::edited(f, tag, index, data, flags)->Ok_0;
    let ns = places(g);
    let raw = g.subrange(64, 84);
    assert(metadata::flagged_held(g, ns, ns.len()));
    lemma_flagged(g, ns, listed(g), ns.len());
    if bytes::be_at(g, 16, 4) != 0 {
        let d = metadata::overall(raw, metadata::flagged(g, ns, ns.len()));
        lemma_rehashed(g, d);
    }
}

/// To write with the greatest index is to add an entry, whatever entries there are.
pub proof fn greatest_index_adds(f: Seq<u8>, tag: u32, data: Seq<u8>, flags: u8)
    requires
        sound(f),
        metadata::edit_fault(f) is None,
        0 < data.len() < 0x100_0000,
        f.len() + 16 + data.len() <= u64::MAX,
    ensures
        metadata::edited(f, tag, u32::MAX, data, flags) matches Ok(g) && (metadata::rehashed(g)
            matches Ok(h) && sound(h) && listed(h) == listed(f).push(
            Meta { tag, flags, payload: data },
        )),
{
    written_entry_is_read_back(f, tag, u32::MAX, data, flags);
}

} // verus!
