//! Laws of metadata entries: which one a tag and an index stand for, and what a file says of itself by
//! them.

use crate::chdfile;
use crate::chdfile::ChdInfo;
use crate::codec;
use crate::format_laws;
use crate::hd;
use crate::header::{CodecType, Header};
use crate::metadata;
use crate::metadata::{KnownMetadata, MetadataTag, Node};
use crate::report;
use vstd::prelude::*;
use vstd::string::*;

verus! {

/// The entries with a tag.
pub open spec fn with_tag(ns: Seq<Node>, tag: u32) -> Seq<Node> {
    ns.filter(|n: Node| n.tag == tag)
}

proof fn lemma_filter_last(ns: Seq<Node>, tag: u32)
    ensures
        with_tag(ns, tag) == if ns.len() == 0 {
            Seq::<Node>::empty()
        } else if ns.last().tag == tag {
            with_tag(ns.drop_last(), tag).push(ns.last())
        } else {
            with_tag(ns.drop_last(), tag)
        },
{
    reveal(Seq::filter);
    if ns.len() == 0 {
        assert(ns =~= Seq::empty());
    }
}

proof fn lemma_count(ns: Seq<Node>, tag: u32, n: nat)
    requires
        n <= ns.len(),
    ensures
        metadata::count_tag(ns, tag, n) == with_tag(ns.take(n as int), tag).len(),
    decreases n,
{
    let t = ns.take(n as int);
    lemma_filter_last(t, tag);
    if n > 0 {
        lemma_count(ns, tag, (n - 1) as nat);
        assert(t.drop_last() =~= ns.take(n - 1));
        assert(t.last() == ns[n - 1]);
    }
}

proof fn lemma_position(ns: Seq<Node>, tag: u32, k: nat, i: int)
    requires
        0 <= i <= ns.len(),
    ensures
        match metadata::position_from(ns, tag, k, i) {
            Some(p) => i <= p < ns.len() && ns[p].tag == tag && metadata::count_tag(ns, tag, p as nat)
                == metadata::count_tag(ns, tag, i as nat) + k,
            None => metadata::count_tag(ns, tag, ns.len()) <= metadata::count_tag(ns, tag, i as nat) + k,
        },
    decreases ns.len() - i,
{
    if i < ns.len() {
        if ns[i].tag != tag {
            lemma_position(ns, tag, k, i + 1);
        } else if k > 0 {
            lemma_position(ns, tag, (k - 1) as nat, i + 1);
        }
    }
}

/// A tag and an index stand for the entry with that tag that has as many entries with the same tag
/// before it; there is none where there are no more than that. Indices from 2^31 on stand for none.
pub proof fn entries_by_tag_and_index(ns: Seq<Node>, tag: u32, index: u32)
    ensures
        index >= 0x8000_0000 ==> metadata::position(ns, tag, index) is None,
        index < 0x8000_0000 ==> match metadata::position(ns, tag, index) {
            Some(p) => 0 <= p < ns.len() && ns[p].tag == tag && with_tag(ns.take(p), tag).len() == index,
            None => with_tag(ns, tag).len() <= index,
        },
{
    if index < 0x8000_0000 {
        lemma_position(ns, tag, index as nat, 0);
        match metadata::position(ns, tag, index) {
            Some(p) => {
                lemma_count(ns, tag, p as nat);
            },
            None => {
                lemma_count(ns, tag, ns.len());
                assert(ns.take(ns.len() as int) =~= ns);
            },
        }
    }
}

/// An entry that is read has its tag, its flags, its contents and their length, and the number of the
/// earlier entries with the same tag.
pub proof fn entries_that_are_read(f: Seq<u8>, ns: Seq<Node>, i: int, m: metadata::Metadata)
    requires
        0 <= i < ns.len() <= u32::MAX,
        metadata::holds_contents(f, ns[i]),
        chdfile::metadata_is(m, f, ns, i),
    ensures
        m.metatag == ns[i].tag,
        m.flags == ns[i].flags,
        m.length == ns[i].length,
        m.value@ == f.subrange(ns[i].offset as int + 16, (ns[i].offset + 16 + ns[i].length) as int),
        m.index == with_tag(ns.take(i), ns[i].tag).len(),
{
    lemma_count(ns, ns[i].tag, i as nat);
    lemma_filter_len(ns.take(i), ns[i].tag);
}

proof fn lemma_filter_len(ns: Seq<Node>, tag: u32)
    ensures
        with_tag(ns, tag).len() <= ns.len(),
    decreases ns.len(),
{
    lemma_filter_last(ns, tag);
    if ns.len() > 0 {
        lemma_filter_len(ns.drop_last(), tag);
    }
}

/// Whether one of the entries has a tag of four characters.
pub open spec fn some_has(ns: Seq<Node>, a: char, b: char, c: char, d: char) -> bool {
    exists|i: int| 0 <= i < ns.len() && format_laws::spells((#[trigger] ns[i]).tag, a, b, c, d)
}

proof fn lemma_tags(ns: Seq<Node>, tag: u32, n: nat)
    requires
        n <= ns.len(),
    ensures
        chdfile::tag_count(chdfile::tags_of(ns), tag, n) == with_tag(ns.take(n as int), tag).len(),
    decreases n,
{
    let t = ns.take(n as int);
    lemma_filter_last(t, tag);
    if n > 0 {
        lemma_tags(ns, tag, (n - 1) as nat);
        assert(t.drop_last() =~= ns.take(n - 1));
        assert(t.last() == ns[n - 1]);
    }
}

proof fn lemma_some(ns: Seq<Node>, tag: u32)
    ensures
        with_tag(ns, tag).len() > 0 <==> exists|i: int| 0 <= i < ns.len() && (#[trigger] ns[i]).tag == tag,
    decreases ns.len(),
{
    lemma_filter_last(ns, tag);
    if ns.len() > 0 {
        let rest = ns.drop_last();
        lemma_some(rest, tag);
        if ns.last().tag == tag {
            assert(ns[ns.len() - 1].tag == tag);
        } else {
            if exists|i: int| 0 <= i < rest.len() && (#[trigger] rest[i]).tag == tag {
                let i = choose|i: int| 0 <= i < rest.len() && (#[trigger] rest[i]).tag == tag;
                assert(ns[i].tag == tag);
            }
            if exists|i: int| 0 <= i < ns.len() && (#[trigger] ns[i]).tag == tag {
                let i = choose|i: int| 0 <= i < ns.len() && (#[trigger] ns[i]).tag == tag;
                assert(rest[i].tag == tag);
            }
        }
    }
}

proof fn lemma_has(ns: Seq<Node>, tag: u32, a: char, b: char, c: char, d: char)
    requires
        format_laws::spells(tag, a, b, c, d),
    ensures
        chdfile::tag_count(chdfile::tags_of(ns), tag, chdfile::tags_of(ns).len()) > 0 <==> some_has(
            ns,
            a,
            b,
            c,
            d,
        ),
        chdfile::tag_count(chdfile::tags_of(ns), tag, chdfile::tags_of(ns).len()) == with_tag(ns, tag).len(),
{
    lemma_tags(ns, tag, ns.len());
    assert(ns.take(ns.len() as int) =~= ns);
    lemma_some(ns, tag);
    if exists|i: int| 0 <= i < ns.len() && (#[trigger] ns[i]).tag == tag {
        let i = choose|i: int| 0 <= i < ns.len() && (#[trigger] ns[i]).tag == tag;
        assert(format_laws::spells(ns[i].tag, a, b, c, d));
    }
    if some_has(ns, a, b, c, d) {
        let i = choose|i: int|
            0 <= i < ns.len() && format_laws::spells((#[trigger] ns[i]).tag, a, b, c, d);
        assert(ns[i].tag == tag);
    }
}

/// What a file is by its metadata: a hard disk with an entry `GDDD`, a CD with `CHCD`, `CHTR` or
/// `CHT2`, a GD with `CHGT` or `CHGD`, a DVD with `DVD `, audio and video with `AVAV`. The tracks are
/// counted by `CHT2`, `CHTR` and `CHGD`. The sizes, codecs and digests are those of the header.
pub proof fn what_a_file_is(h: Header, ns: Seq<Node>, i: ChdInfo)
    requires
        chdfile::info_of(h, ns, i),
        ns.len() < 0x4000_0000,
    ensures
        i.is_hd <==> some_has(ns, 'G', 'D', 'D', 'D'),
        i.is_cd <==> some_has(ns, 'C', 'H', 'C', 'D') || some_has(ns, 'C', 'H', 'T', 'R') || some_has(
            ns,
            'C',
            'H',
            'T',
            '2',
        ),
        i.is_gd <==> some_has(ns, 'C', 'H', 'G', 'T') || some_has(ns, 'C', 'H', 'G', 'D'),
        i.is_dvd <==> some_has(ns, 'D', 'V', 'D', ' '),
        i.is_av <==> some_has(ns, 'A', 'V', 'A', 'V'),
        i.track_count == with_tag(ns, 0x43485432).len() + with_tag(ns, 0x43485452).len() + with_tag(
            ns,
            0x43484744,
        ).len(),
        i.compressed <==> h.compression@[0] != 0,
        i.has_parent == h.has_parent,
        i.version == h.version,
        i.hunk_bytes == h.hunk_bytes,
        i.unit_bytes == h.unit_bytes,
        i.hunk_count == h.hunk_count,
        i.logical_bytes == h.logical_bytes,
        i.codecs@ == h.compression@,
        h.sha1 matches Some(d) ==> i.sha1@ == d@,
        h.raw_sha1 matches Some(d) ==> i.raw_sha1@ == d@,
        h.parent_sha1 matches Some(d) ==> i.parent_sha1@ == d@,
        i.metadata_tags@.len() == ns.len(),
        forall|k: int| 0 <= k < ns.len() ==> (#[trigger] i.metadata_tags@[k]).0 == ns[k].tag,
{
    lemma_has(ns, 0x47444444, 'G', 'D', 'D', 'D');
    lemma_has(ns, 0x43484344, 'C', 'H', 'C', 'D');
    lemma_has(ns, 0x43485452, 'C', 'H', 'T', 'R');
    lemma_has(ns, 0x43485432, 'C', 'H', 'T', '2');
    lemma_has(ns, 0x43484754, 'C', 'H', 'G', 'T');
    lemma_has(ns, 0x43484744, 'C', 'H', 'G', 'D');
    lemma_has(ns, 0x44564420, 'D', 'V', 'D', ' ');
    lemma_has(ns, 0x41564156, 'A', 'V', 'A', 'V');
    lemma_filter_len(ns, 0x43485432);
    lemma_filter_len(ns, 0x43485452);
    lemma_filter_len(ns, 0x43484744);
}

/// The known tags spell their names.
pub proof fn tags_that_are_known()
    ensures
        KnownMetadata::Wildcard.spec_metatag() == 0,
        format_laws::spells(KnownMetadata::HardDisk.spec_metatag(), 'G', 'D', 'D', 'D'),
        format_laws::spells(KnownMetadata::HardDiskIdent.spec_metatag(), 'I', 'D', 'N', 'T'),
        format_laws::spells(KnownMetadata::HardDiskKey.spec_metatag(), 'K', 'E', 'Y', ' '),
        format_laws::spells(KnownMetadata::PcmciaCIS.spec_metatag(), 'C', 'I', 'S', ' '),
        format_laws::spells(KnownMetadata::CdRomOld.spec_metatag(), 'C', 'H', 'C', 'D'),
        format_laws::spells(KnownMetadata::CdRomTrack.spec_metatag(), 'C', 'H', 'T', 'R'),
        format_laws::spells(KnownMetadata::CdRomTrack2.spec_metatag(), 'C', 'H', 'T', '2'),
        format_laws::spells(KnownMetadata::GdRomOld.spec_metatag(), 'C', 'H', 'G', 'T'),
        format_laws::spells(KnownMetadata::GdRomTrack.spec_metatag(), 'C', 'H', 'G', 'D'),
        format_laws::spells(KnownMetadata::AudioVideo.spec_metatag(), 'A', 'V', 'A', 'V'),
        format_laws::spells(KnownMetadata::AudioVideoLaserDisc.spec_metatag(), 'A', 'V', 'L', 'D'),
{
}

/// The first entry with a tag is one with that tag before which there is none.
pub proof fn first_entry_with_a_tag(ns: Seq<Node>, tag: u32, i: int)
    requires
        0 <= i <= ns.len(),
    ensures
        match hd::first_with(ns, tag, i) {
            Some(n) => n.tag == tag && exists|k: int|
                i <= k < ns.len() && #[trigger] ns[k] == n && forall|j: int|
                    i <= j < k ==> (#[trigger] ns[j]).tag != tag,
            None => forall|j: int| i <= j < ns.len() ==> (#[trigger] ns[j]).tag != tag,
        },
    decreases ns.len() - i,
{
    if i < ns.len() {
        if ns[i].tag == tag {
            assert(ns[i] == hd::first_with(ns, tag, i)->0);
        } else {
            first_entry_with_a_tag(ns, tag, i + 1);
            if let Some(n) = hd::first_with(ns, tag, i + 1) {
                let k = choose|k: int|
                    i + 1 <= k < ns.len() && #[trigger] ns[k] == n && forall|j: int|
                        i + 1 <= j < k ==> (#[trigger] ns[j]).tag != tag;
                assert(ns[k] == n);
            }
        }
    }
}

/// A codec is listed by its short name and, in brackets, by what hunks that it compressed are called.
pub proof fn labels_of_codecs(c: CodecType)
    requires
        c.spec_code() > 3,
    ensures
        ({
            let long = report::compression_label(c);
            &&& long.len() > 7
            &&& format_laws::spells(c.spec_code(), long[0], long[1], long[2], long[3])
            &&& long == long.take(4) + " ("@ + report::codec_label(c) + ")"@
            &&& c !is AVHuffV5 ==> codec::name_of(c.spec_code()) == Some(report::codec_label(c))
        }),
{
    reveal_strlit(" (");
    reveal_strlit(")");
    reveal_strlit("Deflate");
    reveal_strlit("CD Deflate");
    reveal_strlit("CD LZMA");
    reveal_strlit("CD FLAC");
    reveal_strlit("FLAC");
    reveal_strlit("LZMA");
    reveal_strlit("A/V Huffman");
    reveal_strlit("Huffman");
    reveal_strlit("Zstandard");
    reveal_strlit("CD Zstandard");
    reveal_strlit("zlib (Deflate)");
    reveal_strlit("cdzl (CD Deflate)");
    reveal_strlit("cdlz (CD LZMA)");
    reveal_strlit("cdfl (CD FLAC)");
    reveal_strlit("flac (FLAC)");
    reveal_strlit("lzma (LZMA)");
    reveal_strlit("avhu (A/V Huffman)");
    reveal_strlit("huff (Huffman)");
    reveal_strlit("zstd (Zstandard)");
    reveal_strlit("cdzs (CD Zstandard)");
    let long = report::compression_label(c);
    assert(long =~= long.take(4) + " ("@ + report::codec_label(c) + ")"@);
}

/// Characters that are shown as they are: those from the space to the tilde, and tabs, line feeds, form
/// feeds and carriage returns.
pub proof fn characters_that_are_shown(c: u8)
    ensures
        report::is_printable(c) <==> c >= 0x20 && c < 0x7f || c == 0x9 || c == 0xa || c == 0xc || c == 0xd,
{
}

/// The number of the first hunks that count for a row.
pub open spec fn counted(m: chdfile::MapModel, row: int, n: nat) -> nat {
    Seq::new(n, |i: int| i).filter(|i: int| report::row_of(m, i) == Some(row)).len()
}

/// Every hunk of a map counts for one row, or for none; so the rows never count more than there are,
/// and a row counts the hunks that are its own.
pub proof fn rows_count_hunks(m: chdfile::MapModel, row: int, n: nat)
    requires
        n <= m.len(),
    ensures
        report::tally(m, row, n) == counted(m, row, n),
    decreases n,
{
    reveal(Seq::filter);
    let s = Seq::new(n, |i: int| i);
    if n > 0 {
        rows_count_hunks(m, row, (n - 1) as nat);
        assert(s.drop_last() =~= Seq::new((n - 1) as nat, |i: int| i));
        assert(s.last() == n - 1);
    }
}

/// The rows of a compressed file: kinds 0 to 3 for the codecs of the slots, 4 for hunks as they are, 5
/// for references within the file; references to the parent count for none.
pub proof fn rows_of_kinds(es: Seq<crate::map::RawEntry>, i: int)
    requires
        0 <= i < es.len(),
    ensures
        ({
            let row = report::row_of(chdfile::MapModel::Packed(es), i);
            let kind = es[i].kind;
            &&& kind <= 5 ==> row == Some(kind as int)
            &&& kind == 6 || kind == 11 || kind == 12 || kind == 13 ==> row is None
            &&& kind == 9 || kind == 10 ==> row == Some(5int)
        }),
{
}

/// Taking an entry out changes nothing but the eight bytes that named its place: those of the entry
/// before it, or of the header. They name the entry behind it then. The digests stay.
pub proof fn removal_changes_one_place(f: Seq<u8>, tag: u32, index: u32)
    requires
        metadata::removed(f, tag, index) is Ok,
    ensures
        ({
            let g = metadata::removed(f, tag, index)->Ok_0;
            let ns = metadata::list(f, format_laws::number_at(f, 48, 8)).0;
            let p = metadata::position(ns, tag, index);
            let at = if p == Some(0int) {
                48
            } else {
                ns[p->0 - 1].offset as int + 8
            };
            &&& p is Some
            &&& g.len() == f.len()
            &&& forall|k: int| 0 <= k < f.len() && !(at <= k < at + 8) ==> #[trigger] g[k] == f[k]
            &&& format_laws::number_at(g, at, 8) == ns[p->0].next
        }),
{
    format_laws::greatest_byte_first(f, 48, 8);
    let start = format_laws::number_at(f, 48, 8);
    let ns = metadata::list(f, start).0;
    let p = metadata::position(ns, tag, index)->0;
    let g = metadata::removed(f, tag, index)->Ok_0;
    metadata::lemma_position_from(ns, tag, index as nat, 0);
    metadata::lemma_nodes_at(f, start, f.len(), p);
    let next = ns[p].next;
    format_laws::places_of_an_entry(f, ns[p].offset);
    crate::bytes::lemma_be_bound(f.subrange(ns[p].offset as int + 8, ns[p].offset as int + 16));
    vstd::arithmetic::power2::lemma2_to64_rest();
    crate::bytes::lemma_be_len(next, 8);
    let prev = metadata::prev_offset(ns, p);
    if p > 0 {
        metadata::lemma_nodes_at(f, start, f.len(), p - 1);
        assert(prev == ns[p - 1].offset);
        assert(prev > 0);
    }
    let at = if prev == 0 {
        48
    } else {
        prev as int + 8
    };
    assert(g.subrange(at, at + 8) =~= crate::bytes::be_bytes(next, 8));
    crate::bytes::lemma_be_at(g, at, next, 8);
    format_laws::greatest_byte_first(g, at, 8);
}

} // verus!
