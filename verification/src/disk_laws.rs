//! What sectors keep of what is written to them.

use crate::bytes;
use crate::chdfile;
use crate::error::Error;
use crate::hd;
use crate::hd::Disk;
use crate::header;
use crate::header::Header;
use crate::metadata;
use crate::metadata_laws;
use vstd::arithmetic::power2::*;
use vstd::prelude::*;

verus! {

/// Whether the hunks of a disk lie in its file, behind the map, without overlap, and the file ends
/// where a hunk can be added.
pub open spec fn sound(d: Disk) -> bool {
    let n = d.map.len();
    &&& d.hunk_bytes > 0
    &&& d.file.len() as int % d.hunk_bytes as int == 0
    &&& d.file.len() as int / d.hunk_bytes as int <= u32::MAX
    &&& 124 + 4 * n <= d.file.len()
    &&& forall|i: int|
        0 <= i < n && (#[trigger] d.map[i]) != 0 ==> d.map[i] * d.hunk_bytes >= 124 + 4 * n && d.map[i]
            * d.hunk_bytes + d.hunk_bytes <= d.file.len()
    &&& forall|i: int, j: int|
        0 <= i < j < n && (#[trigger] d.map[i]) != 0 ==> d.map[i] != (#[trigger] d.map[j])
}

proof fn lemma_places_apart(a: int, b: int, hb: int)
    requires
        a != b,
        hb > 0,
    ensures
        a * hb + hb <= b * hb || b * hb + hb <= a * hb,
{
    if a < b {
        assert(a * hb + hb <= b * hb) by (nonlinear_arith)
            requires
                a + 1 <= b,
                hb > 0,
        ;
    } else {
        assert(b * hb + hb <= a * hb) by (nonlinear_arith)
            requires
                b + 1 <= a,
                hb > 0,
        ;
    }
}

/// The place behind the end of a file.
proof fn lemma_end(d: Disk)
    requires
        sound(d),
    ensures
        ({
            let place = (d.file.len() / d.hunk_bytes as nat) % 0x1_0000_0000;
            &&& place * d.hunk_bytes == d.file.len()
            &&& 0 < place <= u32::MAX
            &&& forall|i: int| 0 <= i < d.map.len() ==> #[trigger] d.map[i] != place
        }),
{
    let hb = d.hunk_bytes as int;
    let len = d.file.len() as int;
    let q = len / hb;
    vstd::arithmetic::div_mod::lemma_fundamental_div_mod(len, hb);
    vstd::arithmetic::div_mod::lemma_div_pos_is_pos(len, hb);
    assert(q * hb == hb * q) by (nonlinear_arith);
    assert(q > 0) by (nonlinear_arith)
        requires
            hb * q == len,
            len > 0,
            hb > 0,
    ;
    assert(q == d.file.len() / d.hunk_bytes as nat);
    assert forall|i: int| 0 <= i < d.map.len() implies #[trigger] d.map[i] != q by {
        if d.map[i] == q && d.map[i] != 0 {
            assert(d.map[i] * d.hunk_bytes + d.hunk_bytes <= d.file.len());
        }
    }
}

/// A hunk that is written is read back, whatever the buffer held.
pub proof fn written_hunk_is_read_back(d: Disk, h: int, data: Seq<u8>, old_out: Seq<u8>)
    requires
        sound(d),
        0 <= h < d.map.len(),
        data.len() == d.hunk_bytes,
    ensures
        d.with_hunk(h, data).hunk(h, old_out) == Ok::<Seq<u8>, Error>(data),
{
    let g = d.with_hunk(h, data);
    let hb = d.hunk_bytes as int;
    if d.map[h] != 0 {
        let at = d.map[h] * hb;
        assert(g.file.subrange(at, at + hb) =~= data);
    } else {
        lemma_end(d);
        bytes::lemma_be_len((d.file.len() / d.hunk_bytes as nat) % 0x1_0000_0000, 4);
        let at = g.map[h] * hb;
        assert(at == d.file.len());
        assert(g.file.subrange(at, at + hb) =~= data);
    }
}

/// The other hunks stay as they are.
pub proof fn other_hunks_stay(d: Disk, h: int, data: Seq<u8>, other: int, old_out: Seq<u8>)
    requires
        sound(d),
        0 <= h < d.map.len(),
        0 <= other < d.map.len(),
        other != h,
        data.len() == d.hunk_bytes,
    ensures
        d.with_hunk(h, data).hunk(other, old_out) == d.hunk(other, old_out),
{
    let g = d.with_hunk(h, data);
    let hb = d.hunk_bytes as int;
    if d.map[other] != 0 {
        let at = d.map[other] * hb;
        assert(at >= 124 + 4 * d.map.len() && at + hb <= d.file.len());
        if d.map[h] != 0 {
            assert(d.map[h] != d.map[other]);
            lemma_places_apart(d.map[h] as int, d.map[other] as int, hb);
        } else {
            bytes::lemma_be_len((d.file.len() / d.hunk_bytes as nat) % 0x1_0000_0000, 4);
        }
        assert(g.file.subrange(at, at + hb) =~= d.file.subrange(at, at + hb));
    }
}

/// A disk stays sound when a hunk is written, as long as the places of hunks fit the map.
pub proof fn writing_keeps_sound(d: Disk, h: int, data: Seq<u8>)
    requires
        sound(d),
        0 <= h < d.map.len(),
        data.len() == d.hunk_bytes,
        u32::MAX > d.file.len() as int / d.hunk_bytes as int,
    ensures
        sound(d.with_hunk(h, data)),
{
    let g = d.with_hunk(h, data);
    let hb = d.hunk_bytes as int;
    let len = d.file.len() as int;
    if d.map[h] != 0 {
        assert(g.file.len() == d.file.len());
    } else {
        lemma_end(d);
        bytes::lemma_be_len((d.file.len() / d.hunk_bytes as nat) % 0x1_0000_0000, 4);
        assert(g.file.len() == len + hb);
        vstd::arithmetic::div_mod::lemma_fundamental_div_mod(len, hb);
        let q = len / hb;
        assert(len + hb == (q + 1) * hb) by (nonlinear_arith)
            requires
                len == hb * q,
        ;
        vstd::arithmetic::div_mod::lemma_mod_multiples_basic(q + 1, hb);
        vstd::arithmetic::div_mod::lemma_div_multiples_vanish(q + 1, hb);
        assert((q + 1) * hb == hb * (q + 1)) by (nonlinear_arith);
        assert forall|i: int| 0 <= i < g.map.len() && (#[trigger] g.map[i]) != 0 implies g.map[i]
            * g.hunk_bytes >= 124 + 4 * g.map.len() && g.map[i] * g.hunk_bytes + g.hunk_bytes
            <= g.file.len() by {
            if i != h {
                assert(d.map[i] != 0);
            }
        }
        assert forall|i: int, j: int| 0 <= i < j < g.map.len() && (#[trigger] g.map[i]) != 0 implies g.map[i]
            != (#[trigger] g.map[j]) by {
            let a = d.map[i];
            let b = d.map[j];
        }
    }
}

/// The map that is kept in the file is the one that is gone by, also once a hunk is written.
pub proof fn map_stays_saved(d: Disk, h: int, data: Seq<u8>)
    requires
        sound(d),
        0 <= h < d.map.len(),
        data.len() == d.hunk_bytes,
        d.map == hd::saved_map(d.file, d.map.len()),
    ensures
        d.with_hunk(h, data).map == hd::saved_map(d.with_hunk(h, data).file, d.map.len()),
{
    let g = d.with_hunk(h, data);
    let n = d.map.len();
    let hb = d.hunk_bytes as int;
    let place = (d.file.len() / d.hunk_bytes as nat) % 0x1_0000_0000;
    lemma2_to64();
    bytes::lemma_be_len(place, 4);
    assert forall|i: int| 0 <= i < n implies g.map[i] == #[trigger] hd::saved_map(g.file, n)[i] by {
        let at = 124 + 4 * i;
        if d.map[h] == 0 && i == h {
            assert(g.file.subrange(at, at + 4) =~= bytes::be_bytes(place, 4));
            bytes::lemma_be_at(g.file, at, place, 4);
        } else {
            if d.map[h] != 0 {
                assert(d.map[h] * d.hunk_bytes >= 124 + 4 * n);
            }
            assert(g.file.subrange(at, at + 4) =~= d.file.subrange(at, at + 4));
            assert(d.map[i] == hd::saved_map(d.file, n)[i]);
        }
    }
    assert(g.map =~= hd::saved_map(g.file, n));
}

/// Whether the metadata of a disk is sound, and lies behind the map and apart from the hunks.
pub open spec fn metadata_apart(d: Disk) -> bool {
    let ns = metadata_laws::places(d.file);
    &&& metadata_laws::sound(d.file)
    &&& forall|i: int| 0 <= i < ns.len() ==> (#[trigger] ns[i]).offset >= 124 + 4 * d.map.len()
    &&& forall|i: int, j: int|
        0 <= i < ns.len() && 0 <= j < d.map.len() && d.map[j] != 0 ==> (#[trigger] ns[i]).offset + 16
            + ns[i].length <= (#[trigger] d.map[j]) * d.hunk_bytes || d.map[j] * d.hunk_bytes
            + d.hunk_bytes <= ns[i].offset
}

/// Whether a file can be opened as a disk over a parent.
pub open spec fn opens(f: Seq<u8>, parent: Option<Header>) -> bool {
    &&& chdfile::open_fault(f, parent) is None
    &&& hd::disk_fault(f) is None
}

proof fn lemma_first_with(ns: Seq<metadata::Node>, tag: u32, i: int)
    requires
        0 <= i,
    ensures
        hd::first_with(ns, tag, i) matches Some(n) ==> exists|k: int|
            0 <= k < ns.len() && #[trigger] ns[k] == n,
    decreases ns.len() - i,
{
    if i < ns.len() && ns[i].tag != tag {
        lemma_first_with(ns, tag, i + 1);
    }
}

/// What is changed between `lo` and `hi`, behind the map and apart from the metadata, or in the map,
/// and what is added at the end, leaves the header and the shape of the disk as they are.
proof fn lemma_front_kept(f: Seq<u8>, g: Seq<u8>, lo: int, hi: int, parent: Option<Header>)
    requires
        metadata_laws::sound(f),
        124 <= lo,
        f.len() <= g.len(),
        forall|k: int| 0 <= k < f.len() && !(lo <= k < hi) ==> g[k] == f[k],
        forall|i: int|
            0 <= i < metadata_laws::places(f).len() ==> (#[trigger] metadata_laws::places(f)[i]).offset
                + 16 + metadata_laws::places(f)[i].length <= lo || hi <= metadata_laws::places(f)[i].offset,
        opens(f, parent),
    ensures
        header::fields_at(g) == header::fields_at(f),
        hd::geometry_of(g, header::fields_at(f).meta_offset) == hd::geometry_of(
            f,
            header::fields_at(f).meta_offset,
        ),
        opens(g, parent),
{
    metadata_laws::change_elsewhere_keeps_metadata(f, g, lo, hi);
    let h = header::fields_at(f);
    assert(g.take(8) =~= f.take(8));
    assert(g.subrange(8, 12) =~= f.subrange(8, 12));
    assert(g.subrange(12, 16) =~= f.subrange(12, 16));
    assert(g.subrange(32, 40) =~= f.subrange(32, 40));
    assert(g.subrange(40, 48) =~= f.subrange(40, 48));
    assert(g.subrange(48, 56) =~= f.subrange(48, 56));
    assert(g.subrange(56, 60) =~= f.subrange(56, 60));
    assert(g.subrange(60, 64) =~= f.subrange(60, 64));
    assert(g.subrange(64, 84) =~= f.subrange(64, 84));
    assert(g.subrange(84, 104) =~= f.subrange(84, 104));
    assert(g.subrange(104, 124) =~= f.subrange(104, 124));
    assert forall|i: int| 0 <= i < 4 implies #[trigger] header::fields_at(g).compression[i]
        == h.compression[i] by {
        assert(g.subrange(16 + 4 * i, 16 + 4 * i + 4) =~= f.subrange(16 + 4 * i, 16 + 4 * i + 4));
    }
    assert(header::fields_at(g).compression =~= h.compression);
    assert(header::fields_at(g) == h);
    let ns = metadata_laws::places(f);
    let tag = header::tag_of(0x47, 0x44, 0x44, 0x44);
    lemma_first_with(ns, tag, 0);
    assert(chdfile::all_held(f, ns) && chdfile::all_held(g, ns));
    if let Some(n) = hd::first_with(ns, tag, 0) {
        let k = choose|k: int| 0 <= k < ns.len() && #[trigger] ns[k] == n;
        assert(metadata_laws::listed(g)[k] == metadata_laws::listed(f)[k]);
        assert(metadata::contents(g, n) == metadata::contents(f, n));
    }
}

/// A disk to which a hunk was written is the disk that its file holds: once it is closed, the file
/// can be opened as before, and every hunk, the one that was written and the others, reads as it did.
#[verifier::spinoff_prover]
#[verifier::rlimit(60)]
pub proof fn written_hunk_survives_reopening(d: Disk, h: int, data: Seq<u8>, parent: Option<Header>)
    requires
        sound(d),
        metadata_apart(d),
        d == hd::disk_of(d.file, d.parent),
        opens(d.file, parent),
        0 <= h < d.map.len(),
        data.len() == d.hunk_bytes,
    ensures
        opens(d.with_hunk(h, data).file, parent),
        hd::disk_of(d.with_hunk(h, data).file, d.parent) == d.with_hunk(h, data),
        metadata_apart(d.with_hunk(h, data)),
        d.with_hunk(h, data).geometry == d.geometry,
        d.with_hunk(h, data).sector_count() == d.sector_count(),
{
    let g = d.with_hunk(h, data);
    let n = d.map.len();
    let hb = d.hunk_bytes as int;
    let ns = metadata_laws::places(d.file);
    let place = (d.file.len() / d.hunk_bytes as nat) % 0x1_0000_0000;
    bytes::lemma_be_len(place, 4);
    map_stays_saved(d, h, data);
    let (lo, hi) = if d.map[h] != 0 {
        (d.map[h] * hb, d.map[h] * hb + hb)
    } else {
        (124 + 4 * h, 124 + 4 * h + 4)
    };
    assert(124 <= lo) by {
        if d.map[h] != 0 {
            assert(d.map[h] * d.hunk_bytes >= 124 + 4 * n);
        }
    }
    assert forall|i: int| 0 <= i < ns.len() implies (#[trigger] ns[i]).offset + 16 + ns[i].length <= lo
        || hi <= ns[i].offset by {}
    lemma_front_kept(d.file, g.file, lo, hi, parent);
    metadata_laws::change_elsewhere_keeps_metadata(d.file, g.file, lo, hi);
    assert(hd::disk_of(g.file, d.parent).map =~= g.map);
    if d.map[h] == 0 {
        lemma_end(d);
        assert forall|i: int, j: int|
            0 <= i < ns.len() && 0 <= j < g.map.len() && g.map[j] != 0 implies (#[trigger] ns[i]).offset
            + 16 + ns[i].length <= (#[trigger] g.map[j]) * g.hunk_bytes || g.map[j] * g.hunk_bytes
            + g.hunk_bytes <= ns[i].offset by {
            if j != h {
                assert(g.map[j] == d.map[j]);
            } else {
                assert(metadata::holds_contents(d.file, ns[i]));
            }
        }
    }
}

/// A sector, from the hunk that holds it.
pub open spec fn sector(d: Disk, lba: int, old_out: Seq<u8>) -> Result<Seq<u8>, Error> {
    match d.hunk(d.hunk_of(lba), old_out) {
        Err(e) => Err(e),
        Ok(data) => Ok(
            data.subrange(d.offset_of(lba), d.offset_of(lba) + d.geometry.sector_bytes),
        ),
    }
}

/// The disk once a sector is written, of which the hunk was read into a buffer that held `old_out`.
pub open spec fn with_sector(d: Disk, lba: int, data: Seq<u8>, old_out: Seq<u8>) -> Disk {
    d.with_hunk(
        d.hunk_of(lba),
        hd::with_sector(d.hunk(d.hunk_of(lba), old_out)->Ok_0, d.offset_of(lba), data),
    )
}

/// A sector that is written is read back.
pub proof fn written_sector_is_read_back(
    d: Disk,
    lba: int,
    data: Seq<u8>,
    old_out: Seq<u8>,
    later: Seq<u8>,
)
    requires
        sound(d),
        d.map.len() == header::pieces(d.logical_bytes, d.hunk_bytes as nat),
        d.logical_bytes <= u64::MAX,
        0 <= lba,
        d.sector_fault(lba, data.len()) is None,
        d.hunk(d.hunk_of(lba), old_out) matches Ok(x) && x.len() == d.hunk_bytes,
    ensures
        sector(with_sector(d, lba, data, old_out), lba, later) == Ok::<Seq<u8>, Error>(data),
{
    hd::lemma_sector(d, lba);
    let at = d.offset_of(lba);
    let whole = d.hunk(d.hunk_of(lba), old_out)->Ok_0;
    let now = hd::with_sector(whole, at, data);
    written_hunk_is_read_back(d, d.hunk_of(lba), now, later);
    assert(now.subrange(at, at + data.len()) =~= data);
}

/// A sector that is written is read back once the disk was closed and its file opened again.
#[verifier::spinoff_prover]
#[verifier::rlimit(60)]
pub proof fn written_sector_survives_reopening(
    d: Disk,
    lba: int,
    data: Seq<u8>,
    old_out: Seq<u8>,
    later: Seq<u8>,
    parent: Option<Header>,
)
    requires
        sound(d),
        metadata_apart(d),
        d == hd::disk_of(d.file, d.parent),
        opens(d.file, parent),
        0 <= lba,
        d.sector_fault(lba, data.len()) is None,
        d.hunk(d.hunk_of(lba), old_out) matches Ok(x) && x.len() == d.hunk_bytes,
    ensures
        opens(with_sector(d, lba, data, old_out).file, parent),
        sector(hd::disk_of(with_sector(d, lba, data, old_out).file, d.parent), lba, later) == Ok::<
            Seq<u8>,
            Error,
        >(data),
{
    let h = d.hunk_of(lba);
    let now = hd::with_sector(d.hunk(h, old_out)->Ok_0, d.offset_of(lba), data);
    let g = with_sector(d, lba, data, old_out);
    assert(g == d.with_hunk(h, now));
    assert(header::fields_at(d.file).hunk_bytes <= u32::MAX && d.logical_bytes <= u64::MAX) by {
        lemma2_to64();
        bytes::lemma_be_bound(d.file.subrange(56, 60));
        bytes::lemma_be_bound(d.file.subrange(32, 40));
    }
    assert(sector(g, lba, later) == Ok::<Seq<u8>, Error>(data)) by {
        written_sector_is_read_back(d, lba, data, old_out, later);
    }
    assert(opens(g.file, parent) && hd::disk_of(g.file, d.parent) == g) by {
        hd::lemma_sector(d, lba);
        written_hunk_survives_reopening(d, h, now, parent);
    }
}

/// The other sectors stay as they are, where the hunk of the sector that is written reads the same
/// whatever the buffer held.
#[verifier::spinoff_prover]
#[verifier::rlimit(60)]
pub proof fn other_sectors_stay(
    d: Disk,
    lba: int,
    data: Seq<u8>,
    old_out: Seq<u8>,
    other: int,
    later: Seq<u8>,
)
    requires
        sound(d),
        d.map.len() == header::pieces(d.logical_bytes, d.hunk_bytes as nat),
        d.logical_bytes <= u64::MAX,
        0 <= lba,
        0 <= other,
        other != lba,
        d.sector_fault(lba, data.len()) is None,
        d.sector_fault(other, data.len()) is None,
        d.hunk(d.hunk_of(lba), old_out) matches Ok(x) && x.len() == d.hunk_bytes,
        d.hunk(d.hunk_of(lba), later) == d.hunk(d.hunk_of(lba), old_out),
    ensures
        sector(with_sector(d, lba, data, old_out), other, later) == sector(d, other, later),
{
    hd::lemma_sector(d, lba);
    hd::lemma_sector(d, other);
    let h = d.hunk_of(lba);
    let at = d.offset_of(lba);
    let to = d.offset_of(other);
    let ss = d.geometry.sector_bytes as int;
    let hb = d.hunk_bytes as int;
    let whole = d.hunk(h, old_out)->Ok_0;
    let now = hd::with_sector(whole, at, data);
    if d.hunk_of(other) == h {
        written_hunk_is_read_back(d, h, now, later);
        vstd::arithmetic::div_mod::lemma_fundamental_div_mod(lba * ss, hb);
        vstd::arithmetic::div_mod::lemma_fundamental_div_mod(other * ss, hb);
        lemma_places_apart(lba, other, ss);
        assert(at + ss <= to || to + ss <= at);
        assert(now.subrange(to, to + ss) =~= whole.subrange(to, to + ss));
    } else {
        other_hunks_stay(d, h, now, d.hunk_of(other), later);
    }
}

/// The metadata of a new file without compression is sound, and lies between the map and the hunks.
#[verifier::spinoff_prover]
#[verifier::rlimit(60)]
proof fn lemma_new_metadata(
    p: crate::write::PlainLayout,
    plan: Seq<u8>,
    parent_sha1: Seq<u8>,
    rest: Seq<u8>,
    d: Disk,
)
    requires
        crate::write::sizes_fit(p.hunk_bytes, p.unit_bytes),
        p.front_fits(),
        p.count() <= u32::MAX,
        p.logical_bytes <= u64::MAX,
        plan.len() == 4 * p.count(),
        parent_sha1.len() == 20,
        forall|i: int| 0 <= i < p.metadata.len() ==> (#[trigger] p.metadata[i]).payload.len() < 0x100_0000,
        d.file == p.front(plan, parent_sha1) + rest,
        d.file.len() <= u64::MAX,
        d.map.len() == p.count(),
        forall|i: int|
            0 <= i < d.map.len() && (#[trigger] d.map[i]) != 0 ==> d.map[i] * d.hunk_bytes
                >= p.data_start(),
    ensures
        metadata_apart(d),
{
    let f = d.file;
    let start = p.meta_start();
    let ms = p.metadata;
    crate::write::lemma_front_layout(p);
    crate::read_back::lemma_plain_front(p, plan, parent_sha1, rest);
    assert(metadata_laws::first_entry(f) == header::fields_at(f).meta_offset);
    let ns = metadata_laws::places(f);
    if ms.len() == 0 {
        assert(ns =~= Seq::empty());
    } else {
        metadata_laws::blob_is_read_back(f, ms, start);
        assert forall|i: int| 0 <= i < ns.len() implies (#[trigger] ns[i]).offset >= start
            && metadata::holds_contents(f, ns[i]) && ns[i].offset == metadata::entry_offset(ms, start, i)
            && ns[i].length == ms[i].payload.len() && ns[i].offset + 16 + ns[i].length <= p.meta_end() by {
            metadata::lemma_entry_offset(ms, start, 0, i);
            metadata::lemma_entry_offset(ms, start, i + 1, ms.len() as int);
            let n = metadata::list(f, start).0[i];
            assert(metadata::meta_of(f, n).payload.len() == n.length);
        }
        assert forall|i: int, j: int| 0 <= i < j < ns.len() implies metadata_laws::apart(
            #[trigger] ns[i],
            #[trigger] ns[j],
        ) by {
            metadata::lemma_entry_offset(ms, start, i + 1, j);
        }
        assert forall|i: int, j: int|
            0 <= i < ns.len() && 0 <= j < d.map.len() && d.map[j] != 0 implies (#[trigger] ns[i]).offset
            + 16 + ns[i].length <= (#[trigger] d.map[j]) * d.hunk_bytes || d.map[j] * d.hunk_bytes
            + d.hunk_bytes <= ns[i].offset by {}
    }
}

/// A new difference is sound, and every hunk comes from the parent.
pub proof fn new_diff_is_sound(p: crate::write::PlainLayout, parent_sha1: Seq<u8>, d: Disk)
    requires
        crate::write::sizes_fit(p.hunk_bytes, p.unit_bytes),
        p.front_fits(),
        p.count() <= u32::MAX,
        p.logical_bytes <= u64::MAX,
        parent_sha1.len() == 20,
        p.data_start() / p.hunk_bytes as nat <= u32::MAX,
        d == hd::disk_of(p.empty_diff(parent_sha1), d.parent),
    ensures
        sound(d),
        d.map == hd::saved_map(d.file, d.map.len()),
        d.map.len() == p.count(),
        forall|i: int| 0 <= i < d.map.len() ==> #[trigger] d.map[i] == 0,
        (forall|i: int|
            0 <= i < p.metadata.len() ==> (#[trigger] p.metadata[i]).payload.len() < 0x100_0000)
            ==> metadata_apart(d),
{
    let f = p.empty_diff(parent_sha1);
    let plan = bytes::zeros(4 * p.count());
    crate::write::lemma_front_layout(p);
    crate::read_back::lemma_plain_front(p, plan, parent_sha1, Seq::empty());
    assert(f =~= p.front(plan, parent_sha1) + Seq::<u8>::empty());
    vstd::arithmetic::div_mod::lemma_mod_multiples_basic(p.base() as int, p.hunk_bytes as int);
    lemma2_to64();
    assert forall|i: int| 0 <= i < d.map.len() implies #[trigger] d.map[i] == 0 by {
        let at = 124 + 4 * i;
        assert(f.subrange(at, at + 4) =~= f.subrange(124, p.meta_start() as int).subrange(
            4 * i,
            4 * i + 4,
        ));
        assert(plan.subrange(4 * i, 4 * i + 4) =~= bytes::be_bytes(0, 4)) by {
            crate::write::lemma_be_zero();
        }
        bytes::lemma_be_at(f, at, 0, 4);
    }
    if forall|i: int|
        0 <= i < p.metadata.len() ==> (#[trigger] p.metadata[i]).payload.len() < 0x100_0000 {
        lemma_new_metadata(p, plan, parent_sha1, Seq::empty(), d);
    }
}

/// A new image without compression is sound, and has all its hunks.
#[verifier::spinoff_prover]
#[verifier::rlimit(60)]
pub proof fn plain_disk_is_sound(p: crate::write::PlainLayout, data: Seq<u8>, d: Disk)
    requires
        crate::write::sizes_fit(p.hunk_bytes, p.unit_bytes),
        p.within_limits(),
        p.logical_bytes == data.len(),
        data.len() <= u64::MAX,
        d == hd::disk_of(p.file(data), d.parent),
    ensures
        sound(d),
        d.map.len() == p.count(),
        forall|i: int| 0 <= i < d.map.len() ==> #[trigger] d.map[i] == p.base() + i,
        (forall|i: int|
            0 <= i < p.metadata.len() ==> (#[trigger] p.metadata[i]).payload.len() < 0x100_0000)
            ==> metadata_apart(d),
{
    let hb = p.hunk_bytes as int;
    let n = p.count() as int;
    let plan = crate::write::plain_map(p.base(), p.count());
    let rest = data + bytes::zeros((p.count() * p.hunk_bytes - data.len()) as nat);
    let f = p.file(data);
    crate::write::lemma_plain_layout(p);
    if n > 0 {
        crate::read_back::lemma_plain_entry(p.base(), p.count(), 0);
    } else {
        assert(plan =~= Seq::empty());
    }
    crate::read_back::lemma_plain_front(p, plan, header::no_digest(), rest);
    assert(f =~= p.front(plan, header::no_digest()) + rest);
    let q = p.base() + n;
    assert(f.len() == q * hb) by (nonlinear_arith)
        requires
            f.len() == p.base() * hb + n * hb,
            q == p.base() + n,
    ;
    vstd::arithmetic::div_mod::lemma_mod_multiples_basic(q, hb);
    vstd::arithmetic::div_mod::lemma_div_multiples_vanish(q, hb);
    assert(q * hb == hb * q) by (nonlinear_arith);
    assert(p.base() > 0) by (nonlinear_arith)
        requires
            p.base() * hb == p.data_start(),
            p.data_start() > 0,
    ;
    lemma2_to64();
    assert forall|i: int| 0 <= i < d.map.len() implies #[trigger] d.map[i] == p.base() + i && d.map[i] * hb
        >= p.data_start() && d.map[i] * hb + hb <= f.len() by {
        let at = 124 + 4 * i;
        crate::read_back::lemma_plain_entry(p.base(), p.count(), i);
        assert(f.subrange(at, at + 4) =~= f.subrange(124, p.meta_start() as int).subrange(
            4 * i,
            4 * i + 4,
        ));
        bytes::lemma_be_at(f, at, (p.base() + i) as nat, 4);
        let place = p.base() + i;
        assert(p.base() * hb <= place * hb && place * hb + hb <= q * hb) by (nonlinear_arith)
            requires
                p.base() <= place,
                place + 1 <= q,
                hb > 0,
        ;
    }
    if forall|i: int|
        0 <= i < p.metadata.len() ==> (#[trigger] p.metadata[i]).payload.len() < 0x100_0000 {
        lemma_new_metadata(p, plan, header::no_digest(), rest, d);
    }
}

} // verus!
