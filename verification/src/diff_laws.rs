//! What sectors hold after any number of writes, also once the disk was closed and opened again.

use crate::bytes;
use crate::chdfile;
use crate::chdfile::Image;
use crate::disk_laws;
use crate::error::Error;
use crate::hd;
use crate::hd::Disk;
use crate::header;
use crate::header::Header;
use crate::metadata;
use crate::metadata::Meta;
use crate::metadata_laws;
use crate::read_back;
use vstd::arithmetic::power2::*;
use vstd::prelude::*;

verus! {

/// A sector that is written, and what the buffer for hunks holds before.
pub struct SectorWrite {
    pub lba: int,
    pub data: Seq<u8>,
    pub buffer: Seq<u8>,
}

/// Whether every hunk of a disk can be read, and reads the same whatever the buffer held.
pub open spec fn steady(d: Disk) -> bool {
    forall|h: int, old_out: Seq<u8>|
        0 <= h < d.map.len() && old_out.len() == d.hunk_bytes ==> {
            &&& (#[trigger] d.hunk(h, old_out)) == d.hunk(h, bytes::zeros(d.hunk_bytes as nat))
            &&& d.hunk(h, old_out) matches Ok(out) && out.len() == d.hunk_bytes
        }
}

/// Whether a disk is what its file holds, can be opened over a parent, and can be written to.
pub open spec fn ready(d: Disk, parent: Option<Header>) -> bool {
    &&& disk_laws::sound(d)
    &&& disk_laws::metadata_apart(d)
    &&& d == hd::disk_of(d.file, d.parent)
    &&& disk_laws::opens(d.file, parent)
    &&& steady(d)
}

/// Whether sectors can be written to a disk.
pub open spec fn can_be_written(d: Disk, ws: Seq<SectorWrite>) -> bool {
    forall|i: int|
        0 <= i < ws.len() ==> {
            &&& 0 <= (#[trigger] ws[i]).lba
            &&& d.sector_fault(ws[i].lba, ws[i].data.len()) is None
            &&& ws[i].buffer.len() == d.hunk_bytes
        }
}

/// The disk after the first `n` writes.
pub open spec fn after(d: Disk, ws: Seq<SectorWrite>, n: nat) -> Disk
    decreases n,
{
    if n == 0 {
        d
    } else {
        let w = ws[n - 1];
        disk_laws::with_sector(after(d, ws, (n - 1) as nat), w.lba, w.data, w.buffer)
    }
}

/// What was last written to a sector, of the first `n` writes.
pub open spec fn last_written(ws: Seq<SectorWrite>, n: nat, lba: int) -> Option<Seq<u8>>
    decreases n,
{
    if n == 0 {
        None
    } else if ws[n - 1].lba == lba {
        Some(ws[n - 1].data)
    } else {
        last_written(ws, (n - 1) as nat, lba)
    }
}

/// What a write leaves as it is.
proof fn lemma_write_keeps(d: Disk, h: int, data: Seq<u8>)
    requires
        disk_laws::sound(d),
        0 <= h < d.map.len(),
        data.len() == d.hunk_bytes,
    ensures
        ({
            let g = d.with_hunk(h, data);
            &&& g.parent == d.parent
            &&& g.geometry == d.geometry
            &&& g.hunk_bytes == d.hunk_bytes
            &&& g.logical_bytes == d.logical_bytes
            &&& g.map.len() == d.map.len()
            &&& g.file.len() as int / g.hunk_bytes as int <= d.file.len() as int / d.hunk_bytes as int
                + 1
        }),
{
    let g = d.with_hunk(h, data);
    let hb = d.hunk_bytes as int;
    let len = d.file.len() as int;
    if d.map[h] == 0 {
        bytes::lemma_be_len((d.file.len() / d.hunk_bytes as nat) % 0x1_0000_0000, 4);
        assert(g.file.len() == len + hb);
        vstd::arithmetic::div_mod::lemma_fundamental_div_mod(len, hb);
        let q = len / hb;
        assert(len + hb == (q + 1) * hb) by (nonlinear_arith)
            requires
                len == hb * q,
        ;
        vstd::arithmetic::div_mod::lemma_div_multiples_vanish(q + 1, hb);
        assert((q + 1) * hb == hb * (q + 1)) by (nonlinear_arith);
    } else {
        assert(d.map[h] * d.hunk_bytes + d.hunk_bytes <= d.file.len());
        assert(g.file.len() == d.file.len());
    }
}

/// A disk stays steady when a hunk is written.
proof fn lemma_write_keeps_steady(d: Disk, h: int, data: Seq<u8>)
    requires
        disk_laws::sound(d),
        steady(d),
        0 <= h < d.map.len(),
        data.len() == d.hunk_bytes,
    ensures
        steady(d.with_hunk(h, data)),
{
    let g = d.with_hunk(h, data);
    let zero = bytes::zeros(d.hunk_bytes as nat);
    assert forall|i: int, old_out: Seq<u8>|
        0 <= i < g.map.len() && old_out.len() == g.hunk_bytes implies {
        &&& (#[trigger] g.hunk(i, old_out)) == g.hunk(i, bytes::zeros(g.hunk_bytes as nat))
        &&& g.hunk(i, old_out) matches Ok(out) && out.len() == g.hunk_bytes
    } by {
        if i == h {
            disk_laws::written_hunk_is_read_back(d, h, data, old_out);
            disk_laws::written_hunk_is_read_back(d, h, data, zero);
        } else {
            disk_laws::other_hunks_stay(d, h, data, i, old_out);
            disk_laws::other_hunks_stay(d, h, data, i, zero);
            assert(d.hunk(i, old_out) == d.hunk(i, zero));
        }
    }
}

/// The number of hunks of a disk that its file holds.
proof fn lemma_map_len(d: Disk)
    requires
        disk_laws::sound(d),
        d == hd::disk_of(d.file, d.parent),
    ensures
        d.map.len() == header::pieces(d.logical_bytes, d.hunk_bytes as nat),
        d.logical_bytes <= u64::MAX,
{
    lemma2_to64();
    bytes::lemma_be_bound(d.file.subrange(56, 60));
    bytes::lemma_be_bound(d.file.subrange(32, 40));
}

/// One more write.
#[verifier::spinoff_prover]
#[verifier::rlimit(60)]
proof fn lemma_one_write(d: Disk, w: SectorWrite, parent: Option<Header>)
    requires
        ready(d, parent),
        0 <= w.lba,
        d.sector_fault(w.lba, w.data.len()) is None,
        w.buffer.len() == d.hunk_bytes,
        d.file.len() as int / (d.hunk_bytes as int) < u32::MAX,
    ensures
        ({
            let g = disk_laws::with_sector(d, w.lba, w.data, w.buffer);
            &&& ready(g, parent)
            &&& g.parent == d.parent
            &&& g.geometry == d.geometry
            &&& g.hunk_bytes == d.hunk_bytes
            &&& g.logical_bytes == d.logical_bytes
            &&& g.map.len() == d.map.len()
            &&& g.file.len() as int / g.hunk_bytes as int <= d.file.len() as int / d.hunk_bytes as int
                + 1
        }),
{
    lemma_map_len(d);
    hd::lemma_sector(d, w.lba);
    let h = d.hunk_of(w.lba);
    let whole = d.hunk(h, w.buffer)->Ok_0;
    let now = hd::with_sector(whole, d.offset_of(w.lba), w.data);
    assert(d.hunk(h, w.buffer) matches Ok(out) && out.len() == d.hunk_bytes);
    assert(now.len() == d.hunk_bytes);
    assert(disk_laws::with_sector(d, w.lba, w.data, w.buffer) == d.with_hunk(h, now));
    lemma_write_keeps(d, h, now);
    lemma_write_keeps_steady(d, h, now);
    disk_laws::writing_keeps_sound(d, h, now);
    disk_laws::written_hunk_survives_reopening(d, h, now, parent);
}

/// What the sectors read as after some of the writes.
#[verifier::spinoff_prover]
#[verifier::rlimit(60)]
proof fn lemma_run(d: Disk, ws: Seq<SectorWrite>, n: nat, lba: int, later: Seq<u8>, parent: Option<Header>)
    requires
        ready(d, parent),
        n <= ws.len(),
        can_be_written(d, ws),
        d.file.len() as int / d.hunk_bytes as int + ws.len() <= u32::MAX,
        0 <= lba,
        d.sector_fault(lba, d.geometry.sector_bytes as nat) is None,
        later.len() == d.hunk_bytes,
    ensures
        ({
            let e = after(d, ws, n);
            &&& ready(e, parent)
            &&& e.parent == d.parent
            &&& e.geometry == d.geometry
            &&& e.hunk_bytes == d.hunk_bytes
            &&& e.logical_bytes == d.logical_bytes
            &&& e.map.len() == d.map.len()
            &&& e.file.len() as int / e.hunk_bytes as int <= d.file.len() as int / d.hunk_bytes as int + n
            &&& disk_laws::sector(e, lba, later) == match last_written(ws, n, lba) {
                Some(data) => Ok(data),
                None => disk_laws::sector(d, lba, later),
            }
        }),
    decreases n,
{
    if n > 0 {
        let m = (n - 1) as nat;
        let c = after(d, ws, m);
        let w = ws[n - 1];
        lemma_run(d, ws, m, lba, later, parent);
        assert(c.sector_fault(w.lba, w.data.len()) is None);
        lemma_one_write(c, w, parent);
        lemma_map_len(c);
        hd::lemma_sector(c, w.lba);
        assert(c.hunk(c.hunk_of(w.lba), w.buffer) matches Ok(x) && x.len() == c.hunk_bytes);
        if w.lba == lba {
            disk_laws::written_sector_is_read_back(c, w.lba, w.data, w.buffer, later);
        } else {
            assert(c.hunk(c.hunk_of(w.lba), later) == c.hunk(c.hunk_of(w.lba), w.buffer));
            assert(w.data.len() == c.geometry.sector_bytes);
            disk_laws::other_sectors_stay(c, w.lba, w.data, w.buffer, lba, later);
        }
    }
}

/// After any number of writes, once the disk was closed and its file opened again, each sector reads
/// as it was last written, and a sector that was not written reads as before.
pub proof fn sectors_survive_reopening(
    d: Disk,
    ws: Seq<SectorWrite>,
    lba: int,
    later: Seq<u8>,
    parent: Option<Header>,
)
    requires
        ready(d, parent),
        can_be_written(d, ws),
        d.file.len() as int / d.hunk_bytes as int + ws.len() <= u32::MAX,
        0 <= lba,
        d.sector_fault(lba, d.geometry.sector_bytes as nat) is None,
        later.len() == d.hunk_bytes,
    ensures
        ({
            let file = after(d, ws, ws.len()).file;
            let again = hd::disk_of(file, d.parent);
            &&& disk_laws::opens(file, parent)
            &&& again == after(d, ws, ws.len())
            &&& again.geometry == d.geometry
            &&& again.sector_count() == d.sector_count()
            &&& disk_laws::sector(again, lba, later) == match last_written(ws, ws.len(), lba) {
                Some(data) => Ok(data),
                None => disk_laws::sector(d, lba, later),
            }
        }),
{
    lemma_run(d, ws, ws.len(), lba, later, parent);
}

/// The shape that metadata entries give.
pub open spec fn shape_in(ms: Seq<Meta>, i: int) -> Result<hd::HdGeometry, Error>
    decreases ms.len() - i,
{
    if i < 0 || i >= ms.len() {
        Err(Error::MetadataNotFound)
    } else if ms[i].tag == header::tag_of(0x47, 0x44, 0x44, 0x44) {
        match hd::parsed_gddd(ms[i].payload) {
            Some(g) => Ok(g),
            None => Err(Error::InvalidMetadata),
        }
    } else {
        shape_in(ms, i + 1)
    }
}

proof fn lemma_shape_from(f: Seq<u8>, ns: Seq<metadata::Node>, i: int)
    requires
        0 <= i,
    ensures
        shape_in(chdfile::metas_at(f, ns), i) == match hd::first_with(
            ns,
            header::tag_of(0x47, 0x44, 0x44, 0x44),
            i,
        ) {
            None => Err::<hd::HdGeometry, Error>(Error::MetadataNotFound),
            Some(n) => match hd::parsed_gddd(metadata::contents(f, n)) {
                Some(g) => Ok(g),
                None => Err(Error::InvalidMetadata),
            },
        },
    decreases ns.len() - i,
{
    if i < ns.len() {
        assert(chdfile::metas_at(f, ns)[i] == metadata::meta_of(f, ns[i]));
        lemma_shape_from(f, ns, i + 1);
    }
}

/// The entries of a list are short enough for their length to be written in three bytes.
proof fn lemma_metas_fit(f: Seq<u8>, offset: nat)
    requires
        chdfile::all_held(f, metadata::list(f, offset).0),
    ensures
        ({
            let ms = chdfile::metas_at(f, metadata::list(f, offset).0);
            forall|i: int| 0 <= i < ms.len() ==> (#[trigger] ms[i]).payload.len() < 0x100_0000
        }),
{
    let ns = metadata::list(f, offset).0;
    let ms = chdfile::metas_at(f, ns);
    assert forall|i: int| 0 <= i < ms.len() implies (#[trigger] ms[i]).payload.len() < 0x100_0000 by {
        metadata::lemma_nodes_at(f, offset, f.len(), i);
        let n = ns[i];
        assert(metadata::node_at(f, n.offset) == Some(n));
        assert(metadata::holds_contents(f, n));
        lemma2_to64();
        bytes::lemma_be_bound(f.subrange(n.offset as int + 5, n.offset as int + 8));
        assert(metadata::contents(f, n).len() == n.length);
    }
}

/// A difference that was made anew.
pub open spec fn new_difference(f: Seq<u8>, h: Header) -> Seq<u8> {
    hd::diff_layout(f, h).empty_diff(chdfile::digest_or_zeros(h.sha1))
}

/// A difference has the shape of the disk that it was made for.
#[verifier::spinoff_prover]
#[verifier::rlimit(60)]
pub proof fn difference_has_the_shape_of_its_parent(f: Seq<u8>, h: Header)
    requires
        h.wf(),
        hd::diff_fault(f, h) is None,
    ensures
        hd::geometry_of(
            new_difference(f, h),
            header::fields_at(new_difference(f, h)).meta_offset,
        ) == hd::geometry_of(f, h.meta_offset as nat),
{
    let p = hd::diff_layout(f, h);
    let g = new_difference(f, h);
    let sha1 = chdfile::digest_or_zeros(h.sha1);
    let plan = bytes::zeros(4 * p.count());
    let ns = metadata::list(f, h.meta_offset as nat).0;
    lemma_metas_fit(f, h.meta_offset as nat);
    crate::write::lemma_front_layout(p);
    read_back::lemma_plain_front(p, plan, sha1, Seq::empty());
    assert(g =~= p.front(plan, sha1) + Seq::<u8>::empty());
    let at = header::fields_at(g).meta_offset;
    let ms = metadata::list(g, at).0;
    if p.metadata.len() > 0 {
        metadata_laws::blob_is_read_back(g, p.metadata, p.meta_start());
    } else {
        assert(ms =~= Seq::empty());
    }
    assert(chdfile::metas_at(g, ms) =~= p.metadata);
    assert(chdfile::all_held(g, ms));
    lemma_shape_from(f, ns, 0);
    lemma_shape_from(g, ms, 0);
}

/// A part of a hunk is a part of the image.
proof fn lemma_sector_of_image(d: Disk, data: Seq<u8>, lba: int)
    requires
        d.hunk_bytes > 0,
        d.logical_bytes == data.len(),
        d.map.len() == header::pieces(d.logical_bytes, d.hunk_bytes as nat),
        d.logical_bytes <= u64::MAX,
        0 <= lba,
        d.sector_fault(lba, d.geometry.sector_bytes as nat) is None,
    ensures
        ({
            let ss = d.geometry.sector_bytes as int;
            let h = d.hunk_of(lba);
            let at = d.offset_of(lba);
            let hb = d.hunk_bytes;
            &&& 0 <= lba * ss
            &&& lba * ss + ss <= data.len()
            &&& read_back::filled_up(data, hb).subrange(h * hb, (h + 1) * hb).subrange(at, at + ss)
                == data.subrange(lba * ss, lba * ss + ss)
        }),
{
    let ss = d.geometry.sector_bytes as int;
    let hb = d.hunk_bytes as int;
    let h = d.hunk_of(lba);
    let at = d.offset_of(lba);
    hd::lemma_sector(d, lba);
    read_back::hunk_of_filled_up(data, d.hunk_bytes, h);
    vstd::arithmetic::div_mod::lemma_fundamental_div_mod(lba * ss, hb);
    assert(hb * h == h * hb) by (nonlinear_arith);
    let count = data.len() as int / ss;
    vstd::arithmetic::div_mod::lemma_fundamental_div_mod(data.len() as int, ss);
    vstd::arithmetic::div_mod::lemma_mod_bound(data.len() as int, ss);
    assert(lba * ss + ss <= ss * count) by (nonlinear_arith)
        requires
            lba + 1 <= count,
            ss > 0,
    ;
    assert(read_back::filled_up(data, d.hunk_bytes).subrange(h * hb, (h + 1) * hb).subrange(at, at + ss)
        =~= data.subrange(lba * ss, lba * ss + ss));
}

/// A new difference can be written to where its parent reads as an image, and every sector is one of
/// that image.
#[verifier::spinoff_prover]
#[verifier::rlimit(60)]
proof fn lemma_new_difference(f: Seq<u8>, h: Header, q: Image, data: Seq<u8>, lba: int, later: Seq<u8>)
    requires
        h.wf(),
        hd::diff_fault(f, h) is None,
        disk_laws::opens(new_difference(f, h), Some(h)),
        h.logical_bytes == data.len(),
        q.hunk_bytes == h.hunk_bytes,
        q.count == h.hunk_count,
        read_back::reads_as(q, read_back::filled_up(data, h.hunk_bytes)),
        hd::diff_layout(f, h).base() <= u32::MAX,
        0 <= lba,
        ({
            let d = hd::disk_of(new_difference(f, h), Some(Box::new(q)));
            d.sector_fault(lba, d.geometry.sector_bytes as nat) is None
        }),
        later.len() == h.hunk_bytes,
    ensures
        ({
            let d = hd::disk_of(new_difference(f, h), Some(Box::new(q)));
            let ss = d.geometry.sector_bytes;
            &&& ready(d, Some(h))
            &&& d.hunk_bytes == h.hunk_bytes
            &&& d.file.len() == hd::diff_layout(f, h).base() * d.hunk_bytes
            &&& disk_laws::sector(d, lba, later) == Ok::<Seq<u8>, Error>(
                data.subrange(lba * ss, lba * ss + ss),
            )
        }),
{
    let p = hd::diff_layout(f, h);
    let sha1 = chdfile::digest_or_zeros(h.sha1);
    let g = new_difference(f, h);
    let d = hd::disk_of(g, Some(Box::new(q)));
    let img = read_back::filled_up(data, h.hunk_bytes);
    lemma_metas_fit(f, h.meta_offset as nat);
    disk_laws::new_diff_is_sound(p, sha1, d);
    crate::write::lemma_front_layout(p);
    read_back::lemma_plain_front(p, bytes::zeros(4 * p.count()), sha1, Seq::empty());
    assert(g =~= p.front(bytes::zeros(4 * p.count()), sha1) + Seq::<u8>::empty());
    assert(d.hunk_bytes == h.hunk_bytes);
    assert(d.logical_bytes == data.len());
    assert forall|i: int, old_out: Seq<u8>|
        0 <= i < d.map.len() && old_out.len() == d.hunk_bytes implies {
        &&& (#[trigger] d.hunk(i, old_out)) == d.hunk(i, bytes::zeros(d.hunk_bytes as nat))
        &&& d.hunk(i, old_out) matches Ok(out) && out.len() == d.hunk_bytes
    } by {
        read_back::hunk_of_filled_up(data, h.hunk_bytes, i);
        let zero = bytes::zeros(d.hunk_bytes as nat);
        assert(d.map[i] == 0);
        assert(q.read(i, old_out, q.count as nat) matches Ok((out, n)) && out == img.subrange(
            i * q.hunk_bytes,
            (i + 1) * q.hunk_bytes,
        ));
        assert(q.read(i, zero, q.count as nat) matches Ok((out, n)) && out == img.subrange(
            i * q.hunk_bytes,
            (i + 1) * q.hunk_bytes,
        ));
    }
    hd::lemma_sector(d, lba);
    lemma_sector_of_image(d, data, lba);
    let k = d.hunk_of(lba);
    assert(d.map[k] == 0);
    assert(q.read(k, later, q.count as nat) matches Ok((out, n)) && out == img.subrange(
        k * q.hunk_bytes,
        (k + 1) * q.hunk_bytes,
    ));
}

/// A difference to a disk, written to any number of times, closed and opened again, has the shape of
/// the disk, and each of its sectors reads as it was last written, or else as in the image of the disk.
#[verifier::spinoff_prover]
#[verifier::rlimit(60)]
pub proof fn difference_reads_as_written(
    f: Seq<u8>,
    h: Header,
    q: Image,
    data: Seq<u8>,
    ws: Seq<SectorWrite>,
    lba: int,
    later: Seq<u8>,
)
    requires
        h.wf(),
        hd::diff_fault(f, h) is None,
        disk_laws::opens(new_difference(f, h), Some(h)),
        h.logical_bytes == data.len(),
        q.hunk_bytes == h.hunk_bytes,
        q.count == h.hunk_count,
        read_back::reads_as(q, read_back::filled_up(data, h.hunk_bytes)),
        hd::diff_layout(f, h).base() + ws.len() <= u32::MAX,
        can_be_written(hd::disk_of(new_difference(f, h), Some(Box::new(q))), ws),
        0 <= lba,
        ({
            let d = hd::disk_of(new_difference(f, h), Some(Box::new(q)));
            d.sector_fault(lba, d.geometry.sector_bytes as nat) is None
        }),
        later.len() == h.hunk_bytes,
    ensures
        ({
            let d = hd::disk_of(new_difference(f, h), Some(Box::new(q)));
            let file = after(d, ws, ws.len()).file;
            let again = hd::disk_of(file, d.parent);
            let ss = again.geometry.sector_bytes;
            &&& disk_laws::opens(file, Some(h))
            &&& hd::geometry_of(f, h.meta_offset as nat) == Ok::<hd::HdGeometry, Error>(again.geometry)
            &&& again.sector_count() == d.sector_count()
            &&& disk_laws::sector(again, lba, later) == Ok::<Seq<u8>, Error>(
                match last_written(ws, ws.len(), lba) {
                    Some(written) => written,
                    None => data.subrange(lba * ss, lba * ss + ss),
                },
            )
        }),
{
    let d = hd::disk_of(new_difference(f, h), Some(Box::new(q)));
    lemma_new_difference(f, h, q, data, lba, later);
    let base = hd::diff_layout(f, h).base() as int;
    assert(d.file.len() as int / d.hunk_bytes as int == base) by {
        assert(base * d.hunk_bytes == d.hunk_bytes * base) by (nonlinear_arith);
        vstd::arithmetic::div_mod::lemma_div_multiples_vanish(base, d.hunk_bytes as int);
    }
    sectors_survive_reopening(d, ws, lba, later, Some(h));
    difference_has_the_shape_of_its_parent(f, h);
}

} // verus!
