//! Laws of reading: which bytes of a file each kind of hunk comes from.

use crate::bytes;
use crate::chdfile;
use crate::chdfile::{Image, MapModel, Read};
use crate::compression::codecs;
use crate::error::Error;
use crate::format_laws;
use crate::header;
use crate::read_back;
use vstd::prelude::*;

verus! {

/// The bytes of a file from one place up to another.
pub open spec fn between(f: Seq<u8>, from: int, to: int) -> Seq<u8> {
    f.subrange(from, to)
}

/// A number of a hunk that there is not, and a buffer of another size than a hunk, are refused.
pub proof fn hunks_that_are_refused(img: Image, n: int, old_out: Seq<u8>, fuel: nat)
    ensures
        n < 0 || n >= img.count ==> img.read(n, old_out, fuel) == Read::Err(Error::HunkOutOfRange),
        0 <= n < img.count && old_out.len() != img.hunk_bytes ==> img.read(n, old_out, fuel)
            == Read::Err(Error::OutOfMemory),
{
    reveal(Image::read);
}

/// A hunk of a compressed file, by the kind of its entry. Kinds 0 to 3 are of the codecs: the stored
/// bytes are handed to the codec of that slot. Kind 4 is of the bytes themselves. Kind 5 is of another
/// hunk, by its number. Kind 6 is of the parent. Others are refused.
pub proof fn hunks_of_a_compressed_file(
    img: Image,
    m: Seq<crate::map::RawEntry>,
    n: int,
    old_out: Seq<u8>,
    fuel: nat,
)
    requires
        img.map == MapModel::Packed(m),
        0 <= n < img.count,
        old_out.len() == img.hunk_bytes,
    ensures
        ({
            let e = m[n];
            let r = img.read(n, old_out, fuel);
            let held = e.offset + e.length <= img.file.len();
            let stored = between(img.file, e.offset as int, e.offset + e.length);
            &&& e.kind <= 3 && e.kind < img.codecs.len() && held && e.offset < img.file.len() ==> r
                == match codecs::codec_decoded(
                img.codecs[e.kind as int],
                img.hunk_bytes,
                stored,
                old_out,
            ) {
                Ok((out, count, read)) => Read::Ok((out, count)),
                Err(x) => Read::Err(x),
            }
            &&& e.kind <= 3 && !held && e.length > 0 ==> r == Read::Err(Error::ReadError)
            &&& e.kind == 4 && e.length == img.hunk_bytes && held && e.offset < img.file.len() ==> r
                == Read::Ok((stored, img.hunk_bytes as nat))
            &&& e.kind == 4 && e.length != img.hunk_bytes ==> r == Read::Err(Error::InvalidParameter)
            &&& e.kind == 5 && fuel > 0 && e.offset <= u32::MAX ==> r == img.read(
                e.offset as int,
                old_out,
                (fuel - 1) as nat,
            )
            &&& e.kind == 5 && fuel == 0 ==> r == Read::Err(Error::InvalidData)
            &&& e.kind == 6 && img.parent is None ==> r == Read::Err(Error::RequiresParent)
            &&& e.kind > 6 ==> r == Read::Err(Error::UnsupportedFormat)
        }),
{
    reveal(Image::read);
    let e = m[n];
    if e.kind == 4 && e.length == img.hunk_bytes && e.offset + e.length <= img.file.len() && e.offset
        < img.file.len() {
        let part = chdfile::part_at(img.file, e.offset as int, e.length as int);
        assert(part + old_out.skip(part.len() as int) =~= part);
    }
}

/// A reference to the parent is by the number of a unit. It gives the bytes of the parent's image from
/// that unit on, as many as a hunk has, also where they lie in two hunks of the parent.
#[verifier::spinoff_prover]
#[verifier::rlimit(60)]
pub proof fn units_of_the_parent(
    img: Image,
    m: Seq<crate::map::RawEntry>,
    p: Image,
    whole: Seq<u8>,
    n: int,
    old_out: Seq<u8>,
    fuel: nat,
)
    requires
        img.map == MapModel::Packed(m),
        0 <= n < img.count,
        old_out.len() == img.hunk_bytes,
        m[n].kind == 6,
        img.parent == Some(Box::new(p)),
        crate::write::sizes_fit(img.hunk_bytes, img.unit_bytes),
        p.hunk_bytes == img.hunk_bytes,
        read_back::reads_as(p, whole),
        m[n].offset <= u32::MAX,
        m[n].offset * img.unit_bytes + img.hunk_bytes <= whole.len(),
    ensures
        img.read(n, old_out, fuel) == Read::Ok(
            (
                between(
                    whole,
                    m[n].offset * img.unit_bytes,
                    m[n].offset * img.unit_bytes + img.hunk_bytes,
                ),
                img.hunk_bytes as nat,
            ),
        ),
{
    let hb = img.hunk_bytes;
    let ub = img.unit_bytes;
    let q = m[n].offset as int;
    let per = (hb / ub) as int;
    vstd::arithmetic::div_mod::lemma_fundamental_div_mod(hb as int, ub as int);
    assert(per * ub == hb) by (nonlinear_arith)
        requires
            hb == ub * per,
    ;
    assert(per >= 1) by (nonlinear_arith)
        requires
            per * ub == hb,
            hb > 0,
            ub > 0,
    ;
    assert(ub <= hb) by (nonlinear_arith)
        requires
            per * ub == hb,
            per >= 1,
            ub > 0,
    ;
    vstd::arithmetic::div_mod::lemma_fundamental_div_mod(q, per);
    vstd::arithmetic::div_mod::lemma_div_pos_is_pos(q, per);
    let at = q / per;
    let cut = (q % per) * ub;
    assert(q * ub == at * hb + cut) by (nonlinear_arith)
        requires
            q == per * at + q % per,
            per * ub == hb,
            cut == (q % per) * ub,
    ;
    assert(0 <= cut < hb) by (nonlinear_arith)
        requires
            0 <= q % per < per,
            per * ub == hb,
            ub > 0,
            cut == (q % per) * ub,
    ;
    assert((at + 1) * hb == at * hb + hb) by (nonlinear_arith);
    assert((at + 2) * hb == at * hb + 2 * hb) by (nonlinear_arith);
    assert(0 <= at * hb) by (nonlinear_arith)
        requires
            at >= 0,
            hb > 0,
    ;
    let count = p.count as int;
    assert(at + 1 <= count) by (nonlinear_arith)
        requires
            at * hb + hb <= count * hb,
            hb > 0,
    ;
    if cut > 0 {
        assert(at + 2 <= count) by (nonlinear_arith)
            requires
                at * hb + cut + hb <= count * hb,
                cut > 0,
                hb > 0,
        ;
        assert((at + 2) * hb <= count * hb) by (nonlinear_arith)
            requires
                at + 2 <= count,
                hb > 0,
        ;
    }
    assert(q % per == 0 ==> cut == 0);
    assert(q % per != 0 ==> cut > 0) by (nonlinear_arith)
        requires
            0 <= q % per,
            cut == (q % per) * ub,
            ub > 0,
    ;
    let first = p.read(at, bytes::zeros(hb as nat), p.count as nat);
    let buf = first->Ok_0.0;
    assert(buf == whole.subrange(at * hb, (at + 1) * hb));
    let window = between(whole, q * ub, q * ub + hb);
    if q % per == 0 {
        assert(buf =~= window);
    } else {
        let second = p.read(at + 1, buf, p.count as nat);
        let more = second->Ok_0.0;
        assert((at + 1) + 1 == at + 2);
        assert(more == whole.subrange((at + 1) * hb, (at + 2) * hb));
        assert(buf.skip(cut) + more.take(cut) =~= window);
    }
    lemma_parent_read(img, m, p, n, old_out, fuel);
}

proof fn lemma_parent_read(
    img: Image,
    m: Seq<crate::map::RawEntry>,
    p: Image,
    n: int,
    old_out: Seq<u8>,
    fuel: nat,
)
    requires
        img.map == MapModel::Packed(m),
        0 <= n < img.count,
        old_out.len() == img.hunk_bytes,
        m[n].kind == 6,
        img.parent == Some(Box::new(p)),
        0 < img.unit_bytes <= img.hunk_bytes,
        m[n].offset <= u32::MAX,
    ensures
        ({
            let at = m[n].offset as int / (img.hunk_bytes / img.unit_bytes) as int;
            let first = p.read(at, bytes::zeros(img.hunk_bytes as nat), p.count as nat);
            img.read(n, old_out, fuel) == chdfile::joined(
                m[n].offset as int,
                img,
                first,
                p.read(at + 1, first->Ok_0.0, p.count as nat),
            )
        }),
{
    reveal_with_fuel(Image::read, 1);
    assert(m[n].offset as int % 0x1_0000_0000 == m[n].offset as int);
}

/// A hunk of a file without compression: the map has its place in hunks. Where that is zero, the hunk
/// is that of the parent, or nothing but zeros in a file that has none.
pub proof fn hunks_of_a_plain_file(img: Image, m: Seq<u32>, n: int, old_out: Seq<u8>, fuel: nat)
    requires
        img.map == MapModel::Plain(m),
        0 <= n < img.count,
        old_out.len() == img.hunk_bytes,
        img.hunk_bytes > 0,
    ensures
        m[n] != 0 && (m[n] + 1) * img.hunk_bytes <= img.file.len() ==> img.read(n, old_out, fuel)
            == Read::Ok(
            (
                between(img.file, m[n] * img.hunk_bytes, (m[n] + 1) * img.hunk_bytes),
                img.hunk_bytes as nat,
            ),
        ),
        m[n] == 0 && !img.has_parent ==> img.read(n, old_out, fuel) == Read::Ok(
            (Seq::new(img.hunk_bytes as nat, |i: int| 0u8), img.hunk_bytes as nat),
        ),
        m[n] == 0 && img.has_parent && img.parent is None ==> img.read(n, old_out, fuel) == Read::Err(
            Error::RequiresParent,
        ),
        m[n] == 0 && img.has_parent && img.parent is Some ==> img.read(n, old_out, fuel)
            == img.parent->0.read(n, old_out, img.parent->0.count as nat),
{
    reveal(Image::read);
    let hb = img.hunk_bytes as int;
    assert((m[n] + 1) * hb == m[n] * hb + hb) by (nonlinear_arith);
    if m[n] != 0 && (m[n] + 1) * hb <= img.file.len() {
        let part = chdfile::part_at(img.file, m[n] * hb, hb);
        assert(part + old_out.skip(part.len() as int) =~= part);
    }
    assert(bytes::zeros(img.hunk_bytes as nat) =~= Seq::new(img.hunk_bytes as nat, |i: int| 0u8));
}

/// A hunk of a file before version 5, by its kind.
#[verifier::spinoff_prover]
#[verifier::rlimit(60)]
pub proof fn hunks_of_earlier_versions(
    img: Image,
    m: Seq<chdfile::LegacyEntry>,
    n: int,
    old_out: Seq<u8>,
    fuel: nat,
)
    requires
        img.map == MapModel::Legacy(m),
        0 <= n < img.count,
        old_out.len() == img.hunk_bytes,
    ensures
        ({
            let e = m[n];
            let r = img.read(n, old_out, fuel);
            let held = e.offset + e.length <= img.file.len() && e.offset < img.file.len();
            let stored = between(img.file, e.offset as int, e.offset + e.length);
            &&& e.kind is Compressed && held && img.codecs.len() > 0 ==> r == match codecs::codec_decoded(
                img.codecs[0],
                img.hunk_bytes,
                stored,
                old_out,
            ) {
                Ok((out, count, read)) => Read::Ok((out, count)),
                Err(x) => Read::Err(x),
            }
            &&& e.kind is Uncompressed && held && e.length == img.hunk_bytes ==> r == Read::Ok(
                (stored, img.hunk_bytes as nat),
            )
            &&& e.kind is Mini && img.hunk_bytes >= 8 ==> (r matches Ok((out, count)) && count
                == img.hunk_bytes && out.len() == img.hunk_bytes && format_laws::number_at(out, 0, 8)
                == e.offset && forall|i: int|
                8 <= i < out.len() ==> #[trigger] out[i] == out[i - 8])
            &&& e.kind is SelfHunk && fuel > 0 && e.offset <= u32::MAX ==> r == img.read(
                e.offset as int,
                old_out,
                (fuel - 1) as nat,
            )
            &&& e.kind is ParentHunk && img.parent is Some && e.offset <= u32::MAX ==> r
                == img.parent->0.read(e.offset as int, old_out, img.parent->0.count as nat)
            &&& e.kind is ParentHunk && img.parent is None ==> r == Read::Err(Error::RequiresParent)
            &&& e.kind is ExternalCompressed ==> r == Read::Err(Error::UnsupportedFormat)
            &&& e.kind is Invalid ==> r == Read::Err(Error::InvalidData)
        }),
{
    reveal(Image::read);
    let e = m[n];
    let held = e.offset + e.length <= img.file.len() && e.offset < img.file.len();
    if e.kind is Uncompressed && held && e.length == img.hunk_bytes {
        let part = chdfile::part_at(img.file, e.offset as int, e.length as int);
        assert(part + old_out.skip(part.len() as int) =~= part);
    }
    if e.kind is Mini && img.hunk_bytes >= 8 {
        let out = chdfile::repeated(e.offset, img.hunk_bytes as nat);
        let b = bytes::be_bytes(e.offset as nat, 8);
        bytes::lemma_be_len(e.offset as nat, 8);
        assert(out.subrange(0, 8) =~= b);
        vstd::arithmetic::power2::lemma2_to64_rest();
        bytes::lemma_be_at(out, 0, e.offset as nat, 8);
        format_laws::greatest_byte_first(out, 0, 8);
        assert forall|i: int| 8 <= i < out.len() implies #[trigger] out[i] == out[i - 8] by {
            assert((i - 8) % 8 == i % 8);
        }
    }
}

/// The image of a file that reads as something, hunk by hunk, is the front of that, as long as the
/// header says.
pub proof fn image_is_its_hunks(img: Image, whole: Seq<u8>, logical: nat, n: nat)
    requires
        read_back::reads_as(img, whole),
        logical <= whole.len(),
        n <= img.count,
    ensures
        chdfile::gathered(img, logical, n) matches Ok((data, buf)) && buf.len() == img.hunk_bytes
            && data == whole.take(
            if n * img.hunk_bytes < logical {
                n * img.hunk_bytes
            } else {
                logical as int
            },
        ),
    decreases n,
{
    let hb = img.hunk_bytes as int;
    if n > 0 {
        let m = (n - 1) as nat;
        image_is_its_hunks(img, whole, logical, m);
        assert(n * hb == m * hb + hb) by (nonlinear_arith)
            requires
                m == n - 1,
        ;
        assert(n * hb <= img.count * hb) by (nonlinear_arith)
            requires
                n <= img.count,
                hb >= 0,
        ;
        assert(0 <= m * hb) by (nonlinear_arith)
            requires
                hb >= 0,
        ;
        let (data, buf) = chdfile::gathered(img, logical, m)->Ok_0;
        let r = img.read(m as int, buf, img.count as nat);
        assert(r->Ok_0.0 == whole.subrange(m * hb, (m + 1) * hb));
        let (all, last) = chdfile::gathered(img, logical, n)->Ok_0;
        assert(all =~= whole.take(
            if n * hb < logical {
                n * hb
            } else {
                logical as int
            },
        ));
    } else {
        assert(0 * hb == 0) by (nonlinear_arith);
        assert(whole.take(0) =~= Seq::empty());
    }
}

/// What opening a file gives: the sizes from the header, as many hunks as hold the image, and the
/// codecs in the order of their slots. The first slot says whether the map is packed.
pub proof fn parts_of_an_opened_file(f: Seq<u8>, parent: Option<Box<Image>>, k: int)
    requires
        chdfile::open_fault(f, None) is None,
        0 <= k < 4,
    ensures
        ({
            let img = chdfile::opened(f, parent);
            &&& img.file == f
            &&& img.hunk_bytes == format_laws::number_at(f, 56, 4)
            &&& img.unit_bytes == format_laws::number_at(f, 60, 4)
            &&& img.parent == parent
            &&& (img.count - 1) * img.hunk_bytes < format_laws::number_at(f, 32, 8) <= img.count
                * img.hunk_bytes || img.count == 0 && format_laws::number_at(f, 32, 8) == 0
            &&& img.has_parent <==> exists|i: int| 104 <= i < 124 && #[trigger] f[i] != 0
            &&& img.codecs.len() == 4
            &&& img.map is Packed <==> format_laws::number_at(f, 16, 4) != 0
            &&& img.codecs[k].spec_code() == format_laws::number_at(f, 16 + 4 * k, 4)
                || img.codecs[k] is ZLibV5 && (format_laws::number_at(f, 16 + 4 * k, 4) == 1
                || format_laws::number_at(f, 16 + 4 * k, 4) == 2)
            &&& img.map matches MapModel::Plain(m) ==> m.len() == img.count && forall|i: int|
                0 <= i < m.len() ==> #[trigger] m[i] == format_laws::number_at(
                    f,
                    format_laws::number_at(f, 40, 8) + 4 * i,
                    4,
                )
        }),
{
    let img = chdfile::opened(f, parent);
    format_laws::places_of_the_header(f);
    format_laws::headers_that_can_be_read(f);
    format_laws::lemma_four(f, 56);
    format_laws::lemma_four(f, 60);
    let h = header::fields_at(f);
    header::lemma_pieces(h.logical_bytes, h.hunk_bytes);
    let c = header::pieces(h.logical_bytes, h.hunk_bytes) as int;
    let hb = h.hunk_bytes as int;
    assert((c - 1) * hb == c * hb - hb) by (nonlinear_arith);
    assert(0 <= c <= u32::MAX);
    assert(img.count == c);
    if c == 0 {
        assert(c * hb == 0) by (nonlinear_arith)
            requires
                c == 0,
        ;
    }
    assert(k == 0 || k == 1 || k == 2 || k == 3);
    assert(img.has_parent <==> exists|i: int| 104 <= i < 124 && #[trigger] f[i] != 0) by {
        if img.has_parent {
            if forall|i: int| 104 <= i < 124 ==> #[trigger] f[i] == 0 {
                assert(h.parent_sha1 =~= header::no_digest());
            }
        } else {
            assert forall|i: int| 104 <= i < 124 implies #[trigger] f[i] == 0 by {
                assert(h.parent_sha1[i - 104] == f[104 + (i - 104)]);
                assert(header::no_digest()[i - 104] == 0);
            }
        }
    }
    lemma_codec_at(h.compression, h.hunk_bytes as u32, 0, k);
    if h.compression[0] == 0 {
        let m = img.map->Plain_0;
        assert forall|i: int| 0 <= i < m.len() implies #[trigger] m[i] == format_laws::number_at(
            f,
            format_laws::number_at(f, 40, 8) + 4 * i,
            4,
        ) by {
            let at = h.map_offset + 4 * i;
            format_laws::greatest_byte_first(f, at, 4);
            bytes::lemma_be_bound(f.subrange(at, at + 4));
            vstd::arithmetic::power2::lemma2_to64();
        }
    }
}

proof fn lemma_codec_at(codes: Seq<u32>, hunk_bytes: u32, from: int, k: int)
    requires
        chdfile::codec_fault(codes, hunk_bytes, from) is None,
        0 <= from <= k < codes.len(),
    ensures
        header::CodecType::named(codes[k]) is Some,
        header::CodecType::named(codes[k])->0.spec_code() == codes[k],
    decreases k - from,
{
    if from < k {
        lemma_codec_at(codes, hunk_bytes, from + 1, k);
    } else {
        format_laws::numbers_name_codecs(codes[k]);
    }
}

} // verus!
