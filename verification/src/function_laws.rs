//! Laws of functions: what callers can rely on, in terms of arguments and results alone.

use crate::bytes;
use crate::bytes::{get_be, get_u16be, get_u24be, get_u48be, round_up};
use crate::cd::{format_track, parse_iso, type_from_string, CdCreateOptions, CdTrack, TrackType};
use crate::cd_laws;
use crate::chdfile;
use crate::chdfile::{Chd, Image, VerifyResult};
use crate::codec;
use crate::codec::{codec_exists, codec_name, parse_codec_spec};
use crate::compression::codec_laws;
use crate::compression::ecc::{verify_ecc, verify_sync};
use crate::compression::ecc_laws;
use crate::compression::flac::{cd_flac_blocksize, flac_blocksize};
use crate::compression::frame_laws;
use crate::compression::lzma::get_lzma_dict_size;
use crate::copy::CopyOptions;
use crate::cue::{msf_to_frames, parse_signed, parse_time, tokenize_line};
use crate::cue_laws;
use crate::dvd::DvdCreateOptions;
use crate::error::Error;
use crate::format_laws;
use crate::hash;
use crate::hash::sha1_digest;
use crate::hd;
use crate::hd::{compute_chs, format_gddd, parse_gddd, HdCreateOptions, HdGeometry};
use crate::header::{is_no_digest, make_tag, same_bytes, CodecType, Header};
use crate::huffman_encode::bits_for_value;
use crate::metadata;
use crate::metadata::{compute_overall_sha1, Meta, MetaEntry};
use crate::overall_laws;
use crate::read_back;
use crate::read_laws;
use crate::report::{cd_input, fourcc_to_u32, printable, text_value, to_fourcc, unit_count, CdInput};
use crate::shape_laws;
use crate::text;
use crate::write::{read_and_pad, resolve_codecs};
use vstd::arithmetic::power2::*;
use vstd::prelude::*;
use vstd::string::*;

verus! {

/// The usual options: a hard disk has hunks of 4096 bytes, sectors of 512 and Deflate; a DVD hunks of
/// 4096 bytes and four codecs; a CD hunks of eight frames and the three codecs for frames; a copy no
/// compression.
pub proof fn usual_options(h: HdCreateOptions, d: DvdCreateOptions, c: CdCreateOptions, o: CopyOptions)
    requires
        call_ensures(<HdCreateOptions as Default>::default, (), h),
        call_ensures(<DvdCreateOptions as Default>::default, (), d),
        call_ensures(<CdCreateOptions as Default>::default, (), c),
        call_ensures(<CopyOptions as Default>::default, (), o),
    ensures
        h.logical_size == 0 && h.hunk_size == 4096 && h.unit_size == 512,
        h.geometry is None && h.ident is None,
        format_laws::spells(h.codecs@[0], 'z', 'l', 'i', 'b'),
        h.codecs@[1] == 0 && h.codecs@[2] == 0 && h.codecs@[3] == 0,
        d.logical_size == 0 && d.hunk_size == 4096,
        format_laws::spells(d.codecs@[0], 'l', 'z', 'm', 'a'),
        format_laws::spells(d.codecs@[1], 'z', 'l', 'i', 'b'),
        format_laws::spells(d.codecs@[2], 'h', 'u', 'f', 'f'),
        format_laws::spells(d.codecs@[3], 'f', 'l', 'a', 'c'),
        c.hunk_size == 8 * 2448,
        format_laws::spells(c.codecs@[0], 'c', 'd', 'l', 'z'),
        format_laws::spells(c.codecs@[1], 'c', 'd', 'z', 'l'),
        format_laws::spells(c.codecs@[2], 'c', 'd', 'f', 'l'),
        c.codecs@[3] == 0,
        o.hunk_size is None,
        o.codecs@[0] == 0 && o.codecs@[1] == 0 && o.codecs@[2] == 0 && o.codecs@[3] == 0,
{
}

/// The shape that is guessed for a disk. There is one exactly for whole sectors, at least one. Every
/// shape with 2 to 63 sectors on a track and 2 to 16 heads that makes up the number of sectors has no
/// longer tracks, and where they are as long no more heads.
pub proof fn guesses_of_shapes(bytes: u64, size: u32, r: Result<HdGeometry, Error>, s: int, h: int)
    requires
        call_ensures(compute_chs, (bytes, size), r),
    ensures
        r is Ok <==> bytes > 0 && size > 0 && bytes as int % size as int == 0,
        r matches Err(e) ==> e == Error::InvalidParameter,
        r matches Ok(g) ==> {
            &&& g.sector_bytes == size
            &&& 2 <= g.sectors <= 63
            &&& 2 <= g.heads <= 16
            &&& 2 <= s <= 63 && 2 <= h <= 16 && (bytes as int / size as int) % (s * h) == 0 ==> s <= g.sectors
                && (s == g.sectors ==> h <= g.heads) && ((bytes as int / size as int) / (g.sectors * g.heads)
                < 0x1_0000_0000 ==> g.cylinders * g.heads * g.sectors * g.sector_bytes == bytes)
        },
{
    if let Ok(g) = r {
        let t = shape_laws::guess_is_the_longest_track(bytes as int, size, g);
        if 2 <= s <= 63 && 2 <= h <= 16 && (bytes as int / size as int) % (s * h) == 0 {
            assert(shape_laws::is_usual(s, h));
            assert(shape_laws::fills(bytes as int / size as int, s, h));
            shape_laws::guess_is_no_shorter(bytes as int, size, g, s, h);
        }
    }
}

/// The size of a disk is the product of its numbers.
pub proof fn sizes_of_disks(g: HdGeometry, r: u64)
    requires
        call_ensures(HdGeometry::logical_bytes, (&g,), r),
    ensures
        r == g.cylinders * g.heads * g.sectors * g.sector_bytes,
{
}

/// The text of a shape is read back, with and without the zero behind it.
pub proof fn shapes_as_text(g: HdGeometry, t: Vec<u8>, raw: &[u8], r: Result<HdGeometry, Error>)
    requires
        call_ensures(format_gddd, (g,), t),
        call_ensures(parse_gddd, (raw,), r),
        raw@ == t@ || raw@ == t@.drop_last(),
    ensures
        t@.len() > 0 && t@.last() == 0,
        r == Ok::<HdGeometry, Error>(g),
{
    hd::gddd_is_read_back(g);
    assert(t@.drop_last() =~= hd::gddd_text(g));
    assert(hd::trimmed(hd::gddd_text(g).push(0)) == hd::trimmed(hd::gddd_text(g))) by {
        assert(hd::gddd_text(g).push(0).drop_last() =~= hd::gddd_text(g));
    }
}

/// The notation for codecs gives the numbers that the names spell, in order, and zeros behind them.
pub proof fn codecs_in_a_notation(s: &str, r: Result<[u32; 4], Error>, k: int)
    requires
        call_ensures(parse_codec_spec, (s,), r),
        0 <= k < 4,
    ensures
        ({
            let b = s.spec_bytes();
            let parts = text::parts(b, 0x2c);
            let none = b == seq![0x6eu8, 0x6fu8, 0x6eu8, 0x65u8];
            &&& r is Ok <==> none || parts.len() <= 4 && forall|j: int|
                0 <= j < parts.len() ==> (#[trigger] parts[j]).len() == 4 && codec::name_of(
                    format_laws::number_at(parts[j], 0, 4) as u32,
                ) is Some
            &&& r matches Err(e) ==> e == Error::InvalidParameter
            &&& r matches Ok(v) ==> v@[k] == if none || k >= parts.len() {
                0
            } else {
                format_laws::number_at(parts[k], 0, 4)
            }
        }),
{
    let b = s.spec_bytes();
    let parts = text::parts(b, 0x2c);
    assert forall|j: int| 0 <= j < parts.len() implies (codec::part_code(#[trigger] parts[j]) is Some <==> (
    parts[j].len() == 4 && codec::name_of(format_laws::number_at(parts[j], 0, 4) as u32) is Some)) && (
    codec::part_code(parts[j]) matches Some(v) ==> v == format_laws::number_at(parts[j], 0, 4)) by {
        lemma_part(parts[j]);
    }
}

proof fn lemma_part(a: Seq<u8>)
    ensures
        codec::part_code(a) is Some <==> a.len() == 4 && codec::name_of(
            format_laws::number_at(a, 0, 4) as u32,
        ) is Some,
        codec::part_code(a) matches Some(v) ==> v == format_laws::number_at(a, 0, 4),
{
    if a.len() == 4 {
        reveal_with_fuel(format_laws::number_at, 5);
        assert(format_laws::number_at(a, 0, 4) == ((a[0] as nat * 256 + a[1] as nat) * 256 + a[2] as nat)
            * 256 + a[3] as nat);
    }
}

/// The codecs of slots are those that they name.
pub proof fn codecs_of_slots(slots: &[u32; 4], r: Result<Vec<CodecType>, Error>, k: int)
    requires
        call_ensures(resolve_codecs, (slots,), r),
        0 <= k < 4,
    ensures
        r matches Ok(v) ==> {
            &&& v@.len() <= 4
            &&& k < v@.len() <==> slots@[k] != 0
            &&& k < v@.len() ==> v@[k].spec_code() == slots@[k]
        },
        r is Err <==> crate::write::slots_fault(slots@) is Some,
{
    if r is Ok {
        crate::creation_laws::codecs_by_slot(slots@, k);
    }
}

/// Codecs that there are have names; the number zero is no compression.
pub proof fn names_of_codecs(v: u32, b: bool, r: Option<&'static str>)
    requires
        call_ensures(codec_exists, (v,), b),
        call_ensures(codec_name, (v,), r),
    ensures
        b == (r is Some),
        b <==> v == 0 || v > 3 && exists|c: CodecType| #[trigger] c.spec_code() == v,
{
    format_laws::numbers_name_codecs(v);
}

/// Numbers are read with the greatest byte first.
pub proof fn numbers_in_bytes(s: &[u8], at: usize, n: usize, r: u64, a: u16, b: u32, c: u64)
    requires
        n <= 8,
        at + n <= s@.len(),
        s@.len() >= 6,
        call_ensures(get_be, (s, at, n), r),
        call_ensures(get_u16be, (s,), a),
        call_ensures(get_u24be, (s,), b),
        call_ensures(get_u48be, (s,), c),
    ensures
        r == format_laws::number_at(s@, at as int, n as nat),
        a == s@[0] * 256 + s@[1],
        b == (s@[0] * 256 + s@[1]) * 256 + s@[2],
        c == format_laws::number_at(s@, 0, 6),
{
    format_laws::greatest_byte_first(s@, at as int, n as nat);
    format_laws::greatest_byte_first(s@, 0, 2);
    format_laws::greatest_byte_first(s@, 0, 3);
    format_laws::greatest_byte_first(s@, 0, 6);
    reveal_with_fuel(format_laws::number_at, 4);
}

/// A number is rounded up to the least multiple that is no less.
pub proof fn multiples(x: u64, align: u64, r: u64)
    requires
        align > 0,
        call_ensures(round_up, (x, align), r),
    ensures
        r as int % align as int == 0,
        x <= r < x + align,
{
    bytes::lemma_rounded_up(x as nat, align as nat);
}

/// The number of bits that hold a number.
pub proof fn widths(v: u64, r: u8)
    requires
        call_ensures(bits_for_value, (v,), r),
    ensures
        v < pow2(r as nat),
        r > 0 ==> v >= pow2((r - 1) as nat),
{
    crate::map_laws::widths_hold_the_greatest(v as nat);
}

/// Four characters make a tag, and a tag has four characters.
pub proof fn tags(a: &[u8; 4], t: u32, back: [u8; 4], s: &[u8], u: u32)
    requires
        call_ensures(make_tag, (a,), t),
        call_ensures(to_fourcc, (t,), back),
        call_ensures(fourcc_to_u32, (s,), u),
        s@ == a@,
    ensures
        t == ((a@[0] as int * 256 + a@[1]) * 256 + a@[2]) * 256 + a@[3],
        back@ == a@,
        u == t,
{
    format_laws::tags_spell_their_characters(a@[0], a@[1], a@[2], a@[3]);
    assert(a@ =~= seq![a@[0], a@[1], a@[2], a@[3]]);
}

/// The parity of a sector is right exactly where it is made of code words.
pub proof fn right_parity(s: &Vec<u8>, r: bool, sync: bool)
    requires
        s@.len() == 2352,
        call_ensures(verify_ecc, (s,), r),
        call_ensures(verify_sync, (s,), sync),
    ensures
        r <==> ecc_laws::is_coded(s@),
        sync <==> frame_laws::starts_in_sync(s@),
{
    ecc_laws::right_parity_makes_code_words(s@);
    if sync {
        assert(s@[0] == crate::cdrom::sync_byte(0));
        assert(s@[11] == crate::cdrom::sync_byte(11));
        assert forall|j: int| 1 <= j < 11 implies #[trigger] s@[j] == 0xff by {
            assert(s@[j] == crate::cdrom::sync_byte(j));
        }
    }
    if frame_laws::starts_in_sync(s@) {
        assert forall|j: int| 0 <= j < 12 implies #[trigger] s@[j] == crate::cdrom::sync_byte(j) by {}
    }
}

/// The dictionary of the highest level for a hunk is the least of the usual sizes that holds it.
pub proof fn dictionaries(n: u32, r: u32)
    requires
        call_ensures(get_lzma_dict_size, (9, n), r),
        n < 0x400_0000,
    ensures
        n <= r,
        codec_laws::is_dict_size(r as int),
        forall|s: int| #[trigger] codec_laws::is_dict_size(s) && n <= s ==> r <= s,
{
    codec_laws::dictionary_holds_the_hunk(n);
}

/// The blocks of samples: a quarter of the bytes, halved until they are no more than 2048, or than 2352
/// for CD frames.
pub proof fn blocks(n: u32, a: u32, b: u32) -> (k: (nat, nat))
    requires
        call_ensures(flac_blocksize, (n,), a),
        call_ensures(cd_flac_blocksize, (n,), b),
    ensures
        a <= 2048,
        a == (n / 4) as nat / pow2(k.0),
        k.0 > 0 ==> (n / 4) as nat / pow2((k.0 - 1) as nat) > 2048,
        b <= 2352,
        b == (n / 4) as nat / pow2(k.1),
        k.1 > 0 ==> (n / 4) as nat / pow2((k.1 - 1) as nat) > 2352,
{
    let i = frame_laws::blocks_are_halved(n / 4, 2048);
    let j = frame_laws::blocks_are_halved(n / 4, 2352);
    (i, j)
}

/// Times are 75 frames for each second, and 60 seconds for each minute.
pub proof fn times(m: Seq<u8>, s: Seq<u8>, f: Seq<u8>, token: &[u8], r: Option<i64>, v: i64)
    requires
        cue_laws::all_digits(m),
        cue_laws::all_digits(s),
        cue_laws::all_digits(f),
        cue_laws::number_of(m) <= 0xff_ffff,
        cue_laws::number_of(s) <= 0xff_ffff,
        cue_laws::number_of(f) <= 0xff_ffff,
        token@ == m + seq![0x3au8] + (s + seq![0x3au8] + f),
        call_ensures(parse_time, (token,), r),
        call_ensures(msf_to_frames, (token,), v),
    ensures
        v == (cue_laws::number_of(m) * 60 + cue_laws::number_of(s)) * 75 + cue_laws::number_of(f),
        r == Some(v),
{
    cue_laws::frames_in_a_time(m, s, f);
}

/// Words are separated by blanks; double quotes keep them together.
pub proof fn words(w: Seq<u8>, q: Seq<u8>, line: &[u8], r: Vec<Vec<u8>>)
    requires
        w.len() > 0,
        cue_laws::is_plain(w),
        text::lacks(q, 0x22),
        line@ == w + seq![0x20u8] + (seq![0x22u8] + q + seq![0x22u8]),
        call_ensures(tokenize_line, (line,), r),
    ensures
        r@.len() == 2,
        r@[0]@ == w,
        r@[1]@ == q,
{
    cue_laws::words_of_a_line(w, q, seq![0x22u8] + q + seq![0x22u8]);
    let t = crate::cue::texts(r@);
    assert(t == seq![w] + seq![q]);
    assert(t.len() == 2);
    assert(t == r@.map_values(|v: Vec<u8>| v@));
    assert(r@.len() == 2);
    assert(t[0] == r@[0]@ && t[1] == r@[1]@);
}

/// The types of tracks by their words have the sizes of their sectors.
pub proof fn types_of_tracks(s: &[u8], r: Option<(TrackType, u32)>)
    requires
        call_ensures(type_from_string, (s,), r),
    ensures
        r matches Some((t, n)) ==> n == t.sector_bytes() && (s@ == vstd::utf8::encode_utf8(t.word()) || s@
            == cd_laws::slashed(t, n) || t is Mode2Raw && s@ == "CDI/2352".spec_bytes()),
{
    cd_laws::types_by_mode_and_size(s@);
}

/// The text of a track has its parts, and a zero behind them.
pub proof fn texts_of_tracks(number: u64, t: CdTrack, r: Vec<u8>)
    requires
        call_ensures(format_track, (number, &t), r),
    ensures
        r@.len() > 0 && r@.last() == 0,
        text::parts(r@.drop_last(), 0x20) == cd_laws::track_parts(number as nat, t),
{
    cd_laws::text_of_a_track(number as nat, t);
    assert(r@.drop_last() =~= crate::cd::track_text(number as nat, t));
}

/// The track of a file of nothing but sectors has all of them.
pub proof fn flat_files(size: u64, r: Result<CdTrack, Error>)
    requires
        call_ensures(parse_iso, (size,), r),
        size / 2048 <= u32::MAX,
    ensures
        r is Ok <==> size % 2048 == 0 || size % 2336 == 0 || size % 2352 == 0,
        r matches Err(e) ==> e == Error::UnsupportedFormat,
        r matches Ok(t) ==> t.frames * t.datasize == size && t.subsize == 0 && t.offset == 0 && !t.swap,
{
    cd_laws::tracks_of_flat_files(size as nat);
}

/// The overall digest is that of the image's digest and one run for each flagged entry, in order.
pub proof fn overall_digests(raw: &[u8; 20], entries: &[MetaEntry], r: [u8; 20]) -> (runs: Seq<Seq<u8>>)
    requires
        call_ensures(compute_overall_sha1, (raw, entries), r),
    ensures
        runs.to_multiset() == overall_laws::with_flag(metadata::metas(entries@)).map_values(
            |m: Meta| overall_laws::run_of(m),
        ).to_multiset(),
        overall_laws::ascending(runs),
        r@ == hash::digest(raw@ + runs.flatten()),
{
    overall_laws::overall_is_of_sorted_runs(raw@, metadata::metas(entries@))
}

/// A digest is the SHA-1 of the bytes.
pub proof fn digests(data: &[u8], r: [u8; 20])
    requires
        call_ensures(sha1_digest, (data,), r),
    ensures
        forall|i: int| 0 <= i < 20 ==> #[trigger] r@[i] == hash::sha1_of(data@)[i],
{
}

/// An input is filled up with zeros to the size that is asked for.
pub proof fn filled_up_inputs(data: Vec<u8>, size: u64, unit: u32, hunk: u32, r: Result<Vec<u8>, Error>)
    requires
        size <= usize::MAX,
        call_ensures(read_and_pad, (data, size, unit, hunk), r),
    ensures
        r is Ok <==> unit > 0 && hunk > 0 && hunk as int % unit as int == 0 && (if size == 0 {
            data@.len() as int % unit as int == 0
        } else {
            size as int % unit as int == 0 && data@.len() <= size
        }),
        r matches Err(e) ==> e == Error::InvalidParameter,
        r matches Ok(v) ==> {
            &&& v@.len() == if size == 0 {
                data@.len()
            } else {
                size as nat
            }
            &&& v@.take(data@.len() as int) == data@
            &&& forall|i: int| data@.len() <= i < v@.len() ==> #[trigger] v@[i] == 0
        },
{
    crate::creation_laws::inputs_are_filled_up(data@, size, unit, hunk);
    if let Ok(v) = r {
        assert(v@.take(data@.len() as int) =~= data@);
    }
}

/// The number of units that hold an image.
pub proof fn units(h: Header, r: u64)
    requires
        h.unit_bytes > 0,
        call_ensures(unit_count, (&h,), r),
    ensures
        r * h.unit_bytes >= h.logical_bytes,
        (r - 1) * h.unit_bytes < h.logical_bytes,
{
    crate::header::lemma_pieces(h.logical_bytes as nat, h.unit_bytes as nat);
    let u = h.unit_bytes as int;
    assert((r - 1) * u == r * u - u) by (nonlinear_arith);
}

/// Characters that cannot be shown are dots; a text has a zero behind it.
pub proof fn shown_texts(v: &[u8], p: Vec<u8>, t: Vec<u8>, i: int)
    requires
        call_ensures(printable, (v,), p),
        call_ensures(text_value, (v,), t),
        0 <= i < v@.len(),
    ensures
        p@.len() == v@.len(),
        p@[i] == if v@[i] >= 0x20 && v@[i] < 0x7f || v@[i] == 0x9 || v@[i] == 0xa || v@[i] == 0xc || v@[i]
            == 0xd {
            v@[i]
        } else {
            0x2e
        },
        t@ == v@.push(0),
{
}

/// What the input for a CD is, by its extension in either case.
pub proof fn inputs_for_cds(e: &[u8], r: CdInput)
    requires
        call_ensures(cd_input, (e,), r),
    ensures
        e@.len() != 3 ==> r is Flat,
        e@.len() == 3 ==> (r is Cue <==> (e@[0] == 0x63 || e@[0] == 0x43) && (e@[1] == 0x75 || e@[1] == 0x55)
            && (e@[2] == 0x65 || e@[2] == 0x45)),
        e@.len() == 3 ==> (r is Gdi <==> (e@[0] == 0x67 || e@[0] == 0x47) && (e@[1] == 0x64 || e@[1] == 0x44)
            && (e@[2] == 0x69 || e@[2] == 0x49)),
{
}

/// A file is valid where both digests are as expected.
pub proof fn valid_files(v: VerifyResult, a: bool, b: bool, c: bool)
    requires
        call_ensures(VerifyResult::raw_sha1_valid, (&v,), a),
        call_ensures(VerifyResult::overall_sha1_valid, (&v,), b),
        call_ensures(VerifyResult::is_valid, (&v,), c),
    ensures
        a <==> v.computed_raw_sha1@ == v.expected_raw_sha1@,
        b <==> v.computed_sha1@ == v.expected_sha1@,
        c <==> a && b,
{
}

/// What verifying computes and compares: the SHA-1 of the image as long as the header says, and the
/// overall digest of that and of all metadata; with the digests at bytes 64 and 84 of the file.
pub proof fn what_verifying_compares(f: Seq<u8>, h: Header, parent: Option<Box<Image>>, whole: Seq<u8>)
    requires
        chdfile::open_fault(f, None) is None,
        chdfile::has_header(h, f),
        read_back::reads_as(chdfile::opened(f, parent), whole),
        format_laws::number_at(f, 16, 4) != 0,
        h.logical_bytes <= whole.len(),
        h.logical_bytes <= chdfile::opened(f, parent).count * chdfile::opened(f, parent).hunk_bytes,
        chdfile::all_held(f, crate::metadata_laws::places(f)),
    ensures
        ({
            let raw = hash::digest(whole.take(format_laws::number_at(f, 32, 8) as int));
            chdfile::verified(h, chdfile::opened(f, parent)) == Ok::<
                (Seq<u8>, Seq<u8>, Seq<u8>, Seq<u8>),
                Error,
            >(
                (
                    raw,
                    metadata::overall(raw, crate::metadata_laws::listed(f)),
                    f.subrange(64, 84),
                    f.subrange(84, 104),
                ),
            )
        }),
{
    let img = chdfile::opened(f, parent);
    format_laws::headers_that_can_be_read(f);
    format_laws::places_of_the_header(f);
    let fields = crate::header::fields_at(f);
    lemma_fields(h, fields);
    read_laws::image_is_its_hunks(img, whole, h.logical_bytes as nat, img.count as nat);
    let ns = crate::metadata_laws::places(f);
    assert(crate::metadata_laws::first_entry(f) == h.meta_offset);
    assert(chdfile::metas_at(f, ns) =~= crate::metadata_laws::listed(f));
    assert(fields.compression[0] == h.compression@[0]);
}

proof fn lemma_fields(h: Header, fields: crate::header::Fields)
    requires
        h.fields() == fields,
    ensures
        h.logical_bytes == fields.logical_bytes,
        h.meta_offset == fields.meta_offset,
        h.compression@ == fields.compression,
        h.raw_sha1->0@ == fields.raw_sha1,
        h.sha1->0@ == fields.sha1,
{
}

/// Runs of bytes are the same where all their bytes are.
pub proof fn same_runs(a: &[u8], b: &[u8], r: bool, d: &[u8; 20], z: bool)
    requires
        call_ensures(same_bytes, (a, b), r),
        call_ensures(is_no_digest, (d,), z),
    ensures
        r <==> a@ == b@,
        z <==> forall|i: int| 0 <= i < 20 ==> #[trigger] d@[i] == 0,
{
    if forall|i: int| 0 <= i < 20 ==> #[trigger] d@[i] == 0 {
        assert(d@ =~= crate::header::no_digest());
    }
    if z {
        assert forall|i: int| 0 <= i < 20 implies #[trigger] d@[i] == 0 by {
            assert(d@[i] == crate::header::no_digest()[i]);
        }
    }
}

/// Decimal numbers, with or without a sign.
pub proof fn signed_numbers(d: Seq<u8>, s: &[u8], r: Option<i64>)
    requires
        cue_laws::all_digits(d),
        call_ensures(parse_signed, (s,), r),
    ensures
        s@ == d && cue_laws::number_of(d) <= i64::MAX ==> r == Some(cue_laws::number_of(d) as i64),
        s@ == d && cue_laws::number_of(d) > i64::MAX ==> r is None,
        s@ == seq![0x2du8] + d && cue_laws::number_of(d) <= i64::MAX ==> r == Some(
            -(cue_laws::number_of(d) as i64) as i64,
        ),
        s@ == seq![0x2bu8] + d && cue_laws::number_of(d) <= i64::MAX ==> r == Some(
            cue_laws::number_of(d) as i64,
        ),
{
    cue_laws::lemma_number(d);
    assert((seq![0x2du8] + d).skip(1) =~= d);
    assert((seq![0x2bu8] + d).skip(1) =~= d);
    assert(0x30 <= d[0] <= 0x39);
}

/// A file is opened where nothing is wrong with it and its parent, and is then what it says it is.
pub proof fn opened_files(file: Vec<u8>, parent: Option<Box<Chd>>, r: Result<Chd, Error>)
    requires
        call_ensures(Chd::open, (file, parent), r),
    ensures
        r is Ok <==> chdfile::open_fault(file@, chdfile::parent_header(parent)) is None,
        r matches Ok(c) ==> c.image() == chdfile::opened(file@, chdfile::parent_image(parent))
            && chdfile::has_header(c.spec_header(), file@),
{
}

} // verus!
