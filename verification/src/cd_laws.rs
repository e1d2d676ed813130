//! Laws of CD images: the bytes of each frame, and what the metadata says of each track.

use crate::cd;
use crate::cd::{CdTrack, SubcodeType, TrackType};
use crate::format_laws;
use crate::text;
use vstd::prelude::*;
use vstd::string::*;

verus! {

/// Where byte `j` of a frame comes from: in a frame with swapped bytes the two bytes of each pair of
/// the sector change places; the subcode stays.
pub open spec fn source_of(j: int, swap: bool) -> int {
    if !swap || j >= 2352 {
        j
    } else if j % 2 == 1 {
        j - 1
    } else {
        j + 1
    }
}

/// Byte `j` of frame `k` of track `i` of an image. The frames of a track stand behind those of the
/// tracks before it. A frame is what the file has of it, one such piece behind the other from the
/// place of the track on, and zeros.
pub proof fn bytes_of_frames(datas: Seq<Option<Seq<u8>>>, ts: Seq<CdTrack>, i: int, k: int, j: int)
    requires
        0 <= i < ts.len(),
        0 <= k < ts[i].frames,
        0 <= j < 2448,
        0 <= ts[i].file < datas.len(),
        datas[ts[i].file as int] is Some,
        ts[i].offset + ts[i].frames * (ts[i].datasize + ts[i].subsize) <= datas[ts[i].file as int]->0.len(),
    ensures
        ({
            let size = (ts[i].datasize + ts[i].subsize) as int;
            let at = (cd::total_frames(ts.take(i)) + k) * 2448 + j;
            let from = source_of(j, ts[i].swap);
            &&& at < cd::cd_image(datas, ts).len()
            &&& cd::cd_image(datas, ts)[at] == if from < size {
                datas[ts[i].file as int]->0[ts[i].offset + k * size + from]
            } else {
                0
            }
        }),
{
    let t = ts[i];
    let size = (t.datasize + t.subsize) as int;
    let d = datas[t.file as int]->0;
    cd::frame_is_in_image(datas, ts, i, k);
    let at = (cd::total_frames(ts.take(i)) + k) * 2448;
    let frame = cd::cd_image(datas, ts).subrange(at, at + 2448);
    assert(frame[j] == cd::cd_image(datas, ts)[at + j]);
    let block = cd::block_at(d, t, k);
    assert((k + 1) * size == k * size + size) by (nonlinear_arith);
    assert((k + 1) * size <= t.frames * size) by (nonlinear_arith)
        requires
            k + 1 <= t.frames,
            size >= 0,
    ;
    assert(0 <= k * size) by (nonlinear_arith)
        requires
            k >= 0,
            size >= 0,
    ;
    assert(block.len() == size);
    assert(cd::held(datas, t.file as int) == datas[t.file as int]);
    let from = source_of(j, t.swap);
    if from < size {
        assert(block[from] == d[t.offset + k * size + from]);
    }
}

/// Each track takes the least multiple of four frames that holds its own; what fills it up is zeros.
pub proof fn tracks_are_filled_up(datas: Seq<Option<Seq<u8>>>, ts: Seq<CdTrack>, i: int)
    requires
        0 <= i < ts.len(),
    ensures
        ({
            let before = cd::total_frames(ts.take(i));
            let after = cd::total_frames(ts.take(i + 1));
            &&& before % 4 == 0
            &&& after % 4 == 0
            &&& before + ts[i].frames <= after < before + ts[i].frames + 4
            &&& cd::total_frames(ts.take(0)) == 0
            &&& cd::cd_image(datas, ts).len() == cd::total_frames(ts) * 2448
            &&& after <= cd::total_frames(ts)
            &&& forall|p: int|
                (before + ts[i].frames) * 2448 <= p < after * 2448 ==> #[trigger] cd::cd_image(datas, ts)[p] == 0
        }),
{
    let before = cd::total_frames(ts.take(i));
    let after = cd::total_frames(ts.take(i + 1));
    assert(ts.take(i + 1).drop_last() =~= ts.take(i));
    assert(ts.take(i + 1).last() == ts[i]);
    cd::image_length(datas, ts.take(i));
    cd::image_length(datas, ts.take(i + 1));
    cd::image_length(datas, ts);
    assert(ts.take(0) =~= Seq::empty());
    lemma_total_mono(ts, i + 1);
    assert forall|p: int| (before + ts[i].frames) * 2448 <= p < after * 2448 implies #[trigger] cd::cd_image(
        datas,
        ts,
    )[p] == 0 by {
        let k = p / 2448 - before;
        cd::padding_is_empty(datas, ts, i, k);
        let at = (before + k) * 2448;
        assert(cd::cd_image(datas, ts).subrange(at, at + 2448)[p - at] == 0);
    }
}

proof fn lemma_total_mono(ts: Seq<CdTrack>, n: int)
    requires
        0 <= n <= ts.len(),
    ensures
        cd::total_frames(ts.take(n)) <= cd::total_frames(ts),
    decreases ts.len() - n,
{
    if n < ts.len() {
        lemma_total_mono(ts, n + 1);
        assert(ts.take(n + 1).drop_last() =~= ts.take(n));
    } else {
        assert(ts.take(n) =~= ts);
    }
}

/// The words for the types of tracks, and the bytes that a sector of each has.
pub proof fn words_for_types(t: TrackType)
    ensures
        t.word() == match t {
            TrackType::Mode1 => "MODE1"@,
            TrackType::Mode1Raw => "MODE1_RAW"@,
            TrackType::Mode2 => "MODE2"@,
            TrackType::Mode2Form1 => "MODE2_FORM1"@,
            TrackType::Mode2Form2 => "MODE2_FORM2"@,
            TrackType::Mode2FormMix => "MODE2_FORM_MIX"@,
            TrackType::Mode2Raw => "MODE2_RAW"@,
            TrackType::Audio => "AUDIO"@,
        },
        t is Mode1 || t is Mode2Form1 ==> t.sector_bytes() == 2048,
        t is Mode2 || t is Mode2FormMix ==> t.sector_bytes() == 2336,
        t is Mode2Form2 ==> t.sector_bytes() == 2324,
        t is Mode1Raw || t is Mode2Raw || t is Audio ==> t.sector_bytes() == 2352,
{
}

/// Every type by its word, and by its mode and the size of a sector with a slash between them, has
/// that size; nothing else is a type.
#[verifier::spinoff_prover]
#[verifier::rlimit(60)]
pub proof fn types_by_mode_and_size(s: Seq<u8>)
    ensures
        cd::type_named(s) matches Some((t, n)) ==> n == t.sector_bytes() && (s == vstd::utf8::encode_utf8(
            t.word(),
        ) || s == slashed(t, n) || t is Mode2Raw && s == "CDI/2352".spec_bytes()),
        cd::type_named("MODE1/2048".spec_bytes()) == Some((TrackType::Mode1, 2048u32)),
        cd::type_named("MODE1/2352".spec_bytes()) == Some((TrackType::Mode1Raw, 2352u32)),
        cd::type_named("MODE2/2336".spec_bytes()) == Some((TrackType::Mode2, 2336u32)),
        cd::type_named("MODE2/2048".spec_bytes()) == Some((TrackType::Mode2Form1, 2048u32)),
        cd::type_named("MODE2/2324".spec_bytes()) == Some((TrackType::Mode2Form2, 2324u32)),
        cd::type_named("MODE2/2352".spec_bytes()) == Some((TrackType::Mode2Raw, 2352u32)),
        cd::type_named("CDI/2352".spec_bytes()) == Some((TrackType::Mode2Raw, 2352u32)),
        cd::type_named("AUDIO".spec_bytes()) == Some((TrackType::Audio, 2352u32)),
{
    broadcast use is_ascii_spec_bytes;

    reveal_strlit("MODE1");
    assert(is_ascii("MODE1"));
    reveal_strlit("MODE1/2048");
    assert(is_ascii("MODE1/2048"));
    reveal_strlit("MODE1_RAW");
    assert(is_ascii("MODE1_RAW"));
    reveal_strlit("MODE1/2352");
    assert(is_ascii("MODE1/2352"));
    reveal_strlit("MODE2");
    assert(is_ascii("MODE2"));
    reveal_strlit("MODE2/2336");
    assert(is_ascii("MODE2/2336"));
    reveal_strlit("MODE2_FORM1");
    assert(is_ascii("MODE2_FORM1"));
    reveal_strlit("MODE2/2048");
    assert(is_ascii("MODE2/2048"));
    reveal_strlit("MODE2_FORM2");
    assert(is_ascii("MODE2_FORM2"));
    reveal_strlit("MODE2/2324");
    assert(is_ascii("MODE2/2324"));
    reveal_strlit("MODE2_FORM_MIX");
    assert(is_ascii("MODE2_FORM_MIX"));
    reveal_strlit("MODE2_RAW");
    assert(is_ascii("MODE2_RAW"));
    reveal_strlit("MODE2/2352");
    assert(is_ascii("MODE2/2352"));
    reveal_strlit("CDI/2352");
    assert(is_ascii("CDI/2352"));
    reveal_strlit("AUDIO");
    assert(is_ascii("AUDIO"));
    assert("MODE1/2048".spec_bytes()[4] != "MODE2/2048".spec_bytes()[4]);
    assert("MODE1/2048".spec_bytes()[7] != "MODE1/2352".spec_bytes()[7]);
    assert("MODE1/2352".spec_bytes()[4] != "MODE2/2352".spec_bytes()[4]);
    assert("MODE2/2336".spec_bytes()[8] == 0x33);
    assert("MODE2/2048".spec_bytes()[8] == 0x34);
    assert("MODE2/2324".spec_bytes()[8] == 0x32);
    assert("MODE2/2352".spec_bytes()[8] == 0x35);
    assert("MODE1/2048".spec_bytes()[8] == 0x34);
    assert("MODE1/2352".spec_bytes()[8] == 0x35);
    assert("AUDIO".spec_bytes()[0] == 0x41);
    assert("MODE1".spec_bytes()[0] == 0x4d);
    assert("MODE2".spec_bytes()[0] == 0x4d);
    assert("CDI/2352".spec_bytes().len() == 8);
    assert("MODE1/2048".spec_bytes().len() == 10);
    assert("MODE1/2352".spec_bytes().len() == 10);
    assert("MODE2/2336".spec_bytes().len() == 10);
    assert("MODE2/2048".spec_bytes().len() == 10);
    assert("MODE2/2324".spec_bytes().len() == 10);
    assert("MODE2/2352".spec_bytes().len() == 10);
    assert("MODE1_RAW".spec_bytes().len() == 9);
    assert("MODE2_RAW".spec_bytes().len() == 9);
    assert("MODE2_FORM1".spec_bytes().len() == 11);
    assert("MODE2_FORM2".spec_bytes().len() == 11);
    assert("MODE2_FORM_MIX".spec_bytes().len() == 14);
    assert("MODE1".spec_bytes().len() == 5);
    assert("MODE2".spec_bytes().len() == 5);
    assert("AUDIO".spec_bytes().len() == 5);
    reveal_with_fuel(text::decimal, 5);
    let m1 = seq![0x4du8, 0x4fu8, 0x44u8, 0x45u8, 0x31u8, 0x2fu8];
    let m2 = seq![0x4du8, 0x4fu8, 0x44u8, 0x45u8, 0x32u8, 0x2fu8];
    assert(text::decimal(2048) =~= seq![0x32u8, 0x30u8, 0x34u8, 0x38u8]);
    assert(text::decimal(2352) =~= seq![0x32u8, 0x33u8, 0x35u8, 0x32u8]);
    assert(text::decimal(2336) =~= seq![0x32u8, 0x33u8, 0x33u8, 0x36u8]);
    assert(text::decimal(2324) =~= seq![0x32u8, 0x33u8, 0x32u8, 0x34u8]);
    assert("MODE1/2048".spec_bytes() =~= m1 + text::decimal(2048));
    assert("MODE1/2352".spec_bytes() =~= m1 + text::decimal(2352));
    assert("MODE2/2336".spec_bytes() =~= m2 + text::decimal(2336));
    assert("MODE2/2048".spec_bytes() =~= m2 + text::decimal(2048));
    assert("MODE2/2324".spec_bytes() =~= m2 + text::decimal(2324));
    assert("MODE2/2352".spec_bytes() =~= m2 + text::decimal(2352));
}

/// The mode of a type and a number with a slash between them.
pub open spec fn slashed(t: TrackType, n: u32) -> Seq<u8> {
    (if t is Mode1 || t is Mode1Raw {
        seq![0x4du8, 0x4fu8, 0x44u8, 0x45u8, 0x31u8, 0x2fu8]
    } else {
        seq![0x4du8, 0x4fu8, 0x44u8, 0x45u8, 0x32u8, 0x2fu8]
    }) + text::decimal(n as nat)
}

/// A word that no space stands in.
spec fn is_solid(s: Seq<u8>) -> bool {
    text::lacks(s, 0x20)
}

proof fn lemma_solid(a: Seq<u8>, b: Seq<u8>)
    requires
        is_solid(a),
        is_solid(b),
    ensures
        is_solid(a + b),
{
}

proof fn lemma_solid_decimal(n: nat)
    ensures
        is_solid(text::decimal(n)),
{
    text::decimal_is_read_back(n);
}

proof fn lemma_solid_type(t: TrackType)
    ensures
        is_solid(vstd::utf8::encode_utf8(t.word())),
{
    broadcast use vstd::utf8::is_ascii_chars_encode_utf8;

    reveal_strlit("MODE1");
    reveal_strlit("MODE1_RAW");
    reveal_strlit("MODE2");
    reveal_strlit("MODE2_FORM1");
    reveal_strlit("MODE2_FORM2");
    reveal_strlit("MODE2_FORM_MIX");
    reveal_strlit("MODE2_RAW");
    reveal_strlit("AUDIO");
    let w = t.word();
    assert(vstd::utf8::is_ascii_chars(w));
}

proof fn lemma_solid_subcode(t: SubcodeType)
    ensures
        is_solid(vstd::utf8::encode_utf8(t.word())),
{
    broadcast use vstd::utf8::is_ascii_chars_encode_utf8;

    reveal_strlit("RW");
    reveal_strlit("RW_RAW");
    reveal_strlit("NONE");
    let w = t.word();
    assert(vstd::utf8::is_ascii_chars(w));
}

#[verifier::spinoff_prover]
#[verifier::rlimit(60)]
proof fn lemma_literals()
    ensures
        " TYPE:".spec_bytes() == seq![0x20u8] + "TYPE:".spec_bytes(),
        " SUBTYPE:".spec_bytes() == seq![0x20u8] + "SUBTYPE:".spec_bytes(),
        " FRAMES:".spec_bytes() == seq![0x20u8] + "FRAMES:".spec_bytes(),
        " PREGAP:".spec_bytes() == seq![0x20u8] + "PREGAP:".spec_bytes(),
        " PGTYPE:".spec_bytes() == seq![0x20u8] + "PGTYPE:".spec_bytes(),
        " PGTYPE:V".spec_bytes() == seq![0x20u8] + "PGTYPE:V".spec_bytes(),
        " PGSUB:".spec_bytes() == seq![0x20u8] + "PGSUB:".spec_bytes(),
        " POSTGAP:".spec_bytes() == seq![0x20u8] + "POSTGAP:".spec_bytes(),
        is_solid("TRACK:".spec_bytes()),
        is_solid("TYPE:".spec_bytes()),
        is_solid("SUBTYPE:".spec_bytes()),
        is_solid("FRAMES:".spec_bytes()),
        is_solid("PREGAP:".spec_bytes()),
        is_solid("PGTYPE:".spec_bytes()),
        is_solid("PGTYPE:V".spec_bytes()),
        is_solid("PGSUB:".spec_bytes()),
        is_solid("POSTGAP:".spec_bytes()),
{
    broadcast use is_ascii_spec_bytes;

    reveal_strlit("TRACK:");
    assert(is_ascii("TRACK:"));
    reveal_strlit("TYPE:");
    assert(is_ascii("TYPE:"));
    reveal_strlit("SUBTYPE:");
    assert(is_ascii("SUBTYPE:"));
    reveal_strlit("FRAMES:");
    assert(is_ascii("FRAMES:"));
    reveal_strlit("PREGAP:");
    assert(is_ascii("PREGAP:"));
    reveal_strlit("PGTYPE:");
    assert(is_ascii("PGTYPE:"));
    reveal_strlit("PGTYPE:V");
    assert(is_ascii("PGTYPE:V"));
    reveal_strlit("PGSUB:");
    assert(is_ascii("PGSUB:"));
    reveal_strlit("POSTGAP:");
    assert(is_ascii("POSTGAP:"));
    reveal_strlit(" TYPE:");
    assert(is_ascii(" TYPE:"));
    reveal_strlit(" SUBTYPE:");
    assert(is_ascii(" SUBTYPE:"));
    reveal_strlit(" FRAMES:");
    assert(is_ascii(" FRAMES:"));
    reveal_strlit(" PREGAP:");
    assert(is_ascii(" PREGAP:"));
    reveal_strlit(" PGTYPE:");
    assert(is_ascii(" PGTYPE:"));
    reveal_strlit(" PGTYPE:V");
    assert(is_ascii(" PGTYPE:V"));
    reveal_strlit(" PGSUB:");
    assert(is_ascii(" PGSUB:"));
    reveal_strlit(" POSTGAP:");
    assert(is_ascii(" POSTGAP:"));
    assert(" TYPE:".spec_bytes() =~= seq![0x20u8] + "TYPE:".spec_bytes());
    assert(" SUBTYPE:".spec_bytes() =~= seq![0x20u8] + "SUBTYPE:".spec_bytes());
    assert(" FRAMES:".spec_bytes() =~= seq![0x20u8] + "FRAMES:".spec_bytes());
    assert(" PREGAP:".spec_bytes() =~= seq![0x20u8] + "PREGAP:".spec_bytes());
    assert(" PGTYPE:".spec_bytes() =~= seq![0x20u8] + "PGTYPE:".spec_bytes());
    assert(" PGTYPE:V".spec_bytes() =~= seq![0x20u8] + "PGTYPE:V".spec_bytes());
    assert(" PGSUB:".spec_bytes() =~= seq![0x20u8] + "PGSUB:".spec_bytes());
    assert(" POSTGAP:".spec_bytes() =~= seq![0x20u8] + "POSTGAP:".spec_bytes());
}

/// The parts of the text of a track.
pub open spec fn track_parts(number: nat, t: CdTrack) -> Seq<Seq<u8>> {
    seq![
        "TRACK:".spec_bytes() + text::decimal(number),
        "TYPE:".spec_bytes() + vstd::utf8::encode_utf8(t.trktype.word()),
        "SUBTYPE:".spec_bytes() + vstd::utf8::encode_utf8(t.subtype.word()),
        "FRAMES:".spec_bytes() + text::decimal(t.frames as nat),
        "PREGAP:".spec_bytes() + text::decimal(t.pregap as nat),
        (if t.pgdatasize == 0 {
            "PGTYPE:".spec_bytes()
        } else {
            "PGTYPE:V".spec_bytes()
        }) + vstd::utf8::encode_utf8(t.pgtype.word()),
        "PGSUB:".spec_bytes() + vstd::utf8::encode_utf8(t.pgsub.word()),
        "POSTGAP:".spec_bytes() + text::decimal(t.postgap as nat),
    ]
}

/// The text of a track: its number, its type, its subcode, its frames, and the gaps before and behind
/// it, with spaces between them. The type of a gap that the file holds has a `V` before it.
pub proof fn text_of_a_track(number: nat, t: CdTrack)
    ensures
        text::parts(cd::track_text(number, t), 0x20) == track_parts(number, t),
{
    let p = track_parts(number, t);
    lemma_literals();
    lemma_solid_decimal(number);
    lemma_solid_decimal(t.frames as nat);
    lemma_solid_decimal(t.pregap as nat);
    lemma_solid_decimal(t.postgap as nat);
    lemma_solid_type(t.trktype);
    lemma_solid_type(t.pgtype);
    lemma_solid_subcode(t.subtype);
    lemma_solid_subcode(t.pgsub);
    lemma_solid("TRACK:".spec_bytes(), text::decimal(number));
    lemma_solid("TYPE:".spec_bytes(), vstd::utf8::encode_utf8(t.trktype.word()));
    lemma_solid("SUBTYPE:".spec_bytes(), vstd::utf8::encode_utf8(t.subtype.word()));
    lemma_solid("FRAMES:".spec_bytes(), text::decimal(t.frames as nat));
    lemma_solid("PREGAP:".spec_bytes(), text::decimal(t.pregap as nat));
    lemma_solid("PGTYPE:".spec_bytes(), vstd::utf8::encode_utf8(t.pgtype.word()));
    lemma_solid("PGTYPE:V".spec_bytes(), vstd::utf8::encode_utf8(t.pgtype.word()));
    lemma_solid("PGSUB:".spec_bytes(), vstd::utf8::encode_utf8(t.pgsub.word()));
    lemma_solid("POSTGAP:".spec_bytes(), text::decimal(t.postgap as nat));
    let w1 = vstd::utf8::encode_utf8(t.trktype.word());
    let w2 = vstd::utf8::encode_utf8(t.subtype.word());
    let w5 = vstd::utf8::encode_utf8(t.pgtype.word());
    let w6 = vstd::utf8::encode_utf8(t.pgsub.word());
    let l5 = if t.pgdatasize == 0 {
        "PGTYPE:".spec_bytes()
    } else {
        "PGTYPE:V".spec_bytes()
    };
    lemma_joined_parts(p);
    lemma_regrouped(
        p[0],
        ("TYPE:".spec_bytes(), w1),
        ("SUBTYPE:".spec_bytes(), w2),
        ("FRAMES:".spec_bytes(), text::decimal(t.frames as nat)),
        ("PREGAP:".spec_bytes(), text::decimal(t.pregap as nat)),
        (l5, w5),
        ("PGSUB:".spec_bytes(), w6),
        ("POSTGAP:".spec_bytes(), text::decimal(t.postgap as nat)),
    );
}

/// Eight words with spaces between them.
spec fn spaced(p: Seq<Seq<u8>>) -> Seq<u8> {
    let sp = seq![0x20u8];
    p[0] + sp + (p[1] + sp + (p[2] + sp + (p[3] + sp + (p[4] + sp + (p[5] + sp + (p[6] + sp + p[7]))))))
}

proof fn lemma_joined_parts(p: Seq<Seq<u8>>)
    requires
        p.len() == 8,
        forall|i: int| 0 <= i < 8 ==> is_solid(#[trigger] p[i]),
    ensures
        text::parts(spaced(p), 0x20) == p,
{
    let sp = seq![0x20u8];
    let r6 = p[6] + sp + p[7];
    let r5 = p[5] + sp + r6;
    let r4 = p[4] + sp + r5;
    let r3 = p[3] + sp + r4;
    let r2 = p[2] + sp + r3;
    let r1 = p[1] + sp + r2;
    text::parts_of_one(p[7], 0x20);
    text::parts_of_joined(p[6], p[7], 0x20);
    text::parts_of_joined(p[5], r6, 0x20);
    text::parts_of_joined(p[4], r5, 0x20);
    text::parts_of_joined(p[3], r4, 0x20);
    text::parts_of_joined(p[2], r3, 0x20);
    text::parts_of_joined(p[1], r2, 0x20);
    text::parts_of_joined(p[0], r1, 0x20);
    assert(text::parts(spaced(p), 0x20) =~= p);
}

type Pair = (Seq<u8>, Seq<u8>);

proof fn lemma_step(front: Seq<u8>, a: Pair, b: Seq<u8>)
    ensures
        front + (seq![0x20u8] + a.0) + a.1 + b == front + (seq![0x20u8] + ((a.0 + a.1) + b)),
{
    assert(front + (seq![0x20u8] + a.0) + a.1 + b =~= front + (seq![0x20u8] + ((a.0 + a.1) + b)));
}

proof fn lemma_regrouped(h: Seq<u8>, a: Pair, b: Pair, c: Pair, d: Pair, e: Pair, f: Pair, g: Pair)
    ensures
        ({
            let sp = seq![0x20u8];
            h + (sp + a.0) + a.1 + (sp + b.0) + b.1 + (sp + c.0) + c.1 + (sp + d.0) + d.1 + (sp + e.0) + e.1
                + (sp + f.0) + f.1 + (sp + g.0) + g.1 == spaced(
                seq![
                    h,
                    a.0 + a.1,
                    b.0 + b.1,
                    c.0 + c.1,
                    d.0 + d.1,
                    e.0 + e.1,
                    f.0 + f.1,
                    g.0 + g.1,
                ],
            )
        }),
{
    let sp = seq![0x20u8];
    let s1 = h + (sp + a.0) + a.1;
    let s2 = s1 + (sp + b.0) + b.1;
    let s3 = s2 + (sp + c.0) + c.1;
    let s4 = s3 + (sp + d.0) + d.1;
    let s5 = s4 + (sp + e.0) + e.1;
    let s6 = s5 + (sp + f.0) + f.1;
    let s7 = s6 + (sp + g.0) + g.1;
    let t7 = sp + (g.0 + g.1);
    let t6 = sp + ((f.0 + f.1) + t7);
    let t5 = sp + ((e.0 + e.1) + t6);
    let t4 = sp + ((d.0 + d.1) + t5);
    let t3 = sp + ((c.0 + c.1) + t4);
    let t2 = sp + ((b.0 + b.1) + t3);
    let t1 = sp + ((a.0 + a.1) + t2);
    assert(s7 =~= s6 + t7);
    lemma_step(s5, f, t7);
    lemma_step(s4, e, t6);
    lemma_step(s3, d, t5);
    lemma_step(s2, c, t4);
    lemma_step(s1, b, t3);
    lemma_step(h, a, t2);
    assert(s7 == h + t1);
    let w = |x: Pair| x.0 + x.1;
    lemma_lean(w(f), w(g));
    lemma_lean(w(e), w(f) + sp + w(g));
    lemma_lean(w(d), w(e) + sp + (w(f) + sp + w(g)));
    lemma_lean(w(c), w(d) + sp + (w(e) + sp + (w(f) + sp + w(g))));
    lemma_lean(w(b), w(c) + sp + (w(d) + sp + (w(e) + sp + (w(f) + sp + w(g)))));
    lemma_lean(w(a), w(b) + sp + (w(c) + sp + (w(d) + sp + (w(e) + sp + (w(f) + sp + w(g))))));
    lemma_lean(
        h,
        w(a) + sp + (w(b) + sp + (w(c) + sp + (w(d) + sp + (w(e) + sp + (w(f) + sp + w(g)))))),
    );
}

proof fn lemma_lean(a: Seq<u8>, b: Seq<u8>)
    ensures
        a + (seq![0x20u8] + b) == a + seq![0x20u8] + b,
{
    assert(a + (seq![0x20u8] + b) =~= a + seq![0x20u8] + b);
}

/// Each track has an entry `CHT2` with the checksum flag, in the order of the tracks, from number 1 on;
/// its contents are the text of the track and a zero.
pub proof fn entries_of_tracks(ts: Seq<CdTrack>, i: int)
    requires
        0 <= i < ts.len(),
    ensures
        cd::track_metas(ts).len() == ts.len(),
        format_laws::spells(cd::track_metas(ts)[i].tag, 'C', 'H', 'T', '2'),
        cd::track_metas(ts)[i].flags == 1,
        cd::track_metas(ts)[i].payload.len() > 0,
        cd::track_metas(ts)[i].payload.last() == 0,
        text::parts(cd::track_metas(ts)[i].payload.drop_last(), 0x20) == track_parts(
            (i + 1) as nat,
            ts[i],
        ),
{
    text_of_a_track((i + 1) as nat, ts[i]);
    assert(cd::track_metas(ts)[i].payload.drop_last() =~= cd::track_text((i + 1) as nat, ts[i]));
}

/// A file of nothing but sectors: of 2048 bytes where its length is a multiple of that, else of 2336,
/// else of 2352; one of another length is none. All sectors are of one track, without subcode, gaps or
/// swapped bytes.
pub proof fn tracks_of_flat_files(size: nat)
    requires
        size / 2048 <= u32::MAX,
    ensures
        cd::flat_track(size) is Some <==> size % 2048 == 0 || size % 2336 == 0 || size % 2352 == 0,
        cd::flat_track(size) matches Some(t) ==> {
            &&& t.frames * t.datasize == size
            &&& t.subsize == 0 && t.subtype is Absent && t.pregap == 0 && t.postgap == 0 && !t.swap
            &&& t.offset == 0 && t.file == 0
            &&& size % 2048 == 0 ==> t.datasize == 2048 && t.trktype is Mode1
            &&& size % 2048 != 0 && size % 2336 == 0 ==> t.datasize == 2336 && t.trktype is Mode2
            &&& size % 2048 != 0 && size % 2336 != 0 ==> t.datasize == 2352 && t.trktype is Mode2Raw
        },
{
    if cd::flat_track(size) is Some {
        cd::flat_track_takes_all(size);
    }
}

} // verus!
