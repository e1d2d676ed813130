//! Laws of CUE sheets: words, times, gaps and the places of tracks.

use crate::cd;
use crate::cd::{CdTrack, SourceFile, SubcodeType, TrackType};
use crate::cue;
use crate::cue::Sheet;
use crate::error::Error;
use crate::text;
use vstd::prelude::*;
use vstd::string::*;

verus! {

/// Whether a text is one or more digits.
pub open spec fn all_digits(s: Seq<u8>) -> bool {
    s.len() > 0 && forall|i: int| 0 <= i < s.len() ==> 0x30 <= #[trigger] s[i] <= 0x39
}

/// The number that digits stand for, each ten times what the next one counts.
pub open spec fn number_of(s: Seq<u8>) -> nat
    decreases s.len(),
{
    if s.len() == 0 {
        0
    } else {
        number_of(s.drop_last()) * 10 + (s.last() - 0x30) as nat
    }
}

pub proof fn lemma_number(s: Seq<u8>)
    requires
        forall|i: int| 0 <= i < s.len() ==> 0x30 <= #[trigger] s[i] <= 0x39,
    ensures
        text::digits_value(s) == number_of(s),
    decreases s.len(),
{
    if s.len() > 0 {
        lemma_number(s.drop_last());
    }
}

proof fn lemma_read(s: Seq<u8>)
    requires
        all_digits(s),
        number_of(s) <= i64::MAX,
    ensures
        cue::signed_number(s) == Some(number_of(s) as int),
        cue::trimmed_back(cue::trimmed_front(s)) == s,
        text::lacks(s, 0x3a),
{
    lemma_number(s);
    assert(0x30 <= s[0] <= 0x39);
    assert(0x30 <= s[s.len() - 1] <= 0x39);
}

/// A time of minutes, seconds and frames with colons between them is 75 frames for each second, and
/// 60 seconds for each minute. A number alone is a number of frames. Zeros may stand before a number.
pub proof fn frames_in_a_time(m: Seq<u8>, s: Seq<u8>, f: Seq<u8>)
    requires
        all_digits(m),
        all_digits(s),
        all_digits(f),
        number_of(m) <= i64::MAX,
        number_of(s) <= i64::MAX,
        number_of(f) <= i64::MAX,
    ensures
        cue::frames_of(m + seq![0x3au8] + (s + seq![0x3au8] + f)) == (number_of(m) * 60 + number_of(s))
            * 75 + number_of(f),
        cue::frames_of(m + seq![0x3au8] + s) == (number_of(m) * 60 + number_of(s)) * 75,
        cue::frames_of(f) == number_of(f),
{
    lemma_read(m);
    lemma_read(s);
    lemma_read(f);
    text::parts_of_joined(m, s + seq![0x3au8] + f, 0x3a);
    text::parts_of_joined(s, f, 0x3a);
    text::parts_of_joined(m, s, 0x3a);
    text::parts_of_one(s, 0x3a);
    text::parts_of_one(f, 0x3a);
    let p = text::parts(m + seq![0x3au8] + (s + seq![0x3au8] + f), 0x3a);
    assert(p == seq![m] + (seq![s] + seq![f]));
    assert(p[0] == m && p[1] == s && p[2] == f && p.len() == 3);
    let q = text::parts(m + seq![0x3au8] + s, 0x3a);
    assert(q[0] == m && q[1] == s && q.len() == 2);
}

/// Whether a text has neither blanks nor quotes.
pub open spec fn is_plain(s: Seq<u8>) -> bool {
    forall|i: int|
        0 <= i < s.len() ==> {
            let c = #[trigger] s[i];
            c != 0x20 && c != 0x09 && c != 0x0a && c != 0x0c && c != 0x0d && c != 0x22 && c != 0x27
        }
}

proof fn lemma_plain_word(s: Seq<u8>, i: int, j: int)
    requires
        0 <= i <= j <= s.len(),
        is_plain(s.subrange(i, j)),
        j < s.len() ==> s[j] == 0x20,
    ensures
        cue::word_end(s, i, false, false) == j,
        cue::word_rest(s, i, false, false) == s.subrange(i, j),
    decreases j - i,
{
    if i < j {
        let w = s.subrange(i, j);
        assert(w[0] == s[i]);
        assert forall|k: int| 0 <= k < s.subrange(i + 1, j).len() implies ({
            let c = #[trigger] s.subrange(i + 1, j)[k];
            c != 0x20 && c != 0x09 && c != 0x0a && c != 0x0c && c != 0x0d && c != 0x22 && c != 0x27
        }) by {
            assert(s.subrange(i + 1, j)[k] == w[k + 1]);
        }
        lemma_plain_word(s, i + 1, j);
        assert(s.subrange(i, j) =~= seq![s[i]] + s.subrange(i + 1, j));
    } else {
        assert(s.subrange(i, j) =~= Seq::empty());
    }
}

proof fn lemma_quoted_word(s: Seq<u8>, i: int, j: int)
    requires
        0 <= i <= j < s.len(),
        text::lacks(s.subrange(i, j), 0x22),
        s[j] == 0x22,
        j + 1 < s.len() ==> s[j + 1] == 0x20,
    ensures
        cue::word_end(s, i, false, true) == j + 1,
        cue::word_rest(s, i, false, true) == s.subrange(i, j),
    decreases j - i,
{
    if i < j {
        let w = s.subrange(i, j);
        assert(w[0] == s[i]);
        assert forall|k: int| 0 <= k < s.subrange(i + 1, j).len() implies #[trigger] s.subrange(
            i + 1,
            j,
        )[k] != 0x22 by {
            assert(s.subrange(i + 1, j)[k] == w[k + 1]);
        }
        lemma_quoted_word(s, i + 1, j);
        assert(s.subrange(i, j) =~= seq![s[i]] + s.subrange(i + 1, j));
    } else {
        assert(cue::word_end(s, j + 1, false, false) == j + 1);
        assert(cue::word_rest(s, j + 1, false, false) =~= Seq::empty());
        assert(s.subrange(i, j) =~= Seq::empty());
    }
}

proof fn lemma_shift(pre: Seq<u8>, s: Seq<u8>, i: int, single: bool, double: bool)
    requires
        0 <= i <= s.len(),
    ensures
        cue::next_word(pre + s, pre.len() + i) == pre.len() + cue::next_word(s, i),
        cue::word_end(pre + s, pre.len() + i, single, double) == pre.len() + cue::word_end(
            s,
            i,
            single,
            double,
        ),
        cue::word_rest(pre + s, pre.len() + i, single, double) == cue::word_rest(s, i, single, double),
    decreases s.len() - i,
{
    if i < s.len() {
        assert((pre + s)[pre.len() + i] == s[i]);
        lemma_shift(pre, s, i + 1, single, double);
        lemma_shift(pre, s, i + 1, !single, double);
        lemma_shift(pre, s, i + 1, single, !double);
    }
}

proof fn lemma_words_shift(pre: Seq<u8>, s: Seq<u8>, i: int)
    requires
        0 <= i <= s.len(),
    ensures
        cue::words_from(pre + s, pre.len() + i) == cue::words_from(s, i),
    decreases s.len() - i,
{
    let j = cue::next_word(s, i);
    cue::lemma_next_word(s, i);
    lemma_shift(pre, s, i, false, false);
    if j < s.len() {
        cue::lemma_word_end(s, j, false, false);
        lemma_shift(pre, s, j, false, false);
        lemma_words_shift(pre, s, cue::word_end(s, j, false, false));
    }
}

/// What stands before a blank is the first word of a line, and what stands between double quotes is
/// one too, with its blanks and without its quotes. Blanks before a word do not count.
pub proof fn words_of_a_line(w: Seq<u8>, q: Seq<u8>, rest: Seq<u8>)
    requires
        w.len() > 0,
        is_plain(w),
        text::lacks(q, 0x22),
    ensures
        cue::words(w + seq![0x20u8] + rest) == seq![w] + cue::words(rest),
        cue::words(w) == seq![w],
        cue::words(seq![0x22u8] + q + seq![0x22u8, 0x20u8] + rest) == seq![q] + cue::words(rest),
        cue::words(seq![0x22u8] + q + seq![0x22u8]) == seq![q],
        cue::words(seq![0x20u8] + rest) == cue::words(rest),
        cue::words(seq![0x09u8] + rest) == cue::words(rest),
        cue::words(Seq::empty()) == Seq::<Seq<u8>>::empty(),
{
    let n = w.len() as int;
    let a = w + seq![0x20u8] + rest;
    assert(a[0] == w[0]);
    assert(a.subrange(0, n) =~= w);
    lemma_plain_word(a, 0, n);
    lemma_words_shift(w, seq![0x20u8] + rest, 0);
    assert(a =~= w + (seq![0x20u8] + rest));
    lemma_blank(0x20, rest);
    lemma_blank(0x09, rest);
    assert(w.subrange(0, n) =~= w);
    lemma_plain_word(w, 0, n);
    assert(cue::words_from(w, n) =~= Seq::empty());
    assert(cue::words(w) =~= seq![w]);
    let m = q.len() as int;
    let b = seq![0x22u8] + q + seq![0x22u8, 0x20u8] + rest;
    assert(b.subrange(1, m + 1) =~= q);
    lemma_quoted_word(b, 1, m + 1);
    let front = seq![0x22u8] + q + seq![0x22u8];
    lemma_words_shift(front, seq![0x20u8] + rest, 0);
    assert(b =~= front + (seq![0x20u8] + rest));
    assert(b[0] == 0x22);
    assert(front.subrange(1, m + 1) =~= q);
    lemma_quoted_word(front, 1, m + 1);
    assert(front[0] == 0x22);
    assert(cue::words_from(front, m + 2) =~= Seq::empty());
    assert(cue::words(front) =~= seq![q]);
    assert(cue::words(Seq::empty()) =~= Seq::<Seq<u8>>::empty());
}

proof fn lemma_blank(c: u8, rest: Seq<u8>)
    requires
        c == 0x20 || c == 0x09,
    ensures
        cue::words(seq![c] + rest) == cue::words(rest),
{
    let s = seq![c] + rest;
    lemma_words_shift(seq![c], rest, 0);
    assert(s[0] == c);
    assert(cue::next_word(s, 0) == cue::next_word(s, 1));
    assert(cue::words_from(s, 0) == cue::words_from(s, 1));
}

/// A line ends at a line feed, and a carriage return before it does not belong to the line.
pub proof fn lines_of_a_sheet(a: Seq<u8>, rest: Seq<u8>)
    requires
        text::lacks(a, 0x0a),
        text::lacks(a, 0x0d),
    ensures
        cue::line_at(a + seq![0x0au8] + rest, 0) == a,
        cue::line_at(a + seq![0x0du8, 0x0au8] + rest, 0) == a,
        text::parts(a + seq![0x0au8] + rest, 0x0a).len() == text::parts(rest, 0x0a).len() + 1,
        forall|k: int|
            0 <= k < text::parts(rest, 0x0a).len() ==> #[trigger] cue::line_at(rest, k)
                == cue::line_at(a + seq![0x0au8] + rest, k + 1),
{
    text::parts_of_joined(a, rest, 0x0a);
    let b = a + seq![0x0du8];
    text::parts_of_joined(b, rest, 0x0a);
    assert(a + seq![0x0du8, 0x0au8] + rest =~= b + seq![0x0au8] + rest);
    assert(b.drop_last() =~= a);
    let p = text::parts(a + seq![0x0au8] + rest, 0x0a);
    let r = text::parts(rest, 0x0a);
    assert(r.len() > 0);
    assert(p[0] == a);
    assert forall|k: int| 0 <= k < r.len() implies #[trigger] cue::line_at(rest, k) == cue::line_at(
        a + seq![0x0au8] + rest,
        k + 1,
    ) by {
        assert(p[k + 1] == r[k]);
    }
}

pub proof fn lemma_commands()
    ensures
        "FILE".spec_bytes() != "TRACK".spec_bytes(),
        "FILE".spec_bytes() != "INDEX".spec_bytes(),
        "FILE".spec_bytes() != "PREGAP".spec_bytes(),
        "FILE".spec_bytes() != "POSTGAP".spec_bytes(),
        "TRACK".spec_bytes() != "INDEX".spec_bytes(),
        "TRACK".spec_bytes() != "PREGAP".spec_bytes(),
        "TRACK".spec_bytes() != "POSTGAP".spec_bytes(),
        "INDEX".spec_bytes() != "PREGAP".spec_bytes(),
        "INDEX".spec_bytes() != "POSTGAP".spec_bytes(),
        "PREGAP".spec_bytes() != "POSTGAP".spec_bytes(),
        "BINARY".spec_bytes() != "MOTOROLA".spec_bytes(),
        "RW".spec_bytes() != "RW_RAW".spec_bytes(),
{
    reveal_strlit("FILE");
    reveal_strlit("TRACK");
    reveal_strlit("INDEX");
    reveal_strlit("PREGAP");
    reveal_strlit("POSTGAP");
    reveal_strlit("BINARY");
    reveal_strlit("MOTOROLA");
    reveal_strlit("RW");
    reveal_strlit("RW_RAW");
    vstd::utf8::encode_utf8_decode_utf8("FILE"@);
    vstd::utf8::encode_utf8_decode_utf8("TRACK"@);
    vstd::utf8::encode_utf8_decode_utf8("INDEX"@);
    vstd::utf8::encode_utf8_decode_utf8("PREGAP"@);
    vstd::utf8::encode_utf8_decode_utf8("POSTGAP"@);
    vstd::utf8::encode_utf8_decode_utf8("BINARY"@);
    vstd::utf8::encode_utf8_decode_utf8("MOTOROLA"@);
    vstd::utf8::encode_utf8_decode_utf8("RW"@);
    vstd::utf8::encode_utf8_decode_utf8("RW_RAW"@);
    assert("TRACK"@[0] != "INDEX"@[0]);
}

/// Whether a line gives an index its time.
pub open spec fn is_index(w: Seq<Seq<u8>>, index: nat, frames: int) -> bool {
    &&& w.len() >= 3
    &&& w[0] == "INDEX".spec_bytes()
    &&& all_digits(w[1])
    &&& number_of(w[1]) == index
    &&& cue::frames_of(w[2]) == frames
    &&& i64::MIN <= frames <= i64::MAX
}

/// Whether two sheets have the same files and tracks, but for the last track.
pub open spec fn same_but_last(a: Sheet, b: Sheet) -> bool {
    &&& a.files == b.files
    &&& a.tracks.len() == b.tracks.len() > 0
    &&& a.next_swap == b.next_swap
    &&& forall|i: int| 0 <= i < a.tracks.len() - 1 ==> #[trigger] a.tracks[i] == b.tracks[i]
}

/// The gap before a track. Where index 0 and then index 1 of a track are given, at any two frames
/// from 0 on, and no length of the gap was given before, the gap is what lies between them: as many
/// frames, of the type of the track, and with its bytes in the file.
pub proof fn gap_between_indices(
    sh: Sheet,
    zero: Seq<Seq<u8>>,
    one: Seq<Seq<u8>>,
    a: int,
    b: int,
)
    requires
        sh.tracks.len() > 0,
        sh.tracks.last().pregap == 0,
        is_index(zero, 0, a),
        is_index(one, 1, b),
        0 <= a <= b,
        b - a <= u32::MAX,
    ensures
        cue::line_read(sh, zero) is Ok,
        ({
            let after = cue::line_read(cue::line_read(sh, zero)->Ok_0, one);
            let t = sh.tracks.last();
            let u = after->Ok_0.tracks.last();
            &&& after is Ok
            &&& same_but_last(sh, after->Ok_0)
            &&& u.pregap == b - a
            &&& u.pgtype == t.trktype
            &&& u.pgdatasize == t.datasize
            &&& u.idx0 == a
            &&& u.idx1 == b
            &&& u.trktype == t.trktype && u.datasize == t.datasize && u.subtype == t.subtype
            &&& u.subsize == t.subsize && u.frames == t.frames && u.postgap == t.postgap
            &&& u.pgsub == t.pgsub && u.file == t.file && u.offset == t.offset && u.swap == t.swap
        }),
{
    lemma_commands();
    lemma_read(zero[1]);
    lemma_read(one[1]);
    let t = sh.tracks.last();
    lemma_gap(t, a as i64, b as i64);
    index_zero_is_kept(sh, zero, a);
    let mid = cue::line_read(sh, zero)->Ok_0;
    assert(mid.tracks.last() == cue::indexed(t, 0, a as i64));
    assert(cue::line_read(mid, one) == Ok::<Sheet, Error>(
        cue::with_last(mid, cue::indexed(mid.tracks.last(), 1, b as i64)),
    ));
}

proof fn lemma_gap(t: CdTrack, a: i64, b: i64)
    requires
        t.pregap == 0,
        0 <= a <= b,
        b - a <= u32::MAX,
    ensures
        cue::indexed(cue::indexed(t, 0, a), 1, b) == (CdTrack {
            idx0: a,
            idx1: b,
            pregap: (b - a) as u32,
            pgtype: t.trktype,
            pgdatasize: t.datasize,
            ..t
        }),
{
}

/// Index 0 alone says nothing yet of the gap before the track.
pub proof fn index_zero_is_kept(sh: Sheet, zero: Seq<Seq<u8>>, a: int)
    requires
        sh.tracks.len() > 0,
        is_index(zero, 0, a),
    ensures
        cue::line_read(sh, zero) matches Ok(after) && same_but_last(sh, after) && after.tracks.last() == (
        CdTrack { idx0: a as i64, ..sh.tracks.last() }),
{
    lemma_commands();
    lemma_read(zero[1]);
}

/// Where the length of the gap was given before index 1, it stays, and so does what is known of the
/// sectors of the gap. Where there is no index 0, index 1 is taken for it.
pub proof fn first_index_alone(sh: Sheet, one: Seq<Seq<u8>>, b: int)
    requires
        sh.tracks.len() > 0,
        is_index(one, 1, b),
        sh.tracks.last().pregap != 0 || sh.tracks.last().idx0 == -1,
    ensures
        ({
            let after = cue::line_read(sh, one);
            let t = sh.tracks.last();
            let u = after->Ok_0.tracks.last();
            &&& after is Ok
            &&& same_but_last(sh, after->Ok_0)
            &&& u.pregap == t.pregap && u.pgtype == t.pgtype && u.pgdatasize == t.pgdatasize
            &&& u.idx0 == if t.idx0 == -1 {
                b
            } else {
                t.idx0 as int
            }
            &&& u.idx1 == b
            &&& u.trktype == t.trktype && u.datasize == t.datasize && u.subtype == t.subtype
            &&& u.subsize == t.subsize && u.frames == t.frames && u.postgap == t.postgap
            &&& u.pgsub == t.pgsub && u.file == t.file && u.offset == t.offset && u.swap == t.swap
        }),
{
    lemma_commands();
    lemma_read(one[1]);
}

/// Indices from 2 on change nothing.
pub proof fn later_indices_are_passed_over(sh: Sheet, w: Seq<Seq<u8>>, index: nat, b: int)
    requires
        sh.tracks.len() > 0,
        is_index(w, index, b),
        2 <= index <= i64::MAX,
    ensures
        cue::line_read(sh, w) matches Ok(after) && same_but_last(sh, after) && after.tracks.last()
            == sh.tracks.last(),
{
    lemma_commands();
    lemma_read(w[1]);
}

/// A line may give the length of the gap before or behind the track.
pub proof fn lengths_of_gaps(sh: Sheet, w: Seq<Seq<u8>>)
    requires
        sh.tracks.len() > 0,
        w.len() >= 2,
        0 <= cue::frames_of(w[1]) <= u32::MAX,
    ensures
        w[0] == "PREGAP".spec_bytes() ==> (cue::line_read(sh, w) matches Ok(after) && same_but_last(
            sh,
            after,
        ) && after.tracks.last() == (CdTrack { pregap: after.tracks.last().pregap, ..sh.tracks.last() })
            && after.tracks.last().pregap == cue::frames_of(w[1])),
        w[0] == "POSTGAP".spec_bytes() ==> (cue::line_read(sh, w) matches Ok(after) && same_but_last(
            sh,
            after,
        ) && after.tracks.last() == (CdTrack { postgap: after.tracks.last().postgap, ..sh.tracks.last() })
            && after.tracks.last().postgap == cue::frames_of(w[1])),
{
    lemma_commands();
}

/// A new track takes its sectors from the file that was named last, with the type, the size of a
/// sector and the subcode that its line gives. Nothing is known of its indices, its length and its
/// gaps yet. The bytes of the first track behind a `MOTOROLA` file are swapped.
pub proof fn tracks_of_the_last_file(sh: Sheet, f: Seq<Seq<u8>>, w: Seq<Seq<u8>>, again: Seq<Seq<u8>>)
    requires
        f.len() >= 3,
        f[0] == "FILE".spec_bytes(),
        f[2] == "BINARY".spec_bytes() || f[2] == "MOTOROLA".spec_bytes(),
        w.len() >= 3,
        w[0] == "TRACK".spec_bytes(),
        cd::type_named(w[2]) is Some,
        again.len() == 3,
        again[0] == "TRACK".spec_bytes(),
        cd::type_named(again[2]) is Some,
        sh.files.len() < usize::MAX,
    ensures
        cue::line_read(sh, f) is Ok,
        ({
            let named = cue::line_read(sh, f)->Ok_0;
            let first = cue::line_read(named, w);
            let second = cue::line_read(first->Ok_0, again);
            let t = first->Ok_0.tracks.last();
            let u = second->Ok_0.tracks.last();
            &&& named.files == sh.files.push(f[1])
            &&& named.tracks == sh.tracks
            &&& first is Ok
            &&& second is Ok
            &&& first->Ok_0.files == named.files
            &&& second->Ok_0.files == named.files
            &&& first->Ok_0.tracks == sh.tracks.push(t)
            &&& second->Ok_0.tracks == sh.tracks.push(t).push(u)
            &&& t.file == sh.files.len()
            &&& u.file == sh.files.len()
            &&& Some((t.trktype, t.datasize)) == cd::type_named(w[2])
            &&& Some((u.trktype, u.datasize)) == cd::type_named(again[2])
            &&& t.swap == (f[2] == "MOTOROLA".spec_bytes())
            &&& !u.swap
            &&& t.frames == 0 && t.offset == 0 && t.pregap == 0 && t.postgap == 0
            &&& t.pgtype == TrackType::Mode1 && t.pgsub == SubcodeType::Absent && t.pgdatasize == 0
            &&& t.idx0 == -1 && t.idx1 == -1
            &&& (t.subtype, t.subsize) == if w.len() >= 4 && w[3] == "RW".spec_bytes() {
                (SubcodeType::Normal, 96u32)
            } else if w.len() >= 4 && w[3] == "RW_RAW".spec_bytes() {
                (SubcodeType::Raw, 96u32)
            } else {
                (SubcodeType::Absent, 0u32)
            }
            &&& u.subtype == SubcodeType::Absent && u.subsize == 0
        }),
{
    lemma_commands();
    let named = cue::line_read(sh, f)->Ok_0;
    let first = cue::line_read(named, w)->Ok_0;
    assert(first.tracks.drop_last() =~= sh.tracks);
    let second = cue::line_read(first, again)->Ok_0;
    assert(second.tracks.last().file == first.files.len() - 1);
}

/// Lines with other words, such as remarks, change nothing.
pub proof fn other_lines_are_passed_over(sh: Sheet, w: Seq<Seq<u8>>)
    requires
        w.len() > 0 ==> w[0] != "FILE".spec_bytes() && w[0] != "TRACK".spec_bytes() && w[0]
            != "INDEX".spec_bytes() && w[0] != "PREGAP".spec_bytes() && w[0] != "POSTGAP".spec_bytes(),
    ensures
        cue::line_read(sh, w) == Ok::<Sheet, Error>(sh),
{
}

/// The tracks while they are measured: those before `i` are measured.
proof fn lemma_measured_at(ts: Seq<CdTrack>, files: Seq<SourceFile>, from: int, i: int)
    requires
        0 <= from <= i < ts.len(),
        cue::measured_from(ts, files, from) is Ok,
    ensures
        ({
            let r = cue::measured_from(ts, files, from)->Ok_0;
            let mid = Seq::new(
                ts.len(),
                |k: int|
                    if k < i {
                        r[k]
                    } else {
                        ts[k]
                    },
            );
            &&& r.len() == ts.len()
            &&& forall|k: int| 0 <= k < from ==> #[trigger] r[k] == ts[k]
            &&& cue::measured(mid, files, i) == Ok::<CdTrack, Error>(r[i])
        }),
    decreases i - from,
{
    let t = cue::measured(ts, files, from)->Ok_0;
    let next = ts.update(from, t);
    let r = cue::measured_from(ts, files, from)->Ok_0;
    cue::lemma_measured_keeps(ts, files, from);
    cue::lemma_measured_keeps(next, files, from + 1);
    let mid = Seq::new(
        ts.len(),
        |k: int|
            if k < i {
                r[k]
            } else {
                ts[k]
            },
    );
    if from < i {
        lemma_measured_at(next, files, from + 1, i);
        let mid2 = Seq::new(
            next.len(),
            |k: int|
                if k < i {
                    r[k]
                } else {
                    next[k]
                },
        );
        assert(mid =~= mid2);
    } else {
        assert(mid =~= ts);
        assert(r[i] == next[i]);
    }
}

/// The lengths and places of the tracks of a sheet. A track that shares its file with the next one
/// is as long as the time from its index 0 to index 0 of that one; it starts where the track before
/// it ends. The last track takes all whole frames that are left of its file, and a track alone in
/// its file all whole frames of the file, from the start. Audio is swapped.
pub proof fn lengths_of_tracks(ts: Seq<CdTrack>, files: Seq<SourceFile>, i: int)
    requires
        0 <= i < ts.len(),
        forall|k: int|
            0 <= k < ts.len() ==> (#[trigger] ts[k]).offset == 0 && ts[k].frames == 0 && ts[k].datasize
                + ts[k].subsize > 0,
        cue::measured_from(ts, files, 0) is Ok,
    ensures
        ({
            let r = cue::measured_from(ts, files, 0)->Ok_0;
            let t = ts[i];
            let u = r[i];
            let with_next = i + 1 < ts.len() && cd::same_file(files, ts[i + 1].file, t.file);
            let with_last = i > 0 && cd::same_file(files, t.file, ts[i - 1].file);
            let bytes = (t.datasize + t.subsize) as int;
            let size = cd::contents(files, t.file as int)->0.len();
            &&& r.len() == ts.len()
            &&& u.swap == (t.swap || t.trktype == TrackType::Audio)
            &&& u == (CdTrack { swap: u.swap, frames: u.frames, offset: u.offset, ..t })
            &&& with_next && ts[i + 1].idx0 - t.idx0 <= u32::MAX ==> u.frames == ts[i + 1].idx0 - t.idx0
            &&& with_next && i > 0 ==> u.offset == r[i - 1].offset + r[i - 1].frames * (ts[i
                - 1].datasize + ts[i - 1].subsize)
            &&& with_next && i == 0 ==> u.offset == 0
            &&& i + 1 == ts.len() && with_last ==> u.offset == r[i - 1].offset + r[i - 1].frames * (ts[i
                - 1].datasize + ts[i - 1].subsize)
            &&& !with_next && !(i + 1 == ts.len() && with_last) ==> u.offset == 0
            &&& !with_next ==> cd::contents(files, t.file as int) is Some
            &&& !with_next && (size - u.offset) / bytes <= u32::MAX ==> u.offset + u.frames * bytes
                <= size < u.offset + (u.frames + 1) * bytes
        }),
{
    lemma_measured_at(ts, files, 0, i);
    cue::lemma_measured_keeps(ts, files, 0);
    let r = cue::measured_from(ts, files, 0)->Ok_0;
    let mid = Seq::new(
        ts.len(),
        |k: int|
            if k < i {
                r[k]
            } else {
                ts[k]
            },
    );
    let t = ts[i];
    let u = r[i];
    assert(mid[i] == t);
    assert(i + 1 < ts.len() ==> mid[i + 1] == ts[i + 1]);
    if i > 0 {
        assert(mid[i - 1] == r[i - 1]);
        assert(r[i - 1].file == ts[i - 1].file);
        assert(r[i - 1].frame_bytes() == ts[i - 1].frame_bytes());
    }
    let with_next = i + 1 < ts.len() && cd::same_file(files, ts[i + 1].file, t.file);
    assert(with_next == (i + 1 < ts.len() && cue::follows(mid, files, i + 1)));
    if !with_next {
        let bytes = (t.datasize + t.subsize) as int;
        let size = cd::contents(files, t.file as int)->0.len();
        assert(files[t.file as int].data->0.len() <= usize::MAX);
        let left = size - u.offset;
        assert(left >= 0);
        vstd::arithmetic::div_mod::lemma_fundamental_div_mod(left, bytes);
        vstd::arithmetic::div_mod::lemma_div_pos_is_pos(left, bytes);
        if left / bytes <= u32::MAX {
            assert(u.frames == left / bytes);
            assert(u.frames * bytes == bytes * (left / bytes)) by (nonlinear_arith)
                requires
                    u.frames == left / bytes,
            ;
            assert((u.frames + 1) * bytes == u.frames * bytes + bytes) by (nonlinear_arith);
        }
    }
}

/// A sheet is read line by line, from the first one on; what a line says is added to what is known of
/// the lines before it. The first line that is refused ends it, and there has to be a track.
pub proof fn lines_are_read_in_order(s: Seq<u8>, k: nat)
    requires
        k < text::parts(s, 0x0a).len(),
    ensures
        cue::sheet_after(s, 0) matches Ok(sh) && sh.files.len() == 0 && sh.tracks.len() == 0,
        cue::sheet_after(s, k) matches Ok(sh) ==> cue::sheet_after(s, k + 1) == cue::line_read(
            sh,
            cue::words(cue::line_at(s, k as int)),
        ),
        cue::sheet_after(s, k) matches Err(e) ==> cue::sheet_of(s) == Err::<Sheet, Error>(e),
        cue::sheet_of(s) matches Ok(sh) ==> sh.tracks.len() > 0 && cue::sheet_after(
            s,
            text::parts(s, 0x0a).len(),
        ) == Ok::<Sheet, Error>(sh),
        cue::sheet_after(s, text::parts(s, 0x0a).len()) matches Ok(sh) ==> (sh.tracks.len() == 0
            ==> cue::sheet_of(s) == Err::<Sheet, Error>(Error::InvalidData)),
{
    if cue::sheet_after(s, k) is Err {
        cue::lemma_sheet_after_error(s, k, text::parts(s, 0x0a).len());
    }
}

} // verus!
