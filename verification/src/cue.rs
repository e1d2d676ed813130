//! CUE sheets: the tracks of a CD and the files that they come from. A character of a sheet is a
//! byte.

use crate::cd;
use crate::cd::{is_word, type_from_string, CdTrack, SourceFile, SubcodeType, TrackType};
use crate::error::Error;
use crate::text;
use vstd::prelude::*;
use vstd::string::*;

verus! {

/// Whether a character separates words.
pub open spec fn is_space(c: u8) -> bool {
    c == 0x20 || c == 0x09 || c == 0x0a || c == 0x0c || c == 0x0d
}

/// Where the next word starts.
pub open spec fn next_word(s: Seq<u8>, i: int) -> int
    decreases s.len() - i,
{
    if 0 <= i < s.len() && is_space(s[i]) {
        next_word(s, i + 1)
    } else {
        i
    }
}

/// Where a word ends, from a place in it on. Spaces between quotes do not end it.
pub open spec fn word_end(s: Seq<u8>, i: int, single: bool, double: bool) -> int
    decreases s.len() - i,
{
    if i < 0 || i >= s.len() {
        i
    } else if !single && s[i] == 0x22 {
        word_end(s, i + 1, single, !double)
    } else if !double && s[i] == 0x27 {
        word_end(s, i + 1, !single, double)
    } else if !single && !double && is_space(s[i]) {
        i
    } else {
        word_end(s, i + 1, single, double)
    }
}

/// What is left of a word from a place in it on. Quotes that stand round something are left out.
pub open spec fn word_rest(s: Seq<u8>, i: int, single: bool, double: bool) -> Seq<u8>
    decreases s.len() - i,
{
    if i < 0 || i >= s.len() {
        Seq::empty()
    } else if !single && s[i] == 0x22 {
        word_rest(s, i + 1, single, !double)
    } else if !double && s[i] == 0x27 {
        word_rest(s, i + 1, !single, double)
    } else if !single && !double && is_space(s[i]) {
        Seq::empty()
    } else {
        seq![s[i]] + word_rest(s, i + 1, single, double)
    }
}

pub proof fn lemma_next_word(s: Seq<u8>, i: int)
    requires
        0 <= i <= s.len(),
    ensures
        i <= next_word(s, i) <= s.len(),
        next_word(s, i) < s.len() ==> !is_space(s[next_word(s, i)]),
    decreases s.len() - i,
{
    if i < s.len() && is_space(s[i]) {
        lemma_next_word(s, i + 1);
    }
}

pub proof fn lemma_word_end(s: Seq<u8>, i: int, single: bool, double: bool)
    requires
        0 <= i <= s.len(),
    ensures
        i <= word_end(s, i, single, double) <= s.len(),
        i < s.len() && !is_space(s[i]) ==> i < word_end(s, i, single, double),
    decreases s.len() - i,
{
    if i < s.len() {
        lemma_word_end(s, i + 1, single, double);
        lemma_word_end(s, i + 1, single, !double);
        lemma_word_end(s, i + 1, !single, double);
    }
}

/// The words of a line from a place between them on.
pub open spec fn words_from(s: Seq<u8>, i: int) -> Seq<Seq<u8>>
    decreases s.len() - i,
{
    if i < 0 || i > s.len() {
        Seq::empty()
    } else {
        let j = next_word(s, i);
        proof {
            lemma_next_word(s, i);
            lemma_word_end(s, j, false, false);
        }
        if j >= s.len() {
            Seq::empty()
        } else {
            seq![word_rest(s, j, false, false)] + words_from(s, word_end(s, j, false, false))
        }
    }
}

/// The words of a line.
pub open spec fn words(s: Seq<u8>) -> Seq<Seq<u8>> {
    words_from(s, 0)
}

/// The bytes of each of several runs.
pub open spec fn texts(v: Seq<Vec<u8>>) -> Seq<Seq<u8>> {
    v.map_values(|w: Vec<u8>| w@)
}

/// Finds the words of a line.
#[verifier::rlimit(50)]
pub fn tokenize_line(line: &[u8]) -> (r: Vec<Vec<u8>>)
    ensures
        texts(r@) == words(line@),
{
    let n = line.len();
    let mut out: Vec<Vec<u8>> = Vec::new();
    let mut i: usize = 0;
    assert(texts(out@) =~= Seq::empty());
    while i < n
        invariant
            i <= n == line@.len(),
            texts(out@) + words_from(line@, i as int) == words(line@),
        decreases n - i,
    {
        let ghost start = i as int;
        while i < n && (line[i] == 0x20 || line[i] == 0x09 || line[i] == 0x0a || line[i] == 0x0c
            || line[i] == 0x0d)
            invariant
                start <= i <= n == line@.len(),
                next_word(line@, start) == next_word(line@, i as int),
            decreases n - i,
        {
            i = i + 1;
        }
        if i >= n {
            assert(words_from(line@, start) =~= Seq::empty());
            assert(texts(out@) =~= words(line@));
            return out;
        }
        let mut word: Vec<u8> = Vec::new();
        let mut single: bool = false;
        let mut double: bool = false;
        let ghost from = i as int;
        while i < n && (single || double || !(line[i] == 0x20 || line[i] == 0x09 || line[i] == 0x0a
            || line[i] == 0x0c || line[i] == 0x0d))
            invariant
                0 <= from <= i <= n == line@.len(),
                i == from ==> !single && !double && i < n && !is_space(line@[i as int]),
                word@ + word_rest(line@, i as int, single, double) == word_rest(
                    line@,
                    from,
                    false,
                    false,
                ),
                word_end(line@, i as int, single, double) == word_end(line@, from, false, false),
            decreases n - i,
        {
            let c = line[i];
            let ghost rest = word_rest(line@, i as int, single, double);
            let ghost before = word@;
            if !single && c == 0x22 {
                double = !double;
            } else if !double && c == 0x27 {
                single = !single;
            } else {
                word.push(c);
                assert(rest == seq![c] + word_rest(line@, i + 1, single, double));
                assert(before + rest =~= word@ + word_rest(line@, i + 1, single, double));
            }
            i = i + 1;
        }
        assert(word_rest(line@, i as int, single, double) =~= Seq::empty());
        assert(word@ =~= word_rest(line@, from, false, false));
        let ghost before = texts(out@);
        let ghost w = word@;
        out.push(word);
        proof {
            assert(texts(out@) =~= before.push(w));
            assert(words_from(line@, start) == seq![w] + words_from(line@, i as int));
            assert(before + (seq![w] + words_from(line@, i as int)) =~= texts(out@) + words_from(
                line@,
                i as int,
            ));
        }
    }
    assert(words_from(line@, n as int) =~= Seq::empty());
    assert(texts(out@) =~= words(line@));
    out
}

/// Whether a character is left out round a number.
pub open spec fn is_blank(c: u8) -> bool {
    0x09 <= c <= 0x0d || c == 0x20 || c == 0x85 || c == 0xa0
}

/// A text without what is blank before it.
pub open spec fn trimmed_front(s: Seq<u8>) -> Seq<u8>
    decreases s.len(),
{
    if s.len() > 0 && is_blank(s[0]) {
        trimmed_front(s.skip(1))
    } else {
        s
    }
}

/// A text without what is blank behind it.
pub open spec fn trimmed_back(s: Seq<u8>) -> Seq<u8>
    decreases s.len(),
{
    if s.len() > 0 && is_blank(s.last()) {
        trimmed_back(s.drop_last())
    } else {
        s
    }
}

/// The number of 64 bits that a text is, with or without a sign.
pub open spec fn signed_number(s: Seq<u8>) -> Option<int> {
    if s.len() > 0 && s[0] == 0x2d {
        let d = s.skip(1);
        if text::is_digits(d) && text::digits_value(d) <= 0x8000_0000_0000_0000 {
            Some(-(text::digits_value(d) as int))
        } else {
            None
        }
    } else {
        match text::parsed_number(s, i64::MAX as nat) {
            Some(v) => Some(v as int),
            None => None,
        }
    }
}

/// The number that a text is; zero where it is none.
pub open spec fn number_or_zero(s: Seq<u8>) -> int {
    match signed_number(s) {
        Some(v) => v,
        None => 0,
    }
}

/// The number of frames that a time stands for: a number of frames, or minutes, seconds and frames
/// with colons between them. There are 75 frames in a second.
pub open spec fn frames_of(s: Seq<u8>) -> int {
    let p = text::parts(s, 0x3a);
    let first = number_or_zero(trimmed_back(trimmed_front(p[0])));
    if p.len() == 1 {
        first
    } else {
        let second = number_or_zero(p[1]);
        let third = if p.len() > 2 {
            number_or_zero(p[2])
        } else {
            0
        };
        (first * 60 + second) * 75 + third
    }
}

/// Whether 64 bits hold a number.
pub open spec fn in_64_bits(v: int) -> bool {
    i64::MIN <= v <= i64::MAX
}

/// Reads a number of 64 bits, with or without a sign.
pub fn parse_signed(s: &[u8]) -> (r: Option<i64>)
    ensures
        match r {
            Some(v) => signed_number(s@) == Some(v as int),
            None => signed_number(s@) is None,
        },
{
    let n = s.len();
    if n > 0 && s[0] == 0x2d {
        let rest = &s[1..n];
        assert(rest@ =~= s@.skip(1));
        match text::parse_digits(rest, 0x8000_0000_0000_0000) {
            None => None,
            Some(v) => Some((-(v as i128)) as i64),
        }
    } else {
        match text::parse_number(s, 0x7fff_ffff_ffff_ffff) {
            None => None,
            Some(v) => Some(v as i64),
        }
    }
}

/// Reads a number; zero stands for what is none.
fn parse_or_zero(s: &[u8]) -> (r: i64)
    ensures
        r == number_or_zero(s@),
{
    match parse_signed(s) {
        Some(v) => v,
        None => 0,
    }
}

/// Leaves out what is blank round a text.
fn trim(s: &[u8]) -> (r: &[u8])
    ensures
        r@ == trimmed_back(trimmed_front(s@)),
{
    let n = s.len();
    let mut i: usize = 0;
    assert(s@.skip(0) =~= s@);
    while i < n && (0x09 <= s[i] && s[i] <= 0x0d || s[i] == 0x20 || s[i] == 0x85 || s[i] == 0xa0)
        invariant
            i <= n == s@.len(),
            trimmed_front(s@) == trimmed_front(s@.skip(i as int)),
        decreases n - i,
    {
        assert(s@.skip(i as int).skip(1) =~= s@.skip(i + 1));
        i = i + 1;
    }
    let mut j: usize = n;
    let ghost front = s@.skip(i as int);
    assert(s@.subrange(i as int, n as int) =~= front);
    while i < j && (0x09 <= s[j - 1] && s[j - 1] <= 0x0d || s[j - 1] == 0x20 || s[j - 1] == 0x85
        || s[j - 1] == 0xa0)
        invariant
            i <= j <= n == s@.len(),
            trimmed_back(front) == trimmed_back(s@.subrange(i as int, j as int)),
        decreases j,
    {
        assert(s@.subrange(i as int, j as int).drop_last() =~= s@.subrange(i as int, j - 1));
        j = j - 1;
    }
    &s[i..j]
}

/// Reads a time. There is none where 64 bits do not hold the number of frames.
pub fn parse_time(token: &[u8]) -> (r: Option<i64>)
    ensures
        match r {
            Some(v) => v == frames_of(token@),
            None => !in_64_bits(frames_of(token@)),
        },
{
    let ranges = text::split(token, 0x3a);
    let len = token.len();
    let ghost p = text::parts(token@, 0x3a);
    assert(ranges@[0].0 <= len);
    let first = parse_or_zero(trim(&token[ranges[0].0..ranges[0].1]));
    if ranges.len() == 1 {
        return Some(first);
    }
    assert(ranges@[1].0 <= len);
    let second = parse_or_zero(&token[ranges[1].0..ranges[1].1]);
    let third: i64 = if ranges.len() > 2 {
        assert(ranges@[2].0 <= len);
        parse_or_zero(&token[ranges[2].0..ranges[2].1])
    } else {
        0
    };
    let total: i128 = (first as i128 * 60 + second as i128) * 75 + third as i128;
    if total < -0x8000_0000_0000_0000 || total > 0x7fff_ffff_ffff_ffff {
        None
    } else {
        Some(total as i64)
    }
}

/// The number of frames that a time stands for.
pub fn msf_to_frames(token: &[u8]) -> (r: i64)
    requires
        in_64_bits(frames_of(token@)),
    ensures
        r == frames_of(token@),
{
    match parse_time(token) {
        Some(v) => v,
        None => 0,
    }
}

/// What is known after some lines of a sheet.
#[verifier::ext_equal]
pub struct Sheet {
    /// The names of the files, in their order.
    pub files: Seq<Seq<u8>>,
    /// The tracks, in their order.
    pub tracks: Seq<CdTrack>,
    /// Whether the next track has its bytes swapped, where a file has said so since the last one.
    pub next_swap: Option<bool>,
}

/// What a sheet says.
#[derive(Debug)]
pub struct CueSheet {
    /// The names of the files, in their order.
    pub files: Vec<Vec<u8>>,
    /// The tracks, in their order.
    pub tracks: Vec<CdTrack>,
    /// Whether the next track has its bytes swapped, where a file has said so since the last one.
    pub next_swap: Option<bool>,
}

impl View for CueSheet {
    type V = Sheet;

    open spec fn view(&self) -> Sheet {
        Sheet { files: texts(self.files@), tracks: self.tracks@, next_swap: self.next_swap }
    }
}

/// The lower 32 bits of a number.
pub open spec fn low_bits(v: int) -> u32 {
    (v % 0x1_0000_0000) as u32
}

/// The lower 32 bits of a number.
fn low32(v: i128) -> (r: u32)
    requires
        -0x1_0000_0000_0000_0000 <= v <= 0x1_0000_0000_0000_0000,
    ensures
        r == low_bits(v as int),
{
    if v >= 0 {
        (v as u128 % 0x1_0000_0000) as u32
    } else {
        let u: u128 = (-(v + 1)) as u128;
        let k: u128 = u % 0x1_0000_0000;
        assert(v as int % 0x1_0000_0000 == 0xffff_ffff - k);
        (0xffff_ffff - k) as u32
    }
}

/// A `FILE` line: the name, and the order of the bytes.
pub open spec fn file_line(sh: Sheet, w: Seq<Seq<u8>>) -> Result<Sheet, Error> {
    if w.len() < 2 {
        Err(Error::InvalidData)
    } else if w.len() >= 3 && w[2] == "BINARY".spec_bytes() {
        Ok(Sheet { files: sh.files.push(w[1]), tracks: sh.tracks, next_swap: Some(false) })
    } else if w.len() >= 3 && w[2] == "MOTOROLA".spec_bytes() {
        Ok(Sheet { files: sh.files.push(w[1]), tracks: sh.tracks, next_swap: Some(true) })
    } else {
        Err(Error::UnsupportedFormat)
    }
}

/// A track with the subcode that the fourth word says.
pub open spec fn with_subcode(t: CdTrack, w: Seq<Seq<u8>>) -> CdTrack {
    if w.len() >= 4 && w[3] == "RW".spec_bytes() {
        CdTrack { subtype: SubcodeType::Normal, subsize: 96, ..t }
    } else if w.len() >= 4 && w[3] == "RW_RAW".spec_bytes() {
        CdTrack { subtype: SubcodeType::Raw, subsize: 96, ..t }
    } else {
        t
    }
}

/// A `TRACK` line: a new track of the last file.
pub open spec fn track_line(sh: Sheet, w: Seq<Seq<u8>>) -> Result<Sheet, Error> {
    if w.len() < 3 {
        Err(Error::InvalidData)
    } else {
        match cd::type_named(w[2]) {
            None => Err(Error::UnsupportedFormat),
            Some((trktype, datasize)) => if sh.files.len() == 0 {
                Err(Error::InvalidData)
            } else {
                let swap = sh.next_swap == Some(true);
                let t = cd::new_track(trktype, datasize, (sh.files.len() - 1) as usize, swap);
                Ok(
                    Sheet {
                        files: sh.files,
                        tracks: sh.tracks.push(with_subcode(t, w)),
                        next_swap: None,
                    },
                )
            },
        }
    }
}

/// A track with an index set. Index 1 also settles the gap before the track: it is what lies
/// between the two indices, unless its length was given.
pub open spec fn indexed(t: CdTrack, index: int, frames: i64) -> CdTrack {
    if index == 0 {
        CdTrack { idx0: frames, ..t }
    } else if index == 1 {
        if t.pregap == 0 && t.idx0 != -1 {
            CdTrack {
                idx1: frames,
                pregap: low_bits(frames - t.idx0),
                pgtype: t.trktype,
                pgdatasize: t.datasize,
                ..t
            }
        } else if t.idx0 == -1 {
            CdTrack { idx0: frames, idx1: frames, ..t }
        } else {
            CdTrack { idx1: frames, ..t }
        }
    } else {
        t
    }
}

/// A sheet with its last track changed.
pub open spec fn with_last(sh: Sheet, t: CdTrack) -> Sheet {
    Sheet { files: sh.files, tracks: sh.tracks.drop_last().push(t), next_swap: sh.next_swap }
}

/// An `INDEX` line: its number and its time.
pub open spec fn index_line(sh: Sheet, w: Seq<Seq<u8>>) -> Result<Sheet, Error> {
    if sh.tracks.len() == 0 || w.len() < 3 || signed_number(w[1]) is None || !in_64_bits(
        frames_of(w[2]),
    ) {
        Err(Error::InvalidData)
    } else {
        let frames = frames_of(w[2]) as i64;
        Ok(with_last(sh, indexed(sh.tracks.last(), signed_number(w[1])->0, frames)))
    }
}

/// A `PREGAP` or `POSTGAP` line: the length of the gap.
pub open spec fn gap_line(sh: Sheet, w: Seq<Seq<u8>>, before: bool) -> Result<Sheet, Error> {
    if sh.tracks.len() == 0 || w.len() < 2 || !in_64_bits(frames_of(w[1])) {
        Err(Error::InvalidData)
    } else {
        let length = low_bits(frames_of(w[1]));
        Ok(
            with_last(
                sh,
                if before {
                    CdTrack { pregap: length, ..sh.tracks.last() }
                } else {
                    CdTrack { postgap: length, ..sh.tracks.last() }
                },
            ),
        )
    }
}

/// What is known after another line, by its words.
pub open spec fn line_read(sh: Sheet, w: Seq<Seq<u8>>) -> Result<Sheet, Error> {
    if w.len() == 0 {
        Ok(sh)
    } else if w[0] == "FILE".spec_bytes() {
        file_line(sh, w)
    } else if w[0] == "TRACK".spec_bytes() {
        track_line(sh, w)
    } else if w[0] == "INDEX".spec_bytes() {
        index_line(sh, w)
    } else if w[0] == "PREGAP".spec_bytes() {
        gap_line(sh, w, true)
    } else if w[0] == "POSTGAP".spec_bytes() {
        gap_line(sh, w, false)
    } else {
        Ok(sh)
    }
}

/// Line `k` of a text. A carriage return at the end of a line does not belong to it.
pub open spec fn line_at(s: Seq<u8>, k: int) -> Seq<u8> {
    let p = text::parts(s, 0x0a);
    if k + 1 < p.len() && p[k].len() > 0 && p[k].last() == 0x0d {
        p[k].drop_last()
    } else {
        p[k]
    }
}

/// What is known before the first line.
pub open spec fn empty_sheet() -> Sheet {
    Sheet { files: Seq::empty(), tracks: Seq::empty(), next_swap: None }
}

/// What is known after the first lines of a sheet.
pub open spec fn sheet_after(s: Seq<u8>, lines: nat) -> Result<Sheet, Error>
    decreases lines,
{
    if lines == 0 {
        Ok(empty_sheet())
    } else {
        match sheet_after(s, (lines - 1) as nat) {
            Err(e) => Err(e),
            Ok(sh) => line_read(sh, words(line_at(s, lines - 1))),
        }
    }
}

/// What a sheet says. There has to be a track.
pub open spec fn sheet_of(s: Seq<u8>) -> Result<Sheet, Error> {
    match sheet_after(s, text::parts(s, 0x0a).len()) {
        Err(e) => Err(e),
        Ok(sh) => if sh.tracks.len() == 0 {
            Err(Error::InvalidData)
        } else {
            Ok(sh)
        },
    }
}

/// Whether the tracks of a sheet are sound.
pub open spec fn sheet_wf(sh: Sheet) -> bool {
    &&& forall|i: int|
        0 <= i < sh.tracks.len() ==> (#[trigger] sh.tracks[i]).wf() && sh.tracks[i].file
            < sh.files.len()
    &&& sh.files.len() <= usize::MAX
}

pub proof fn lemma_sheet_after_error(s: Seq<u8>, a: nat, b: nat)
    requires
        a <= b,
        sheet_after(s, a) is Err,
    ensures
        sheet_after(s, b) == sheet_after(s, a),
    decreases b,
{
    if a < b {
        lemma_sheet_after_error(s, a, (b - 1) as nat);
    }
}

/// The words of a line as views, one by one.
proof fn lemma_texts(v: Seq<Vec<u8>>)
    ensures
        texts(v).len() == v.len(),
        forall|i: int| 0 <= i < v.len() ==> #[trigger] texts(v)[i] == v[i]@,
{
}

impl CueSheet {
    /// Reads a `FILE` line.
    fn read_file(&mut self, w: &Vec<Vec<u8>>) -> (r: Result<(), Error>)
        requires
            sheet_wf(old(self)@),
        ensures
            match r {
                Ok(()) => file_line(old(self)@, texts(w@)) == Ok::<Sheet, Error>(final(self)@)
                    && sheet_wf(final(self)@),
                Err(e) => file_line(old(self)@, texts(w@)) == Err::<Sheet, Error>(e),
            },
    {
        proof {
            lemma_texts(w@);
        }
        if w.len() < 2 {
            return Err(Error::InvalidData);
        }
        let swap: bool = if w.len() >= 3 && is_word(w[2].as_slice(), "BINARY") {
            false
        } else if w.len() >= 3 && is_word(w[2].as_slice(), "MOTOROLA") {
            true
        } else {
            return Err(Error::UnsupportedFormat);
        };
        let mut name: Vec<u8> = Vec::new();
        name.extend_from_slice(w[1].as_slice());
        assert(name@ =~= w@[1]@);
        self.files.push(name);
        self.next_swap = Some(swap);
        let n = self.files.len();
        assert(texts(self.files@) =~= texts(old(self).files@).push(w@[1]@));
        Ok(())
    }

    /// Reads a `TRACK` line.
    fn read_track(&mut self, w: &Vec<Vec<u8>>) -> (r: Result<(), Error>)
        requires
            sheet_wf(old(self)@),
        ensures
            match r {
                Ok(()) => track_line(old(self)@, texts(w@)) == Ok::<Sheet, Error>(final(self)@)
                    && sheet_wf(final(self)@),
                Err(e) => track_line(old(self)@, texts(w@)) == Err::<Sheet, Error>(e),
            },
    {
        proof {
            lemma_texts(w@);
        }
        if w.len() < 3 {
            return Err(Error::InvalidData);
        }
        let (trktype, datasize) = match type_from_string(w[2].as_slice()) {
            None => {
                return Err(Error::UnsupportedFormat);
            },
            Some(x) => x,
        };
        if self.files.len() == 0 {
            return Err(Error::InvalidData);
        }
        let swap: bool = match self.next_swap {
            Some(b) => b,
            None => false,
        };
        let mut t = CdTrack::new(trktype, datasize, self.files.len() - 1, swap);
        if w.len() >= 4 && is_word(w[3].as_slice(), "RW") {
            t.subtype = SubcodeType::Normal;
            t.subsize = 96;
        } else if w.len() >= 4 && is_word(w[3].as_slice(), "RW_RAW") {
            t.subtype = SubcodeType::Raw;
            t.subsize = 96;
        }
        self.next_swap = None;
        self.tracks.push(t);
        Ok(())
    }

    /// Reads an `INDEX` line.
    fn read_index(&mut self, w: &Vec<Vec<u8>>) -> (r: Result<(), Error>)
        requires
            sheet_wf(old(self)@),
        ensures
            match r {
                Ok(()) => index_line(old(self)@, texts(w@)) == Ok::<Sheet, Error>(final(self)@)
                    && sheet_wf(final(self)@),
                Err(e) => index_line(old(self)@, texts(w@)) == Err::<Sheet, Error>(e),
            },
    {
        proof {
            lemma_texts(w@);
        }
        let n = self.tracks.len();
        if n == 0 || w.len() < 3 {
            return Err(Error::InvalidData);
        }
        let index = match parse_signed(w[1].as_slice()) {
            None => {
                return Err(Error::InvalidData);
            },
            Some(v) => v,
        };
        let frames = match parse_time(w[2].as_slice()) {
            None => {
                return Err(Error::InvalidData);
            },
            Some(v) => v,
        };
        let mut t = self.tracks[n - 1];
        if index == 0 {
            t.idx0 = frames;
        } else if index == 1 {
            t.idx1 = frames;
            if t.pregap == 0 && t.idx0 != -1 {
                t.pregap = low32(frames as i128 - t.idx0 as i128);
                t.pgtype = t.trktype;
                t.pgdatasize = t.datasize;
            } else if t.idx0 == -1 {
                t.idx0 = frames;
            }
        }
        self.tracks.set(n - 1, t);
        assert(self.tracks@ =~= old(self).tracks@.drop_last().push(t));
        Ok(())
    }

    /// Reads a line that gives the length of a gap.
    fn read_gap(&mut self, w: &Vec<Vec<u8>>, before: bool) -> (r: Result<(), Error>)
        requires
            sheet_wf(old(self)@),
        ensures
            match r {
                Ok(()) => gap_line(old(self)@, texts(w@), before) == Ok::<Sheet, Error>(
                    final(self)@,
                ) && sheet_wf(final(self)@),
                Err(e) => gap_line(old(self)@, texts(w@), before) == Err::<Sheet, Error>(e),
            },
    {
        proof {
            lemma_texts(w@);
        }
        let n = self.tracks.len();
        if n == 0 || w.len() < 2 {
            return Err(Error::InvalidData);
        }
        let frames = match parse_time(w[1].as_slice()) {
            None => {
                return Err(Error::InvalidData);
            },
            Some(v) => v,
        };
        let mut t = self.tracks[n - 1];
        if before {
            t.pregap = low32(frames as i128);
        } else {
            t.postgap = low32(frames as i128);
        }
        self.tracks.set(n - 1, t);
        assert(self.tracks@ =~= old(self).tracks@.drop_last().push(t));
        Ok(())
    }

    /// Reads a line by its words.
    fn read_line(&mut self, w: &Vec<Vec<u8>>) -> (r: Result<(), Error>)
        requires
            sheet_wf(old(self)@),
        ensures
            match r {
                Ok(()) => line_read(old(self)@, texts(w@)) == Ok::<Sheet, Error>(final(self)@)
                    && sheet_wf(final(self)@),
                Err(e) => line_read(old(self)@, texts(w@)) == Err::<Sheet, Error>(e),
            },
    {
        proof {
            lemma_texts(w@);
        }
        if w.len() == 0 {
            return Ok(());
        }
        let command = w[0].as_slice();
        if is_word(command, "FILE") {
            self.read_file(w)
        } else if is_word(command, "TRACK") {
            self.read_track(w)
        } else if is_word(command, "INDEX") {
            self.read_index(w)
        } else if is_word(command, "PREGAP") {
            self.read_gap(w, true)
        } else if is_word(command, "POSTGAP") {
            self.read_gap(w, false)
        } else {
            Ok(())
        }
    }
}

/// Where line `k` of a sheet is, of which the parts between line feeds are given.
fn find_line(sheet: &[u8], ranges: &Vec<(usize, usize)>, k: usize) -> (r: (usize, usize))
    requires
        k < ranges@.len() == text::parts(sheet@, 0x0a).len(),
        forall|j: int|
            0 <= j < ranges@.len() ==> (#[trigger] ranges@[j]).0 <= ranges@[j].1 <= sheet@.len()
                && sheet@.subrange(ranges@[j].0 as int, ranges@[j].1 as int) == text::parts(
                sheet@,
                0x0a,
            )[j],
    ensures
        r.0 <= r.1 <= sheet@.len(),
        sheet@.subrange(r.0 as int, r.1 as int) == line_at(sheet@, k as int),
{
    let ghost p = text::parts(sheet@, 0x0a);
    let n = ranges.len();
    let (i, j) = ranges[k];
    assert(sheet@.subrange(i as int, j as int) == p[k as int]);
    if k + 1 < n && j > i && sheet[j - 1] == 0x0d {
        assert(p[k as int].last() == sheet@[j - 1]);
        assert(p[k as int].drop_last() =~= sheet@.subrange(i as int, j - 1));
        (i, j - 1)
    } else {
        proof {
            if j > i {
                assert(p[k as int].last() == sheet@[j - 1]);
            }
        }
        (i, j)
    }
}

/// Reads a sheet. What the files hold is not needed for it.
#[verifier::spinoff_prover]
#[verifier::rlimit(50)]
pub fn parse_sheet(sheet: &[u8]) -> (r: Result<CueSheet, Error>)
    ensures
        match r {
            Ok(sh) => sheet_of(sheet@) == Ok::<Sheet, Error>(sh@) && sheet_wf(sh@),
            Err(e) => sheet_of(sheet@) == Err::<Sheet, Error>(e),
        },
{
    let ranges = text::split(sheet, 0x0a);
    let mut sh = CueSheet { files: Vec::new(), tracks: Vec::new(), next_swap: None };
    assert(sh@ =~= empty_sheet());
    let n = ranges.len();
    let mut k: usize = 0;
    while k < n
        invariant
            k <= n == ranges@.len() == text::parts(sheet@, 0x0a).len(),
            forall|j: int|
                0 <= j < ranges@.len() ==> (#[trigger] ranges@[j]).0 <= ranges@[j].1 <= sheet@.len()
                    && sheet@.subrange(ranges@[j].0 as int, ranges@[j].1 as int) == text::parts(
                    sheet@,
                    0x0a,
                )[j],
            sheet_after(sheet@, k as nat) == Ok::<Sheet, Error>(sh@),
            sheet_wf(sh@),
        decreases n - k,
    {
        let (i, end) = find_line(sheet, &ranges, k);
        let w = tokenize_line(&sheet[i..end]);
        let ghost before = sh@;
        let r = sh.read_line(&w);
        proof {
            lemma_sheet_step(sheet@, k as nat, before, texts(w@));
        }
        match r {
            Ok(()) => {},
            Err(e) => {
                proof {
                    lemma_sheet_after_error(sheet@, (k + 1) as nat, n as nat);
                }
                return Err(e);
            },
        }
        k = k + 1;
    }
    if sh.tracks.len() == 0 {
        return Err(Error::InvalidData);
    }
    Ok(sh)
}

proof fn lemma_sheet_step(s: Seq<u8>, k: nat, sh: Sheet, w: Seq<Seq<u8>>)
    requires
        sheet_after(s, k) == Ok::<Sheet, Error>(sh),
        w == words(line_at(s, k as int)),
    ensures
        sheet_after(s, k + 1) == line_read(sh, w),
{
}

/// Where track `i` starts if it lies right behind the one before it.
pub open spec fn start_of(ts: Seq<CdTrack>, i: int) -> nat {
    if i > 0 {
        ts[i - 1].offset as nat + ts[i - 1].frames as nat * ts[i - 1].frame_bytes()
    } else {
        0
    }
}

/// Whether track `i` is of the same file as the one before it.
pub open spec fn follows(ts: Seq<CdTrack>, files: Seq<SourceFile>, i: int) -> bool {
    i > 0 && cd::same_file(files, ts[i].file, ts[i - 1].file)
}

/// Track `i` with its place and its length. A track that shares its file with the next one reaches
/// as far as index 0 of that one; the last one of a file takes what is left of it.
pub open spec fn measured(ts: Seq<CdTrack>, files: Seq<SourceFile>, i: int) -> Result<
    CdTrack,
    Error,
> {
    let t = CdTrack { swap: ts[i].swap || ts[i].trktype == TrackType::Audio, ..ts[i] };
    let start = start_of(ts, i);
    let size = cd::contents(files, t.file as int);
    if t.idx1 == -1 {
        Err(Error::InvalidData)
    } else if t.offset != 0 {
        Ok(t)
    } else if i + 1 >= ts.len() && follows(ts, files, i) {
        match size {
            None => Err(Error::ReadError),
            Some(data) => if start > data.len() {
                Err(Error::InvalidData)
            } else {
                Ok(
                    CdTrack {
                        offset: start as u64,
                        frames: low_bits((data.len() - start) / t.frame_bytes() as int),
                        ..t
                    },
                )
            },
        }
    } else if i + 1 < ts.len() && follows(ts, files, i + 1) {
        let length = ts[i + 1].idx0 - t.idx0;
        if length <= 0 || start > u64::MAX {
            Err(Error::InvalidData)
        } else {
            Ok(CdTrack { frames: low_bits(length), offset: start as u64, ..t })
        }
    } else if t.frames == 0 {
        match size {
            None => Err(Error::ReadError),
            Some(data) => Ok(
                CdTrack { frames: low_bits(data.len() as int / t.frame_bytes() as int), ..t },
            ),
        }
    } else {
        Ok(t)
    }
}

/// The tracks with their places and lengths, where those before track `i` have them already.
pub open spec fn measured_from(ts: Seq<CdTrack>, files: Seq<SourceFile>, i: int) -> Result<
    Seq<CdTrack>,
    Error,
>
    decreases ts.len() - i,
{
    if i < 0 || i >= ts.len() {
        Ok(ts)
    } else {
        match measured(ts, files, i) {
            Err(e) => Err(e),
            Ok(t) => measured_from(ts.update(i, t), files, i + 1),
        }
    }
}

/// The tracks that a sheet gives, with their places and lengths.
pub open spec fn tracks_of(s: Seq<u8>, files: Seq<SourceFile>) -> Result<Seq<CdTrack>, Error> {
    match sheet_of(s) {
        Err(e) => Err(e),
        Ok(sh) => measured_from(sh.tracks, files, 0),
    }
}

/// The number of bytes in a file, where it could be read.
fn size_of_file(files: &[SourceFile], file: usize) -> (r: Option<u64>)
    ensures
        match r {
            Some(n) => cd::contents(files@, file as int) matches Some(d) && d.len() == n,
            None => cd::contents(files@, file as int) is None,
        },
{
    if file < files.len() {
        match &files[file].data {
            Some(v) => Some(v.len() as u64),
            None => None,
        }
    } else {
        None
    }
}

/// Whether two numbers are of the same file.
fn is_same_file(files: &[SourceFile], a: usize, b: usize) -> (r: bool)
    ensures
        r == cd::same_file(files@, a, b),
{
    let n = files.len();
    if a < n && b < n {
        files[a].id == files[b].id
    } else {
        a == b
    }
}

/// Measures one track.
#[verifier::rlimit(50)]
fn measure(ts: &Vec<CdTrack>, files: &[SourceFile], i: usize) -> (r: Result<CdTrack, Error>)
    requires
        i < ts@.len(),
        forall|k: int| 0 <= k < ts@.len() ==> (#[trigger] ts@[k]).wf(),
    ensures
        r == measured(ts@, files@, i as int),
        r matches Ok(t) ==> t.wf() && t.file == ts@[i as int].file,
{
    let n = ts.len();
    let mut t = ts[i];
    assert(t.wf());
    if t.idx1 == -1 {
        return Err(Error::InvalidData);
    }
    if t.trktype == TrackType::Audio {
        t.swap = true;
    }
    if t.offset != 0 {
        return Ok(t);
    }
    let prev_same = i > 0 && is_same_file(files, t.file, ts[i - 1].file);
    let next_same = i + 1 < n && is_same_file(files, ts[i + 1].file, t.file);
    let start: u128 = if i > 0 {
        let p = ts[i - 1];
        assert(p.wf());
        let bpf: u64 = (p.datasize + p.subsize) as u64;
        assert(p.frames as u64 * bpf <= 0xffff_ffff * 2448) by (nonlinear_arith)
            requires
                p.frames <= 0xffff_ffff,
                bpf <= 2448,
        ;
        p.offset as u128 + (p.frames as u64 * bpf) as u128
    } else {
        0
    };
    assert(start == start_of(ts@, i as int));
    let bpf: u64 = (t.datasize + t.subsize) as u64;
    if i + 1 >= n && prev_same {
        let size = match size_of_file(files, t.file) {
            None => {
                return Err(Error::ReadError);
            },
            Some(v) => v,
        };
        if start > size as u128 {
            return Err(Error::InvalidData);
        }
        let begin = start as u64;
        t.offset = begin;
        t.frames = low32(((size - begin) / bpf) as i128);
        Ok(t)
    } else if next_same {
        let length: i128 = ts[i + 1].idx0 as i128 - t.idx0 as i128;
        if length <= 0 || start > 0xffff_ffff_ffff_ffff {
            return Err(Error::InvalidData);
        }
        t.frames = low32(length);
        t.offset = start as u64;
        Ok(t)
    } else if t.frames == 0 {
        let size = match size_of_file(files, t.file) {
            None => {
                return Err(Error::ReadError);
            },
            Some(v) => v,
        };
        t.frames = low32((size / bpf) as i128);
        Ok(t)
    } else {
        Ok(t)
    }
}

/// Gives each track its place and its length.
pub fn compute_track_lengths(tracks: Vec<CdTrack>, files: &[SourceFile]) -> (r: Result<
    Vec<CdTrack>,
    Error,
>)
    requires
        forall|k: int| 0 <= k < tracks@.len() ==> (#[trigger] tracks@[k]).wf(),
    ensures
        match r {
            Ok(ts) => measured_from(tracks@, files@, 0) == Ok::<Seq<CdTrack>, Error>(ts@)
                && ts@.len() == tracks@.len() && forall|k: int|
                0 <= k < ts@.len() ==> (#[trigger] ts@[k]).wf() && ts@[k].file == tracks@[k].file,
            Err(e) => measured_from(tracks@, files@, 0) == Err::<Seq<CdTrack>, Error>(e),
        },
{
    let ghost given = tracks@;
    let mut ts = tracks;
    let n = ts.len();
    let mut i: usize = 0;
    while i < n
        invariant
            i <= n == ts@.len() == given.len(),
            given == tracks@,
            forall|k: int|
                0 <= k < ts@.len() ==> (#[trigger] ts@[k]).wf() && ts@[k].file == given[k].file,
            measured_from(given, files@, 0) == measured_from(ts@, files@, i as int),
        decreases n - i,
    {
        match measure(&ts, files, i) {
            Err(e) => {
                return Err(e);
            },
            Ok(t) => {
                ts.set(i, t);
            },
        }
        i = i + 1;
    }
    Ok(ts)
}

/// Reads a sheet and measures its tracks in the files, which stand in the order in which the sheet
/// names them.
pub fn parse_cue(sheet: &[u8], files: &[SourceFile]) -> (r: Result<Vec<CdTrack>, Error>)
    ensures
        match r {
            Ok(ts) => tracks_of(sheet@, files@) == Ok::<Seq<CdTrack>, Error>(ts@) && forall|k: int|
                0 <= k < ts@.len() ==> (#[trigger] ts@[k]).wf(),
            Err(e) => tracks_of(sheet@, files@) == Err::<Seq<CdTrack>, Error>(e),
        },
{
    match parse_sheet(sheet) {
        Err(e) => Err(e),
        Ok(sh) => compute_track_lengths(sh.tracks, files),
    }
}

pub proof fn lemma_measured_keeps(ts: Seq<CdTrack>, files: Seq<SourceFile>, i: int)
    requires
        0 <= i <= ts.len(),
        measured_from(ts, files, i) is Ok,
    ensures
        measured_from(ts, files, i)->Ok_0.len() == ts.len(),
        forall|k: int| 0 <= k < i ==> #[trigger] measured_from(ts, files, i)->Ok_0[k] == ts[k],
        forall|k: int|
            0 <= k < ts.len() ==> (#[trigger] measured_from(ts, files, i)->Ok_0[k]).file
                == ts[k].file && measured_from(ts, files, i)->Ok_0[k].frame_bytes()
                == ts[k].frame_bytes(),
    decreases ts.len() - i,
{
    if i < ts.len() {
        let t = measured(ts, files, i)->Ok_0;
        lemma_measured_keeps(ts.update(i, t), files, i + 1);
    }
}

/// A track that shares its file with the one before it starts where that one ends, provided that it
/// is the last track or shares its file with the next one too.
pub proof fn tracks_meet(ts: Seq<CdTrack>, files: Seq<SourceFile>, i: int)
    requires
        0 < i < ts.len(),
        forall|k: int| 0 <= k < ts.len() ==> (#[trigger] ts[k]).offset == 0,
        follows(ts, files, i),
        i + 1 == ts.len() || follows(ts, files, i + 1),
        measured_from(ts, files, 0) is Ok,
    ensures
        measured_from(ts, files, 0)->Ok_0[i].offset == start_of(
            measured_from(ts, files, 0)->Ok_0,
            i,
        ),
{
    lemma_tracks_meet(ts, files, 0, i);
}

proof fn lemma_tracks_meet(ts: Seq<CdTrack>, files: Seq<SourceFile>, from: int, i: int)
    requires
        0 <= from <= i < ts.len(),
        0 < i,
        forall|k: int| from <= k < ts.len() ==> (#[trigger] ts[k]).offset == 0,
        follows(ts, files, i),
        i + 1 == ts.len() || follows(ts, files, i + 1),
        measured_from(ts, files, from) is Ok,
    ensures
        measured_from(ts, files, from)->Ok_0[i].offset == start_of(
            measured_from(ts, files, from)->Ok_0,
            i,
        ),
    decreases i - from,
{
    let t = measured(ts, files, from)->Ok_0;
    let next = ts.update(from, t);
    lemma_measured_keeps(next, files, from + 1);
    let r = measured_from(ts, files, from)->Ok_0;
    assert(r == measured_from(next, files, from + 1)->Ok_0);
    if from < i {
        assert(follows(next, files, i));
        assert(i + 1 < ts.len() ==> follows(next, files, i + 1));
        lemma_tracks_meet(next, files, from + 1, i);
    } else {
        assert(files[t.file as int].data->0.len() <= usize::MAX);
        assert(r[i] == next[i]);
        assert(r[i - 1] == next[i - 1]);
        assert(start_of(r, i) == start_of(ts, i));
    }
}

/// The frames of the last track lie within its file.
pub proof fn last_track_fits(ts: Seq<CdTrack>, files: Seq<SourceFile>)
    requires
        ts.len() > 0,
        ts.last().wf(),
        ts.last().offset == 0,
        ts.last().frames == 0,
        measured_from(ts, files, 0) is Ok,
    ensures
        cd::contents(files, ts.last().file as int) is Some,
        ({
            let t = measured_from(ts, files, 0)->Ok_0.last();
            t.offset + t.frames * t.frame_bytes() <= cd::contents(
                files,
                ts.last().file as int,
            )->0.len()
        }),
{
    lemma_last_track(ts, files, 0);
}

proof fn lemma_last_track(ts: Seq<CdTrack>, files: Seq<SourceFile>, from: int)
    requires
        0 <= from < ts.len(),
        ts.last().wf(),
        ts.last().offset == 0,
        ts.last().frames == 0,
        measured_from(ts, files, from) is Ok,
    ensures
        cd::contents(files, ts.last().file as int) is Some,
        ({
            let t = measured_from(ts, files, from)->Ok_0.last();
            t.offset + t.frames * t.frame_bytes() <= cd::contents(
                files,
                ts.last().file as int,
            )->0.len()
        }),
    decreases ts.len() - from,
{
    let t = measured(ts, files, from)->Ok_0;
    let next = ts.update(from, t);
    lemma_measured_keeps(next, files, from + 1);
    if from + 1 < ts.len() {
        lemma_last_track(next, files, from + 1);
    } else {
        let size = cd::contents(files, t.file as int)->0.len() as int;
        let left = size - t.offset;
        let bpf = t.frame_bytes() as int;
        assert(files[t.file as int].data->0.len() <= usize::MAX);
        assert(left / bpf >= 0) by {
            vstd::arithmetic::div_mod::lemma_div_pos_is_pos(left, bpf);
        }
        assert(t.frames == low_bits(left / bpf));
        assert(t.frames * bpf <= left) by (nonlinear_arith)
            requires
                0 <= t.frames <= left / bpf,
                bpf > 0,
        ;
    }
}

} // verus!
