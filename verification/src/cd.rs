//! CD images: tracks of frames, each frame a sector with its subcode.

use crate::bytes;
use crate::codec::{CHD_CODEC_CD_FLAC, CHD_CODEC_CD_LZMA, CHD_CODEC_CD_ZLIB};
use crate::cue;
use crate::error::Error;
use crate::hd;
use crate::header;
use crate::metadata;
use crate::metadata::{Meta, MetaEntry, METADATA_FLAG_CHECKSUM};
use crate::text;
use crate::write::{resolve_codecs, CreatePlan, Plan};
use vstd::prelude::*;
use vstd::string::*;

verus! {

/// The bytes of sector data in a frame.
pub const CD_MAX_SECTOR_DATA: u32 = crate::cdrom::CD_MAX_SECTOR_DATA;

/// The bytes of subcode in a frame.
pub const CD_MAX_SUBCODE_DATA: u32 = crate::cdrom::CD_MAX_SUBCODE_DATA;

/// The bytes of a frame, which is the unit of a CD image.
pub const CD_FRAME_SIZE: u32 = crate::cdrom::CD_FRAME_SIZE;

/// The frames of a hunk.
pub const FRAMES_PER_HUNK: u32 = 8;

/// The usual size of a hunk.
pub const DEFAULT_HUNK_SIZE: u32 = 19584;

/// The number of frames that the length of a track is rounded up to a multiple of.
pub const TRACK_PADDING: u32 = 4;

/// What the sectors of a track hold.
#[derive(Debug, Clone, Copy, PartialEq, Eq, Structural)]
pub enum TrackType {
    /// Mode 1, the 2048 bytes of data alone.
    Mode1,
    /// Mode 1, whole sectors of 2352 bytes.
    Mode1Raw,
    /// Mode 2, 2336 bytes.
    Mode2,
    /// Mode 2 form 1, the 2048 bytes of data alone.
    Mode2Form1,
    /// Mode 2 form 2, the 2324 bytes of data alone.
    Mode2Form2,
    /// Mode 2 of both forms, 2336 bytes.
    Mode2FormMix,
    /// Mode 2, whole sectors of 2352 bytes.
    Mode2Raw,
    /// Audio, 2352 bytes.
    Audio,
}

impl TrackType {
    /// The word for a type in the metadata of a track.
    pub open spec fn word(self) -> Seq<char> {
        match self {
            TrackType::Mode1 => "MODE1"@,
            TrackType::Mode1Raw => "MODE1_RAW"@,
            TrackType::Mode2 => "MODE2"@,
            TrackType::Mode2Form1 => "MODE2_FORM1"@,
            TrackType::Mode2Form2 => "MODE2_FORM2"@,
            TrackType::Mode2FormMix => "MODE2_FORM_MIX"@,
            TrackType::Mode2Raw => "MODE2_RAW"@,
            TrackType::Audio => "AUDIO"@,
        }
    }

    /// The bytes that a sector of a type has in a file.
    pub open spec fn sector_bytes(self) -> u32 {
        match self {
            TrackType::Mode1 => 2048,
            TrackType::Mode1Raw => 2352,
            TrackType::Mode2 => 2336,
            TrackType::Mode2Form1 => 2048,
            TrackType::Mode2Form2 => 2324,
            TrackType::Mode2FormMix => 2336,
            TrackType::Mode2Raw => 2352,
            TrackType::Audio => 2352,
        }
    }

    /// The word for the type in the metadata of a track.
    pub fn type_string(self) -> (r: &'static str)
        ensures
            r@ == self.word(),
    {
        match self {
            TrackType::Mode1 => "MODE1",
            TrackType::Mode1Raw => "MODE1_RAW",
            TrackType::Mode2 => "MODE2",
            TrackType::Mode2Form1 => "MODE2_FORM1",
            TrackType::Mode2Form2 => "MODE2_FORM2",
            TrackType::Mode2FormMix => "MODE2_FORM_MIX",
            TrackType::Mode2Raw => "MODE2_RAW",
            TrackType::Audio => "AUDIO",
        }
    }
}

/// What subcode goes with the sectors of a track.
#[derive(Debug, Clone, Copy, PartialEq, Eq, Structural)]
pub enum SubcodeType {
    /// 96 bytes, interleaved.
    Normal,
    /// 96 bytes, as they are on the disc.
    Raw,
    /// There is no subcode.
    Absent,
}

impl SubcodeType {
    /// The word for a type of subcode in the metadata of a track.
    pub open spec fn word(self) -> Seq<char> {
        match self {
            SubcodeType::Normal => "RW"@,
            SubcodeType::Raw => "RW_RAW"@,
            SubcodeType::Absent => "NONE"@,
        }
    }

    /// The word for the type of subcode in the metadata of a track.
    pub fn subtype_string(self) -> (r: &'static str)
        ensures
            r@ == self.word(),
    {
        match self {
            SubcodeType::Normal => "RW",
            SubcodeType::Raw => "RW_RAW",
            SubcodeType::Absent => "NONE",
        }
    }
}

/// A track, and where its sectors come from.
#[derive(Debug, Clone, Copy, PartialEq, Eq, Structural)]
pub struct CdTrack {
    /// What the sectors hold.
    pub trktype: TrackType,
    /// What subcode goes with them.
    pub subtype: SubcodeType,
    /// The bytes of sector data that a frame has in the file.
    pub datasize: u32,
    /// The bytes of subcode that a frame has in the file.
    pub subsize: u32,
    /// The number of frames.
    pub frames: u32,
    /// The frames of the gap before the track.
    pub pregap: u32,
    /// The frames of the gap behind the track.
    pub postgap: u32,
    /// What the sectors of the gap before the track hold.
    pub pgtype: TrackType,
    /// What subcode goes with the gap before the track.
    pub pgsub: SubcodeType,
    /// The bytes of sector data of the gap before the track, where the file has it.
    pub pgdatasize: u32,
    /// The number of the file.
    pub file: usize,
    /// Where the track starts in the file.
    pub offset: u64,
    /// Whether the bytes of each pair change places.
    pub swap: bool,
    /// The frame of index 0, or -1.
    pub idx0: i64,
    /// The frame of index 1, or -1.
    pub idx1: i64,
}

impl CdTrack {
    /// Whether a frame has room for what it holds.
    pub open spec fn wf(self) -> bool {
        0 < self.datasize <= CD_MAX_SECTOR_DATA && self.subsize <= CD_MAX_SUBCODE_DATA
    }

    /// The bytes that a frame has in the file.
    pub open spec fn frame_bytes(self) -> nat {
        (self.datasize + self.subsize) as nat
    }

    /// A track of which no more is known.
    pub fn new(trktype: TrackType, datasize: u32, file: usize, swap: bool) -> (r: Self)
        ensures
            r == new_track(trktype, datasize, file, swap),
    {
        CdTrack {
            trktype,
            subtype: SubcodeType::Absent,
            datasize,
            subsize: 0,
            frames: 0,
            pregap: 0,
            postgap: 0,
            pgtype: TrackType::Mode1,
            pgsub: SubcodeType::Absent,
            pgdatasize: 0,
            file,
            offset: 0,
            swap,
            idx0: -1,
            idx1: -1,
        }
    }
}

/// A track of which no more is known.
pub open spec fn new_track(trktype: TrackType, datasize: u32, file: usize, swap: bool) -> CdTrack {
    CdTrack {
        trktype,
        subtype: SubcodeType::Absent,
        datasize,
        subsize: 0,
        frames: 0,
        pregap: 0,
        postgap: 0,
        pgtype: TrackType::Mode1,
        pgsub: SubcodeType::Absent,
        pgdatasize: 0,
        file,
        offset: 0,
        swap,
        idx0: (-1) as i64,
        idx1: (-1) as i64,
    }
}

/// A file that tracks come from.
#[derive(Debug)]
pub struct SourceFile {
    /// Two files are the same one where this number is the same.
    pub id: usize,
    /// What the file holds, where it could be read.
    pub data: Option<Vec<u8>>,
}

/// What a file holds, where it could be read.
pub open spec fn contents(files: Seq<SourceFile>, file: int) -> Option<Seq<u8>> {
    if 0 <= file < files.len() {
        match files[file].data {
            Some(v) => Some(v@),
            None => None,
        }
    } else {
        None
    }
}

/// Whether two numbers are of the same file.
pub open spec fn same_file(files: Seq<SourceFile>, a: usize, b: usize) -> bool {
    if a < files.len() && b < files.len() {
        files[a as int].id == files[b as int].id
    } else {
        a == b
    }
}

/// The type of track that a word stands for, with the bytes that a sector of it has in a file.
pub open spec fn type_named(s: Seq<u8>) -> Option<(TrackType, u32)> {
    if s == "MODE1".spec_bytes() || s == "MODE1/2048".spec_bytes() {
        Some((TrackType::Mode1, 2048))
    } else if s == "MODE1_RAW".spec_bytes() || s == "MODE1/2352".spec_bytes() {
        Some((TrackType::Mode1Raw, 2352))
    } else if s == "MODE2".spec_bytes() || s == "MODE2/2336".spec_bytes() {
        Some((TrackType::Mode2, 2336))
    } else if s == "MODE2_FORM1".spec_bytes() || s == "MODE2/2048".spec_bytes() {
        Some((TrackType::Mode2Form1, 2048))
    } else if s == "MODE2_FORM2".spec_bytes() || s == "MODE2/2324".spec_bytes() {
        Some((TrackType::Mode2Form2, 2324))
    } else if s == "MODE2_FORM_MIX".spec_bytes() {
        Some((TrackType::Mode2FormMix, 2336))
    } else if s == "MODE2_RAW".spec_bytes() || s == "MODE2/2352".spec_bytes() || s
        == "CDI/2352".spec_bytes() {
        Some((TrackType::Mode2Raw, 2352))
    } else if s == "AUDIO".spec_bytes() {
        Some((TrackType::Audio, 2352))
    } else {
        None
    }
}

/// Whether a run of bytes is a word.
pub fn is_word(s: &[u8], word: &str) -> (r: bool)
    ensures
        r == (s@ == word.spec_bytes()),
{
    header::same_bytes(s, word.as_bytes())
}

/// The type of track that a word stands for, with the bytes that a sector of it has in a file.
pub fn type_from_string(s: &[u8]) -> (r: Option<(TrackType, u32)>)
    ensures
        r == type_named(s@),
{
    if is_word(s, "MODE1") || is_word(s, "MODE1/2048") {
        Some((TrackType::Mode1, 2048))
    } else if is_word(s, "MODE1_RAW") || is_word(s, "MODE1/2352") {
        Some((TrackType::Mode1Raw, 2352))
    } else if is_word(s, "MODE2") || is_word(s, "MODE2/2336") {
        Some((TrackType::Mode2, 2336))
    } else if is_word(s, "MODE2_FORM1") || is_word(s, "MODE2/2048") {
        Some((TrackType::Mode2Form1, 2048))
    } else if is_word(s, "MODE2_FORM2") || is_word(s, "MODE2/2324") {
        Some((TrackType::Mode2Form2, 2324))
    } else if is_word(s, "MODE2_FORM_MIX") {
        Some((TrackType::Mode2FormMix, 2336))
    } else if is_word(s, "MODE2_RAW") || is_word(s, "MODE2/2352") || is_word(s, "CDI/2352") {
        Some((TrackType::Mode2Raw, 2352))
    } else if is_word(s, "AUDIO") {
        Some((TrackType::Audio, 2352))
    } else {
        None
    }
}

/// The word for a type of track stands for that type.
pub proof fn type_is_read_back(t: TrackType)
    ensures
        type_named(vstd::utf8::encode_utf8(t.word())) == Some((t, t.sector_bytes())),
{
    reveal_strlit("MODE1");
    reveal_strlit("MODE1/2048");
    reveal_strlit("MODE1_RAW");
    reveal_strlit("MODE1/2352");
    reveal_strlit("MODE2");
    reveal_strlit("MODE2/2336");
    reveal_strlit("MODE2_FORM1");
    reveal_strlit("MODE2/2048");
    reveal_strlit("MODE2_FORM2");
    reveal_strlit("MODE2/2324");
    reveal_strlit("MODE2_FORM_MIX");
    reveal_strlit("MODE2_RAW");
    reveal_strlit("MODE2/2352");
    reveal_strlit("CDI/2352");
    reveal_strlit("AUDIO");
    vstd::utf8::encode_utf8_decode_utf8("MODE1"@);
    vstd::utf8::encode_utf8_decode_utf8("MODE1/2048"@);
    vstd::utf8::encode_utf8_decode_utf8("MODE1_RAW"@);
    vstd::utf8::encode_utf8_decode_utf8("MODE1/2352"@);
    vstd::utf8::encode_utf8_decode_utf8("MODE2"@);
    vstd::utf8::encode_utf8_decode_utf8("MODE2/2336"@);
    vstd::utf8::encode_utf8_decode_utf8("MODE2_FORM1"@);
    vstd::utf8::encode_utf8_decode_utf8("MODE2/2048"@);
    vstd::utf8::encode_utf8_decode_utf8("MODE2_FORM2"@);
    vstd::utf8::encode_utf8_decode_utf8("MODE2/2324"@);
    vstd::utf8::encode_utf8_decode_utf8("MODE2_FORM_MIX"@);
    vstd::utf8::encode_utf8_decode_utf8("MODE2_RAW"@);
    vstd::utf8::encode_utf8_decode_utf8("MODE2/2352"@);
    vstd::utf8::encode_utf8_decode_utf8("CDI/2352"@);
    vstd::utf8::encode_utf8_decode_utf8("AUDIO"@);
    assert("MODE1"@[4] != "MODE2"@[4] && "AUDIO"@[4] == 'O');
    assert("MODE1_RAW"@[4] != "MODE2_RAW"@[4]);
    assert("MODE2_FORM1"@[10] != "MODE2_FORM2"@[10]);
}

/// A frame: what the file has of it with zeros behind it. Where the bytes are swapped, the two bytes
/// of each pair of sector data have changed places.
pub open spec fn frame_of(block: Seq<u8>, swap: bool) -> Seq<u8> {
    Seq::new(
        2448,
        |k: int|
            {
                let j = if swap && k < 2352 {
                    if k % 2 == 0 {
                        k + 1
                    } else {
                        k - 1
                    }
                } else {
                    k
                };
                if j < block.len() {
                    block[j]
                } else {
                    0
                }
            },
    )
}

/// What the file has of frame `k` of a track.
pub open spec fn block_at(data: Seq<u8>, t: CdTrack, k: int) -> Seq<u8> {
    data.subrange(
        t.offset + k * t.frame_bytes() as int,
        t.offset + (k + 1) * t.frame_bytes() as int,
    )
}

/// The first frames of a track.
pub open spec fn frames_image(data: Seq<u8>, t: CdTrack, n: nat) -> Seq<u8>
    decreases n,
{
    if n == 0 {
        Seq::empty()
    } else {
        frames_image(data, t, (n - 1) as nat) + frame_of(block_at(data, t, n - 1), t.swap)
    }
}

/// A number of frames, rounded up to a multiple of the padding.
pub open spec fn padded_frames(frames: u32) -> nat {
    ((frames + 3) / 4 * 4) as nat
}

/// What each file holds, where it could be read.
pub open spec fn all_contents(files: Seq<SourceFile>) -> Seq<Option<Seq<u8>>> {
    Seq::new(files.len(), |i: int| contents(files, i))
}

/// What one of the files holds, where it could be read.
pub open spec fn held(datas: Seq<Option<Seq<u8>>>, file: int) -> Option<Seq<u8>> {
    if 0 <= file < datas.len() {
        datas[file]
    } else {
        None
    }
}

/// Whether the file has all frames of a track.
pub open spec fn is_held(datas: Seq<Option<Seq<u8>>>, t: CdTrack) -> bool {
    t.frames > 0 ==> (held(datas, t.file as int) matches Some(d) && t.offset + t.frames
        * t.frame_bytes() <= d.len())
}

/// A track as the image has it: its frames, and empty frames up to a multiple of the padding.
pub open spec fn track_image(datas: Seq<Option<Seq<u8>>>, t: CdTrack) -> Seq<u8> {
    frames_image(held(datas, t.file as int)->0, t, t.frames as nat) + bytes::zeros(
        ((padded_frames(t.frames) - t.frames) * 2448) as nat,
    )
}

/// The image of a CD: one track behind the other.
pub open spec fn cd_image(datas: Seq<Option<Seq<u8>>>, ts: Seq<CdTrack>) -> Seq<u8>
    decreases ts.len(),
{
    if ts.len() == 0 {
        Seq::empty()
    } else {
        cd_image(datas, ts.drop_last()) + track_image(datas, ts.last())
    }
}

/// The number of frames that tracks take in an image.
pub open spec fn total_frames(ts: Seq<CdTrack>) -> nat
    decreases ts.len(),
{
    if ts.len() == 0 {
        0
    } else {
        total_frames(ts.drop_last()) + padded_frames(ts.last().frames)
    }
}

/// Whether memory can hold the image.
pub open spec fn image_fits(ts: Seq<CdTrack>) -> bool {
    &&& forall|i: int| 0 <= i < ts.len() ==> (#[trigger] ts[i]).frames <= u32::MAX - 3
    &&& total_frames(ts) * 2448 <= usize::MAX
}

/// What stands in the way of an image, if anything.
pub open spec fn image_fault(datas: Seq<Option<Seq<u8>>>, ts: Seq<CdTrack>) -> Option<Error> {
    if !image_fits(ts) {
        Some(Error::OutOfMemory)
    } else if exists|i: int| 0 <= i < ts.len() && !is_held(datas, #[trigger] ts[i]) {
        Some(Error::ReadError)
    } else {
        None
    }
}

proof fn lemma_frames_len(data: Seq<u8>, t: CdTrack, n: nat)
    ensures
        frames_image(data, t, n).len() == n * 2448,
    decreases n,
{
    if n > 0 {
        lemma_frames_len(data, t, (n - 1) as nat);
    }
}

/// An image is as long as the frames of its tracks.
pub proof fn image_length(datas: Seq<Option<Seq<u8>>>, ts: Seq<CdTrack>)
    ensures
        cd_image(datas, ts).len() == total_frames(ts) * 2448,
        total_frames(ts) % 4 == 0,
    decreases ts.len(),
{
    if ts.len() > 0 {
        image_length(datas, ts.drop_last());
        lemma_frames_len(held(datas, ts.last().file as int)->0, ts.last(), ts.last().frames as nat);
    }
}

proof fn lemma_frames_at(data: Seq<u8>, t: CdTrack, n: nat, k: int)
    requires
        0 <= k < n,
    ensures
        frames_image(data, t, n).len() == n * 2448,
        frames_image(data, t, n).subrange(k * 2448, k * 2448 + 2448) == frame_of(
            block_at(data, t, k),
            t.swap,
        ),
    decreases n,
{
    lemma_frames_len(data, t, n);
    lemma_frames_len(data, t, (n - 1) as nat);
    let front = frames_image(data, t, (n - 1) as nat);
    if k < n - 1 {
        lemma_frames_at(data, t, (n - 1) as nat, k);
        assert(frames_image(data, t, n).subrange(k * 2448, k * 2448 + 2448) =~= front.subrange(
            k * 2448,
            k * 2448 + 2448,
        ));
    } else {
        assert(frames_image(data, t, n).subrange(k * 2448, k * 2448 + 2448) =~= frame_of(
            block_at(data, t, k),
            t.swap,
        ));
    }
}

/// Each frame of each track stands in the image behind the tracks before it.
pub proof fn frame_is_in_image(datas: Seq<Option<Seq<u8>>>, ts: Seq<CdTrack>, i: int, k: int)
    requires
        0 <= i < ts.len(),
        0 <= k < ts[i].frames,
    ensures
        ({
            let at = (total_frames(ts.take(i)) + k) * 2448;
            &&& at + 2448 <= cd_image(datas, ts).len()
            &&& cd_image(datas, ts).subrange(at, at + 2448) == frame_of(
                block_at(held(datas, ts[i].file as int)->0, ts[i], k),
                ts[i].swap,
            )
        }),
    decreases ts.len(),
{
    let last = ts.len() - 1;
    let front = cd_image(datas, ts.drop_last());
    let at = (total_frames(ts.take(i)) + k) * 2448;
    image_length(datas, ts);
    image_length(datas, ts.drop_last());
    if i < last {
        frame_is_in_image(datas, ts.drop_last(), i, k);
        assert(ts.drop_last().take(i) =~= ts.take(i));
        assert(cd_image(datas, ts).subrange(at, at + 2448) =~= front.subrange(at, at + 2448));
    } else {
        let t = ts[i];
        let data = held(datas, t.file as int)->0;
        assert(ts.take(i) =~= ts.drop_last());
        lemma_frames_at(data, t, t.frames as nat, k);
        let own = frames_image(data, t, t.frames as nat);
        assert(cd_image(datas, ts).subrange(at, at + 2448) =~= own.subrange(
            k * 2448,
            k * 2448 + 2448,
        ));
    }
}

/// The frames that fill a track up are empty.
pub proof fn padding_is_empty(datas: Seq<Option<Seq<u8>>>, ts: Seq<CdTrack>, i: int, k: int)
    requires
        0 <= i < ts.len(),
        ts[i].frames <= k < padded_frames(ts[i].frames),
    ensures
        ({
            let at = (total_frames(ts.take(i)) + k) * 2448;
            &&& at + 2448 <= cd_image(datas, ts).len()
            &&& cd_image(datas, ts).subrange(at, at + 2448) == bytes::zeros(2448)
        }),
    decreases ts.len(),
{
    let last = ts.len() - 1;
    let front = cd_image(datas, ts.drop_last());
    let at = (total_frames(ts.take(i)) + k) * 2448;
    image_length(datas, ts);
    image_length(datas, ts.drop_last());
    if i < last {
        padding_is_empty(datas, ts.drop_last(), i, k);
        assert(ts.drop_last().take(i) =~= ts.take(i));
        assert(cd_image(datas, ts).subrange(at, at + 2448) =~= front.subrange(at, at + 2448));
    } else {
        assert(ts.take(i) =~= ts.drop_last());
        lemma_frames_len(held(datas, ts[i].file as int)->0, ts[i], ts[i].frames as nat);
        assert(cd_image(datas, ts).subrange(at, at + 2448) =~= bytes::zeros(2448));
    }
}

/// To swap the bytes of a frame again gives the frame back.
pub proof fn swap_is_undone(block: Seq<u8>)
    requires
        block.len() <= 2448,
    ensures
        frame_of(frame_of(block, true), true) == frame_of(block, false),
{
    assert(frame_of(frame_of(block, true), true) =~= frame_of(block, false));
}

/// Appends a frame.
fn push_frame(out: &mut Vec<u8>, block: &[u8], swap: bool)
    requires
        block@.len() <= 2448,
    ensures
        final(out)@ == old(out)@ + frame_of(block@, swap),
{
    let n = block.len();
    let mut k: usize = 0;
    let ghost frame = frame_of(block@, swap);
    assert(frame.take(0) =~= Seq::empty());
    assert(out@ =~= old(out)@ + frame.take(0));
    while k < 2448
        invariant
            k <= 2448,
            n == block@.len(),
            frame == frame_of(block@, swap),
            out@ == old(out)@ + frame.take(k as int),
        decreases 2448 - k,
    {
        let j: usize = if swap && k < 2352 {
            if k % 2 == 0 {
                k + 1
            } else {
                k - 1
            }
        } else {
            k
        };
        let b: u8 = if j < n {
            block[j]
        } else {
            0
        };
        out.push(b);
        assert(frame.take(k + 1) =~= frame.take(k as int).push(b));
        assert(out@ =~= old(out)@ + frame.take(k + 1));
        k = k + 1;
    }
    assert(frame.take(2448) =~= frame);
}

/// Appends the frames of a track.
fn push_track(out: &mut Vec<u8>, data: &[u8], t: &CdTrack)
    requires
        t.wf(),
        t.offset + t.frames * t.frame_bytes() <= data@.len(),
    ensures
        final(out)@ == old(out)@ + frames_image(data@, *t, t.frames as nat),
{
    let len = data.len();
    let bpf: usize = (t.datasize + t.subsize) as usize;
    let mut at: usize = t.offset as usize;
    let mut k: u32 = 0;
    assert(out@ =~= old(out)@ + frames_image(data@, *t, 0));
    while k < t.frames
        invariant
            k <= t.frames,
            t.wf(),
            bpf == t.frame_bytes(),
            len == data@.len(),
            t.offset + t.frames * t.frame_bytes() <= data@.len(),
            at == t.offset + k * t.frame_bytes(),
            out@ == old(out)@ + frames_image(data@, *t, k as nat),
        decreases t.frames - k,
    {
        assert((k + 1) * bpf == k * bpf + bpf) by (nonlinear_arith);
        assert((k + 1) * bpf <= t.frames * bpf) by (nonlinear_arith)
            requires
                k + 1 <= t.frames,
        ;
        let block = &data[at..at + bpf];
        assert(block@ =~= block_at(data@, *t, k as int));
        push_frame(out, block, t.swap);
        assert(out@ =~= old(out)@ + frames_image(data@, *t, (k + 1) as nat));
        at = at + bpf;
        k = k + 1;
    }
}

/// Whether memory can hold the image of tracks.
fn fits_memory(tracks: &Vec<CdTrack>) -> (r: bool)
    ensures
        r == image_fits(tracks@),
{
    let n = tracks.len();
    let mut total: usize = 0;
    let mut big: bool = false;
    let mut i: usize = 0;
    assert(tracks@.take(0) =~= Seq::empty());
    while i < n
        invariant
            i <= n == tracks@.len(),
            !big ==> total == total_frames(tracks@.take(i as int)) && total * 2448 <= usize::MAX,
            big ==> total_frames(tracks@.take(i as int)) * 2448 > usize::MAX,
            forall|j: int| 0 <= j < i ==> (#[trigger] tracks@[j]).frames <= u32::MAX - 3,
        decreases n - i,
    {
        let t = tracks[i];
        if t.frames > 0xffff_fffc {
            assert(!image_fits(tracks@)) by {
                assert(tracks@[i as int].frames > u32::MAX - 3);
            }
            return false;
        }
        let padded: u32 = (t.frames + 3) / 4 * 4;
        assert(tracks@.take(i + 1).drop_last() =~= tracks@.take(i as int));
        if !big {
            let room: usize = usize::MAX / 2448 - total;
            if padded as usize > room {
                big = true;
            } else {
                total = total + padded as usize;
            }
        }
        i = i + 1;
    }
    assert(tracks@.take(n as int) =~= tracks@);
    !big
}

/// Puts the image of tracks together.
pub fn assemble_logical(tracks: &Vec<CdTrack>, files: &[SourceFile]) -> (r: Result<Vec<u8>, Error>)
    requires
        forall|k: int| 0 <= k < tracks@.len() ==> (#[trigger] tracks@[k]).wf(),
    ensures
        match r {
            Ok(v) => image_fault(all_contents(files@), tracks@) is None && v@ == cd_image(
                all_contents(files@),
                tracks@,
            ),
            Err(e) => image_fault(all_contents(files@), tracks@) == Some(e),
        },
{
    let ghost datas = all_contents(files@);
    if !fits_memory(tracks) {
        return Err(Error::OutOfMemory);
    }
    let mut out: Vec<u8> = Vec::new();
    let n = tracks.len();
    let file_count = files.len();
    let mut i: usize = 0;
    assert(tracks@.take(0) =~= Seq::empty());
    while i < n
        invariant
            i <= n == tracks@.len(),
            file_count == files@.len(),
            datas == all_contents(files@),
            image_fits(tracks@),
            forall|k: int| 0 <= k < tracks@.len() ==> (#[trigger] tracks@[k]).wf(),
            forall|k: int| 0 <= k < i ==> is_held(datas, #[trigger] tracks@[k]),
            out@ == cd_image(datas, tracks@.take(i as int)),
        decreases n - i,
    {
        let t = tracks[i];
        let ghost before = out@;
        let ghost own = frames_image(held(datas, t.file as int)->0, t, t.frames as nat);
        assert(tracks@[i as int] == t);
        if t.frames > 0 {
            let bpf: u64 = (t.datasize + t.subsize) as u64;
            assert(t.frames as u64 * bpf <= 0xffff_ffff * 2448) by (nonlinear_arith)
                requires
                    t.frames <= 0xffff_ffff,
                    bpf <= 2448,
            ;
            let need: u64 = t.frames as u64 * bpf;
            if t.file >= file_count {
                assert(!is_held(datas, tracks@[i as int]));
                return Err(Error::ReadError);
            }
            assert(held(datas, t.file as int) == contents(files@, t.file as int));
            match &files[t.file].data {
                None => {
                    assert(!is_held(datas, tracks@[i as int]));
                    return Err(Error::ReadError);
                },
                Some(v) => {
                    let size = v.len() as u64;
                    if t.offset > size || need > size - t.offset {
                        assert(!is_held(datas, tracks@[i as int]));
                        return Err(Error::ReadError);
                    }
                    push_track(&mut out, v.as_slice(), &t);
                },
            }
        } else {
            assert(own =~= Seq::empty());
        }
        assert(out@ =~= before + own);
        let extra: u32 = (t.frames + 3) / 4 * 4 - t.frames;
        let count: usize = extra as usize * 2448;
        let zeros: Vec<u8> = vec![0u8; count];
        assert(zeros@ =~= bytes::zeros(count as nat));
        out.extend_from_slice(zeros.as_slice());
        proof {
            assert(tracks@.take(i + 1).drop_last() =~= tracks@.take(i as int));
            assert(out@ =~= before + track_image(datas, t));
        }
        i = i + 1;
    }
    assert(tracks@.take(n as int) =~= tracks@);
    Ok(out)
}

/// The text that describes a track.
pub open spec fn track_text(number: nat, t: CdTrack) -> Seq<u8> {
    "TRACK:".spec_bytes() + text::decimal(number) + " TYPE:".spec_bytes()
        + vstd::utf8::encode_utf8(t.trktype.word()) + " SUBTYPE:".spec_bytes()
        + vstd::utf8::encode_utf8(t.subtype.word()) + " FRAMES:".spec_bytes() + text::decimal(
        t.frames as nat,
    ) + " PREGAP:".spec_bytes() + text::decimal(t.pregap as nat) + (if t.pgdatasize > 0 {
        " PGTYPE:V".spec_bytes()
    } else {
        " PGTYPE:".spec_bytes()
    }) + vstd::utf8::encode_utf8(t.pgtype.word()) + " PGSUB:".spec_bytes()
        + vstd::utf8::encode_utf8(t.pgsub.word()) + " POSTGAP:".spec_bytes() + text::decimal(
        t.postgap as nat,
    )
}

/// The tag of the metadata of a track.
pub open spec fn track_tag() -> u32 {
    header::tag_of(0x43, 0x48, 0x54, 0x32)
}

/// The metadata of tracks: for each one its text with a zero behind it.
pub open spec fn track_metas(ts: Seq<CdTrack>) -> Seq<Meta> {
    Seq::new(
        ts.len(),
        |i: int|
            Meta {
                tag: track_tag(),
                flags: METADATA_FLAG_CHECKSUM,
                payload: track_text((i + 1) as nat, ts[i]).push(0),
            },
    )
}

/// Appends a word.
fn push_word(out: &mut Vec<u8>, word: &str)
    ensures
        final(out)@ == old(out)@ + word.spec_bytes(),
{
    out.extend_from_slice(word.as_bytes());
}

/// Writes the text that describes a track.
pub fn format_track(number: u64, t: &CdTrack) -> (r: Vec<u8>)
    ensures
        r@ == track_text(number as nat, *t).push(0),
{
    let mut out: Vec<u8> = Vec::new();
    push_word(&mut out, "TRACK:");
    text::push_decimal(&mut out, number);
    push_word(&mut out, " TYPE:");
    push_word(&mut out, t.trktype.type_string());
    push_word(&mut out, " SUBTYPE:");
    push_word(&mut out, t.subtype.subtype_string());
    push_word(&mut out, " FRAMES:");
    text::push_decimal(&mut out, t.frames as u64);
    push_word(&mut out, " PREGAP:");
    text::push_decimal(&mut out, t.pregap as u64);
    if t.pgdatasize > 0 {
        push_word(&mut out, " PGTYPE:V");
    } else {
        push_word(&mut out, " PGTYPE:");
    }
    push_word(&mut out, t.pgtype.type_string());
    push_word(&mut out, " PGSUB:");
    push_word(&mut out, t.pgsub.subtype_string());
    push_word(&mut out, " POSTGAP:");
    text::push_decimal(&mut out, t.postgap as u64);
    assert(out@ =~= track_text(number as nat, *t));
    out.push(0);
    out
}

/// Builds the metadata of tracks.
pub fn build_cht2_entries(tracks: &Vec<CdTrack>) -> (r: Vec<MetaEntry>)
    ensures
        metadata::metas(r@) == track_metas(tracks@),
{
    let mut out: Vec<MetaEntry> = Vec::new();
    let n = tracks.len();
    let mut i: usize = 0;
    while i < n
        invariant
            i <= n == tracks@.len(),
            out@.len() == i,
            forall|k: int| 0 <= k < i ==> (#[trigger] out@[k])@ == track_metas(tracks@)[k],
        decreases n - i,
    {
        let entry = MetaEntry {
            tag: header::make_tag(&[0x43, 0x48, 0x54, 0x32]),
            flags: METADATA_FLAG_CHECKSUM,
            payload: format_track(i as u64 + 1, &tracks[i]),
        };
        assert(entry@ == track_metas(tracks@)[i as int]);
        out.push(entry);
        i = i + 1;
    }
    assert(metadata::metas(out@) =~= track_metas(tracks@));
    out
}

/// How to create a CD image.
#[derive(Debug, Clone, Copy)]
pub struct CdCreateOptions {
    /// The size of a hunk: a multiple of the size of a frame.
    pub hunk_size: u32,
    /// The numbers of the codecs, by slot. All zeros stand for no compression.
    pub codecs: [u32; 4],
}

impl Default for CdCreateOptions {
    fn default() -> (r: Self)
        ensures
            r.hunk_size == 19584,
            r.codecs@ == seq![CHD_CODEC_CD_LZMA, CHD_CODEC_CD_ZLIB, CHD_CODEC_CD_FLAC, 0],
    {
        let codecs: [u32; 4] = [CHD_CODEC_CD_LZMA, CHD_CODEC_CD_ZLIB, CHD_CODEC_CD_FLAC, 0];
        assert(codecs@ =~= seq![CHD_CODEC_CD_LZMA, CHD_CODEC_CD_ZLIB, CHD_CODEC_CD_FLAC, 0]);
        CdCreateOptions { hunk_size: DEFAULT_HUNK_SIZE, codecs }
    }
}

/// The plan for a CD image.
pub open spec fn plan_of(
    ts: Seq<CdTrack>,
    datas: Seq<Option<Seq<u8>>>,
    o: CdCreateOptions,
) -> Plan {
    Plan {
        data: cd_image(datas, ts),
        hunk_size: o.hunk_size,
        unit_size: CD_FRAME_SIZE,
        codecs: crate::write::resolved(o.codecs@),
        metadata: track_metas(ts),
    }
}

/// What stands in the way of a plan, if anything.
pub open spec fn plan_fault(
    ts: Seq<CdTrack>,
    datas: Seq<Option<Seq<u8>>>,
    o: CdCreateOptions,
) -> Option<Error> {
    if o.hunk_size == 0 || o.hunk_size % CD_FRAME_SIZE != 0 {
        Some(Error::InvalidParameter)
    } else {
        match image_fault(datas, ts) {
            Some(e) => Some(e),
            None => crate::write::slots_fault(o.codecs@),
        }
    }
}

/// Plans a CD image.
pub fn plan(tracks: &Vec<CdTrack>, files: &[SourceFile], opts: &CdCreateOptions) -> (r: Result<
    CreatePlan,
    Error,
>)
    requires
        forall|k: int| 0 <= k < tracks@.len() ==> (#[trigger] tracks@[k]).wf(),
    ensures
        match r {
            Ok(p) => plan_fault(tracks@, all_contents(files@), *opts) is None && p@ == plan_of(
                tracks@,
                all_contents(files@),
                *opts,
            ),
            Err(e) => plan_fault(tracks@, all_contents(files@), *opts) == Some(e),
        },
{
    if opts.hunk_size == 0 || opts.hunk_size % CD_FRAME_SIZE != 0 {
        return Err(Error::InvalidParameter);
    }
    let data = match assemble_logical(tracks, files) {
        Ok(v) => v,
        Err(e) => {
            return Err(e);
        },
    };
    let entries = build_cht2_entries(tracks);
    let codecs = match resolve_codecs(&opts.codecs) {
        Ok(c) => c,
        Err(e) => {
            return Err(e);
        },
    };
    Ok(
        CreatePlan {
            data,
            hunk_size: opts.hunk_size,
            unit_size: CD_FRAME_SIZE,
            codecs,
            metadata: entries,
        },
    )
}

/// Whether creating a CD image comes out as the tracks, the files and the options say.
pub open spec fn is_built(
    ts: Seq<CdTrack>,
    datas: Seq<Option<Seq<u8>>>,
    o: CdCreateOptions,
    before: Seq<u8>,
    after: Seq<u8>,
    r: Result<(), Error>,
) -> bool {
    match plan_fault(ts, datas, o) {
        Some(e) => r == Err::<(), Error>(e) && after == before,
        None => hd::attempted(plan_of(ts, datas, o), before, after, r),
    }
}

/// Creates a CD image of tracks behind what `out` holds.
pub fn build_cd(
    tracks: &Vec<CdTrack>,
    files: &[SourceFile],
    out: &mut Vec<u8>,
    opts: &CdCreateOptions,
) -> (r: Result<(), Error>)
    requires
        forall|k: int| 0 <= k < tracks@.len() ==> (#[trigger] tracks@[k]).wf(),
    ensures
        is_built(tracks@, all_contents(files@), *opts, old(out)@, final(out)@, r),
{
    match plan(tracks, files, opts) {
        Err(e) => Err(e),
        Ok(p) => hd::attempt(&p, out),
    }
}

/// Creates a CD image of a CUE sheet and the files that it names, in their order.
pub fn create_from_cue(
    sheet: &[u8],
    files: &[SourceFile],
    out: &mut Vec<u8>,
    opts: &CdCreateOptions,
) -> (r: Result<(), Error>)
    ensures
        match cue::tracks_of(sheet@, files@) {
            Err(e) => r == Err::<(), Error>(e) && final(out)@ == old(out)@,
            Ok(ts) => is_built(ts, all_contents(files@), *opts, old(out)@, final(out)@, r),
        },
{
    match cue::parse_cue(sheet, files) {
        Err(e) => Err(e),
        Ok(tracks) => build_cd(&tracks, files, out, opts),
    }
}

/// The track that a file of nothing but sectors makes: the sectors are of the first size that its
/// length is a multiple of.
pub open spec fn flat_track(size: nat) -> Option<CdTrack> {
    let whole = |t: TrackType|
        CdTrack {
            frames: cue::low_bits(size as int / t.sector_bytes() as int),
            idx0: 0,
            idx1: 0,
            ..new_track(t, t.sector_bytes(), 0, false)
        };
    if size % 2048 == 0 {
        Some(whole(TrackType::Mode1))
    } else if size % 2336 == 0 {
        Some(whole(TrackType::Mode2))
    } else if size % 2352 == 0 {
        Some(whole(TrackType::Mode2Raw))
    } else {
        None
    }
}

/// The track that a file of nothing but sectors makes takes all of the file, where 32 bits hold the
/// number of sectors.
pub proof fn flat_track_takes_all(size: nat)
    requires
        flat_track(size) is Some,
        size / flat_track(size)->0.frame_bytes() <= u32::MAX,
    ensures
        flat_track(size)->0.frames * flat_track(size)->0.frame_bytes() == size,
        flat_track(size)->0.offset == 0,
{
    let bytes = flat_track(size)->0.frame_bytes() as int;
    vstd::arithmetic::div_mod::lemma_fundamental_div_mod(size as int, bytes);
    vstd::arithmetic::mul::lemma_mul_is_commutative(bytes, size as int / bytes);
}

/// The track that a file of nothing but sectors makes, by the length of the file.
pub fn parse_iso(size: u64) -> (r: Result<CdTrack, Error>)
    ensures
        match r {
            Ok(t) => flat_track(size as nat) == Some(t) && t.wf(),
            Err(e) => flat_track(size as nat) is None && e == Error::UnsupportedFormat,
        },
{
    let (trktype, datasize): (TrackType, u32) = if size % 2048 == 0 {
        (TrackType::Mode1, 2048)
    } else if size % 2336 == 0 {
        (TrackType::Mode2, 2336)
    } else if size % 2352 == 0 {
        (TrackType::Mode2Raw, 2352)
    } else {
        return Err(Error::UnsupportedFormat);
    };
    let mut t = CdTrack::new(trktype, datasize, 0, false);
    t.frames = (size / datasize as u64 % 0x1_0000_0000) as u32;
    t.idx0 = 0;
    t.idx1 = 0;
    Ok(t)
}

/// Creates a CD image of a file of nothing but sectors.
pub fn create_from_iso(data: Vec<u8>, out: &mut Vec<u8>, opts: &CdCreateOptions) -> (r: Result<
    (),
    Error,
>)
    ensures
        match flat_track(data@.len()) {
            None => r == Err::<(), Error>(Error::UnsupportedFormat) && final(out)@ == old(out)@,
            Some(t) => is_built(
                seq![t],
                seq![Some(data@)],
                *opts,
                old(out)@,
                final(out)@,
                r,
            ),
        },
{
    let ghost d = data@;
    let t = match parse_iso(data.len() as u64) {
        Ok(t) => t,
        Err(e) => {
            return Err(e);
        },
    };
    let mut tracks: Vec<CdTrack> = Vec::new();
    tracks.push(t);
    let mut files: Vec<SourceFile> = Vec::new();
    files.push(SourceFile { id: 0, data: Some(data) });
    proof {
        assert(tracks@ =~= seq![t]);
        assert(contents(files@, 0) == Some(d));
        assert(all_contents(files@) =~= seq![Some(d)]);
    }
    build_cd(&tracks, files.as_slice(), out, opts)
}

} // verus!
