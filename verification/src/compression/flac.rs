//! The FLAC codecs. A hunk is taken for two-channel audio of 16-bit samples.

use crate::bytes;
use crate::cdrom::{CD_FRAME_SIZE, CD_MAX_SECTOR_DATA, CD_MAX_SUBCODE_DATA};
use crate::compression::cdrom;
use crate::compression::zlib::{ZlibCodec, ZlibEncoder};
use crate::compression::{
    copy_at, put_stream, CodecEncodeImplementation, CodecImplementation, CompressionCodec,
    CompressionCodecType, CompressionEncoder, DecompressResult, Decoded,
};
use crate::error::Error;
use crate::header::CodecType;
use claxon::frame::FrameReader;
use libflac_rs::{Encoder, EncoderConfig};
use std::io::Cursor;
use vstd::prelude::*;

verus! {

/// What `claxon::frame::FrameReader::read_next_or_eof` comes to on the frame at `pos`: the number of
/// channels, the number of samples in each, the samples, channel by channel, and the place behind
/// the frame; nothing where there is no frame, or a faulty one.
pub uninterp spec fn flac_block(input: Seq<u8>, pos: nat) -> Option<(nat, nat, Seq<i32>, nat)>;

/// The most bytes among which a frame is looked for.
pub const FLAC_REACH: u32 = 0x1fff_ffff;

/// The bytes up to which a frame at `pos` may reach.
pub open spec fn reach(input: Seq<u8>, pos: nat) -> Seq<u8> {
    if input.len() - pos <= FLAC_REACH {
        input
    } else {
        input.take((pos + FLAC_REACH) as int)
    }
}

/// `claxon::frame::FrameReader` over a cursor at `pos`, with one `read_next_or_eof`. The result
/// depends on the bytes and the place alone. A block has at least one sample in each channel, its
/// buffer holds the channels and nothing else, and the reader moves on, but not past the end. It
/// counts zero bits in 32 bits, so no more bytes follow than have that many bits.
#[verifier::external_body]
fn read_flac_block(input: &[u8], pos: u64) -> (r: Option<(u32, u32, Vec<i32>, u64)>)
    requires
        pos <= input@.len(),
        input@.len() - pos <= FLAC_REACH,
    ensures
        match r {
            Some((channels, duration, samples, next)) => flac_block(input@, pos as nat) == Some(
                (channels as nat, duration as nat, samples@, next as nat),
            ) && duration > 0 && samples@.len() == channels * duration && pos < next <= input@.len(),
            None => flac_block(input@, pos as nat) is None,
        },
{
    let mut cursor = Cursor::new(input);
    cursor.set_position(pos);
    let mut reader = FrameReader::new(cursor);
    match reader.read_next_or_eof(Vec::new()) {
        Ok(Some(block)) => {
            let (channels, duration) = (block.channels(), block.duration());
            Some((channels, duration, block.into_buffer(), reader.into_inner().position()))
        }
        _ => None,
    }
}

/// The two bytes of a sample, of which the low 16 bits count.
pub open spec fn sample_bytes(v: i32, big: bool) -> Seq<u8> {
    let u = v as int % 65536;
    if big {
        seq![(u / 256) as u8, (u % 256) as u8]
    } else {
        seq![(u % 256) as u8, (u / 256) as u8]
    }
}

/// The bytes of the first `n` samples of a block, left and right in turn.
pub open spec fn block_bytes(samples: Seq<i32>, duration: nat, n: nat, big: bool) -> Seq<u8>
    decreases n,
{
    if n == 0 {
        Seq::empty()
    } else {
        block_bytes(samples, duration, (n - 1) as nat, big) + sample_bytes(samples[n - 1], big)
            + sample_bytes(samples[duration + n - 1], big)
    }
}

/// The bytes of the blocks from `pos` on, until at least `need` samples, `done` of them before, are
/// there; the number of samples, and the place behind the last block. It is an error where a block
/// is missing or faulty or has other than two channels, and where a block goes past `room` bytes.
pub open spec fn flac_bytes(
    input: Seq<u8>,
    pos: nat,
    need: nat,
    done: nat,
    room: nat,
    big: bool,
) -> Decoded
    decreases
            if done >= need {
                0
            } else {
                need - done
            },
{
    if done >= need {
        Ok((Seq::empty(), done, pos))
    } else {
        match flac_block(reach(input, pos), pos) {
            None => Err(Error::DecompressionError),
            Some((channels, duration, samples, next)) => if channels != 2 || duration == 0 {
                Err(Error::DecompressionError)
            } else if (done + duration) * 4 > room {
                Err(Error::ReadError)
            } else {
                match flac_bytes(input, next, need, done + duration, room, big) {
                    Err(e) => Err(e),
                    Ok((rest, total, end)) => Ok(
                        (block_bytes(samples, duration, duration, big) + rest, total, end),
                    ),
                }
            },
        }
    }
}

/// What FLAC frames decompress to. Bytes past the last whole sample stay as they are.
pub open spec fn flac_decoded(input: Seq<u8>, old_out: Seq<u8>, big: bool) -> Decoded {
    match flac_bytes(input, 0, old_out.len() / 4, 0, old_out.len(), big) {
        Err(e) => Err(e),
        Ok((data, total, end)) => Ok((data + old_out.skip(data.len() as int), total * 4, end)),
    }
}

/// The bytes of interleaved samples.
pub open spec fn pcm_bytes(samples: Seq<i32>, big: bool) -> Seq<u8> {
    Seq::new(2 * samples.len(), |i: int| sample_bytes(samples[i / 2], big)[i % 2])
}

/// Whether frames decompress to the given interleaved samples, and end where they end, whatever
/// stands behind them.
pub open spec fn frames_hold(frames: Seq<u8>, samples: Seq<i32>) -> bool {
    forall|rest: Seq<u8>, big: bool|
        #[trigger] flac_bytes(frames + rest, 0, samples.len() / 2, 0, 2 * samples.len(), big)
            == Decoded::Ok((pcm_bytes(samples, big), samples.len() / 2, frames.len()))
}

/// What is known of frames that were made of 16-bit samples with a block size.
pub open spec fn may_encode(samples: Seq<i32>, block_size: u32, frames: Seq<u8>) -> bool {
    16 <= block_size ==> frames_hold(frames, samples)
}

/// `libflac_rs::Encoder` for the configuration of `libflac_rs::EncoderConfig::chd`, with its
/// `encode_frames`. The frames rest on floating-point arithmetic, so they may differ from machine to
/// machine, and nothing is claimed of their bytes. In every case they are FLAC frames, which end
/// where they say and are decoded to the samples; this is claimed from the smallest block size of
/// the format on.
#[verifier::external_body]
fn encode_flac(samples: &[i32], block_size: u32) -> (r: Vec<u8>)
    requires
        0 < block_size <= 65535,
        samples@.len() % 2 == 0,
        samples@.len() <= u32::MAX,
        forall|i: int| 0 <= i < samples@.len() ==> -32768 <= #[trigger] samples@[i] <= 32767,
    ensures
        may_encode(samples@, block_size, r@),
{
    Encoder::new(EncoderConfig::chd(block_size)).encode_frames(samples)
}

/// Appends the two bytes of a sample.
fn push_sample(out: &mut Vec<u8>, v: i32, big: bool)
    ensures
        final(out)@ == old(out)@ + sample_bytes(v, big),
{
    let u: u64 = ((v as i64 + 0x1_0000_0000) as u64) % 65536;
    assert(u == v as int % 65536);
    if big {
        out.push((u / 256) as u8);
        out.push((u % 256) as u8);
    } else {
        out.push((u % 256) as u8);
        out.push((u / 256) as u8);
    }
    assert(out@ =~= old(out)@ + sample_bytes(v, big));
}

/// Decompresses FLAC frames to samples of the given byte order.
fn flac_decompress(input: &[u8], output: &mut [u8], big: bool) -> (r: Result<DecompressResult, Error>)
    ensures
        final(output)@.len() == old(output)@.len(),
        match r {
            Ok(d) => flac_decoded(input@, old(output)@, big) == Decoded::Ok(
                (final(output)@, d.bytes_out as nat, d.bytes_read as nat),
            ) && d.bytes_out <= old(output)@.len() && d.bytes_read <= input@.len(),
            Err(e) => flac_decoded(input@, old(output)@, big) == Decoded::Err(e),
        },
{
    let room = output.len();
    let need = room / 4;
    let len = input.len();
    let mut out: Vec<u8> = Vec::new();
    let mut done: usize = 0;
    let mut pos: u64 = 0;
    let ghost whole = flac_bytes(input@, 0, need as nat, 0, room as nat, big);
    assert(Seq::<u8>::empty() + out@ =~= out@);
    while done < need
        invariant
            len == input@.len(),
            room == output@.len(),
            output@ == old(output)@,
            need == room / 4,
            pos <= len,
            done * 4 <= room,
            out@.len() == done * 4,
            match flac_bytes(input@, pos as nat, need as nat, done as nat, room as nat, big) {
                Ok((rest, total, end)) => whole == Decoded::Ok((out@ + rest, total, end)),
                Err(e) => whole == Decoded::Err(e),
            },
            flac_decoded(input@, old(output)@, big) == (match whole {
                Err(e) => Decoded::Err(e),
                Ok((data, total, end)) => Decoded::Ok(
                    (data + old(output)@.skip(data.len() as int), total * 4, end),
                ),
            }),
        decreases need - done,
    {
        let ghost before = out@;
        let end: usize = if len as u64 - pos <= FLAC_REACH as u64 {
            len
        } else {
            (pos + FLAC_REACH as u64) as usize
        };
        assert(input@.subrange(0, end as int) =~= reach(input@, pos as nat));
        let (channels, duration, samples, next) = match read_flac_block(&input[0..end], pos) {
            Some(b) => b,
            None => {
                return Err(Error::DecompressionError);
            },
        };
        if channels != 2 {
            return Err(Error::DecompressionError);
        }
        assert(samples@.len() == 2 * duration) by (nonlinear_arith)
            requires
                samples@.len() == channels * duration,
                channels == 2,
        ;
        let dur: usize = duration as usize;
        if dur > (room - 4 * done) / 4 {
            return Err(Error::ReadError);
        }
        let mut k: usize = 0;
        assert(out@ =~= before + block_bytes(samples@, dur as nat, 0, big));
        while k < dur
            invariant
                k <= dur,
                4 * dur <= room,
                samples@.len() == 2 * dur,
                out@.len() == before.len() + 4 * k,
                out@ == before + block_bytes(samples@, dur as nat, k as nat, big),
            decreases dur - k,
        {
            push_sample(&mut out, samples[k], big);
            push_sample(&mut out, samples[dur + k], big);
            k = k + 1;
            assert(out@ =~= before + block_bytes(samples@, dur as nat, k as nat, big));
        }
        proof {
            match flac_bytes(input@, next as nat, need as nat, (done + dur) as nat, room as nat, big) {
                Ok((rest, total, end)) => {
                    let own = block_bytes(samples@, dur as nat, dur as nat, big);
                    assert(before + (own + rest) =~= out@ + rest);
                },
                Err(e) => {},
            }
        }
        done = done + dur;
        pos = next;
    }
    assert(out@ + Seq::<u8>::empty() =~= out@);
    copy_at(output, 0, out.as_slice());
    assert(output@ =~= out@ + old(output)@.skip(out@.len() as int));
    Ok(DecompressResult::new(done * 4, pos as usize))
}

/// Decompresses FLAC frames behind a byte that tells the byte order of the samples.
pub struct RawFlacCodec {
    hunk_size: u32,
}

impl CodecImplementation for RawFlacCodec {
    /// A hunk is a whole number of stereo samples.
    open spec fn accepts(hunk_size: u32) -> bool {
        hunk_size % 4 == 0
    }

    closed spec fn hunk(&self) -> u32 {
        self.hunk_size
    }

    open spec fn wf(&self) -> bool {
        true
    }

    /// The bytes read are those of the frames, without the byte ahead of them.
    open spec fn decoded(hunk_size: u32, input: Seq<u8>, old_out: Seq<u8>) -> Decoded {
        if input.len() == 0 {
            Err(Error::DecompressionError)
        } else if input[0] == 0x4c {
            flac_decoded(input.skip(1), old_out, false)
        } else if input[0] == 0x42 {
            flac_decoded(input.skip(1), old_out, true)
        } else {
            Err(Error::DecompressionError)
        }
    }

    fn new(hunk_size: u32) -> (r: Result<Self, Error>) {
        if hunk_size % 4 != 0 {
            return Err(Error::CodecError);
        }
        Ok(RawFlacCodec { hunk_size })
    }

    fn decompress(&mut self, input: &[u8], output: &mut [u8]) -> (r: Result<DecompressResult, Error>) {
        if input.len() == 0 {
            return Err(Error::DecompressionError);
        }
        let frames = &input[1..input.len()];
        assert(frames@ =~= input@.skip(1));
        if input[0] == 0x4c {
            flac_decompress(frames, output, false)
        } else if input[0] == 0x42 {
            flac_decompress(frames, output, true)
        } else {
            Err(Error::DecompressionError)
        }
    }
}

impl CompressionCodecType for RawFlacCodec {
    open spec fn spec_codec_type(&self) -> CodecType {
        CodecType::FlacV5
    }

    fn codec_type(&self) -> (r: CodecType) {
        CodecType::FlacV5
    }
}

impl CompressionCodec for RawFlacCodec {

}

/// `n` halved until it is no greater than `limit`.
pub open spec fn halved(n: u32, limit: u32) -> u32
    decreases n,
{
    if n <= limit || n == 0 {
        n
    } else {
        halved(n / 2, limit)
    }
}

fn halve(n: u32, limit: u32) -> (r: u32)
    ensures
        r == halved(n, limit),
        r <= limit || r == 0,
        n > 0 && limit > 0 ==> r > 0,
        n >= 16 && limit >= 32 ==> r >= 16,
    decreases n,
{
    if n <= limit || n == 0 {
        n
    } else {
        halve(n / 2, limit)
    }
}

/// The block size for hunks of the given size: a quarter of it, halved until it is at most 2048.
pub fn flac_blocksize(bytes: u32) -> (r: u32)
    ensures
        r == halved(bytes / 4, 2048),
        r <= 2048,
        bytes >= 4 ==> r > 0,
{
    halve(bytes / 4, 2048)
}

/// The block size for sectors of the given size in all: a quarter of it, halved until it is at most
/// the size of a sector.
pub fn cd_flac_blocksize(bytes: u32) -> (r: u32)
    ensures
        r == halved(bytes / 4, 2352),
        r <= 2352,
        bytes >= 4 ==> r > 0,
        bytes >= 64 ==> r >= 16,
{
    halve(bytes / 4, CD_MAX_SECTOR_DATA)
}

/// The number that two bytes stand for, the sign being the top bit.
pub open spec fn signed16(hi: u8, lo: u8) -> i32 {
    let u = 256 * hi + lo;
    if u >= 32768 {
        (u - 65536) as i32
    } else {
        u as i32
    }
}

/// The samples that bytes stand for; an odd byte at the end is left out.
pub open spec fn samples_of(data: Seq<u8>, big: bool) -> Seq<i32> {
    Seq::new(
        data.len() / 2,
        |i: int|
            if big {
                signed16(data[2 * i], data[2 * i + 1])
            } else {
                signed16(data[2 * i + 1], data[2 * i])
            },
    )
}

/// The samples of some bytes have these bytes.
pub proof fn samples_keep_bytes(data: Seq<u8>, big: bool)
    requires
        data.len() % 2 == 0,
    ensures
        pcm_bytes(samples_of(data, big), big) == data,
{
    let samples = samples_of(data, big);
    let r = pcm_bytes(samples, big);
    assert forall|i: int| 0 <= i < data.len() implies r[i] == data[i] by {
        let k = i / 2;
        if big {
            lemma_sample_bytes(data[2 * k], data[2 * k + 1]);
        } else {
            lemma_sample_bytes(data[2 * k + 1], data[2 * k]);
        }
        assert(i == 2 * k || i == 2 * k + 1);
        assert(r[i] == sample_bytes(samples[k], big)[i % 2]);
    }
    assert(r =~= data);
}

proof fn lemma_sample_bytes(hi: u8, lo: u8)
    ensures
        sample_bytes(signed16(hi, lo), true) == seq![hi, lo],
        sample_bytes(signed16(hi, lo), false) == seq![lo, hi],
{
    let u = 256 * hi + lo;
    let s = signed16(hi, lo) as int;
    assert(s % 65536 == u);
    assert(u / 256 == hi && u % 256 == lo);
}

/// Reads bytes as samples.
fn to_samples(data: &[u8], big: bool) -> (r: Vec<i32>)
    ensures
        r@ == samples_of(data@, big),
        forall|i: int| 0 <= i < r@.len() ==> -32768 <= #[trigger] r@[i] <= 32767,
{
    let n = data.len() / 2;
    let mut out: Vec<i32> = Vec::new();
    let mut i: usize = 0;
    while i < n
        invariant
            i <= n == data@.len() / 2,
            n <= usize::MAX / 2,
            out@ == samples_of(data@, big).take(i as int),
            forall|k: int| 0 <= k < out@.len() ==> -32768 <= #[trigger] out@[k] <= 32767,
        decreases n - i,
    {
        let a = data[2 * i];
        let b = data[2 * i + 1];
        let (hi, lo) = if big {
            (a, b)
        } else {
            (b, a)
        };
        let u: i32 = 256 * hi as i32 + lo as i32;
        let v: i32 = if u >= 32768 {
            u - 65536
        } else {
            u
        };
        out.push(v);
        i = i + 1;
        assert(out@ =~= samples_of(data@, big).take(i as int));
    }
    assert(out@ =~= samples_of(data@, big));
    out
}

/// Which of the frames made of the two byte orders are taken: the shorter, and the little-endian
/// ones where both are as long. There is nothing where either is longer than the hunk less a byte,
/// or where what is taken is no smaller than the hunk or does not fit.
pub open spec fn flac_choice(le: Seq<u8>, be: Seq<u8>, hunk_size: u32, cap: nat) -> Option<Seq<u8>> {
    let frames = if be.len() < le.len() {
        be
    } else {
        le
    };
    let flag = if be.len() < le.len() {
        0x42u8
    } else {
        0x4cu8
    };
    if le.len() > hunk_size - 1 || be.len() > hunk_size - 1 || frames.len() + 1 >= hunk_size
        || frames.len() + 1 > cap {
        None
    } else {
        Some(seq![flag] + frames)
    }
}

/// Puts the frames that are taken into the output.
pub fn choose_flac(le: &[u8], be: &[u8], hunk_size: u32, output: &mut [u8]) -> (r: Result<usize, Error>)
    requires
        hunk_size > 0,
    ensures
        final(output)@.len() == old(output)@.len(),
        match r {
            Ok(n) => n <= final(output)@.len() && flac_choice(
                le@,
                be@,
                hunk_size,
                old(output)@.len(),
            ) == Some(final(output)@.take(n as int)),
            Err(e) => e == Error::CompressionError && flac_choice(
                le@,
                be@,
                hunk_size,
                old(output)@.len(),
            ) is None,
        },
{
    let limit: u64 = hunk_size as u64 - 1;
    if le.len() as u64 > limit || be.len() as u64 > limit {
        return Err(Error::CompressionError);
    }
    let mut stream: Vec<u8> = Vec::new();
    if be.len() < le.len() {
        stream.push(0x42);
        stream.extend_from_slice(be);
        assert(stream@ =~= seq![0x42u8] + be@);
    } else {
        stream.push(0x4c);
        stream.extend_from_slice(le);
        assert(stream@ =~= seq![0x4cu8] + le@);
    }
    if stream.len() as u64 >= hunk_size as u64 {
        return Err(Error::CompressionError);
    }
    put_stream(stream.as_slice(), output)
}

/// Compresses to FLAC frames, in the byte order that makes the shorter ones.
pub struct RawFlacEncoder {
    hunk_bytes: u32,
    block_size: u32,
}

impl CodecEncodeImplementation for RawFlacEncoder {
    type Decoder = RawFlacCodec;

    open spec fn encoder_accepts(hunk_size: u32) -> bool {
        hunk_size % 4 == 0
    }

    closed spec fn encoder_hunk(&self) -> u32 {
        self.hunk_bytes
    }

    closed spec fn encoder_wf(&self) -> bool {
        self.block_size == halved(self.hunk_bytes / 4, 2048)
    }

    /// There must be room for the byte ahead of the frames, and both channels must be as long.
    open spec fn takes(hunk_size: u32, n: nat) -> bool {
        hunk_size > 0 && (n / 2) % 2 == 0 && n / 2 <= u32::MAX
    }

    open spec fn outcome(hunk_size: u32, input: Seq<u8>, cap: nat, r: Option<Seq<u8>>) -> bool {
        exists|le: Seq<u8>, be: Seq<u8>|
            #[trigger] may_encode(samples_of(input, false), halved(hunk_size / 4, 2048), le)
                && #[trigger] may_encode(samples_of(input, true), halved(hunk_size / 4, 2048), be) && r
                == flac_choice(le, be, hunk_size, cap)
    }

    /// From the smallest block size of the format on.
    open spec fn reliable(hunk_size: u32, n: nat) -> bool {
        n % 4 == 0 && halved(hunk_size / 4, 2048) >= 16
    }

    proof fn outcome_is_decoded(hunk_size: u32, input: Seq<u8>, cap: nat, s: Seq<u8>, old_out: Seq<u8>) {
        let decoded = RawFlacCodec::decoded(hunk_size, s, old_out);
        let accepts = RawFlacCodec::accepts(hunk_size);
        let bs = halved(hunk_size / 4, 2048);
        let (le, be) = choose|le: Seq<u8>, be: Seq<u8>|
            #[trigger] may_encode(samples_of(input, false), bs, le) && #[trigger] may_encode(
                samples_of(input, true),
                bs,
                be,
            ) && Some(s) == flac_choice(le, be, hunk_size, cap);
        if Self::reliable(hunk_size, input.len()) {
            let big = be.len() < le.len();
            let frames = if big { be } else { le };
            let samples = samples_of(input, big);
            assert(s.skip(1) =~= frames);
            assert(frames_hold(frames, samples));
            assert(frames + Seq::<u8>::empty() =~= frames);
            assert(flac_bytes(
                frames + Seq::<u8>::empty(),
                0,
                samples.len() / 2,
                0,
                2 * samples.len(),
                big,
            ) == Decoded::Ok((pcm_bytes(samples, big), samples.len() / 2, frames.len())));
            samples_keep_bytes(input, big);
            assert(input + old_out.skip(input.len() as int) =~= input);
        }
    }

    fn new(hunk_size: u32) -> (r: Result<Self, Error>) {
        if hunk_size % 4 != 0 {
            return Err(Error::CodecError);
        }
        Ok(RawFlacEncoder { hunk_bytes: hunk_size, block_size: flac_blocksize(hunk_size) })
    }

    fn compress(&mut self, input: &[u8], output: &mut [u8]) -> (r: Result<usize, Error>) {
        proof {
            lemma_halved(self.hunk_bytes / 4, 2048);
        }
        let le = to_samples(input, false);
        let le_frames = encode_flac(le.as_slice(), self.block_size);
        let be = to_samples(input, true);
        let be_frames = encode_flac(be.as_slice(), self.block_size);
        choose_flac(le_frames.as_slice(), be_frames.as_slice(), self.hunk_bytes, output)
    }
}

proof fn lemma_halved(n: u32, limit: u32)
    requires
        n > 0,
        limit > 0,
    ensures
        0 < halved(n, limit) <= limit,
        n >= 16 && limit >= 32 ==> halved(n, limit) >= 16,
    decreases n,
{
    if n > limit {
        lemma_halved(n / 2, limit);
    }
}

impl CompressionEncoder for RawFlacEncoder {

}

/// Decompresses CD frames, the sectors from FLAC frames, with the most significant byte of a sample
/// first, and the subcode from a Deflate stream behind them.
pub struct CdFlacCodec {
    sub_engine: ZlibCodec,
    hunk_size: u32,
}

impl CodecImplementation for CdFlacCodec {
    open spec fn accepts(hunk_size: u32) -> bool {
        hunk_size % 2448 == 0
    }

    closed spec fn hunk(&self) -> u32 {
        self.hunk_size
    }

    closed spec fn wf(&self) -> bool {
        self.sub_engine.wf() && self.sub_engine.hunk() == self.hunk_size
    }

    /// The output must be one hunk.
    open spec fn decoded(hunk_size: u32, input: Seq<u8>, old_out: Seq<u8>) -> Decoded {
        let n = old_out.len();
        let frames = n / 2448;
        if n != hunk_size {
            Err(Error::DecompressionError)
        } else {
            match flac_decoded(input, bytes::zeros(frames * 2352), true) {
                Err(e) => Err(e),
                Ok((sectors, out1, read1)) => match ZlibCodec::decoded(
                    hunk_size,
                    input.subrange(read1 as int, input.len() as int),
                    bytes::zeros(frames * 96),
                ) {
                    Err(e) => Err(e),
                    Ok((subcode, out2, read2)) => Ok(
                        (cdrom::interleaved(sectors, subcode, frames), out1 + out2, read1 + read2),
                    ),
                },
            }
        }
    }

    fn new(hunk_size: u32) -> (r: Result<Self, Error>) {
        if hunk_size % CD_FRAME_SIZE != 0 {
            return Err(Error::CodecError);
        }
        let sub_engine = match ZlibCodec::new(hunk_size) {
            Ok(c) => c,
            Err(e) => {
                return Err(e);
            },
        };
        Ok(CdFlacCodec { sub_engine, hunk_size })
    }

    fn decompress(&mut self, input: &[u8], output: &mut [u8]) -> (r: Result<DecompressResult, Error>) {
        let n = output.len();
        if n as u64 != self.hunk_size as u64 {
            return Err(Error::DecompressionError);
        }
        let frames = n / 2448;
        let mut sectors: Vec<u8> = vec![0u8; frames * 2352];
        assert(sectors@ =~= bytes::zeros((frames * 2352) as nat));
        let first = match flac_decompress(input, sectors.as_mut_slice(), true) {
            Ok(d) => d,
            Err(e) => {
                return Err(e);
            },
        };
        let mut subcode: Vec<u8> = vec![0u8; frames * 96];
        assert(subcode@ =~= bytes::zeros((frames * 96) as nat));
        let second = match self.sub_engine.decompress(
            &input[first.total_in()..input.len()],
            subcode.as_mut_slice(),
        ) {
            Ok(d) => d,
            Err(e) => {
                return Err(e);
            },
        };
        let out = cdrom::reswizzle_cd_frames(&sectors, &subcode, frames);
        assert(out@.len() == n);
        copy_at(output, 0, out.as_slice());
        assert(output@ =~= out@);
        Ok(first.plus(second))
    }
}

impl CompressionCodecType for CdFlacCodec {
    open spec fn spec_codec_type(&self) -> CodecType {
        CodecType::FlacCdV5
    }

    fn codec_type(&self) -> (r: CodecType) {
        CodecType::FlacCdV5
    }
}

impl CompressionCodec for CdFlacCodec {

}

/// Compresses CD frames, the sectors to FLAC frames and the subcode to a Deflate stream.
pub struct CdFlacEncoder {
    frames: u32,
    block_size: u32,
    sub_engine: ZlibEncoder,
    hunk_size: u32,
}

/// What the frames of the sectors and the stream of the subcode come to. There is nothing where the
/// frames are no smaller than the hunk or do not fit, where there is no stream, or where both
/// together are no smaller than the hunk.
pub open spec fn cd_flac_stream(n: nat, cap: nat, flac: Seq<u8>, sub: Option<Seq<u8>>) -> Option<Seq<u8>> {
    if flac.len() >= n || flac.len() > cap {
        None
    } else {
        match sub {
            None => None,
            Some(s) => if flac.len() + s.len() >= n {
                None
            } else {
                Some(flac + s)
            },
        }
    }
}

/// Whether the two codecs may come to `flac` and `sub`.
pub open spec fn cd_flac_parts(input: Seq<u8>, cap: nat, flac: Seq<u8>, sub: Option<Seq<u8>>) -> bool {
    let frames = input.len() / 2448;
    &&& may_encode(
        samples_of(cdrom::sector_run(input, frames), true),
        halved((frames * 2352 / 4) as u32, 2352),
        flac,
    )
    &&& flac.len() < input.len() && flac.len() <= cap ==> ZlibEncoder::outcome(
        (frames * 96) as u32,
        cdrom::subcode_run(input, frames),
        (cap - flac.len()) as nat,
        sub,
    )
}

impl CodecEncodeImplementation for CdFlacEncoder {
    type Decoder = CdFlacCodec;

    open spec fn encoder_accepts(hunk_size: u32) -> bool {
        hunk_size % 2448 == 0
    }

    closed spec fn encoder_hunk(&self) -> u32 {
        self.hunk_size
    }

    closed spec fn encoder_wf(&self) -> bool {
        &&& self.frames == self.hunk_size / 2448
        &&& self.block_size == halved((self.frames * 2352 / 4) as u32, 2352)
        &&& self.sub_engine.encoder_wf()
        &&& self.sub_engine.encoder_hunk() == self.frames * 96
    }

    /// A hunk, and not an empty one, with a subcode that the other codec can be given.
    open spec fn takes(hunk_size: u32, n: nat) -> bool {
        &&& n == hunk_size
        &&& n > 0
        &&& ZlibEncoder::takes((hunk_size / 2448 * 96) as u32, (hunk_size / 2448 * 96) as nat)
    }

    open spec fn outcome(hunk_size: u32, input: Seq<u8>, cap: nat, r: Option<Seq<u8>>) -> bool {
        exists|flac: Seq<u8>, sub: Option<Seq<u8>>|
            #[trigger] cd_flac_parts(input, cap, flac, sub) && r == cd_flac_stream(
                input.len(),
                cap,
                flac,
                sub,
            )
    }

    open spec fn reliable(hunk_size: u32, n: nat) -> bool {
        true
    }

    proof fn outcome_is_decoded(hunk_size: u32, input: Seq<u8>, cap: nat, s: Seq<u8>, old_out: Seq<u8>) {
        let decoded = CdFlacCodec::decoded(hunk_size, s, old_out);
        let accepts = CdFlacCodec::accepts(hunk_size);
        let n = input.len();
        let frames = n / 2448;
        let (flac, sub) = choose|flac: Seq<u8>, sub: Option<Seq<u8>>|
            #[trigger] cd_flac_parts(input, cap, flac, sub) && Some(s) == cd_flac_stream(
                n,
                cap,
                flac,
                sub,
            );
        let c = sub->0;
        let run = cdrom::sector_run(input, frames);
        let subs = cdrom::subcode_run(input, frames);
        let samples = samples_of(run, true);
        assert(frames >= 1 && n == frames * 2448);
        lemma_halved((frames * 2352 / 4) as u32, 2352);
        ZlibEncoder::outcome_is_decoded(
            (frames * 96) as u32,
            subs,
            (cap - flac.len()) as nat,
            c,
            bytes::zeros(frames * 96),
        );
        if Self::reliable(hunk_size, n) {
            let z = bytes::zeros(frames * 2352);
            assert(frames_hold(flac, samples));
            assert(flac_bytes(flac + c, 0, samples.len() / 2, 0, 2 * samples.len(), true)
                == Decoded::Ok((pcm_bytes(samples, true), samples.len() / 2, flac.len())));
            samples_keep_bytes(run, true);
            assert(samples.len() == frames * 1176);
            assert(run + z.skip(run.len() as int) =~= run);
            assert(flac_decoded(s, z, true) == Decoded::Ok((run, (frames * 2352) as nat, flac.len())));
            assert(s.subrange(flac.len() as int, s.len() as int) =~= c);
            cdrom::frames_are_restored(input, frames);
        }
    }

    fn new(hunk_size: u32) -> (r: Result<Self, Error>) {
        if hunk_size % CD_FRAME_SIZE != 0 {
            return Err(Error::CodecError);
        }
        let frames = hunk_size / CD_FRAME_SIZE;
        let sub_engine = match ZlibEncoder::new(frames * CD_MAX_SUBCODE_DATA) {
            Ok(c) => c,
            Err(e) => {
                return Err(e);
            },
        };
        Ok(
            CdFlacEncoder {
                frames,
                block_size: cd_flac_blocksize(frames * CD_MAX_SECTOR_DATA),
                sub_engine,
                hunk_size,
            },
        )
    }

    fn compress(&mut self, input: &[u8], output: &mut [u8]) -> (r: Result<usize, Error>) {
        let n = input.len();
        let cap = output.len();
        let frames = self.frames as usize;
        assert(frames == n / 2448);
        let (sectors, subcode) = cdrom::deswizzle_cd_frames(input, frames);
        let samples = to_samples(sectors.as_slice(), true);
        proof {
            lemma_halved((frames * 2352 / 4) as u32, 2352);
        }
        assert(samples@.len() == frames * 1176);
        let flac = encode_flac(samples.as_slice(), self.block_size);
        if flac.len() >= n || flac.len() > cap {
            assert(cd_flac_parts(input@, cap as nat, flac@, None));
            return Err(Error::CompressionError);
        }
        let room: usize = cap - flac.len();
        let mut sub_buf: Vec<u8> = vec![0u8; room];
        let sub_n = match self.sub_engine.compress(subcode.as_slice(), sub_buf.as_mut_slice()) {
            Ok(k) => k,
            Err(e) => {
                assert(cd_flac_parts(input@, cap as nat, flac@, None));
                return Err(e);
            },
        };
        let ghost sub = sub_buf@.take(sub_n as int);
        assert(cd_flac_parts(input@, cap as nat, flac@, Some(sub)));
        let total: usize = flac.len() + sub_n;
        if total >= n {
            return Err(Error::CompressionError);
        }
        copy_at(output, 0, flac.as_slice());
        copy_at(output, flac.len(), &sub_buf.as_slice()[0..sub_n]);
        assert(output@.take(total as int) =~= flac@ + sub);
        Ok(total)
    }
}

impl CompressionEncoder for CdFlacEncoder {

}

} // verus!
