//! Laws of the codecs for CD frames and for samples: what they hand on, and how they put together
//! what they get.

use crate::bytes;
use crate::compression::cdrom;
use crate::compression::cdrom::{CdCodec, CdEncoder};
use crate::compression::ecc;
use crate::compression::ecc_laws;
use crate::compression::flac;
use crate::compression::flac::{CdFlacCodec, CdFlacEncoder, RawFlacCodec, RawFlacEncoder};
use crate::compression::zlib::{ZlibCodec, ZlibEncoder};
use crate::compression::{CodecEncodeImplementation, CodecImplementation, Decoded};
use crate::format_laws;
use vstd::arithmetic::power2::*;
use vstd::prelude::*;

verus! {

/// Bit `f` of a run of flags: the lowest bit of a byte comes first.
pub open spec fn flag(flags: Seq<u8>, f: int) -> bool {
    (flags[f / 8] >> ((f % 8) as u8)) & 1u8 == 1
}

/// Byte `j` of a sector, where the synchronisation pattern is a zero, ten bytes of ones, a zero.
pub open spec fn starts_in_sync(s: Seq<u8>) -> bool {
    s[0] == 0 && s[11] == 0 && forall|j: int| 1 <= j < 11 ==> #[trigger] s[j] == 0xff
}

/// The sector of frame `f` of a hunk.
pub open spec fn sector_of_frame(hunk: Seq<u8>, f: int) -> Seq<u8> {
    hunk.subrange(2448 * f, 2448 * f + 2352)
}

/// The subcode of frame `f` of a hunk.
pub open spec fn subcode_of_frame(hunk: Seq<u8>, f: int) -> Seq<u8> {
    hunk.subrange(2448 * f + 2352, 2448 * f + 2448)
}

proof fn lemma_flag(flags: Seq<u8>, f: int)
    requires
        0 <= f,
    ensures
        cdrom::flag_set(flags, f) == flag(flags, f),
{
    let x = flags[f / 8];
    let k = (f % 8) as u8;
    assert((x & (1u8 << k) != 0) == ((x >> k) & 1u8 == 1)) by (bit_vector)
        requires
            k < 8,
    ;
}

/// A sector can be left without its synchronisation pattern and its parity exactly where it starts
/// with that pattern and is made of code words.
pub proof fn sectors_that_can_be_made_again(s: Seq<u8>)
    requires
        s.len() == 2352,
    ensures
        cdrom::can_strip(s) <==> starts_in_sync(s) && ecc_laws::is_coded(s),
{
    ecc_laws::right_parity_makes_code_words(s);
    if ecc::has_sync(s) {
        assert(s[0] == crate::cdrom::sync_byte(0));
        assert(s[11] == crate::cdrom::sync_byte(11));
        assert forall|j: int| 1 <= j < 11 implies #[trigger] s[j] == 0xff by {
            assert(s[j] == crate::cdrom::sync_byte(j));
        }
    }
    if starts_in_sync(s) {
        assert forall|j: int| 0 <= j < 12 implies #[trigger] s[j] == crate::cdrom::sync_byte(j) by {}
    }
}

proof fn lemma_run_sector(hunk: Seq<u8>, frames: nat, f: int)
    requires
        hunk.len() == frames * 2448,
        0 <= f < frames,
    ensures
        cdrom::sector_run(hunk, frames).len() == frames * 2352,
        cdrom::sector_at(cdrom::sector_run(hunk, frames), f) == sector_of_frame(hunk, f),
        sector_of_frame(hunk, f).len() == 2352,
{
    let run = cdrom::sector_run(hunk, frames);
    assert(f * 2352 + 2352 <= frames * 2352);
    assert forall|j: int| 0 <= j < 2352 implies cdrom::sector_at(run, f)[j] == sector_of_frame(hunk, f)[j] by {
        let x = f * 2352 + j;
        assert(x / 2352 == f && x % 2352 == j);
    }
    assert(cdrom::sector_at(run, f) =~= sector_of_frame(hunk, f));
}

/// What the codec for the sectors of a hunk is given: the sector of each frame, one behind the other.
/// A sector that can be made again has zeros for its first 12 bytes and from byte 2076 on; every other
/// one is as it is. The codec for the subcode is given that of each frame, one behind the other.
pub proof fn sectors_and_subcode_of_a_hunk(hunk: Seq<u8>, frames: nat, f: int, j: int)
    requires
        hunk.len() == frames * 2448,
        0 <= f < frames,
    ensures
        cdrom::stripped(cdrom::sector_run(hunk, frames), frames).len() == frames * 2352,
        cdrom::subcode_run(hunk, frames).len() == frames * 96,
        0 <= j < 2352 ==> {
            let s = sector_of_frame(hunk, f);
            cdrom::stripped(cdrom::sector_run(hunk, frames), frames)[2352 * f + j] == if starts_in_sync(s)
                && ecc_laws::is_coded(s) && (j < 12 || j >= 2076) {
                0
            } else {
                s[j]
            }
        },
        0 <= j < 96 ==> cdrom::subcode_run(hunk, frames)[96 * f + j] == subcode_of_frame(hunk, f)[j],
{
    let run = cdrom::sector_run(hunk, frames);
    lemma_run_sector(hunk, frames, f);
    sectors_that_can_be_made_again(sector_of_frame(hunk, f));
    if 0 <= j < 2352 {
        let x = 2352 * f + j;
        assert(x / 2352 == f && x % 2352 == j);
        assert(x < frames * 2352);
    }
    if 0 <= j < 96 {
        let x = 96 * f + j;
        assert(x / 96 == f && x % 96 == j);
        assert(x < frames * 96);
    }
}

/// A compressed hunk of CD frames: a flag for each frame, the lowest bit first, whether its sector has
/// to be made again; the length of the stream of the sectors, in two bytes for a hunk of less than
/// 65,536 bytes and in three otherwise; that stream; and the stream of the subcode.
pub proof fn parts_of_a_compressed_hunk(
    hunk: Seq<u8>,
    base: Option<Seq<u8>>,
    sub: Option<Seq<u8>>,
    s: Seq<u8>,
    f: int,
)
    requires
        hunk.len() % 2448 == 0,
        cdrom::cd_stream(hunk, base, sub) == Some(s),
        0 <= f < hunk.len() / 2448,
        hunk.len() <= 0x100_0000,
    ensures
        base is Some,
        sub is Some,
        ({
            let frames = hunk.len() / 2448;
            let flags = ((frames + 7) / 8) as int;
            let wide: nat = if hunk.len() < 65536 {
                2
            } else {
                3
            };
            let b = base->0;
            let t = sector_of_frame(hunk, f);
            &&& b.len() < hunk.len()
            &&& s.len() == flags + wide + b.len() + sub->0.len()
            &&& flag(s, f) <==> starts_in_sync(t) && ecc_laws::is_coded(t)
            &&& format_laws::number_at(s, flags, wide) == b.len()
            &&& s.subrange(flags + wide, flags + wide + b.len()) == b
            &&& s.skip(flags + wide + b.len()) == sub->0
        }),
{
    let frames = hunk.len() / 2448;
    let run = cdrom::sector_run(hunk, frames);
    let fl = cdrom::strip_flags(run, frames);
    let flags = ((frames + 7) / 8) as int;
    let wide = cdrom::length_bytes(hunk.len());
    let b = base->0;
    let len = bytes::be_bytes(b.len(), wide);
    bytes::lemma_be_len(b.len(), wide);
    lemma2_to64();
    assert(s == fl + len + b + sub->0);
    assert(s.subrange(flags, flags + wide) =~= len);
    bytes::lemma_be_at(s, flags, b.len(), wide);
    format_laws::greatest_byte_first(s, flags, wide);
    assert(s.subrange(flags + wide, flags + wide + b.len()) =~= b);
    assert(s.skip(flags + wide + b.len()) =~= sub->0);
    lemma_run_sector(hunk, frames, f);
    sectors_that_can_be_made_again(sector_of_frame(hunk, f));
    cdrom::lemma_flags(run, frames, f);
    lemma_flag(fl, f);
    assert(f / 8 < flags);
    assert(s[f / 8] == fl[f / 8]);
}

/// The frames that are put together: sector and subcode of each. The sector of a flagged frame gets
/// the synchronisation pattern, keeps its bytes 12 to 2075, and is made of code words; every other one
/// is as it was decompressed.
pub proof fn frames_that_are_put_together(
    flags: Seq<u8>,
    sectors: Seq<u8>,
    subcode: Seq<u8>,
    frames: nat,
    f: int,
)
    requires
        sectors.len() == frames * 2352,
        subcode.len() == frames * 96,
        flags.len() >= (frames + 7) / 8,
        0 <= f < frames,
    ensures
        ({
            let out = cdrom::cd_frames(flags, sectors, subcode, frames);
            let s = sector_of_frame(out, f);
            &&& out.len() == frames * 2448
            &&& forall|j: int| 12 <= j < 2076 ==> #[trigger] s[j] == sectors[2352 * f + j]
            &&& !flag(flags, f) ==> s == sectors.subrange(2352 * f, 2352 * f + 2352)
            &&& flag(flags, f) ==> starts_in_sync(s) && ecc_laws::is_coded(s)
            &&& subcode_of_frame(out, f) == subcode.subrange(96 * f, 96 * f + 96)
        }),
{
    let n = ((frames + 7) / 8) as int;
    let fl = flags.take(n);
    let whole = cdrom::unstripped(sectors, fl, frames);
    let out = cdrom::cd_frames(flags, sectors, subcode, frames);
    let s = sector_of_frame(out, f);
    let given = cdrom::sector_at(sectors, f);
    assert(f * 2352 + 2352 <= frames * 2352);
    assert(f * 2448 + 2448 <= frames * 2448);
    assert(f * 96 + 96 <= frames * 96);
    lemma_flag(fl, f);
    assert(fl[f / 8] == flags[f / 8]);
    let made = ecc::with_ecc(ecc::with_sync(given));
    ecc_laws::generated_parity_makes_code_words(ecc::with_sync(given));
    assert forall|j: int| 0 <= j < 2352 implies #[trigger] s[j] == (if flag(flags, f) {
        made[j]
    } else {
        given[j]
    }) by {
        let x = 2448 * f + j;
        assert(x / 2448 == f && x % 2448 == j);
        let y = f * 2352 + j;
        assert(y / 2352 == f && y % 2352 == j);
        assert(whole[y] == if flag(flags, f) {
            made[j]
        } else {
            given[j]
        });
    }
    if flag(flags, f) {
        assert(s =~= made);
    } else {
        assert(s =~= sectors.subrange(2352 * f, 2352 * f + 2352));
    }
    assert forall|j: int| 0 <= j < 96 implies #[trigger] subcode_of_frame(out, f)[j] == subcode[96 * f + j] by {
        let x = 2448 * f + 2352 + j;
        assert(x / 2448 == f && x % 2448 == 2352 + j);
    }
    assert(subcode_of_frame(out, f) =~= subcode.subrange(96 * f, 96 * f + 96));
}

/// A compressed hunk of CD frames is decompressed to the frames of two streams: that of the sectors
/// behind the flags and its length, and that of the subcode behind it.
pub proof fn two_streams_make_a_hunk<E: CodecImplementation, S: CodecImplementation>(
    hunk_size: u32,
    input: Seq<u8>,
    old_out: Seq<u8>,
)
    requires
        CdCodec::<E, S>::decoded(hunk_size, input, old_out) is Ok,
    ensures
        old_out.len() == hunk_size,
        ({
            let frames = (hunk_size / 2448) as nat;
            let flags = ((frames + 7) / 8) as int;
            let wide: nat = if hunk_size < 65536 {
                2
            } else {
                3
            };
            let len = format_laws::number_at(input, flags, wide) as int;
            let first = E::decoded(
                (frames * 2352) as u32,
                input.subrange(flags + wide, flags + wide + len),
                bytes::zeros(frames * 2352),
            );
            let second = S::decoded(
                (frames * 96) as u32,
                input.skip(flags + wide + len),
                bytes::zeros(frames * 96),
            );
            &&& flags + wide + len <= input.len()
            &&& first is Ok
            &&& second is Ok
            &&& CdCodec::<E, S>::decoded(hunk_size, input, old_out)->Ok_0.0 == cdrom::cd_frames(
                input,
                first->Ok_0.0,
                second->Ok_0.0,
                frames,
            )
            &&& CdCodec::<E, S>::decoded(hunk_size, input, old_out)->Ok_0.1 == first->Ok_0.1
                + second->Ok_0.1
        }),
{
    let frames = (hunk_size / 2448) as nat;
    let flags = ((frames + 7) / 8) as int;
    let wide = cdrom::length_bytes(hunk_size as nat);
    format_laws::greatest_byte_first(input, flags, wide);
    let len = format_laws::number_at(input, flags, wide) as int;
    assert(input.skip(flags + wide + len) =~= input.subrange(flags + wide + len, input.len() as int));
    assert(hunk_size / 2448 * 2352 == frames * 2352);
}

/// The codec for CD frames of samples: the sectors are samples with the greater byte first, in FLAC
/// frames, and the subcode is compressed behind them.
pub proof fn samples_and_subcode_make_a_hunk(hunk_size: u32, input: Seq<u8>, old_out: Seq<u8>, f: int)
    requires
        CdFlacCodec::decoded(hunk_size, input, old_out) is Ok,
        0 <= f < hunk_size / 2448,
    ensures
        old_out.len() == hunk_size,
        ({
            let frames = (hunk_size / 2448) as nat;
            let first = flac::flac_decoded(input, bytes::zeros(frames * 2352), true);
            let second = ZlibCodec::decoded(
                hunk_size,
                input.subrange(first->Ok_0.2 as int, input.len() as int),
                bytes::zeros(frames * 96),
            );
            let out = CdFlacCodec::decoded(hunk_size, input, old_out)->Ok_0.0;
            &&& first is Ok
            &&& second is Ok
            &&& out.len() == frames * 2448
            &&& forall|j: int| 0 <= j < 2352 ==> #[trigger] sector_of_frame(out, f)[j] == first->Ok_0.0[2352 * f + j]
            &&& forall|j: int| 0 <= j < 96 ==> #[trigger] subcode_of_frame(out, f)[j] == second->Ok_0.0[96 * f + j]
        }),
{
    let frames = (hunk_size / 2448) as nat;
    let first = flac::flac_decoded(input, bytes::zeros(frames * 2352), true);
    let second = ZlibCodec::decoded(
        hunk_size,
        input.subrange(first->Ok_0.2 as int, input.len() as int),
        bytes::zeros(frames * 96),
    );
    let out = CdFlacCodec::decoded(hunk_size, input, old_out)->Ok_0.0;
    assert(out == cdrom::interleaved(first->Ok_0.0, second->Ok_0.0, frames));
    assert(f * 2448 + 2448 <= frames * 2448);
    assert forall|j: int| 0 <= j < 2352 implies #[trigger] sector_of_frame(out, f)[j] == first->Ok_0.0[2352 * f + j] by {
        let x = 2448 * f + j;
        assert(x / 2448 == f && x % 2448 == j);
    }
    assert forall|j: int| 0 <= j < 96 implies #[trigger] subcode_of_frame(out, f)[j] == second->Ok_0.0[96 * f + j] by {
        let x = 2448 * f + 2352 + j;
        assert(x / 2448 == f && x % 2448 == 2352 + j);
    }
}

/// A sample in bytes: the number modulo 65,536, with the greater byte first or last.
pub proof fn bytes_of_samples(samples: Seq<i32>, i: int)
    requires
        0 <= i < samples.len(),
    ensures
        ({
            let big = flac::pcm_bytes(samples, true);
            let little = flac::pcm_bytes(samples, false);
            &&& big.len() == 2 * samples.len()
            &&& little.len() == 2 * samples.len()
            &&& (big[2 * i] * 256 + big[2 * i + 1] - samples[i]) % 65536 == 0
            &&& (little[2 * i + 1] * 256 + little[2 * i] - samples[i]) % 65536 == 0
        }),
{
    let v = samples[i] as int;
    let u = v % 65536;
    assert((2 * i) / 2 == i && (2 * i) % 2 == 0 && (2 * i + 1) / 2 == i && (2 * i + 1) % 2 == 1);
    assert(u == u / 256 * 256 + u % 256);
    let big = flac::pcm_bytes(samples, true);
    let little = flac::pcm_bytes(samples, false);
    assert(big[2 * i] == (u / 256) as u8 && big[2 * i + 1] == (u % 256) as u8);
    assert(little[2 * i + 1] == (u / 256) as u8 && little[2 * i] == (u % 256) as u8);
    assert((u - v) % 65536 == 0);
}

/// The samples of bytes: two bytes each, a number from -32,768 to 32,767 that stands for them.
pub proof fn samples_of_bytes(data: Seq<u8>, i: int)
    requires
        0 <= i < data.len() / 2,
    ensures
        flac::samples_of(data, true).len() == data.len() / 2,
        flac::samples_of(data, false).len() == data.len() / 2,
        -32768 <= flac::samples_of(data, true)[i] <= 32767,
        -32768 <= flac::samples_of(data, false)[i] <= 32767,
        (data[2 * i] * 256 + data[2 * i + 1] - flac::samples_of(data, true)[i]) % 65536 == 0,
        (data[2 * i + 1] * 256 + data[2 * i] - flac::samples_of(data, false)[i]) % 65536 == 0,
{
}

/// A decoded block has its left and its right samples in turn.
pub proof fn channels_take_turns(samples: Seq<i32>, duration: nat, big: bool, i: int)
    requires
        samples.len() == 2 * duration,
        0 <= i < duration,
    ensures
        flac::block_bytes(samples, duration, duration, big).len() == 4 * duration,
        ({
            let b = flac::block_bytes(samples, duration, duration, big);
            let hi = if big {
                0int
            } else {
                1
            };
            &&& (b[4 * i + hi] * 256 + b[4 * i + 1 - hi] - samples[i]) % 65536 == 0
            &&& (b[4 * i + 2 + hi] * 256 + b[4 * i + 3 - hi] - samples[duration + i]) % 65536 == 0
        }),
{
    lemma_turns(samples, duration, duration, big, i);
}

proof fn lemma_turns(samples: Seq<i32>, duration: nat, n: nat, big: bool, i: int)
    requires
        samples.len() == 2 * duration,
        n <= duration,
    ensures
        flac::block_bytes(samples, duration, n, big).len() == 4 * n,
        0 <= i < n ==> {
            let b = flac::block_bytes(samples, duration, n, big);
            let hi = if big {
                0int
            } else {
                1
            };
            &&& (b[4 * i + hi] * 256 + b[4 * i + 1 - hi] - samples[i]) % 65536 == 0
            &&& (b[4 * i + 2 + hi] * 256 + b[4 * i + 3 - hi] - samples[duration + i]) % 65536 == 0
        },
    decreases n,
{
    if n > 0 {
        lemma_turns(samples, duration, (n - 1) as nat, big, i);
        lemma_one_sample(samples[n - 1]);
        lemma_one_sample(samples[duration + n - 1]);
        let front = flac::block_bytes(samples, duration, (n - 1) as nat, big);
        let b = flac::block_bytes(samples, duration, n, big);
        if 0 <= i < n - 1 {
            assert(b[4 * i] == front[4 * i] && b[4 * i + 1] == front[4 * i + 1] && b[4 * i + 2] == front[4
                * i + 2] && b[4 * i + 3] == front[4 * i + 3]);
        } else if i == n - 1 {
            let x = flac::sample_bytes(samples[n - 1], big);
            let y = flac::sample_bytes(samples[duration + n - 1], big);
            assert(b[4 * i] == x[0] && b[4 * i + 1] == x[1] && b[4 * i + 2] == y[0] && b[4 * i + 3] == y[1]);
        }
    }
}

proof fn lemma_one_sample(v: i32)
    ensures
        ({
            let b = flac::sample_bytes(v, true);
            let l = flac::sample_bytes(v, false);
            &&& b.len() == 2 && l.len() == 2
            &&& (b[0] * 256 + b[1] - v) % 65536 == 0
            &&& (l[1] * 256 + l[0] - v) % 65536 == 0
        }),
{
    let u = v as int % 65536;
    assert(u == u / 256 * 256 + u % 256);
    assert((u - v) % 65536 == 0);
}

/// A compressed hunk of samples starts with `L` or `B` for the order of the bytes of a sample, the
/// lesser or the greater one first, and goes on with FLAC frames. Another first byte is refused.
pub proof fn order_of_bytes_comes_first(hunk_size: u32, input: Seq<u8>, old_out: Seq<u8>)
    ensures
        RawFlacCodec::decoded(hunk_size, seq![0x4cu8] + input, old_out) == flac::flac_decoded(
            input,
            old_out,
            false,
        ),
        RawFlacCodec::decoded(hunk_size, seq![0x42u8] + input, old_out) == flac::flac_decoded(
            input,
            old_out,
            true,
        ),
        input.len() == 0 || input[0] != 0x4c && input[0] != 0x42 ==> RawFlacCodec::decoded(
            hunk_size,
            input,
            old_out,
        ) is Err,
{
    assert((seq![0x4cu8] + input).skip(1) =~= input);
    assert((seq![0x42u8] + input).skip(1) =~= input);
}

/// Of the two orders of bytes the one with the shorter frames is kept, and the lesser byte first
/// where both are as long. It is kept only where the hunk gets shorter by it.
pub proof fn shorter_order_is_kept(le: Seq<u8>, be: Seq<u8>, hunk_size: u32, cap: nat)
    ensures
        flac::flac_choice(le, be, hunk_size, cap) matches Some(s) ==> {
            &&& s.len() < hunk_size
            &&& s.len() <= cap
            &&& s.len() <= le.len() + 1
            &&& s.len() <= be.len() + 1
            &&& s == seq![0x4cu8] + le || s == seq![0x42u8] + be
            &&& le.len() == be.len() ==> s == seq![0x4cu8] + le
        },
        hunk_size > 0 && le.len() < hunk_size && be.len() < hunk_size && (le.len() + 1 < hunk_size
            || be.len() + 1 < hunk_size) && (le.len() < cap || be.len() < cap) ==> flac::flac_choice(
            le,
            be,
            hunk_size,
            cap,
        ) is Some,
{
}

/// The size of the blocks of samples is the greatest that comes of halving the number of samples of a
/// hunk again and again and is no greater than the limit.
pub proof fn blocks_are_halved(n: u32, limit: u32) -> (k: nat)
    requires
        limit > 0,
    ensures
        flac::halved(n, limit) <= limit,
        flac::halved(n, limit) == n as nat / pow2(k),
        k > 0 ==> n as nat / pow2((k - 1) as nat) > limit,
    decreases n,
{
    lemma2_to64();
    if n <= limit {
        0
    } else {
        let j = blocks_are_halved(n / 2, limit);
        lemma_pow2_unfold(j + 1);
        lemma_pow2_pos(j);
        vstd::arithmetic::div_mod::lemma_div_denominator(n as int, 2, pow2(j) as int);
        if j > 0 {
            lemma_pow2_unfold(j);
            lemma_pow2_pos((j - 1) as nat);
            vstd::arithmetic::div_mod::lemma_div_denominator(n as int, 2, pow2((j - 1) as nat) as int);
        } else {
            assert(n / 1 == n);
        }
        j + 1
    }
}

/// A stream is kept exactly where it fits.
pub proof fn streams_are_kept_where_they_fit(stream: Seq<u8>, cap: nat)
    ensures
        stream.len() <= cap ==> crate::compression::fitting(stream, cap) == Some(stream),
        stream.len() > cap ==> crate::compression::fitting(stream, cap) is None,
{
}

/// What the codecs for CD frames make of a hunk. The codec of the sectors is given the sectors without
/// what can be made again, and the room that the flags and the length leave; the codec of the subcode is
/// given the subcode, and the room that is left then. There is a stream exactly where both made one, and
/// that of the sectors is shorter than the hunk.
pub proof fn streams_of_frames<E: CodecEncodeImplementation, S: CodecEncodeImplementation>(
    hunk_size: u32,
    hunk: Seq<u8>,
    cap: nat,
    r: Option<Seq<u8>>,
)
    requires
        CdEncoder::<E, S>::outcome(hunk_size, hunk, cap, r),
    ensures
        ({
            let frames = hunk.len() / 2448;
            let head = (frames + 7) / 8 + if hunk.len() < 65536 {
                2nat
            } else {
                3nat
            };
            exists|base: Option<Seq<u8>>, sub: Option<Seq<u8>>|
                {
                    &&& r == #[trigger] cdrom::cd_stream(hunk, base, sub)
                    &&& cap < head ==> base is None
                    &&& cap >= head ==> E::outcome(
                        (frames * 2352) as u32,
                        cdrom::stripped(cdrom::sector_run(hunk, frames), frames),
                        (cap - head) as nat,
                        base,
                    )
                    &&& cap >= head && base is Some && base->0.len() < hunk.len() ==> S::outcome(
                        (frames * 96) as u32,
                        cdrom::subcode_run(hunk, frames),
                        (cap - head - base->0.len()) as nat,
                        sub,
                    )
                    &&& r is Some <==> base is Some && base->0.len() < hunk.len() && sub is Some
                }
        }),
{
    let (base, sub) = choose|base: Option<Seq<u8>>, sub: Option<Seq<u8>>|
        #[trigger] cdrom::cd_parts::<E, S>(hunk, cap, base, sub) && r == cdrom::cd_stream(hunk, base, sub);
    assert(r == cdrom::cd_stream(hunk, base, sub));
}

/// What the codec for CD frames of samples makes of a hunk: the frames of the sectors as samples with the
/// greater byte first, and the stream of the subcode behind them, where both together are shorter than
/// the hunk.
pub proof fn streams_of_sample_frames(hunk_size: u32, hunk: Seq<u8>, cap: nat, r: Option<Seq<u8>>)
    requires
        CdFlacEncoder::outcome(hunk_size, hunk, cap, r),
    ensures
        ({
            let frames = hunk.len() / 2448;
            exists|first: Seq<u8>, sub: Option<Seq<u8>>|
                {
                    &&& r == #[trigger] flac::cd_flac_stream(hunk.len(), cap, first, sub)
                    &&& flac::may_encode(
                        flac::samples_of(cdrom::sector_run(hunk, frames), true),
                        flac::halved((frames * 2352 / 4) as u32, 2352),
                        first,
                    )
                    &&& first.len() < hunk.len() && first.len() <= cap ==> ZlibEncoder::outcome(
                        (frames * 96) as u32,
                        cdrom::subcode_run(hunk, frames),
                        (cap - first.len()) as nat,
                        sub,
                    )
                    &&& r is Some <==> first.len() <= cap && sub is Some && first.len() + sub->0.len()
                        < hunk.len()
                    &&& r is Some ==> r->0 == first + sub->0
                }
        }),
{
    let (first, sub) = choose|first: Seq<u8>, sub: Option<Seq<u8>>|
        #[trigger] flac::cd_flac_parts(hunk, cap, first, sub) && r == flac::cd_flac_stream(
            hunk.len(),
            cap,
            first,
            sub,
        );
    assert(r == flac::cd_flac_stream(hunk.len(), cap, first, sub));
}

/// What the codec for samples makes of a hunk: frames of both orders of bytes, in blocks of at most 2048
/// samples, of which one is kept.
pub proof fn streams_of_samples(hunk_size: u32, hunk: Seq<u8>, cap: nat, r: Option<Seq<u8>>)
    requires
        RawFlacEncoder::outcome(hunk_size, hunk, cap, r),
    ensures
        exists|le: Seq<u8>, be: Seq<u8>|
            {
                &&& r == #[trigger] flac::flac_choice(le, be, hunk_size, cap)
                &&& flac::may_encode(flac::samples_of(hunk, false), flac::halved(hunk_size / 4, 2048), le)
                &&& flac::may_encode(flac::samples_of(hunk, true), flac::halved(hunk_size / 4, 2048), be)
            },
{
    let (le, be) = choose|le: Seq<u8>, be: Seq<u8>|
        #[trigger] flac::may_encode(flac::samples_of(hunk, false), flac::halved(hunk_size / 4, 2048), le)
            && #[trigger] flac::may_encode(
            flac::samples_of(hunk, true),
            flac::halved(hunk_size / 4, 2048),
            be,
        ) && r == flac::flac_choice(le, be, hunk_size, cap);
    assert(r == flac::flac_choice(le, be, hunk_size, cap));
}

/// FLAC frames of samples are decoded to their bytes in either order, whatever stands behind them.
pub proof fn frames_of_samples(samples: Seq<i32>, block_size: u32, frames: Seq<u8>, rest: Seq<u8>, big: bool)
    requires
        flac::may_encode(samples, block_size, frames),
        block_size >= 16,
    ensures
        flac::flac_bytes(frames + rest, 0, samples.len() / 2, 0, 2 * samples.len(), big) == Decoded::Ok(
            (flac::pcm_bytes(samples, big), samples.len() / 2, frames.len()),
        ),
{
}

} // verus!
