//! The codecs for CD frames: the sectors of a hunk go to one codec, the subcode to another.

use crate::bytes;
use crate::cdrom::{CD_FRAME_SIZE, CD_MAX_SECTOR_DATA, CD_MAX_SUBCODE_DATA};
use crate::compression::ecc;
use crate::compression::lzma::{LzmaCodec, LzmaEncoder};
use crate::compression::zlib::{ZlibCodec, ZlibEncoder};
use crate::compression::zstd::{ZstdCodec, ZstdEncoder};
use crate::compression::{
    copy_at, put_stream, CodecEncodeImplementation, CodecImplementation, CompressionCodec,
    CompressionCodecType, CompressionEncoder, DecompressResult, Decoded,
};
use crate::error::Error;
use crate::header::CodecType;
use vstd::arithmetic::div_mod::*;
use vstd::arithmetic::power2::*;
use vstd::prelude::*;

verus! {

/// The sectors of the frames, one behind the other.
pub open spec fn sector_run(hunk: Seq<u8>, frames: nat) -> Seq<u8> {
    Seq::new(frames * 2352, |i: int| hunk[(i / 2352) * 2448 + i % 2352])
}

/// The subcode of the frames, one behind the other.
pub open spec fn subcode_run(hunk: Seq<u8>, frames: nat) -> Seq<u8> {
    Seq::new(frames * 96, |i: int| hunk[(i / 96) * 2448 + 2352 + i % 96])
}

/// Frames made of a run of sectors and a run of subcode.
pub open spec fn interleaved(sectors: Seq<u8>, subcode: Seq<u8>, frames: nat) -> Seq<u8> {
    Seq::new(
        frames * 2448,
        |i: int|
            if i % 2448 < 2352 {
                sectors[(i / 2448) * 2352 + i % 2448]
            } else {
                subcode[(i / 2448) * 96 + i % 2448 - 2352]
            },
    )
}

/// Taking frames apart and putting them together gives them back.
pub proof fn frames_are_restored(hunk: Seq<u8>, frames: nat)
    requires
        hunk.len() == frames * 2448,
    ensures
        interleaved(sector_run(hunk, frames), subcode_run(hunk, frames), frames) == hunk,
{
    let a = sector_run(hunk, frames);
    let b = subcode_run(hunk, frames);
    let r = interleaved(a, b, frames);
    assert forall|i: int| 0 <= i < hunk.len() implies r[i] == hunk[i] by {
        let f = i / 2448;
        let k = i % 2448;
        assert(i == 2448 * f + k && 0 <= f < frames);
        if k < 2352 {
            let j = f * 2352 + k;
            assert(j / 2352 == f && j % 2352 == k);
            assert(j < frames * 2352);
        } else {
            let j = f * 96 + (k - 2352);
            assert(j / 96 == f && j % 96 == k - 2352);
            assert(j < frames * 96);
        }
    }
    assert(r =~= hunk);
}

/// Sector `f` of a run.
pub open spec fn sector_at(run: Seq<u8>, f: int) -> Seq<u8> {
    run.subrange(f * 2352, f * 2352 + 2352)
}

/// Whether the synchronisation pattern and the parity bytes of a sector can be made again.
pub open spec fn can_strip(s: Seq<u8>) -> bool {
    ecc::has_sync(s) && ecc::has_ecc(s)
}

/// A sector without what can be made again.
pub open spec fn stripped_sector(s: Seq<u8>) -> Seq<u8> {
    if can_strip(s) {
        ecc::without_ecc(ecc::without_sync(s))
    } else {
        s
    }
}

/// A run of sectors without what can be made again.
pub open spec fn stripped(run: Seq<u8>, frames: nat) -> Seq<u8> {
    Seq::new(frames * 2352, |i: int| stripped_sector(sector_at(run, i / 2352))[i % 2352])
}

/// The flags of the first `n` sectors out of the eight from `8 * b` on.
pub open spec fn flag_byte(run: Seq<u8>, frames: nat, b: int, n: nat) -> u8
    decreases n,
{
    if n == 0 {
        0
    } else {
        let rest = flag_byte(run, frames, b, (n - 1) as nat);
        if 8 * b + n - 1 < frames && can_strip(sector_at(run, 8 * b + n - 1)) {
            rest | (1u8 << ((n - 1) as u8))
        } else {
            rest
        }
    }
}

/// A flag per sector, the lowest bit first: whether it was stripped.
pub open spec fn strip_flags(run: Seq<u8>, frames: nat) -> Seq<u8> {
    Seq::new((frames + 7) / 8, |b: int| flag_byte(run, frames, b, 8))
}

/// Whether the flag of sector `f` is set.
pub open spec fn flag_set(flags: Seq<u8>, f: int) -> bool {
    flags[f / 8] & (1u8 << ((f % 8) as u8)) != 0
}

/// A run of sectors with what was taken out of the flagged ones made again.
pub open spec fn unstripped(run: Seq<u8>, flags: Seq<u8>, frames: nat) -> Seq<u8> {
    Seq::new(
        frames * 2352,
        |i: int|
            {
                let s = sector_at(run, i / 2352);
                if flag_set(flags, i / 2352) {
                    ecc::with_ecc(ecc::with_sync(s))[i % 2352]
                } else {
                    s[i % 2352]
                }
            },
    )
}

proof fn lemma_bit_or(x: u8, j: u8, k: u8)
    requires
        j < 8,
        k < 8,
    ensures
        ((x | (1u8 << j)) & (1u8 << k) != 0) == (j == k || x & (1u8 << k) != 0),
{
    assert(((x | (1u8 << j)) & (1u8 << k) != 0) == (j == k || x & (1u8 << k) != 0)) by (bit_vector)
        requires
            j < 8,
            k < 8,
    ;
}

proof fn lemma_bit_none(k: u8)
    requires
        k < 8,
    ensures
        0u8 & (1u8 << k) == 0,
{
    assert(0u8 & (1u8 << k) == 0) by (bit_vector);
}

proof fn lemma_flag_byte(run: Seq<u8>, frames: nat, b: int, n: nat, k: int)
    requires
        0 <= k < 8,
        n <= 8,
    ensures
        (flag_byte(run, frames, b, n) & (1u8 << (k as u8)) != 0) == (k < n && 8 * b + k < frames
            && can_strip(sector_at(run, 8 * b + k))),
    decreases n,
{
    if n == 0 {
        lemma_bit_none(k as u8);
    } else {
        lemma_flag_byte(run, frames, b, (n - 1) as nat, k);
        lemma_bit_or(flag_byte(run, frames, b, (n - 1) as nat), (n - 1) as u8, k as u8);
    }
}

/// Exactly the sectors that were stripped are flagged.
pub proof fn lemma_flags(run: Seq<u8>, frames: nat, f: int)
    requires
        0 <= f < frames,
    ensures
        flag_set(strip_flags(run, frames), f) == can_strip(sector_at(run, f)),
{
    let b = f / 8;
    assert(0 <= b < (frames + 7) / 8);
    assert(f == 8 * b + f % 8);
    lemma_flag_byte(run, frames, b, 8, f % 8);
}

/// What was stripped off a run of sectors is made again.
pub proof fn strip_is_undone(run: Seq<u8>, frames: nat)
    requires
        run.len() == frames * 2352,
    ensures
        unstripped(stripped(run, frames), strip_flags(run, frames), frames) == run,
{
    let bare = stripped(run, frames);
    let flags = strip_flags(run, frames);
    let r = unstripped(bare, flags, frames);
    assert forall|i: int| 0 <= i < run.len() implies r[i] == run[i] by {
        let f = i / 2352;
        let k = i % 2352;
        assert(i == 2352 * f + k && 0 <= f < frames);
        let s = sector_at(run, f);
        assert(s.len() == 2352);
        assert(s[k] == run[i]);
        assert(sector_at(bare, f) =~= stripped_sector(s)) by {
            assert forall|j: int| 0 <= j < 2352 implies sector_at(bare, f)[j] == stripped_sector(s)[j] by {
                let x = f * 2352 + j;
                assert(x / 2352 == f && x % 2352 == j);
            }
        }
        lemma_flags(run, frames, f);
        if can_strip(s) {
            ecc::ecc_is_restored(s);
            assert(ecc::without_ecc(ecc::without_sync(s)).len() == 2352);
        }
    }
    assert(r =~= run);
}

/// The number of bytes that the length of the sector stream takes.
pub open spec fn length_bytes(hunk_len: nat) -> nat {
    if hunk_len < 65536 {
        2
    } else {
        3
    }
}

/// The number of bytes ahead of the sector stream: a flag per sector, and the length.
pub open spec fn head_bytes(hunk_len: nat) -> nat {
    (hunk_len / 2448 + 7) / 8 + length_bytes(hunk_len)
}

/// Takes the frames of a hunk apart, to its sectors and its subcode.
pub fn deswizzle_cd_frames(input: &[u8], frames: usize) -> (r: (Vec<u8>, Vec<u8>))
    requires
        input@.len() == frames * 2448,
    ensures
        r.0@ == sector_run(input@, frames as nat),
        r.1@ == subcode_run(input@, frames as nat),
{
    let len = input.len();
    let mut sectors: Vec<u8> = Vec::new();
    let mut subcode: Vec<u8> = Vec::new();
    let mut f: usize = 0;
    while f < frames
        invariant
            f <= frames,
            len == input@.len() == frames * 2448,
            sectors@ == sector_run(input@, frames as nat).take(f * 2352),
            subcode@ == subcode_run(input@, frames as nat).take(f * 96),
        decreases frames - f,
    {
        let at = f * 2448;
        let ghost a = sectors@;
        let ghost b = subcode@;
        sectors.extend_from_slice(&input[at..at + 2352]);
        subcode.extend_from_slice(&input[at + 2352..at + 2448]);
        proof {
            let wa = sector_run(input@, frames as nat);
            let wb = subcode_run(input@, frames as nat);
            assert(sectors@ =~= wa.take((f + 1) * 2352)) by {
                assert forall|i: int| 0 <= i < (f + 1) * 2352 implies sectors@[i] == wa[i] by {
                    if i >= f * 2352 {
                        assert(i / 2352 == f && i % 2352 == i - f * 2352);
                    } else {
                        assert(a[i] == wa[i]);
                    }
                }
            }
            assert(subcode@ =~= wb.take((f + 1) * 96)) by {
                assert forall|i: int| 0 <= i < (f + 1) * 96 implies subcode@[i] == wb[i] by {
                    if i >= f * 96 {
                        assert(i / 96 == f && i % 96 == i - f * 96);
                    } else {
                        assert(b[i] == wb[i]);
                    }
                }
            }
        }
        f = f + 1;
    }
    assert(sectors@ =~= sector_run(input@, frames as nat));
    assert(subcode@ =~= subcode_run(input@, frames as nat));
    (sectors, subcode)
}

/// Puts frames together out of sectors and subcode.
pub fn reswizzle_cd_frames(sectors: &Vec<u8>, subcode: &Vec<u8>, frames: usize) -> (r: Vec<u8>)
    requires
        sectors@.len() == frames * 2352,
        subcode@.len() == frames * 96,
    ensures
        r@ == interleaved(sectors@, subcode@, frames as nat),
{
    let la = sectors.len();
    let lb = subcode.len();
    let ghost whole = interleaved(sectors@, subcode@, frames as nat);
    let mut out: Vec<u8> = Vec::new();
    let mut f: usize = 0;
    while f < frames
        invariant
            f <= frames,
            la == sectors@.len() == frames * 2352,
            lb == subcode@.len() == frames * 96,
            whole == interleaved(sectors@, subcode@, frames as nat),
            out@ == whole.take(f * 2448),
        decreases frames - f,
    {
        let ghost a = out@;
        let sa = f * 2352;
        let sb = f * 96;
        out.extend_from_slice(&sectors.as_slice()[sa..sa + 2352]);
        out.extend_from_slice(&subcode.as_slice()[sb..sb + 96]);
        proof {
            assert(out@ =~= whole.take((f + 1) * 2448)) by {
                assert forall|i: int| 0 <= i < (f + 1) * 2448 implies out@[i] == whole[i] by {
                    if i >= f * 2448 {
                        assert(i / 2448 == f && i % 2448 == i - f * 2448);
                    } else {
                        assert(a[i] == whole[i]);
                    }
                }
            }
        }
        f = f + 1;
    }
    assert(out@ =~= whole);
    out
}

/// Copies a sector out of a run.
fn take_sector(run: &Vec<u8>, f: usize) -> (r: Vec<u8>)
    requires
        f * 2352 + 2352 <= run@.len(),
    ensures
        r@ == sector_at(run@, f as int),
        r@.len() == 2352,
{
    let len = run.len();
    let mut s: Vec<u8> = Vec::new();
    s.extend_from_slice(&run.as_slice()[f * 2352..f * 2352 + 2352]);
    assert(s@ =~= sector_at(run@, f as int));
    s
}

/// Strips a run of sectors. Returns what is left, and the flags.
fn strip_sectors(run: &Vec<u8>, frames: usize) -> (r: (Vec<u8>, Vec<u8>))
    requires
        run@.len() == frames * 2352,
    ensures
        r.0@ == stripped(run@, frames as nat),
        r.1@ == strip_flags(run@, frames as nat),
{
    let len = run.len();
    let ghost whole = stripped(run@, frames as nat);
    let mut out: Vec<u8> = Vec::new();
    let mut flags: Vec<u8> = Vec::new();
    let mut f: usize = 0;
    while f < frames
        invariant
            f <= frames,
            len == run@.len() == frames * 2352,
            whole == stripped(run@, frames as nat),
            out@ == whole.take(f * 2352),
            flags@.len() == (f + 7) / 8,
            forall|b: int|
                0 <= b < flags@.len() ==> #[trigger] flags@[b] == flag_byte(
                    run@,
                    frames as nat,
                    b,
                    if 8 * b + 8 <= f { 8 } else { (f - 8 * b) as nat },
                ),
        decreases frames - f,
    {
        let ghost a = out@;
        let ghost flags0 = flags@;
        let mut s = take_sector(run, f);
        let ghost s0 = s@;
        if f % 8 == 0 {
            flags.push(0);
        }
        let b = f / 8;
        let k: u8 = (f % 8) as u8;
        let ghost base = flags@[b as int];
        assert(base == flag_byte(run@, frames as nat, b as int, k as nat));
        if ecc::verify_sync(&s) && ecc::verify_ecc(&s) {
            let old_flags = flags[b];
            flags[b] = old_flags | (1u8 << k);
            ecc::clear_sync(&mut s);
            ecc::clear_ecc(&mut s);
        }
        out.extend_from_slice(s.as_slice());
        proof {
            assert(s@ =~= stripped_sector(s0));
            assert(f == 8 * b + k);
            assert(flags@[b as int] == flag_byte(run@, frames as nat, b as int, (k + 1) as nat));
            assert forall|x: int| 0 <= x < flags@.len() implies #[trigger] flags@[x] == flag_byte(
                run@,
                frames as nat,
                x,
                if 8 * x + 8 <= f + 1 { 8 } else { (f + 1 - 8 * x) as nat },
            ) by {
                if x != b {
                    assert(flags@[x] == flags0[x]);
                }
            }
            assert(out@ =~= whole.take((f + 1) * 2352)) by {
                assert forall|i: int| 0 <= i < (f + 1) * 2352 implies out@[i] == whole[i] by {
                    if i >= f * 2352 {
                        assert(i / 2352 == f && i % 2352 == i - f * 2352);
                    } else {
                        assert(a[i] == whole[i]);
                    }
                }
            }
        }
        f = f + 1;
    }
    proof {
        assert(out@ =~= whole);
        assert forall|b: int| 0 <= b < flags@.len() implies #[trigger] flags@[b] == flag_byte(
            run@,
            frames as nat,
            b,
            8,
        ) by {
            if 8 * b + 8 > frames {
                lemma_flag_tail(run@, frames as nat, b, (frames - 8 * b) as nat, 8);
            }
        }
        assert(flags@ =~= strip_flags(run@, frames as nat));
    }
    (out, flags)
}

/// Past the last sector there are no flags.
proof fn lemma_flag_tail(run: Seq<u8>, frames: nat, b: int, n: nat, m: nat)
    requires
        n <= m <= 8,
        8 * b + n >= frames,
    ensures
        flag_byte(run, frames, b, n) == flag_byte(run, frames, b, m),
    decreases m,
{
    if n < m {
        lemma_flag_tail(run, frames, b, n, (m - 1) as nat);
    }
}

/// Makes again what was stripped off the flagged sectors.
fn unstrip_sectors(run: &Vec<u8>, flags: &[u8], frames: usize) -> (r: Vec<u8>)
    requires
        run@.len() == frames * 2352,
        flags@.len() == (frames + 7) / 8,
    ensures
        r@ == unstripped(run@, flags@, frames as nat),
{
    let len = run.len();
    let ghost whole = unstripped(run@, flags@, frames as nat);
    let mut out: Vec<u8> = Vec::new();
    let mut f: usize = 0;
    while f < frames
        invariant
            f <= frames,
            len == run@.len() == frames * 2352,
            flags@.len() == (frames + 7) / 8,
            whole == unstripped(run@, flags@, frames as nat),
            out@ == whole.take(f * 2352),
        decreases frames - f,
    {
        let ghost a = out@;
        let mut s = take_sector(run, f);
        let ghost s0 = s@;
        if flags[f / 8] & (1u8 << ((f % 8) as u8)) != 0 {
            ecc::put_sync(&mut s);
            ecc::generate_ecc(&mut s);
        }
        out.extend_from_slice(s.as_slice());
        proof {
            assert(out@ =~= whole.take((f + 1) * 2352)) by {
                assert forall|i: int| 0 <= i < (f + 1) * 2352 implies out@[i] == whole[i] by {
                    if i >= f * 2352 {
                        assert(i / 2352 == f && i % 2352 == i - f * 2352);
                    } else {
                        assert(a[i] == whole[i]);
                    }
                }
            }
        }
        f = f + 1;
    }
    assert(out@ =~= whole);
    out
}

/// CD frames, the sectors compressed with LZMA and the subcode with Deflate.
pub type CdLzmaCodec = CdCodec<LzmaCodec, ZlibCodec>;

/// CD frames, the sectors and the subcode compressed with Deflate.
pub type CdZlibCodec = CdCodec<ZlibCodec, ZlibCodec>;

/// CD frames, the sectors and the subcode compressed with Zstandard.
pub type CdZstdCodec = CdCodec<ZstdCodec, ZstdCodec>;

impl CompressionCodecType for CdCodec<LzmaCodec, ZlibCodec> {
    open spec fn spec_codec_type(&self) -> CodecType {
        CodecType::LzmaCdV5
    }

    fn codec_type(&self) -> (r: CodecType) {
        CodecType::LzmaCdV5
    }
}

impl CompressionCodecType for CdCodec<ZlibCodec, ZlibCodec> {
    open spec fn spec_codec_type(&self) -> CodecType {
        CodecType::ZLibCdV5
    }

    fn codec_type(&self) -> (r: CodecType) {
        CodecType::ZLibCdV5
    }
}

impl CompressionCodecType for CdCodec<ZstdCodec, ZstdCodec> {
    open spec fn spec_codec_type(&self) -> CodecType {
        CodecType::ZstdCdV5
    }

    fn codec_type(&self) -> (r: CodecType) {
        CodecType::ZstdCdV5
    }
}

impl CompressionCodec for CdCodec<LzmaCodec, ZlibCodec> {

}

impl CompressionCodec for CdCodec<ZlibCodec, ZlibCodec> {

}

impl CompressionCodec for CdCodec<ZstdCodec, ZstdCodec> {

}

/// Decompresses CD frames: `Engine` has the sectors, `SubEngine` the subcode.
pub struct CdCodec<Engine: CodecImplementation, SubEngine: CodecImplementation> {
    engine: Engine,
    sub_engine: SubEngine,
    hunk_size: u32,
}

/// The length of the sector stream that the head of a hunk gives.
pub open spec fn sector_stream_len(input: Seq<u8>, hunk_len: nat) -> nat {
    bytes::be_at(
        input,
        ((hunk_len / 2448 + 7) / 8) as int,
        length_bytes(hunk_len) as int,
    )
}

/// The frames made out of what the two codecs gave.
pub open spec fn cd_frames(input: Seq<u8>, sectors: Seq<u8>, subcode: Seq<u8>, frames: nat) -> Seq<u8> {
    interleaved(
        unstripped(sectors, input.take(((frames + 7) / 8) as int), frames),
        subcode,
        frames,
    )
}

impl<Engine: CodecImplementation, SubEngine: CodecImplementation> CodecImplementation for CdCodec<
    Engine,
    SubEngine,
> {
    open spec fn accepts(hunk_size: u32) -> bool {
        &&& hunk_size % 2448 == 0
        &&& Engine::accepts((hunk_size / 2448 * 2352) as u32)
        &&& SubEngine::accepts((hunk_size / 2448 * 96) as u32)
    }

    closed spec fn hunk(&self) -> u32 {
        self.hunk_size
    }

    closed spec fn wf(&self) -> bool {
        &&& self.engine.wf()
        &&& self.sub_engine.wf()
        &&& self.engine.hunk() == self.hunk_size / 2448 * 2352
        &&& self.sub_engine.hunk() == self.hunk_size / 2448 * 96
    }

    /// The output must be one hunk, and the input must hold the head and the sector stream.
    open spec fn decoded(hunk_size: u32, input: Seq<u8>, old_out: Seq<u8>) -> Decoded {
        let n = old_out.len();
        let frames = n / 2448;
        let head = head_bytes(n);
        let len = sector_stream_len(input, n);
        if n != hunk_size || input.len() < head || input.len() < head + len {
            Err(Error::DecompressionError)
        } else {
            match Engine::decoded(
                (hunk_size / 2448 * 2352) as u32,
                input.subrange(head as int, (head + len) as int),
                bytes::zeros(frames * 2352),
            ) {
                Err(e) => Err(e),
                Ok((sectors, out1, read1)) => match SubEngine::decoded(
                    (hunk_size / 2448 * 96) as u32,
                    input.subrange((head + len) as int, input.len() as int),
                    bytes::zeros(frames * 96),
                ) {
                    Err(e) => Err(e),
                    Ok((subcode, out2, read2)) => Ok(
                        (cd_frames(input, sectors, subcode, frames), out1 + out2, read1 + read2),
                    ),
                },
            }
        }
    }

    fn new(hunk_size: u32) -> (r: Result<Self, Error>) {
        if hunk_size % CD_FRAME_SIZE != 0 {
            return Err(Error::CodecError);
        }
        let frames = hunk_size / CD_FRAME_SIZE;
        let engine = match Engine::new(frames * CD_MAX_SECTOR_DATA) {
            Ok(c) => c,
            Err(e) => {
                return Err(e);
            },
        };
        let sub_engine = match SubEngine::new(frames * CD_MAX_SUBCODE_DATA) {
            Ok(c) => c,
            Err(e) => {
                return Err(e);
            },
        };
        Ok(CdCodec { engine, sub_engine, hunk_size })
    }

    fn decompress(&mut self, input: &[u8], output: &mut [u8]) -> (r: Result<DecompressResult, Error>) {
        let n = output.len();
        if n as u64 != self.hunk_size as u64 {
            return Err(Error::DecompressionError);
        }
        let frames = n / 2448;
        let complen_bytes: usize = if n < 65536 {
            2
        } else {
            3
        };
        let ecc_bytes = (frames + 7) / 8;
        let head = ecc_bytes + complen_bytes;
        if input.len() < head {
            return Err(Error::DecompressionError);
        }
        let len = bytes::get_be(input, ecc_bytes, complen_bytes);
        if ((input.len() - head) as u64) < len {
            return Err(Error::DecompressionError);
        }
        let mid: usize = head + len as usize;
        let mut sectors: Vec<u8> = vec![0u8; frames * 2352];
        assert(sectors@ =~= bytes::zeros((frames * 2352) as nat));
        let first = match self.engine.decompress(&input[head..mid], sectors.as_mut_slice()) {
            Ok(d) => d,
            Err(e) => {
                return Err(e);
            },
        };
        let mut subcode: Vec<u8> = vec![0u8; frames * 96];
        assert(subcode@ =~= bytes::zeros((frames * 96) as nat));
        let second = match self.sub_engine.decompress(
            &input[mid..input.len()],
            subcode.as_mut_slice(),
        ) {
            Ok(d) => d,
            Err(e) => {
                return Err(e);
            },
        };
        assert(input@.subrange(0, ecc_bytes as int) =~= input@.take(ecc_bytes as int));
        let whole = unstrip_sectors(&sectors, &input[0..ecc_bytes], frames);
        let out = reswizzle_cd_frames(&whole, &subcode, frames);
        assert(out@.len() == n);
        copy_at(output, 0, out.as_slice());
        assert(output@ =~= out@);
        Ok(first.plus(second))
    }
}

/// Compresses CD frames: `Engine` has the sectors, `SubEngine` the subcode.
pub struct CdEncoder<Engine: CodecEncodeImplementation, SubEngine: CodecEncodeImplementation> {
    engine: Engine,
    sub_engine: SubEngine,
    hunk_size: u32,
}

/// What the streams of the two codecs come to. There is nothing where a codec gave up, or where the
/// sector stream alone is no smaller than the hunk.
pub open spec fn cd_stream(input: Seq<u8>, base: Option<Seq<u8>>, sub: Option<Seq<u8>>) -> Option<
    Seq<u8>,
> {
    let frames = input.len() / 2448;
    match base {
        None => None,
        Some(b) => if b.len() >= input.len() {
            None
        } else {
            match sub {
                None => None,
                Some(s) => Some(
                    strip_flags(sector_run(input, frames), frames) + bytes::be_bytes(
                        b.len(),
                        length_bytes(input.len()),
                    ) + b + s,
                ),
            }
        },
    }
}

/// Whether the two codecs may come to `base` and `sub`. The second one is asked only where the first
/// one was good enough.
pub open spec fn cd_parts<E: CodecEncodeImplementation, S: CodecEncodeImplementation>(
    input: Seq<u8>,
    cap: nat,
    base: Option<Seq<u8>>,
    sub: Option<Seq<u8>>,
) -> bool {
    let frames = input.len() / 2448;
    let head = head_bytes(input.len());
    let sectors = stripped(sector_run(input, frames), frames);
    if cap < head {
        base is None
    } else {
        &&& E::outcome((frames * 2352) as u32, sectors, (cap - head) as nat, base)
        &&& base matches Some(b) ==> b.len() <= cap - head && (b.len() < input.len() ==> S::outcome(
            (frames * 96) as u32,
            subcode_run(input, frames),
            (cap - head - b.len()) as nat,
            sub,
        ))
    }
}

/// Where each of the two codecs makes one thing of its input, so do both together.
pub proof fn cd_outcome_is_one<E: CodecEncodeImplementation, S: CodecEncodeImplementation>(
    hunk_size: u32,
    input: Seq<u8>,
    cap: nat,
    r: Option<Seq<u8>>,
    q: Option<Seq<u8>>,
)
    requires
        CdEncoder::<E, S>::outcome(hunk_size, input, cap, r),
        CdEncoder::<E, S>::outcome(hunk_size, input, cap, q),
        forall|h: u32, i: Seq<u8>, c: nat, x: Option<Seq<u8>>, y: Option<Seq<u8>>|
            #[trigger] E::outcome(h, i, c, x) && #[trigger] E::outcome(h, i, c, y) ==> x == y,
        forall|h: u32, i: Seq<u8>, c: nat, x: Option<Seq<u8>>, y: Option<Seq<u8>>|
            #[trigger] S::outcome(h, i, c, x) && #[trigger] S::outcome(h, i, c, y) ==> x == y,
    ensures
        r == q,
{
    let (a, b) = choose|base: Option<Seq<u8>>, sub: Option<Seq<u8>>|
        #[trigger] cd_parts::<E, S>(input, cap, base, sub) && r == cd_stream(input, base, sub);
    let (c, d) = choose|base: Option<Seq<u8>>, sub: Option<Seq<u8>>|
        #[trigger] cd_parts::<E, S>(input, cap, base, sub) && q == cd_stream(input, base, sub);
    assert(a == c);
}

impl<Engine: CodecEncodeImplementation, SubEngine: CodecEncodeImplementation> CodecEncodeImplementation for CdEncoder<
    Engine,
    SubEngine,
> {
    type Decoder = CdCodec<Engine::Decoder, SubEngine::Decoder>;

    open spec fn encoder_accepts(hunk_size: u32) -> bool {
        &&& hunk_size % 2448 == 0
        &&& Engine::encoder_accepts((hunk_size / 2448 * 2352) as u32)
        &&& SubEngine::encoder_accepts((hunk_size / 2448 * 96) as u32)
    }

    closed spec fn encoder_hunk(&self) -> u32 {
        self.hunk_size
    }

    closed spec fn encoder_wf(&self) -> bool {
        &&& self.engine.encoder_wf()
        &&& self.sub_engine.encoder_wf()
        &&& self.engine.encoder_hunk() == self.hunk_size / 2448 * 2352
        &&& self.sub_engine.encoder_hunk() == self.hunk_size / 2448 * 96
    }

    open spec fn takes(hunk_size: u32, n: nat) -> bool {
        &&& n == hunk_size
        &&& Engine::takes((hunk_size / 2448 * 2352) as u32, (hunk_size / 2448 * 2352) as nat)
        &&& SubEngine::takes((hunk_size / 2448 * 96) as u32, (hunk_size / 2448 * 96) as nat)
    }

    open spec fn outcome(hunk_size: u32, input: Seq<u8>, cap: nat, r: Option<Seq<u8>>) -> bool {
        exists|base: Option<Seq<u8>>, sub: Option<Seq<u8>>|
            #[trigger] cd_parts::<Engine, SubEngine>(input, cap, base, sub) && r == cd_stream(
                input,
                base,
                sub,
            )
    }

    /// The length of the sector stream must fit three bytes.
    open spec fn reliable(hunk_size: u32, n: nat) -> bool {
        &&& n <= 0x100_0000
        &&& Engine::reliable((hunk_size / 2448 * 2352) as u32, (hunk_size / 2448 * 2352) as nat)
        &&& SubEngine::reliable((hunk_size / 2448 * 96) as u32, (hunk_size / 2448 * 96) as nat)
    }

    proof fn outcome_is_decoded(hunk_size: u32, input: Seq<u8>, cap: nat, s: Seq<u8>, old_out: Seq<u8>) {
        let (base, sub) = choose|base: Option<Seq<u8>>, sub: Option<Seq<u8>>|
            #[trigger] cd_parts::<Engine, SubEngine>(input, cap, base, sub) && Some(s) == cd_stream(
                input,
                base,
                sub,
            );
        let frames = input.len() / 2448;
        let n = input.len();
        let head = head_bytes(n);
        let b = base->0;
        let c = sub->0;
        let run = sector_run(input, frames);
        let bare = stripped(run, frames);
        let subs = subcode_run(input, frames);
        let flags = strip_flags(run, frames);
        let lb = length_bytes(n);
        assert(frames == hunk_size / 2448);
        assert(n == frames * 2448);
        Engine::outcome_is_decoded(
            (frames * 2352) as u32,
            bare,
            (cap - head) as nat,
            b,
            bytes::zeros(frames * 2352),
        );
        SubEngine::outcome_is_decoded(
            (frames * 96) as u32,
            subs,
            (cap - head - b.len()) as nat,
            c,
            bytes::zeros(frames * 96),
        );
        bytes::lemma_be_len(b.len(), lb);
        assert(s.len() == head + b.len() + c.len());
        if Self::reliable(hunk_size, n) {
            lemma2_to64();
            assert(s.take(flags.len() as int) =~= flags);
            assert(s.subrange(flags.len() as int, (flags.len() + lb) as int) =~= bytes::be_bytes(
                b.len(),
                lb,
            ));
            bytes::lemma_be_at(s, flags.len() as int, b.len(), lb);
            assert(s.subrange(head as int, (head + b.len()) as int) =~= b);
            assert(s.subrange((head + b.len()) as int, s.len() as int) =~= c);
            strip_is_undone(run, frames);
            frames_are_restored(input, frames);
        }
    }

    fn new(hunk_size: u32) -> (r: Result<Self, Error>) {
        if hunk_size % CD_FRAME_SIZE != 0 {
            return Err(Error::CodecError);
        }
        let frames = hunk_size / CD_FRAME_SIZE;
        let engine = match Engine::new(frames * CD_MAX_SECTOR_DATA) {
            Ok(c) => c,
            Err(e) => {
                return Err(e);
            },
        };
        let sub_engine = match SubEngine::new(frames * CD_MAX_SUBCODE_DATA) {
            Ok(c) => c,
            Err(e) => {
                return Err(e);
            },
        };
        Ok(CdEncoder { engine, sub_engine, hunk_size })
    }

    #[verifier::spinoff_prover]
    #[verifier::rlimit(60)]
    fn compress(&mut self, input: &[u8], output: &mut [u8]) -> (r: Result<usize, Error>) {
        let n = input.len();
        let cap = output.len();
        let frames = n / 2448;
        let complen_bytes: usize = if n < 65536 {
            2
        } else {
            3
        };
        let head = (frames + 7) / 8 + complen_bytes;
        if cap < head {
            assert(cd_parts::<Engine, SubEngine>(input@, cap as nat, None, None));
            return Err(Error::CompressionError);
        }
        let (sectors, subcode) = deswizzle_cd_frames(input, frames);
        let (bare, flags) = strip_sectors(&sectors, frames);
        let room: usize = cap - head;
        let mut base_buf: Vec<u8> = vec![0u8; room];
        let base_n = match self.engine.compress(bare.as_slice(), base_buf.as_mut_slice()) {
            Ok(k) => k,
            Err(e) => {
                assert(cd_parts::<Engine, SubEngine>(input@, cap as nat, None, None));
                return Err(e);
            },
        };
        let ghost base = base_buf@.take(base_n as int);
        if base_n >= n {
            assert(cd_parts::<Engine, SubEngine>(input@, cap as nat, Some(base), None));
            return Err(Error::CompressionError);
        }
        let left: usize = room - base_n;
        let mut sub_buf: Vec<u8> = vec![0u8; left];
        let sub_n = match self.sub_engine.compress(subcode.as_slice(), sub_buf.as_mut_slice()) {
            Ok(k) => k,
            Err(e) => {
                assert(cd_parts::<Engine, SubEngine>(input@, cap as nat, Some(base), None));
                return Err(e);
            },
        };
        let ghost sub = sub_buf@.take(sub_n as int);
        let mut stream: Vec<u8> = Vec::new();
        stream.extend_from_slice(flags.as_slice());
        bytes::push_be(&mut stream, base_n as u64, complen_bytes as u8);
        stream.extend_from_slice(&base_buf.as_slice()[0..base_n]);
        stream.extend_from_slice(&sub_buf.as_slice()[0..sub_n]);
        proof {
            bytes::lemma_be_len(base_n as nat, complen_bytes as nat);
            assert(cd_parts::<Engine, SubEngine>(input@, cap as nat, Some(base), Some(sub)));
            assert(Some(stream@) =~= cd_stream(input@, Some(base), Some(sub))) by {
                assert(stream@ =~= cd_stream(input@, Some(base), Some(sub))->0);
            }
        }
        put_stream(stream.as_slice(), output)
    }
}

impl<Engine: CodecEncodeImplementation, SubEngine: CodecEncodeImplementation> CompressionEncoder for CdEncoder<
    Engine,
    SubEngine,
> {

}

/// Compresses CD frames, the sectors with LZMA and the subcode with Deflate.
pub type CdLzmaEncoder = CdEncoder<LzmaEncoder, ZlibEncoder>;

/// Compresses CD frames, the sectors and the subcode with Deflate.
pub type CdZlibEncoder = CdEncoder<ZlibEncoder, ZlibEncoder>;

/// Compresses CD frames, the sectors and the subcode with Zstandard.
pub type CdZstdEncoder = CdEncoder<ZstdEncoder, ZstdEncoder>;

} // verus!
