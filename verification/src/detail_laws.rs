//! Laws of details that other laws build on.

use crate::cd;
use crate::cd::SourceFile;
use crate::chdfile;
use crate::chdfile::Read;
use crate::compression::codecs;
use crate::compression::flac;
use crate::compression::lzma;
use crate::compression::Decoded;
use crate::error::Error;
use crate::hd;
use crate::header::{CodecType, Header};
use crate::metadata;
use crate::metadata::{Meta, MetaEntry};
use crate::report;
use crate::text;
use crate::write::{Plan, PlainLayout, Progress};
use vstd::arithmetic::power2::*;
use vstd::prelude::*;
use vstd::string::*;

verus! {

/// Two numbers of files stand for one file where the files have one number of their own.
pub proof fn files_that_are_the_same(files: Seq<SourceFile>, a: usize, b: usize)
    ensures
        a < files.len() && b < files.len() ==> (cd::same_file(files, a, b) <==> files[a as int].id
            == files[b as int].id),
        a >= files.len() || b >= files.len() ==> (cd::same_file(files, a, b) <==> a == b),
{
}

/// A file holds its bytes, where it could be read.
pub proof fn contents_of_files(files: Seq<SourceFile>, i: int)
    ensures
        0 <= i < files.len() && files[i].data is Some ==> cd::contents(files, i) == Some(files[i].data->0@),
        !(0 <= i < files.len() && files[i].data is Some) ==> cd::contents(files, i) is None,
        cd::all_contents(files).len() == files.len(),
        0 <= i < files.len() ==> cd::all_contents(files)[i] == cd::contents(files, i),
{
}

/// An entry to write has its tag, its flags and its contents, and a list of them its entries in order.
pub proof fn entries_to_write(es: Seq<MetaEntry>, i: int)
    requires
        0 <= i < es.len(),
    ensures
        metadata::metas(es).len() == es.len(),
        metadata::metas(es)[i].tag == es[i].tag,
        metadata::metas(es)[i].flags == es[i].flags,
        metadata::metas(es)[i].payload == es[i].payload@,
{
}

/// A layout has the sizes and the metadata that it is made of, and as many hunks as hold the image.
pub proof fn layouts_of_plain_files(n: nat, hunk: u32, unit: u32, ms: Seq<Meta>)
    requires
        hunk > 0,
    ensures
        ({
            let p = crate::write::plain_layout(n, hunk, unit, ms);
            &&& p == (PlainLayout { logical_bytes: n, hunk_bytes: hunk, unit_bytes: unit, metadata: ms })
            &&& p.count() * hunk >= n
            &&& (p.count() - 1) * hunk < n
        }),
{
    crate::header::lemma_pieces(n, hunk as nat);
    let c = header_count(n, hunk);
    assert((c - 1) * hunk == c * hunk - hunk) by (nonlinear_arith);
}

spec fn header_count(n: nat, hunk: u32) -> int {
    crate::header::pieces(n, hunk as nat) as int
}

/// A hunk is read where the buffer and the number of bytes are those that reading comes to; otherwise
/// there is the error that it comes to.
pub proof fn hunks_that_are_read(r: Result<usize, Error>, out: Seq<u8>, expected: Read)
    requires
        chdfile::is_read(r, out, expected),
    ensures
        r is Ok <==> expected is Ok,
        r matches Ok(n) ==> expected == Read::Ok((out, n as nat)),
        r matches Err(e) ==> expected == Read::Err(e),
{
}

/// A creation that fails leaves everything as it was: the format cannot hold the file, or there is
/// something wrong with the plan.
pub proof fn attempts_that_fail(p: Plan, before: Seq<u8>, after: Seq<u8>, e: Error)
    requires
        hd::attempted(p, before, after, Err::<(), Error>(e)),
    ensures
        after == before,
        p.within_limits() ==> p.fault() == Some(e),
        !p.within_limits() ==> e == Error::OutOfMemory,
{
}

/// A creation succeeds exactly where the format can hold the file and nothing is wrong with the plan.
pub proof fn attempts_that_succeed(p: Plan, before: Seq<u8>, after: Seq<u8>, r: Result<(), Error>)
    requires
        hd::attempted(p, before, after, r),
    ensures
        r is Ok <==> p.within_limits() && p.fault() is None,
        r is Ok ==> after.len() >= before.len() && after.take(before.len() as int) == before,
{
}

/// Which error codecs that a file names come to: an unknown number, and audio and video, are not
/// supported; a hunk that the codec cannot work on is a codec error.
pub proof fn errors_of_codecs(codes: Seq<u32>, hunk_bytes: u32)
    requires
        codes.len() > 0,
    ensures
        CodecType::named(codes[0]) is None ==> chdfile::codec_fault(codes, hunk_bytes, 0) == Some(
            Error::UnsupportedFormat,
        ),
        CodecType::named(codes[0]) matches Some(c) ==> (!codecs::can_decode(c, hunk_bytes)
            ==> chdfile::codec_fault(codes, hunk_bytes, 0) == Some(
            if c is AV || c is AVHuffV5 {
                Error::UnsupportedFormat
            } else {
                Error::CodecError
            },
        )),
{
    reveal_with_fuel(chdfile::codec_fault, 2);
}

/// The codecs that are listed of a file are those before the first empty slot, in their order; before
/// version 5 it is the first one.
pub proof fn codecs_that_are_listed(h: Header, k: int)
    requires
        0 <= k < 4,
    ensures
        ({
            let n = report::codecs_named(h, 0);
            &&& h.version < 5 ==> n == 1
            &&& h.version >= 5 ==> 0 <= n <= 4
            &&& h.version >= 5 ==> (k < n ==> h.compression@[k] != 0)
            &&& h.version >= 5 && n < 4 ==> h.compression@[n] == 0
            &&& report::labels(h, n).len() == n
            &&& k < n && CodecType::named(h.compression@[k]) is Some ==> report::labels(h, n)[k]
                == report::compression_label(CodecType::named(h.compression@[k])->0)
        }),
{
    if h.version >= 5 {
        lemma_named(h, 0, k);
    }
}

proof fn lemma_named(h: Header, from: int, k: int)
    requires
        0 <= from <= 4,
        h.version >= 5,
    ensures
        from <= report::codecs_named(h, from) <= 4,
        from <= k < report::codecs_named(h, from) ==> h.compression@[k] != 0,
        report::codecs_named(h, from) < 4 ==> h.compression@[report::codecs_named(h, from)] == 0,
    decreases 4 - from,
{
    if from < 4 && h.compression@[from] != 0 {
        lemma_named(h, from + 1, k);
    }
}

/// The rows that are shown count something. Those of hunks as they are, of references and of the rest
/// come first, then those of the codecs by slot.
pub proof fn rows_that_are_shown(h: Header, counts: Seq<u64>, k: int)
    requires
        counts.len() == 9,
        0 <= k < 9,
    ensures
        ({
            let row = if k < 5 {
                k + 4
            } else {
                k - 5
            };
            let rest = report::rows_from(h, counts, k + 1);
            &&& counts[row] == 0 ==> report::rows_from(h, counts, k) == rest
            &&& counts[row] > 0 ==> report::rows_from(h, counts, k) == seq![
                (counts[row], report::row_name(h, row)->0),
            ] + rest
            &&& report::rows_from(h, counts, 9).len() == 0
        }),
{
}

/// The names of the rows: fixed ones from row 4 on, and those of the codecs in the slots before it.
pub proof fn names_of_rows(h: Header, row: int)
    requires
        0 <= row < 9,
    ensures
        row == 4 ==> report::row_name(h, row) == Some("Uncompressed"@),
        row == 5 ==> report::row_name(h, row) == Some("Copy from self"@),
        row == 6 ==> report::row_name(h, row) == Some("Copy from parent"@),
        row == 7 ==> report::row_name(h, row) == Some("Legacy 8-byte mini"@),
        row == 8 ==> report::row_name(h, row) == Some("Unknown"@),
        row < 4 && h.version >= 5 ==> (report::row_name(h, row) is Some <==> CodecType::named(
            h.compression@[row],
        ) is Some),
        row < 4 && h.version >= 5 ==> (CodecType::named(h.compression@[row]) matches Some(c)
            ==> report::row_name(h, row) == Some(report::codec_label(c))),
{
}

/// The blocks of FLAC frames follow each other until there are enough samples. A block that is not
/// there, or has other than two channels, is refused, and one that goes past the room is an error.
pub proof fn blocks_follow_each_other(
    input: Seq<u8>,
    pos: nat,
    need: nat,
    done: nat,
    room: nat,
    big: bool,
)
    ensures
        done >= need ==> flac::flac_bytes(input, pos, need, done, room, big) == Decoded::Ok(
            (Seq::empty(), done, pos),
        ),
        done < need ==> match flac::flac_block(flac::reach(input, pos), pos) {
            None => flac::flac_bytes(input, pos, need, done, room, big) == Decoded::Err(
                Error::DecompressionError,
            ),
            Some((channels, n, samples, next)) => {
                let rest = flac::flac_bytes(input, next, need, done + n, room, big);
                let r = flac::flac_bytes(input, pos, need, done, room, big);
                &&& channels != 2 ==> r == Decoded::Err(Error::DecompressionError)
                &&& channels == 2 && n > 0 && (done + n) * 4 > room ==> r == Decoded::Err(Error::ReadError)
                &&& channels == 2 && n > 0 && (done + n) * 4 <= room && rest is Ok ==> r == Decoded::Ok(
                    (
                        flac::block_bytes(samples, n, n, big) + rest->Ok_0.0,
                        rest->Ok_0.1,
                        rest->Ok_0.2,
                    ),
                )
            },
        },
{
}

/// The dictionary of a level, where the data is no shorter: 2^14 bytes at level 0 and four times as much
/// with each level up to 5, then 2^25 and from level 8 on 2^26.
pub proof fn dictionaries_of_levels(level: u32, n: u32)
    ensures
        level <= 5 && n >= 0x100_0000 ==> lzma::dict_size(level, n) == pow2((14 + 2 * level) as nat),
        (level == 6 || level == 7) && n >= 0x200_0000 ==> lzma::dict_size(level, n) == 0x200_0000,
        level >= 8 && n >= 0x400_0000 ==> lzma::dict_size(level, n) == 0x400_0000,
{
    lemma2_to64();
    if level <= 5 {
        assert(level == 0 || level == 1 || level == 2 || level == 3 || level == 4 || level == 5);
    }
}

/// The text of a shape has four parts, each with its name and its number; with any other text there is
/// no shape.
pub proof fn texts_that_are_shapes(raw: Seq<u8>)
    ensures
        ({
            let p = text::parts(hd::trimmed(raw), 0x2c);
            let part = |i: int, word: Seq<u8>|
                p[i].len() >= word.len() && p[i].take(word.len() as int) == word && text::parsed_number(
                    p[i].skip(word.len() as int),
                    u32::MAX as nat,
                ) is Some;
            hd::parsed_gddd(raw) is Some <==> p.len() == 4 && part(
                0,
                seq![0x43u8, 0x59u8, 0x4cu8, 0x53u8, 0x3au8],
            ) && part(1, seq![0x48u8, 0x45u8, 0x41u8, 0x44u8, 0x53u8, 0x3au8]) && part(
                2,
                seq![0x53u8, 0x45u8, 0x43u8, 0x53u8, 0x3au8],
            ) && part(3, seq![0x42u8, 0x50u8, 0x53u8, 0x3au8])
        }),
{
}

/// A report has its three numbers: the bytes that are done, all bytes, and the stored bytes.
pub proof fn numbers_of_reports(p: Progress)
    ensures
        p@ == (p.bytes_done as nat, p.bytes_total as nat, p.bytes_stored as nat),
{
}

/// A file can be created exactly where a hunk is a whole number of units, and with compression where
/// there are no more than four codecs that can all compress hunks of the size.
pub proof fn plans_that_can_be_done(p: Plan)
    ensures
        p.fault() is None <==> {
            &&& p.hunk_size > 0
            &&& p.unit_size > 0
            &&& p.hunk_size as int % p.unit_size as int == 0
            &&& p.codecs.len() <= 4
            &&& forall|k: int|
                0 <= k < p.codecs.len() ==> codecs::can_encode(#[trigger] p.codecs[k], p.hunk_size)
        },
        p.hunk_size == 0 || p.unit_size == 0 || p.hunk_size as int % p.unit_size as int != 0 ==> p.fault()
            == Some(Error::InvalidParameter),
{
    if p.codecs.len() > 0 {
        crate::creation_laws::jobs_that_can_be_done(
            crate::write::job_for(p.data, p.hunk_size, p.unit_size, p.codecs, p.metadata, None),
        );
    }
}

/// What a plan comes to: without codecs a file without compression, else one with compressed hunks.
pub proof fn files_of_plans(p: Plan, file: Seq<u8>)
    requires
        p.may_create(file),
    ensures
        p.codecs.len() == 0 ==> file == (PlainLayout {
            logical_bytes: p.data.len(),
            hunk_bytes: p.hunk_size,
            unit_bytes: p.unit_size,
            metadata: p.metadata,
        }).file(p.data),
        p.codecs.len() > 0 ==> (crate::write::Job {
            data: p.data,
            hunk_bytes: p.hunk_size,
            unit_bytes: p.unit_size,
            codecs: p.codecs,
            metadata: p.metadata,
            parent: None,
        }).may_write(file),
{
}

/// Numbers of frames are kept in 32 bits; what goes past them is cut off.
pub proof fn frames_in_32_bits(v: int)
    ensures
        (crate::cue::low_bits(v) - v) % 0x1_0000_0000 == 0,
        0 <= v <= u32::MAX ==> crate::cue::low_bits(v) == v,
{
}

/// Which error a metadata list comes to that does not end: a place without an entry cannot be read, and a
/// list that runs in a circle is wrong.
pub proof fn errors_of_lists(f: Seq<u8>, tag: u32, index: u32)
    requires
        metadata::edit_fault(f) is None,
        metadata::position(crate::metadata_laws::places(f), tag, index) is None,
    ensures
        metadata::list(f, crate::metadata_laws::first_entry(f)).1 is Broken ==> metadata::removed(
            f,
            tag,
            index,
        ) == Err::<Seq<u8>, Error>(Error::ReadError),
        metadata::list(f, crate::metadata_laws::first_entry(f)).1 is Circular ==> metadata::removed(
            f,
            tag,
            index,
        ) == Err::<Seq<u8>, Error>(Error::InvalidData),
{
}

/// A field of a stream is there where all its bits are.
pub proof fn fields_of_streams(bits: Seq<bool>, pos: int, n: nat)
    requires
        0 <= pos,
    ensures
        crate::bitstream::field(bits, pos, n) is Some <==> pos + n <= bits.len(),
        crate::bitstream::field(bits, pos, n) matches Some(v) ==> v == crate::bitstream::bits_value(
            bits.subrange(pos, pos + n),
        ),
{
}

} // verus!
