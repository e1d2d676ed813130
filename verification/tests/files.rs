//! Files as a whole: written, opened, read, verified.

use chd::bytes::get_be;
use chd::chdfile::{Chd, Codecs, Extraction, HunkMap, LegacyEntry, LegacyKind};
use chd::codec::{CHD_CODEC_HUFF, CHD_CODEC_ZLIB};
use chd::copy::{copy, CopyOptions};
use chd::dvd::{create_from_reader, extract_to_writer, is_dvd, open_dvd, DvdCreateOptions};
use chd::error::Error;
use chd::hash::sha1_digest;
use chd::hd::{create_raw_from_reader, HdCreateOptions};
use chd::header::{make_tag, CodecType, Header};
use chd::metadata::{compute_overall_sha1, MetaEntry};
use chd::write::{
    build_parent_ref, resolve_codecs, write_create, write_raw, write_raw_compressed, write_raw_inner,
    write_raw_uncompressed, Creation,
};

fn make_input(len: usize) -> Vec<u8> {
    let mut v = Vec::with_capacity(len);
    let mut x: u32 = 0x2545_f491;
    for i in 0..len {
        let b = match (i / 96) % 3 {
            0 => 0u8,
            1 => b"the quick brown fox "[i % 20],
            _ => {
                x ^= x << 13;
                x ^= x >> 17;
                x ^= x << 5;
                (x & 0xff) as u8
            }
        };
        v.push(b);
    }
    v
}

#[test]
fn verify_detects_data_and_metadata_corruption() {
    let input = make_input(256 * 1024);
    let mut bytes = Vec::new();
    chd::hd::create_from_reader(
        input,
        &mut bytes,
        &HdCreateOptions { codecs: [CHD_CODEC_ZLIB, 0, 0, 0], ..Default::default() },
    )
    .unwrap();

    let mut chd = Chd::open(bytes.clone(), None).unwrap();
    let r = chd.verify().unwrap();
    assert!(r.is_valid(), "fresh CHD should verify: {r:?}");

    let mut c1 = bytes.clone();
    c1[64] ^= 0xff;
    let r1 = Chd::open(c1, None).unwrap().verify().unwrap();
    assert!(!r1.raw_sha1_valid(), "corrupted stored raw SHA-1 must be detected");
    assert!(!r1.is_valid());

    let meta_off = u64::from_be_bytes(bytes[48..56].try_into().unwrap()) as usize;
    let mut c2 = bytes.clone();
    c2[meta_off + 16 + 8] ^= 0xff;
    let r2 = Chd::open(c2, None).unwrap().verify().unwrap();
    assert!(r2.raw_sha1_valid(), "data is intact so raw SHA-1 should still match");
    assert!(!r2.overall_sha1_valid(), "corrupted metadata must fail the overall SHA-1");
    assert!(!r2.is_valid());
}

#[test]
fn verify_partial_last_hunk_and_uncompressed() {
    let input = make_input(4096 * 5 + 512 * 3);
    let mut out = Vec::new();
    write_raw(&mut out, &input, 4096, 512, &[CodecType::ZLibV5]).unwrap();
    let mut chd = Chd::open(out, None).unwrap();
    assert!(
        chd.verify().unwrap().is_valid(),
        "partial-last-hunk CHD should verify (raw SHA-1 over logical bytes)"
    );

    let mut out2 = Vec::new();
    write_raw_uncompressed(&mut out2, &input, 4096, 512).unwrap();
    let mut chd2 = Chd::open(out2, None).unwrap();
    assert!(matches!(chd2.verify(), Err(Error::UnsupportedFormat)));
}

#[test]
fn every_codec_reads_back() {
    let input = make_input(4096 * 3 + 1024);
    for codec in [
        CodecType::ZLibV5,
        CodecType::LzmaV5,
        CodecType::ZstdV5,
        CodecType::HuffV5,
        CodecType::FlacV5,
    ] {
        let mut out = Vec::new();
        write_raw_compressed(&mut out, &input, 4096, 512, codec).unwrap();
        let mut chd = Chd::open(out, None).unwrap();
        assert_eq!(chd.read_all().unwrap(), input);
        assert!(chd.verify().unwrap().is_valid());
        assert_eq!(chd.header().compression, [codec.code(), 0, 0, 0]);
    }
}

#[test]
fn layout_without_compression() {
    let input = make_input(1000);
    let mut out = vec![7];
    write_raw_uncompressed(&mut out, &input, 512, 256).unwrap();
    let f = &out[1..];
    assert_eq!(&f[..8], b"MComprHD");
    assert_eq!(get_be(f, 8, 4), 124);
    assert_eq!(get_be(f, 12, 4), 5);
    assert_eq!(get_be(f, 16, 4), 0);
    assert_eq!(get_be(f, 32, 8), 1000);
    assert_eq!(get_be(f, 40, 8), 124);
    assert_eq!(get_be(f, 48, 8), 0);
    assert_eq!(get_be(f, 56, 4), 512);
    assert_eq!(get_be(f, 60, 4), 256);
    assert_eq!(get_be(f, 124, 4), 1);
    assert_eq!(get_be(f, 128, 4), 2);
    assert_eq!(&f[512..1512], &input[..]);
    assert_eq!(f.len(), 1536);
}

#[test]
fn digests_of_a_compressed_file() {
    let input = make_input(4096);
    let mut out = Vec::new();
    write_raw(&mut out, &input, 1024, 512, &[CodecType::HuffV5]).unwrap();
    let raw = sha1_digest(&input);
    assert_eq!(&out[64..84], &raw);
    assert_eq!(&out[84..104], &compute_overall_sha1(&raw, &[]));
    assert_eq!(compute_overall_sha1(&raw, &[]), sha1_digest(&raw));
    let nothing = sha1_digest(b"");
    assert_eq!(&nothing[..4], &[0xda, 0x39, 0xa3, 0xee]);
}

#[test]
fn order_of_metadata_does_not_change_the_digest() {
    let raw = sha1_digest(b"x");
    let entry = |t: &[u8; 4], flags: u8, p: &[u8]| MetaEntry {
        tag: make_tag(t),
        flags,
        payload: p.to_vec(),
    };
    let a = [entry(b"AAAA", 1, b"one"), entry(b"BBBB", 1, b"two")];
    let b = [entry(b"BBBB", 1, b"two"), entry(b"AAAA", 1, b"one"), entry(b"CCCC", 0, b"three")];
    assert_eq!(compute_overall_sha1(&raw, &a), compute_overall_sha1(&raw, &b));
    let c = [entry(b"AAAA", 1, b"one")];
    assert!(compute_overall_sha1(&raw, &a) != compute_overall_sha1(&raw, &c));
}

#[test]
fn equal_hunks_are_stored_once() {
    let hunk = make_input(4096);
    let mut input = Vec::new();
    for _ in 0..8 {
        input.extend_from_slice(&hunk);
    }
    let mut once = Vec::new();
    write_raw(&mut once, &hunk, 4096, 512, &[CodecType::ZLibV5]).unwrap();
    let mut all = Vec::new();
    write_raw(&mut all, &input, 4096, 512, &[CodecType::ZLibV5]).unwrap();
    assert!(all.len() < once.len() + 64);
    assert_eq!(Chd::open(all, None).unwrap().read_all().unwrap(), input);
}

#[test]
fn hunks_of_the_parent_are_not_stored() {
    let parent_img = make_input(4096 * 4);
    let mut parent_file = Vec::new();
    write_raw(&mut parent_file, &parent_img, 4096, 512, &[CodecType::ZLibV5]).unwrap();
    let parent = Chd::open(parent_file.clone(), None).unwrap();
    let sha1 = parent.header().sha1.unwrap();

    let mut child_img = parent_img[512..].to_vec();
    child_img.extend_from_slice(&[9u8; 512]);
    let windows = build_parent_ref(&parent_img, 4096, 512, 4, sha1);
    let mut child_file = Vec::new();
    write_raw_inner(
        &mut child_file,
        &child_img,
        4096,
        512,
        &[CodecType::ZLibV5],
        &[],
        Some(&windows),
    )
    .unwrap();
    assert!(child_file.len() < parent_file.len());
    let mut child = Chd::open(child_file.clone(), Some(Box::new(parent))).unwrap();
    assert!(child.header().has_parent);
    assert_eq!(child.header().parent_sha1, Some(sha1));
    assert_eq!(child.read_all().unwrap(), child_img);
    assert!(child.verify().unwrap().is_valid());
    assert_eq!(child.inner_parent().unwrap().len(), parent_file.len());
    assert_eq!(child.inner().len(), child_file.len());
    let (own, held) = child.into_inner();
    assert_eq!(own, child_file);
    assert!(held.is_some());
    let mut orphan = Chd::open(child_file.clone(), None).unwrap();
    assert_eq!(orphan.read_all(), Err(Error::RequiresParent));
    let parent = Chd::open(parent_file.clone(), None).unwrap();
    assert_eq!(
        Chd::open(parent_file, Some(Box::new(parent))).err(),
        Some(Error::InvalidParameter)
    );
    let mut other = Vec::new();
    write_raw(&mut other, &child_img, 4096, 512, &[CodecType::ZLibV5]).unwrap();
    let stranger = Chd::open(other, None).unwrap();
    assert_eq!(
        Chd::open(child_file, Some(Box::new(stranger))).err(),
        Some(Error::InvalidParent)
    );
}

#[test]
fn hunks_one_by_one() {
    let input = make_input(3000);
    let mut out = Vec::new();
    write_raw(&mut out, &input, 1024, 512, &[CodecType::ZLibV5]).unwrap();
    let mut chd = Chd::open(out, None).unwrap();
    let mut comp = Vec::new();
    let mut buf = chd.get_hunksized_buffer();
    assert_eq!(buf, vec![0u8; 1024]);
    {
        let mut hunk = chd.hunk(2).unwrap();
        assert_eq!(hunk.len(), 1024);
        assert_eq!(hunk.read_hunk_in(&mut comp, &mut buf), Ok(1024));
        let mut raw = Vec::new();
        let n = hunk.read_raw_in(&mut raw).unwrap();
        assert_eq!(n, raw.len());
    }
    assert_eq!(&buf[..952], &input[2048..]);
    assert!(buf[952..].iter().all(|b| *b == 0));
    assert_eq!(chd.hunk(3).err(), Some(Error::HunkOutOfRange));
}

#[test]
fn buffers_of_another_size_are_left_alone() {
    let input = make_input(3000);
    let mut out = Vec::new();
    write_raw(&mut out, &input, 1024, 512, &[CodecType::ZLibV5]).unwrap();
    let mut chd = Chd::open(out, None).unwrap();
    let mut comp = vec![7u8; 3];
    let mut small = vec![9u8; 10];
    assert_eq!(chd.read_whole(0, &mut comp, &mut small), Err(Error::OutOfMemory));
    assert_eq!(
        chd.hunk(0).unwrap().read_hunk_in(&mut comp, &mut small),
        Err(Error::OutOfMemory)
    );
    assert_eq!((comp, small), (vec![7u8; 3], vec![9u8; 10]));
}

#[test]
fn one_codec_alone_or_in_a_list() {
    let input = make_input(9000);
    for codec in [CodecType::ZLibV5, CodecType::LzmaV5, CodecType::HuffV5, CodecType::ZstdV5] {
        let mut alone = Vec::new();
        write_raw_compressed(&mut alone, &input, 4096, 512, codec).unwrap();
        let mut listed = Vec::new();
        write_raw(&mut listed, &input, 4096, 512, &[codec]).unwrap();
        assert_eq!(alone, listed);
        assert_eq!(alone[64..84], sha1_digest(&input));
        assert_eq!(alone[84..104], sha1_digest(&alone[64..84]));
    }
}

#[test]
fn other_digests_in_the_header_are_noticed() {
    let input = make_input(9000);
    let mut file = Vec::new();
    let entry = MetaEntry { tag: make_tag(b"ABCD"), flags: 1, payload: vec![1, 2, 3] };
    write_create(&mut file, &input, 4096, 512, &[CodecType::ZLibV5], &[entry]).unwrap();
    let verify = |f: Vec<u8>| Chd::open(f, None).unwrap().verify().unwrap();
    let v = verify(file.clone());
    assert!(v.raw_sha1_valid() && v.overall_sha1_valid());
    let mut other = file.clone();
    other[83] ^= 1;
    let v = verify(other);
    assert!(!v.raw_sha1_valid() && v.overall_sha1_valid());
    let mut other = file.clone();
    other[84] ^= 1;
    let v = verify(other);
    assert!(v.raw_sha1_valid() && !v.overall_sha1_valid());
    let mut other = file;
    other[140] ^= 1;
    let v = verify(other);
    assert!(v.raw_sha1_valid() && !v.overall_sha1_valid());
}

#[test]
fn damaged_hunks_are_noticed() {
    let input = make_input(4096);
    let mut out = Vec::new();
    write_raw(&mut out, &input, 4096, 512, &[CodecType::ZLibV5]).unwrap();
    for k in 124..140 {
        out[k] ^= 0x55;
    }
    let mut chd = Chd::open(out, None).unwrap();
    assert!(chd.read_all().is_err());
}

#[test]
fn headers_that_are_none() {
    assert!(Chd::open(vec![], None).is_err());
    let mut out = Vec::new();
    write_raw_uncompressed(&mut out, &[1, 2, 3, 4], 4, 2).unwrap();
    let mut bad = out.clone();
    bad[0] = b'X';
    assert!(Chd::open(bad, None).is_err());
    let mut bad = out.clone();
    bad[15] = 9;
    assert!(Chd::open(bad, None).is_err());
    let mut bad = out;
    bad[16..20].copy_from_slice(b"what");
    assert!(Chd::open(bad, None).is_err());
}

#[test]
fn faults_of_writing() {
    let mut out = Vec::new();
    assert_eq!(
        write_raw(&mut out, &[0; 16], 0, 4, &[CodecType::ZLibV5]),
        Err(Error::InvalidParameter)
    );
    assert_eq!(
        write_raw(&mut out, &[0; 16], 6, 4, &[CodecType::ZLibV5]),
        Err(Error::InvalidParameter)
    );
    assert_eq!(write_raw_uncompressed(&mut out, &[0; 16], 4, 0), Err(Error::InvalidParameter));
    assert!(write_raw(&mut out, &[0; 16], 8, 4, &[CodecType::AVHuffV5]).is_err());
    assert!(out.is_empty());
    assert!(resolve_codecs(&[0, CHD_CODEC_ZLIB, 0, 0]).is_err());
    assert!(resolve_codecs(&[0xdead_beef, 0, 0, 0]).is_err());
    assert_eq!(
        resolve_codecs(&[CHD_CODEC_ZLIB, CHD_CODEC_HUFF, 0, 0]).unwrap(),
        vec![CodecType::ZLibV5, CodecType::HuffV5]
    );
    assert!(resolve_codecs(&[0; 4]).unwrap().is_empty());
}

#[test]
fn creation_step_by_step() {
    let input = make_input(4096 * 3);
    let codecs = [CodecType::LzmaV5, CodecType::HuffV5];
    let mut whole = Vec::new();
    write_create(&mut whole, &input, 4096, 512, &codecs, &[]).unwrap();

    let mut job = Creation::start(&input, 4096, 512, &codecs, &[]).unwrap();
    let mut steps = 0;
    let mut stored = 0;
    while !job.is_done() {
        let p = job.progress();
        assert_eq!((p.bytes_done, p.bytes_total), (4096 * steps, 4096 * 3));
        assert!(p.bytes_stored >= stored && (steps > 0 || p.bytes_stored == 0));
        stored = p.bytes_stored;
        job.advance(false).unwrap();
        steps += 1;
    }
    assert_eq!(steps, 3);
    let p = job.progress();
    assert_eq!((p.bytes_done, p.bytes_total), (4096 * 3, 4096 * 3));
    assert_eq!(p.bytes_stored, get_be(&whole, 40, 8) - 124);
    let mut out = Vec::new();
    job.finish(&mut out);
    assert_eq!(out, whole);

    let mut job = Creation::start(&input, 4096, 512, &codecs, &[]).unwrap();
    job.advance(false).unwrap();
    assert_eq!(job.advance(true), Err(Error::Cancelled));
}

#[test]
fn extraction_part_by_part() {
    let input = make_input(2500);
    let mut out = Vec::new();
    write_raw(&mut out, &input, 1024, 512, &[CodecType::ZLibV5]).unwrap();
    let mut parts = Extraction::start(Chd::open(out, None).unwrap());
    let mut lengths = Vec::new();
    let mut all = Vec::new();
    while let Some(part) = parts.next().unwrap() {
        lengths.push(part.len());
        all.extend_from_slice(&part);
    }
    assert_eq!(lengths, vec![1024, 1024, 452]);
    assert_eq!(all, input);
}

#[test]
fn hd_extract_roundtrips() {
    let input = make_input(4096 * 7 + 512 * 2);
    let mut out = Vec::new();
    write_raw_compressed(&mut out, &input, 4096, 512, CodecType::LzmaV5).unwrap();
    let mut extracted = Vec::new();
    chd::hd::extract_to_writer(out, &mut extracted).unwrap();
    assert_eq!(extracted, input);
}

#[test]
fn dvd_extract_roundtrips_and_rejects_non_dvd() {
    let input = make_input(2048 * 53);
    let mut file = Vec::new();
    let opts = DvdCreateOptions {
        codecs: [chd::codec::CHD_CODEC_LZMA, 0, 0, 0],
        ..Default::default()
    };
    create_from_reader(input.clone(), &mut file, &opts).unwrap();
    let mut out = Vec::new();
    extract_to_writer(file.clone(), &mut out).unwrap();
    assert_eq!(out, input, "dvd round-trip mismatch");
    assert!(is_dvd(&open_dvd(file).unwrap()).unwrap());

    let mut raw = Vec::new();
    write_raw_compressed(&mut raw, &input, 4096, 2048, CodecType::LzmaV5).unwrap();
    let mut none = Vec::new();
    assert!(
        matches!(extract_to_writer(raw, &mut none), Err(Error::UnsupportedFormat)),
        "dvd::extract should reject a non-DVD CHD"
    );
}

#[test]
fn dvd_images_are_checked() {
    let opts = DvdCreateOptions { codecs: [0; 4], ..Default::default() };
    let mut out = Vec::new();
    assert_eq!(
        create_from_reader(vec![0; 2047], &mut out, &opts),
        Err(Error::InvalidParameter)
    );
    let opts = DvdCreateOptions { hunk_size: 1000, ..opts };
    assert_eq!(
        create_from_reader(vec![0; 2048], &mut out, &opts),
        Err(Error::InvalidParameter)
    );
}

#[test]
fn copies_keep_the_image_and_the_metadata() {
    let input = make_input(64 * 1024);
    let mut first = Vec::new();
    let opts = HdCreateOptions { codecs: [0; 4], ..Default::default() };
    chd::hd::create_from_reader(input.clone(), &mut first, &opts).unwrap();
    let mut second = Vec::new();
    let packed = CopyOptions { hunk_size: Some(8192), codecs: [CHD_CODEC_ZLIB, 0, 0, 0] };
    copy(first.clone(), &mut second, &packed).unwrap();
    let mut chd = Chd::open(second.clone(), None).unwrap();
    assert_eq!(chd.header().hunk_bytes, 8192);
    assert_eq!(chd.read_all().unwrap(), input);
    assert!(chd.verify().unwrap().is_valid());
    let mut third = Vec::new();
    let plain = CopyOptions { hunk_size: Some(4096), codecs: [0; 4] };
    copy(second, &mut third, &plain).unwrap();
    assert_eq!(third, first);
    let mut none = Vec::new();
    assert!(copy(vec![1, 2, 3], &mut none, &plain).is_err());
}

#[test]
fn raw_images_are_padded() {
    let mut out = Vec::new();
    let opts = HdCreateOptions { logical_size: 2048, ..Default::default() };
    create_raw_from_reader(vec![5; 600], &mut out, &opts).unwrap();
    let img = Chd::open(out, None).unwrap().read_all().unwrap();
    assert_eq!(img.len(), 2048);
    assert!(img[..600].iter().all(|b| *b == 5) && img[600..].iter().all(|b| *b == 0));
    let mut none = Vec::new();
    let short = HdCreateOptions { logical_size: 512, ..Default::default() };
    assert_eq!(
        create_raw_from_reader(vec![5; 600], &mut none, &short),
        Err(Error::InvalidParameter)
    );
}

fn legacy_header(hunk_bytes: u32, count: u32, codec: u32, logical: u64) -> Header {
    Header {
        version: 3,
        compression: [codec, 0, 0, 0],
        logical_bytes: logical,
        map_offset: 0,
        meta_offset: 0,
        hunk_bytes,
        hunk_count: count,
        unit_bytes: hunk_bytes,
        raw_sha1: None,
        sha1: None,
        parent_sha1: None,
        md5: None,
        parent_md5: None,
        has_parent: false,
    }
}

#[test]
fn files_before_version_five() {
    let file: Vec<u8> = (0..16).collect();
    let entry = |kind, offset, length| LegacyEntry { kind, offset, length };
    let map = HunkMap::Legacy(vec![
        entry(LegacyKind::Uncompressed, 8, 8),
        entry(LegacyKind::Mini, 0x0102_0304_0506_0708, 0),
        entry(LegacyKind::SelfHunk, 0, 0),
        entry(LegacyKind::Invalid, 0, 0),
    ]);
    let mut chd = Chd::from_parts(file, legacy_header(8, 4, 0, 32), map, None).unwrap();
    let mut comp = Vec::new();
    let mut buf = chd.get_hunksized_buffer();
    chd.read_whole(0, &mut comp, &mut buf).unwrap();
    assert_eq!(buf, (8..16).collect::<Vec<u8>>());
    chd.read_whole(1, &mut comp, &mut buf).unwrap();
    assert_eq!(buf, vec![1, 2, 3, 4, 5, 6, 7, 8]);
    chd.read_whole(2, &mut comp, &mut buf).unwrap();
    assert_eq!(buf, (8..16).collect::<Vec<u8>>());
    assert_eq!(chd.read_whole(3, &mut comp, &mut buf), Err(Error::InvalidData));
}

#[test]
fn codecs_by_slot() {
    let mut one = Codecs::Single(CodecType::ZLibV5.init(512).unwrap());
    assert!(one.get_mut(0).is_some());
    assert!(one.get_mut(1).is_none());
    let mut out = vec![0u8; 512];
    assert!(one.first_mut().decompress(&[], &mut out).is_err());
}
