//! Codecs: what one side makes, the other side undoes.

use chd::cdrom::{cd_sync_header, CD_FRAME_SIZE, CD_MAX_SECTOR_DATA, CD_MODE_OFFSET};
use chd::codec::{
    codec_exists, codec_name, parse_codec_spec, CHD_CODEC_CD_FLAC, CHD_CODEC_CD_LZMA,
    CHD_CODEC_CD_ZLIB, CHD_CODEC_LZMA, CHD_CODEC_NONE, CHD_CODEC_ZLIB,
};
use chd::compression::cdrom::{
    CdLzmaCodec, CdLzmaEncoder, CdZlibCodec, CdZlibEncoder, CdZstdCodec, CdZstdEncoder,
};
use chd::compression::ecc::{generate_ecc, verify_ecc};
use chd::compression::flac::{CdFlacCodec, CdFlacEncoder, RawFlacCodec, RawFlacEncoder};
use chd::compression::huff::{HuffmanCodec, HuffmanEncoder};
use chd::compression::lzma::{get_lzma_dict_size, LzmaCodec, LzmaEncoder};
use chd::compression::none::{NoneCodec, NoneEncoder};
use chd::compression::zlib::{ZlibCodec, ZlibEncoder, DEFLATE_WINDOW};
use chd::compression::zstd::{ZstdCodec, ZstdEncoder, ZSTD_MAX_INPUT};
use chd::compression::{CodecEncodeImplementation, CodecImplementation, CompressionCodecType};
use chd::error::Error;
use chd::header::CodecType;
use chd::write::CreatePlan;

fn noise(len: usize, seed: u32) -> Vec<u8> {
    let mut x = seed;
    (0..len)
        .map(|_| {
            x ^= x << 13;
            x ^= x >> 17;
            x ^= x << 5;
            (x & 0xff) as u8
        })
        .collect()
}

fn roundtrip<E: CodecEncodeImplementation, D: CodecImplementation>(hunk: &[u8]) -> usize {
    let size = hunk.len() as u32;
    let mut enc = E::new(size).unwrap();
    let mut comp = vec![0u8; hunk.len()];
    let n = enc.compress(hunk, &mut comp).unwrap();
    let mut dec = D::new(size).unwrap();
    let mut out = vec![0u8; hunk.len()];
    let res = dec.decompress(&comp[..n], &mut out).unwrap();
    assert_eq!(res.total_out(), hunk.len());
    assert_eq!(out, hunk);
    n
}

#[test]
fn parse_none_and_single_and_multi() {
    assert_eq!(parse_codec_spec("none").unwrap(), [0; 4]);
    assert_eq!(parse_codec_spec("zlib").unwrap(), [CHD_CODEC_ZLIB, 0, 0, 0]);
    assert_eq!(
        parse_codec_spec("cdlz,cdzl,cdfl").unwrap(),
        [CHD_CODEC_CD_LZMA, CHD_CODEC_CD_ZLIB, CHD_CODEC_CD_FLAC, 0]
    );
}

#[test]
fn rejects_bad_specs() {
    assert!(parse_codec_spec("bogus").is_err());
    assert!(parse_codec_spec("zlb").is_err());
    assert!(parse_codec_spec("zlib,zlib,zlib,zlib,zlib").is_err());
    assert!(parse_codec_spec("").is_err());
}

#[test]
fn names_and_existence() {
    assert!(codec_exists(CHD_CODEC_LZMA));
    assert!(!codec_exists(0xdead_beef));
    assert_eq!(codec_name(CHD_CODEC_ZLIB), Some("Deflate"));
    assert_eq!(codec_name(CHD_CODEC_NONE), Some("None"));
    assert_eq!(codec_name(0xdead_beef), None);
}

#[test]
fn bad_specs_are_bad_parameters() {
    assert_eq!(parse_codec_spec("nope,zlib"), Err(Error::InvalidParameter));
    assert_eq!(parse_codec_spec("zlib,"), Err(Error::InvalidParameter));
}

#[test]
fn huff_encode_roundtrips_through_decoder() {
    let hunk: Vec<u8> =
        (0..4096u32).map(|i| if i % 3 == 0 { (i % 11) as u8 } else { 0 }).collect();

    let mut enc = HuffmanEncoder::new(4096).unwrap();
    let mut comp = vec![0u8; 4096];
    let n = enc.compress(&hunk, &mut comp).unwrap();
    assert!(n < hunk.len(), "expected Huffman to shrink the skewed hunk");

    let mut dec = HuffmanCodec::new(4096).unwrap();
    let mut out = vec![0u8; 4096];
    let res = dec.decompress(&comp[..n], &mut out).unwrap();
    assert_eq!(res.total_out(), 4096);
    assert_eq!(out, hunk);
}

#[test]
fn lzma_encode_roundtrips_through_decoder() {
    let hunk: Vec<u8> = (0..4096u32).map(|i| (i % 251) as u8).collect();

    let mut enc = LzmaEncoder::new(4096).unwrap();
    let mut comp = vec![0u8; 4096];
    let n = enc.compress(&hunk, &mut comp).unwrap();
    assert!(n < hunk.len(), "expected compression to shrink the hunk");

    let mut dec = LzmaCodec::new(4096).unwrap();
    let mut out = vec![0u8; 4096];
    let res = dec.decompress(&comp[..n], &mut out).unwrap();
    assert_eq!(res.total_out(), 4096);
    assert_eq!(out, hunk);
}

#[test]
fn zlib_encode_roundtrips_through_decoder() {
    let hunk: Vec<u8> = (0..4096u32).map(|i| (i % 251) as u8).collect();

    let mut enc = ZlibEncoder::new(4096).unwrap();
    let mut comp = vec![0u8; 4096];
    let n = enc.compress(&hunk, &mut comp).unwrap();
    assert!(n < hunk.len(), "expected compression to shrink the hunk");

    let mut dec = ZlibCodec::new(4096).unwrap();
    let mut out = vec![0u8; 4096];
    let res = dec.decompress(&comp[..n], &mut out).unwrap();
    assert_eq!(res.total_out(), 4096);
    assert_eq!(out, hunk);
}

#[test]
fn zlib_encode_rejects_incompressible_into_tight_buffer() {
    let hunk = noise(4096, 0x1234_5678);

    let mut enc = ZlibEncoder::new(4096).unwrap();
    let mut comp = vec![0u8; 4096];
    assert!(enc.compress(&hunk, &mut comp).is_err());
}

#[test]
fn zstd_encode_roundtrips_through_decoder() {
    let hunk: Vec<u8> = (0..4096u32).map(|i| (i % 251) as u8).collect();

    let mut enc = ZstdEncoder::new(4096).unwrap();
    let mut comp = vec![0u8; 4096];
    let n = enc.compress(&hunk, &mut comp).unwrap();
    assert!(n < hunk.len(), "expected compression to shrink the hunk");

    let mut dec = ZstdCodec::new(4096).unwrap();
    let mut out = vec![0u8; 4096];
    let res = dec.decompress(&comp[..n], &mut out).unwrap();
    assert_eq!(res.total_out(), 4096);
    assert_eq!(out, hunk);
}

fn audio_hunk(bytes: usize) -> Vec<u8> {
    let mut v = Vec::with_capacity(bytes);
    let (mut l, mut r, mut dl, mut dr): (i32, i32, i32, i32) = (0, 0, 37, 53);
    while v.len() < bytes {
        l += dl;
        if !(-20000..=20000).contains(&l) {
            dl = -dl;
            l += 2 * dl;
        }
        r += dr;
        if !(-18000..=18000).contains(&r) {
            dr = -dr;
            r += 2 * dr;
        }
        v.extend_from_slice(&(l as i16).to_le_bytes());
        v.extend_from_slice(&(r as i16).to_le_bytes());
    }
    v.truncate(bytes);
    v
}

#[test]
fn flac_encode_roundtrips_through_decoder() {
    let hunk = audio_hunk(4096);

    let mut enc = RawFlacEncoder::new(4096).unwrap();
    let mut comp = vec![0u8; 4096];
    let n = enc.compress(&hunk, &mut comp).unwrap();
    assert!(n < hunk.len(), "expected flac to shrink the smooth audio hunk");
    assert!(
        comp[0] == b'L' || comp[0] == b'B',
        "missing endian flag byte, got {:#x}",
        comp[0]
    );

    let mut dec = RawFlacCodec::new(4096).unwrap();
    let mut out = vec![0u8; 4096];
    let res = dec.decompress(&comp[..n], &mut out).unwrap();
    assert_eq!(res.total_out(), 4096);
    assert_eq!(out, hunk, "flac round-trip mismatch");
}

#[test]
fn flac_takes_short_last_blocks() {
    for size in [4096usize, 8200, 10004, 10008, 10060, 16388, 20012, 40028] {
        let hunk = audio_hunk(size);
        assert!(roundtrip::<RawFlacEncoder, RawFlacCodec>(&hunk) < size);
        let quiet = vec![0u8; size];
        assert!(roundtrip::<RawFlacEncoder, RawFlacCodec>(&quiet) < size);
    }
}

#[test]
fn flac_rejects_incompressible() {
    let hunk = noise(4096, 0x1234_5678);
    let mut enc = RawFlacEncoder::new(4096).unwrap();
    let mut comp = vec![0u8; 4096];
    assert!(enc.compress(&hunk, &mut comp).is_err());
}

#[test]
fn cd_flac_roundtrips() {
    let frames = 8usize;
    let hs = frames as u32 * CD_FRAME_SIZE;
    let mut hunk = vec![0u8; hs as usize];
    let (mut l, mut r, mut dl, mut dr): (i32, i32, i32, i32) = (0, 0, 37, 53);
    let mut x = 0x9e37_79b9u32;
    for f in 0..frames {
        let frame = &mut hunk[f * CD_FRAME_SIZE as usize..][..CD_FRAME_SIZE as usize];
        let (sector, subcode) = frame.split_at_mut(CD_MAX_SECTOR_DATA as usize);
        for s in sector.chunks_exact_mut(4) {
            l += dl;
            if !(-20000..=20000).contains(&l) {
                dl = -dl;
                l += 2 * dl;
            }
            r += dr;
            if !(-18000..=18000).contains(&r) {
                dr = -dr;
                r += 2 * dr;
            }
            s[0..2].copy_from_slice(&(l as i16).to_be_bytes());
            s[2..4].copy_from_slice(&(r as i16).to_be_bytes());
        }
        for b in subcode.iter_mut() {
            x ^= x << 13;
            x ^= x >> 17;
            x ^= x << 5;
            *b = (x & 0xff) as u8;
        }
    }

    let mut enc = CdFlacEncoder::new(hs).unwrap();
    let mut comp = vec![0u8; hs as usize];
    let n = enc.compress(&hunk, &mut comp).unwrap();
    assert!(n < hunk.len(), "expected cdfl to shrink the audio hunk");

    let mut dec = CdFlacCodec::new(hs).unwrap();
    let mut out = vec![0u8; hs as usize];
    let res = dec.decompress(&comp[..n], &mut out).unwrap();
    assert_eq!(res.total_out(), hs as usize);
    assert_eq!(out, hunk, "cdfl round-trip mismatch");
}

fn build_cd_hunk(frames: usize) -> Vec<u8> {
    let mut x: u32 = 0x9e37_79b9;
    let mut rng = move || {
        x ^= x << 13;
        x ^= x >> 17;
        x ^= x << 5;
        (x & 0xff) as u8
    };
    let mut hunk = vec![0u8; frames * CD_FRAME_SIZE as usize];
    for f in 0..frames {
        let frame = &mut hunk[f * CD_FRAME_SIZE as usize..][..CD_FRAME_SIZE as usize];
        let (sector, subcode) = frame.split_at_mut(CD_MAX_SECTOR_DATA as usize);
        if f % 2 == 0 {
            let sync = cd_sync_header();
            sector[..sync.len()].copy_from_slice(&sync);
            sector[CD_MODE_OFFSET] = 1;
            for b in &mut sector[16..] {
                *b = rng();
            }
            let mut s = sector.to_vec();
            generate_ecc(&mut s);
            sector.copy_from_slice(&s);
        } else {
            for b in sector.iter_mut() {
                *b = rng();
            }
        }
        for b in subcode.iter_mut() {
            *b = rng();
        }
    }
    hunk
}

fn cd_roundtrip<E: CodecEncodeImplementation, D: CodecImplementation>(hunk_size: u32) {
    let hunk = build_cd_hunk((hunk_size / CD_FRAME_SIZE) as usize);
    let n = roundtrip::<E, D>(&hunk);
    assert!(n < hunk.len(), "expected the CD hunk to shrink");
}

#[test]
fn cd_zlib_roundtrips() {
    cd_roundtrip::<CdZlibEncoder, CdZlibCodec>(8 * CD_FRAME_SIZE);
}

#[test]
fn cd_lzma_roundtrips() {
    cd_roundtrip::<CdLzmaEncoder, CdLzmaCodec>(8 * CD_FRAME_SIZE);
}

#[test]
fn cd_zstd_roundtrips() {
    cd_roundtrip::<CdZstdEncoder, CdZstdCodec>(8 * CD_FRAME_SIZE);
}

#[test]
fn frames_of_another_size_are_refused() {
    assert!(CdZlibEncoder::new(4096).is_err());
    assert_eq!(CdZlibCodec::new(4096).err(), Some(Error::CodecError));
    assert_eq!(CdFlacCodec::new(2447).err(), Some(Error::CodecError));
    assert_eq!(RawFlacCodec::new(3).err(), Some(Error::CodecError));
}

#[test]
fn nothing_is_left_as_it_is() {
    let hunk = noise(512, 99);
    assert_eq!(roundtrip::<NoneEncoder, NoneCodec>(&hunk), 512);
    let mut dec = NoneCodec::new(512).unwrap();
    let mut out = vec![0u8; 511];
    let res = dec.decompress(&hunk, &mut out).unwrap();
    assert_eq!((res.total_out(), res.total_in()), (511, 512));
    let mut enc = NoneEncoder::new(512).unwrap();
    assert_eq!(enc.compress(&hunk, &mut out), Err(Error::CompressionError));
}

#[test]
fn codecs_by_number() {
    for (ty, size) in [
        (CodecType::Uncompressed, 512),
        (CodecType::ZLibV5, 4096),
        (CodecType::LzmaV5, 4096),
        (CodecType::ZstdV5, 4096),
        (CodecType::HuffV5, 4096),
        (CodecType::FlacV5, 4096),
        (CodecType::ZLibCdV5, 2448 * 8),
        (CodecType::LzmaCdV5, 2448 * 8),
        (CodecType::ZstdCdV5, 2448 * 8),
        (CodecType::FlacCdV5, 2448 * 8),
    ] {
        assert_eq!(CodecType::from_u32(ty.code()), Some(ty));
        let hunk = vec![0u8; size];
        let mut enc = ty.init_encoder(size as u32).unwrap();
        let mut comp = vec![0u8; size];
        let n = enc.compress(&hunk, &mut comp).unwrap();
        let mut dec = ty.init(size as u32).unwrap();
        let mut out = vec![0xffu8; size];
        dec.decompress(&comp[..n], &mut out).unwrap();
        assert_eq!(out, hunk);
    }
    assert!(CodecType::AVHuffV5.init(4096).is_err());
    assert!(CodecType::AVHuffV5.init_encoder(4096).is_err());
    assert_eq!(CodecType::from_u32(4), None);
}

#[test]
fn codecs_know_their_type() {
    assert_eq!(ZlibCodec::new(4096).unwrap().codec_type(), CodecType::Zlib);
    assert_eq!(CdFlacCodec::new(2448).unwrap().codec_type(), CodecType::FlacCdV5);
    assert_eq!(CdZstdCodec::new(2448).unwrap().codec_type(), CodecType::ZstdCdV5);
}

#[test]
fn garbage_is_not_decompressed() {
    let garbage = noise(64, 7);
    let mut out = vec![0u8; 4096];
    assert!(ZlibCodec::new(4096).unwrap().decompress(&garbage, &mut out).is_err());
    assert!(LzmaCodec::new(4096).unwrap().decompress(&garbage, &mut out).is_err());
    assert!(ZstdCodec::new(4096).unwrap().decompress(&garbage, &mut out).is_err());
    assert!(RawFlacCodec::new(4096).unwrap().decompress(&garbage, &mut out).is_err());
    assert!(HuffmanCodec::new(4096).unwrap().decompress(&[], &mut out).is_err());
    assert!(CdZlibCodec::new(2448).unwrap().decompress(&[], &mut out[..2448]).is_err());
}

#[test]
fn dictionary_sizes() {
    assert_eq!(get_lzma_dict_size(9, 4096), 4096);
    assert_eq!(get_lzma_dict_size(9, 4097), 6144);
    assert_eq!(get_lzma_dict_size(9, 19584), 24576);
    assert_eq!(get_lzma_dict_size(5, u32::MAX), 1 << 24);
}

#[test]
fn codes_of_a_sector() {
    let mut sector = noise(2352, 5);
    generate_ecc(&mut sector);
    assert!(verify_ecc(&sector));
    sector[100] ^= 1;
    assert!(!verify_ecc(&sector));
}

#[test]
fn sizes_that_encoders_take() {
    assert!(CodecType::LzmaV5.takes_hunks(u32::MAX - 1));
    assert!(!CodecType::LzmaV5.takes_hunks(u32::MAX));
    assert!(CodecType::ZstdV5.takes_hunks(ZSTD_MAX_INPUT));
    assert!(!CodecType::ZstdV5.takes_hunks(ZSTD_MAX_INPUT + 1));
    assert!(CodecType::ZstdCdV5.takes_hunks(28 * 2448));
    assert!(!CodecType::ZstdCdV5.takes_hunks(29 * 2448));
    assert!(!CodecType::HuffV5.takes_hunks(0x8000_0000));
    assert!(CodecType::ZLibV5.takes_hunks(DEFLATE_WINDOW - 1));
    assert!(!CodecType::ZLibV5.takes_hunks(DEFLATE_WINDOW));
    assert!(CodecType::ZLibCdV5.takes_hunks(27 * 2448));
    assert!(!CodecType::ZLibCdV5.takes_hunks(28 * 2448));
    for codec in [CodecType::LzmaCdV5, CodecType::FlacCdV5] {
        assert!(codec.takes_hunks(679 * 2448));
        assert!(!codec.takes_hunks(680 * 2448));
    }
    assert!(CodecType::FlacV5.takes_hunks(u32::MAX));
    let plan = |hunk_size, codec| CreatePlan {
        data: vec![0; 10],
        hunk_size,
        unit_size: 1,
        codecs: vec![codec],
        metadata: Vec::new(),
    };
    assert!(plan(u32::MAX - 1, CodecType::LzmaV5).fits());
    assert!(!plan(u32::MAX, CodecType::LzmaV5).fits());
    assert!(plan(65_536, CodecType::ZstdV5).fits());
    assert!(!plan(131_072, CodecType::ZstdV5).fits());
    assert!(plan(65_273, CodecType::ZLibV5).fits());
    assert!(!plan(65_536, CodecType::ZLibV5).fits());
}
