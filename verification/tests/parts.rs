//! Bits, codes, maps and texts.

use chd::bitstream::{BitCursor, BitWriter};
use chd::bytes::{get_be, get_u16be, get_u24be, get_u48be, push_be, put_be, put_u48be, round_up};
use chd::error::Error;
use chd::huffman::HuffmanDecoder;
use chd::huffman_encode::{bits_for_value, encode_8bit, HuffEncoder};
use chd::hunk_index::HunkIndex;
use chd::map::{compress_v5_map, decompress_v5_map, rawmap_to_bytes, RawEntry};
use chd::text::{parse_digits, parse_number, push_decimal, split};

#[test]
fn bits_are_read_back() {
    let mut w = BitWriter::new();
    w.write(0b101, 3);
    w.write(0, 0);
    w.write(0xffff_ffff, 32);
    w.write(1, 2);
    let b = w.flush();
    assert_eq!(b, vec![0b1011_1111, 0xff, 0xff, 0xff, 0b1110_1000]);
    let mut c = BitCursor::new(&b);
    assert_eq!(c.read(3), Some(0b101));
    assert_eq!(c.peek(8), 0xff);
    assert_eq!(c.read(32), Some(0xffff_ffff));
    assert_eq!(c.read(2), Some(1));
    assert_eq!(c.remaining(), 3);
    assert_eq!(c.read(4), None);
}

#[test]
fn numbers_in_bytes() {
    let mut v = Vec::new();
    push_be(&mut v, 0x0102_0304_0506, 6);
    assert_eq!(v, vec![1, 2, 3, 4, 5, 6]);
    assert_eq!(get_u48be(&v), 0x0102_0304_0506);
    assert_eq!(get_u24be(&v), 0x010203);
    assert_eq!(get_u16be(&v), 0x0102);
    assert_eq!(get_be(&v, 2, 3), 0x030405);
    put_be(&mut v, 1, 0xaabb, 2);
    assert_eq!(v, vec![1, 0xaa, 0xbb, 4, 5, 6]);
    put_u48be(&mut v, 0, 7);
    assert_eq!(v, vec![0, 0, 0, 0, 0, 7]);
    assert_eq!(round_up(13, 4), 16);
    assert_eq!(round_up(16, 4), 16);
}

#[test]
fn huffman_codes_are_read_back() {
    let data: Vec<u8> = (0..1000u32).map(|i| (i * i % 7) as u8).collect();
    let packed = encode_8bit(&data).unwrap();
    let mut c = BitCursor::new(&packed);
    let dec = HuffmanDecoder::from_huffman_tree(&mut c, 256, 16).unwrap();
    assert_eq!(dec.decode_all(&mut c, 1000).unwrap(), data);
    assert!(dec.decode_all(&mut c, 1000).is_err());
}

#[test]
fn short_trees_are_read_back() {
    let mut enc = HuffEncoder::new(16, 8);
    for s in [0u32, 0, 0, 1, 5, 5, 7] {
        enc.histo_one(s);
    }
    enc.compute_tree_from_histo().unwrap();
    let mut w = BitWriter::new();
    enc.export_tree_rle(&mut w);
    for s in [0u32, 5, 7, 1] {
        enc.encode_one(&mut w, s);
    }
    let b = w.flush();
    let mut c = BitCursor::new(&b);
    let dec = HuffmanDecoder::from_tree_rle(&mut c, 16, 8).unwrap();
    assert_eq!(dec.decode_all(&mut c, 4).unwrap(), vec![0, 5, 7, 1]);
}

#[test]
fn lengths_of_numbers() {
    assert_eq!(bits_for_value(0), 0);
    assert_eq!(bits_for_value(1), 1);
    assert_eq!(bits_for_value(255), 8);
    assert_eq!(bits_for_value(256), 9);
    assert_eq!(bits_for_value(u64::MAX), 64);
}

#[test]
fn maps_are_read_back() {
    let map = [
        RawEntry { kind: 0, length: 100, offset: 124, crc: 1 },
        RawEntry { kind: 4, length: 4096, offset: 224, crc: 2 },
        RawEntry { kind: 5, length: 0, offset: 0, crc: 0 },
        RawEntry { kind: 5, length: 0, offset: 1, crc: 0 },
        RawEntry { kind: 6, length: 0, offset: 8, crc: 0 },
        RawEntry { kind: 1, length: 7, offset: 4320, crc: 0xffff },
    ];
    let packed = compress_v5_map(&map, 4096, 512);
    assert_eq!(decompress_v5_map(&packed, 6, 4096, 512).unwrap(), map.to_vec());
    assert_eq!(get_be(&packed, 0, 4), packed.len() as u64 - 16);
    assert_eq!(get_be(&packed, 4, 6), 124);
    let crc = crc::Crc::<u16>::new(&crc::CRC_16_IBM_3740).checksum(&rawmap_to_bytes(&map));
    assert_eq!(get_be(&packed, 10, 2), crc as u64);
    assert_eq!(packed[12], 13);
    assert_eq!(packed[15], 0);
    let mut damaged = packed.clone();
    damaged[11] ^= 1;
    assert_eq!(decompress_v5_map(&damaged, 6, 4096, 512).err(), Some(Error::DecompressionError));
    assert!(decompress_v5_map(&packed[..15], 6, 4096, 512).is_err());
    let raw = rawmap_to_bytes(&map);
    assert_eq!(&raw[..12], &[0, 0, 0, 100, 0, 0, 0, 0, 0, 124, 0, 1]);
    assert_eq!(raw.len(), 72);
}

#[test]
fn hunks_are_found_by_their_digests() {
    let mut index = HunkIndex::new();
    index.insert(1, &[1; 20], 10);
    index.insert(1, &[2; 20], 20);
    index.insert(2, &[1; 20], 30);
    assert_eq!(index.get(1, &[1; 20]), Some(10));
    assert_eq!(index.get(1, &[2; 20]), Some(20));
    assert_eq!(index.get(2, &[1; 20]), Some(30));
    assert_eq!(index.get(2, &[2; 20]), None);
}

#[test]
fn decimal_numbers() {
    let mut v = Vec::new();
    push_decimal(&mut v, 0);
    push_decimal(&mut v, u64::MAX);
    assert_eq!(v, b"018446744073709551615".to_vec());
    assert_eq!(parse_digits(b"18446744073709551615", u64::MAX), Some(u64::MAX));
    assert_eq!(parse_digits(b"18446744073709551616", u64::MAX), None);
    assert_eq!(parse_digits(b"", 9), None);
    assert_eq!(parse_number(b"+12", 12), Some(12));
    assert_eq!(parse_number(b"+12", 11), None);
    assert_eq!(parse_number(b"1x", 99), None);
}

#[test]
fn parts_between_separators() {
    assert_eq!(split(b"", b','), vec![(0, 0)]);
    assert_eq!(split(b"a,,bc", b','), vec![(0, 1), (2, 2), (3, 5)]);
    assert_eq!(split(b"a,", b','), vec![(0, 1), (2, 2)]);
}
