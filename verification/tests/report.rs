//! What a tool shows of files.

use chd::chdfile::{Chd, HunkMap, LegacyEntry, LegacyKind};
use chd::error::Error;
use chd::hd::{create_from_reader, HdCreateOptions};
use chd::header::CodecType;
use chd::map::RawEntry;
use chd::report::{
    cd_input, compression_name, compression_names, count_hunks, extract_raw, find_metadata,
    fourcc_to_u32, hunk_codec_name, name_row, printable, tally_rows, text_value, to_fourcc, CdInput,
};
use chd::write::{write_raw, write_raw_uncompressed};

#[test]
fn tags_of_four_characters() {
    assert_eq!(fourcc_to_u32(b"GDDD"), 0x47444444);
    assert_eq!(fourcc_to_u32(b"DVD"), 0x44564420);
    assert_eq!(fourcc_to_u32(b""), 0x20202020);
    assert_eq!(fourcc_to_u32(b"GDDDX"), 0x47444444);
    assert_eq!(to_fourcc(0x44564420), *b"DVD ");
    assert_eq!(fourcc_to_u32(&to_fourcc(0xff00_01fe)), 0xff00_01fe);
}

#[test]
fn names_of_codecs() {
    assert_eq!(hunk_codec_name(CodecType::ZLibCdV5), "CD Deflate");
    assert_eq!(hunk_codec_name(CodecType::Uncompressed), "Copy from self");
    assert_eq!(compression_name(CodecType::FlacV5), "flac (FLAC)");
    assert_eq!(compression_name(CodecType::AV), "Legacy av (AV)");
}

#[test]
fn tally_of_a_packed_file() {
    let mut data = vec![0u8; 4096 * 4];
    for (i, b) in data[4096 * 2..4096 * 3].iter_mut().enumerate() {
        *b = (i % 5) as u8;
    }
    let mut x: u32 = 1;
    for b in data[4096 * 3..].iter_mut() {
        x ^= x << 13;
        x ^= x >> 17;
        x ^= x << 5;
        *b = x as u8;
    }
    let mut out = Vec::new();
    write_raw(&mut out, &data, 4096, 512, &[CodecType::ZLibV5]).unwrap();
    let chd = Chd::open(out, None).unwrap();
    let counts = count_hunks(chd.map()).unwrap();
    assert_eq!(counts, [2, 0, 0, 0, 1, 1, 0, 0, 0]);
    assert_eq!(
        tally_rows(chd.header(), &counts).unwrap(),
        vec![(1, "Uncompressed"), (1, "Copy from self"), (2, "Deflate")]
    );
    assert_eq!(compression_names(chd.header()).unwrap(), vec!["zlib (Deflate)"]);
    assert_eq!(name_row(chd.header(), 8), Some("Unknown"));
    let mut odd = *chd.header();
    odd.compression[2] = 77;
    assert_eq!(tally_rows(&odd, &counts), None);
    odd.compression[0] = 77;
    assert_eq!(compression_names(&odd), None);
}

#[test]
fn tally_of_other_maps() {
    let e = |kind| RawEntry { kind, length: 0, offset: 0, crc: 0 };
    let m = HunkMap::Packed((0..14).map(e).collect());
    assert_eq!(count_hunks(&m).unwrap(), [1, 1, 1, 1, 1, 3, 2, 0, 0]);
    let m = HunkMap::Packed(vec![e(14)]);
    assert_eq!(count_hunks(&m), Err(Error::UnsupportedFormat));
    assert_eq!(count_hunks(&HunkMap::Plain(vec![0, 1, 2])).unwrap()[4], 3);
    let l = |kind| LegacyEntry { kind, offset: 0, length: 0 };
    let m = HunkMap::Legacy(vec![
        l(LegacyKind::Invalid),
        l(LegacyKind::Compressed),
        l(LegacyKind::Uncompressed),
        l(LegacyKind::Mini),
        l(LegacyKind::SelfHunk),
        l(LegacyKind::ParentHunk),
        l(LegacyKind::ExternalCompressed),
    ]);
    assert_eq!(count_hunks(&m).unwrap(), [1, 0, 0, 0, 1, 1, 1, 1, 1]);
}

#[test]
fn characters_that_cannot_be_shown() {
    assert_eq!(printable(b"a\0b\x7f\xff ~\t"), b"a.b.. ~\t".to_vec());
    assert_eq!(text_value(b"abc"), b"abc\0".to_vec());
}

#[test]
fn entries_by_tag_and_number() {
    let mut out = Vec::new();
    let opts = HdCreateOptions { ident: Some(vec![1]), ..Default::default() };
    create_from_reader(vec![0; 4096], &mut out, &opts).unwrap();
    let metas = Chd::open(out, None).unwrap().metadata().unwrap();
    assert_eq!(find_metadata(&metas, fourcc_to_u32(b"IDNT"), 0), Some(1));
    assert_eq!(find_metadata(&metas, fourcc_to_u32(b"IDNT"), 1), None);
}

#[test]
fn kinds_of_input() {
    assert_eq!(cd_input(b"cue"), CdInput::Cue);
    assert_eq!(cd_input(b"CuE"), CdInput::Cue);
    assert_eq!(cd_input(b"GDI"), CdInput::Gdi);
    assert_eq!(cd_input(b"iso"), CdInput::Flat);
    assert_eq!(cd_input(b""), CdInput::Flat);
}

#[test]
fn image_is_extracted_without_padding() {
    let mut file = Vec::new();
    write_raw_uncompressed(&mut file, &[3; 1000], 512, 256).unwrap();
    let mut chd = Chd::open(file, None).unwrap();
    let mut out = vec![9];
    extract_raw(&mut chd, &mut out).unwrap();
    assert_eq!(out.len(), 1 + 1000);
    assert_eq!(out[0], 9);
    assert!(out[1..].iter().all(|b| *b == 3));
}
