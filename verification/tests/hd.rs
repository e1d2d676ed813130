//! Hard disk images.

use chd::chdfile::Chd;
use chd::codec::CHD_CODEC_ZLIB;
use chd::error::Error;
use chd::hd::{
    compute_chs, create_from_reader, format_gddd, parse_gddd, read_geometry, HdCreateOptions,
    HdGeometry, HdImage,
};

#[test]
fn compute_chs_matches_chdman_examples() {
    let g = compute_chs(256 * 1024, 512).unwrap();
    assert_eq!((g.cylinders, g.heads, g.sectors, g.sector_bytes), (1, 16, 32, 512));
    assert_eq!(g.logical_bytes(), 256 * 1024);

    let g2 = compute_chs(1024 * 512, 512).unwrap();
    assert_eq!(g2.logical_bytes(), 1024 * 512);
}

#[test]
fn compute_chs_rejects_bad_input() {
    assert!(compute_chs(0, 512).is_err());
    assert!(compute_chs(1000, 0).is_err());
    assert!(compute_chs(513, 512).is_err());
}

#[test]
fn guessed_shapes_hold_the_image() {
    for sectors in [1u64, 2, 3, 17, 63, 64, 127, 1009, 4096, 65537] {
        let g = compute_chs(sectors * 512, 512).unwrap();
        let held = g.cylinders as u64 * g.heads as u64 * g.sectors as u64;
        assert!(held >= sectors);
        assert!(g.heads <= 16 && g.sectors <= 63);
    }
}

#[test]
fn hd_image_diff_roundtrip() {
    let img: Vec<u8> = (0..256 * 1024).map(|i| (i * 7 + 3) as u8).collect();
    let mut parent_chd = Vec::new();
    create_from_reader(
        img.clone(),
        &mut parent_chd,
        &HdCreateOptions { codecs: [CHD_CODEC_ZLIB, 0, 0, 0], ..Default::default() },
    )
    .unwrap();

    let mut expected = img.clone();
    let written: [u64; 4] = [5, 100, 200, 511];
    let diff_chd;

    {
        let parent = Chd::open(parent_chd.clone(), None).unwrap();
        let mut hd = HdImage::open_with_diff(parent).unwrap();
        let ss = hd.sector_size() as usize;
        assert_eq!(ss, 512);
        assert_eq!(hd.sector_count(), 512);
        for &lba in &written {
            let pat = vec![(lba as u8).wrapping_mul(3).wrapping_add(1); ss];
            hd.write_sector(lba, &pat).unwrap();
            expected[lba as usize * ss..][..ss].copy_from_slice(&pat);
        }

        let mut buf = vec![0u8; ss];
        hd.read_sector(5, &mut buf).unwrap();
        assert_eq!(buf, expected[5 * ss..6 * ss]);
        hd.read_sector(50, &mut buf).unwrap();
        assert_eq!(buf, img[50 * ss..51 * ss], "unwritten sector should read the parent");
        diff_chd = hd.file().clone();
    }

    {
        let parent = Chd::open(parent_chd, None).unwrap();
        let mut hd = HdImage::reopen_diff(parent, diff_chd).unwrap();
        let ss = hd.sector_size() as usize;
        let mut buf = vec![0u8; ss];
        for lba in 0..hd.sector_count() {
            hd.read_sector(lba, &mut buf).unwrap();
            assert_eq!(buf, expected[lba as usize * ss..][..ss], "sector {lba}");
        }
    }
}

#[test]
fn the_last_write_of_a_sector_counts() {
    let img: Vec<u8> = (0..64 * 1024).map(|i| (i / 7) as u8).collect();
    let mut parent_chd = Vec::new();
    let opts = HdCreateOptions { codecs: [CHD_CODEC_ZLIB, 0, 0, 0], ..Default::default() };
    create_from_reader(img.clone(), &mut parent_chd, &opts).unwrap();
    let mut hd = HdImage::open_with_diff(Chd::open(parent_chd.clone(), None).unwrap()).unwrap();
    let shape = hd.geometry();
    let mut expected = img;
    for (lba, v) in [(3u64, 1u8), (4, 2), (3, 5), (100, 7), (4, 9), (3, 6)] {
        hd.write_sector(lba, &[v; 512]).unwrap();
        expected[lba as usize * 512..][..512].fill(v);
    }
    let diff = hd.file().clone();
    let mut hd = HdImage::reopen_diff(Chd::open(parent_chd, None).unwrap(), diff).unwrap();
    assert_eq!(hd.geometry(), shape);
    let mut buf = vec![0u8; 512];
    for lba in 0..hd.sector_count() {
        hd.read_sector(lba, &mut buf).unwrap();
        assert_eq!(buf, expected[lba as usize * 512..][..512]);
    }
}

#[test]
fn gddd_format_parse_roundtrip() {
    let g = HdGeometry { cylinders: 1, heads: 16, sectors: 32, sector_bytes: 512 };
    let raw = format_gddd(g);
    assert_eq!(raw.last(), Some(&0u8), "GDDD must be NUL-terminated");
    assert_eq!(&raw[..raw.len() - 1], b"CYLS:1,HEADS:16,SECS:32,BPS:512".as_slice());
    assert_eq!(parse_gddd(&raw).unwrap(), g);
    assert_eq!(parse_gddd(&raw[..raw.len() - 1]).unwrap(), g);
}

#[test]
fn shapes_that_are_none() {
    for raw in [
        "",
        "CYLS:1,HEADS:16,SECS:32",
        "CYLS:1,HEADS:16,SECS:32,BPS:x",
        "CYLS:4294967296,HEADS:16,SECS:32,BPS:512",
        "HEADS:16,CYLS:1,SECS:32,BPS:512",
    ] {
        assert!(parse_gddd(raw.as_bytes()).is_err(), "{raw}");
    }
}

#[test]
fn shape_and_identification_in_the_metadata() {
    let g = HdGeometry { cylinders: 2, heads: 2, sectors: 4, sector_bytes: 512 };
    let opts = HdCreateOptions {
        geometry: Some(g),
        ident: Some(b"disk".to_vec()),
        ..Default::default()
    };
    let mut out = Vec::new();
    create_from_reader(vec![3; 16 * 512], &mut out, &opts).unwrap();
    let mut chd = Chd::open(out, None).unwrap();
    assert_eq!(read_geometry(&chd).unwrap(), g);
    assert!(chd.verify().unwrap().is_valid());
    let metas = chd.metadata().unwrap();
    assert_eq!(metas.len(), 2);
    assert_eq!(metas[1].metatag, 0x49444e54);
    assert_eq!(metas[1].value, b"disk".to_vec());
    assert!(chd.info().is_hd);
}

#[test]
fn plain_disks_are_written_in_place() {
    let img: Vec<u8> = (0..64 * 512u32).map(|i| (i / 512) as u8).collect();
    let opts = HdCreateOptions { codecs: [0; 4], ..Default::default() };
    let mut out = Vec::new();
    create_from_reader(img.clone(), &mut out, &opts).unwrap();
    let size = out.len();
    let mut hd = HdImage::open(out).unwrap();
    assert_eq!(hd.geometry().logical_bytes(), 64 * 512);
    let mut buf = vec![0u8; 512];
    hd.write_sector(9, &[0xaa; 512]).unwrap();
    hd.read_sector(9, &mut buf).unwrap();
    assert_eq!(buf, vec![0xaa; 512]);
    hd.read_sector(10, &mut buf).unwrap();
    assert_eq!(buf, img[10 * 512..11 * 512]);
    assert_eq!(hd.file().len(), size);
    assert_eq!(hd.read_sector(64, &mut buf), Err(Error::InvalidParameter));
    assert_eq!(hd.read_sector(0, &mut buf[..100]), Err(Error::InvalidParameter));
    assert_eq!(hd.write_sector(0, &[0; 511]), Err(Error::InvalidParameter));
}

#[test]
fn packed_disks_are_not_written() {
    let mut out = Vec::new();
    create_from_reader(vec![0; 64 * 512], &mut out, &HdCreateOptions::default()).unwrap();
    assert!(HdImage::open(out).is_err());
}
