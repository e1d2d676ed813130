//! Metadata in files.

use chd::chdfile::Chd;
use chd::codec::CHD_CODEC_ZLIB;
use chd::error::Error;
use chd::hd::{create_from_reader, HdCreateOptions};
use chd::header::{make_tag, CodecType};
use chd::metadata::{
    build_metadata_blob, delete_metadata, write_metadata, KnownMetadata, MetaEntry, MetadataRefs,
    MetadataTag, METADATA_FLAG_CHECKSUM,
};
use chd::write::{write_create, write_raw_uncompressed};

fn plain() -> Vec<u8> {
    let mut out = Vec::new();
    write_raw_uncompressed(&mut out, &[1; 1024], 512, 512).unwrap();
    out
}

fn entries(file: &[u8]) -> Vec<(u32, Vec<u8>, u32)> {
    let chd = Chd::open(file.to_vec(), None).unwrap();
    chd.metadata().unwrap().into_iter().map(|m| (m.metatag, m.value, m.index)).collect()
}

#[test]
fn what_is_written_is_read_back() {
    let mut f = plain();
    let a = make_tag(b"AAAA");
    let b = make_tag(b"BBBB");
    write_metadata(&mut f, a, 0, b"first", 1).unwrap();
    write_metadata(&mut f, b, 0, b"second", 1).unwrap();
    write_metadata(&mut f, a, 1, b"third", 0).unwrap();
    assert_eq!(
        entries(&f),
        vec![
            (a, b"first".to_vec(), 0),
            (b, b"second".to_vec(), 0),
            (a, b"third".to_vec(), 1),
        ]
    );
    let size = f.len();
    write_metadata(&mut f, a, 0, b"1st", 1).unwrap();
    assert_eq!(f.len(), size);
    assert_eq!(entries(&f)[0], (a, b"1st".to_vec(), 0));
    delete_metadata(&mut f, b, 0).unwrap();
    assert_eq!(entries(&f), vec![(a, b"1st".to_vec(), 0), (a, b"third".to_vec(), 1)]);
    delete_metadata(&mut f, a, 0).unwrap();
    assert_eq!(entries(&f), vec![(a, b"third".to_vec(), 0)]);
    assert_eq!(delete_metadata(&mut f, b, 0), Err(Error::MetadataNotFound));
}

#[test]
fn the_greatest_index_adds() {
    let mut f = plain();
    let a = make_tag(b"AAAA");
    write_metadata(&mut f, a, u32::MAX, b"one", 1).unwrap();
    write_metadata(&mut f, a, u32::MAX, b"two", 1).unwrap();
    assert_eq!(entries(&f), vec![(a, b"one".to_vec(), 0), (a, b"two".to_vec(), 1)]);
    assert_eq!(delete_metadata(&mut f, a, u32::MAX), Err(Error::MetadataNotFound));
}

#[test]
fn entries_too_long_for_their_place_come_last() {
    let mut f = plain();
    let tag = |n: u8| make_tag(&[n, n, n, n]);
    for n in 1..4u8 {
        write_metadata(&mut f, tag(n), 0, &[n], 1).unwrap();
    }
    write_metadata(&mut f, tag(2), 0, b"longer", 1).unwrap();
    assert_eq!(
        entries(&f),
        vec![(tag(1), vec![1], 0), (tag(2), b"longer".to_vec(), 0)]
    );
}

#[test]
fn digests_follow_the_metadata() {
    let mut f = Vec::new();
    let opts = HdCreateOptions { codecs: [CHD_CODEC_ZLIB, 0, 0, 0], ..Default::default() };
    create_from_reader(vec![7; 8192], &mut f, &opts).unwrap();
    let before = f[84..104].to_vec();
    write_metadata(&mut f, make_tag(b"NOTE"), 0, b"text", METADATA_FLAG_CHECKSUM).unwrap();
    assert!(before != f[84..104].to_vec());
    assert!(Chd::open(f.clone(), None).unwrap().verify().unwrap().is_valid());
    let flagged = f[84..104].to_vec();
    write_metadata(&mut f, make_tag(b"MORE"), 0, b"text", 0).unwrap();
    assert_eq!(flagged, f[84..104].to_vec());
}

#[test]
fn contents_have_to_fit() {
    let mut f = plain();
    let before = f.clone();
    assert_eq!(write_metadata(&mut f, 1, 0, b"", 0), Err(Error::InvalidParameter));
    let long = vec![0u8; 0x100_0000];
    assert_eq!(write_metadata(&mut f, 1, 0, &long, 0), Err(Error::InvalidParameter));
    assert_eq!(f, before);
    let mut short = vec![0u8; 10];
    assert!(write_metadata(&mut short, 1, 0, b"x", 0).is_err());
    assert!(delete_metadata(&mut short, 1, 0).is_err());
}

#[test]
fn blobs_are_lists() {
    let es = [
        MetaEntry { tag: make_tag(b"ABCD"), flags: 1, payload: vec![1, 2, 3] },
        MetaEntry { tag: make_tag(b"EFGH"), flags: 0, payload: vec![4] },
    ];
    let blob = build_metadata_blob(&es, 124);
    assert_eq!(
        blob,
        vec![
            0x41, 0x42, 0x43, 0x44, 1, 0, 0, 3, 0, 0, 0, 0, 0, 0, 0, 143, 1, 2, 3, 0x45, 0x46, 0x47,
            0x48, 0, 0, 0, 1, 0, 0, 0, 0, 0, 0, 0, 0, 4
        ]
    );
    let mut file = vec![0u8; 124];
    file.extend_from_slice(&blob);
    let refs = MetadataRefs::from_stream(&file, 124).collect();
    assert_eq!(refs.len(), 2);
    assert_eq!(refs[0].metatag(), make_tag(b"ABCD"));
    assert_eq!(refs[1].read(&file).unwrap().value, vec![4]);
    assert!(MetadataRefs::dead(&file).next().is_none());
    file.pop();
    assert!(refs[1].read(&file).is_err());
}

#[test]
fn entries_are_counted_by_tag() {
    let es: Vec<MetaEntry> = [b"ABCD", b"EFGH", b"ABCD", b"ABCD", b"EFGH"]
        .iter()
        .enumerate()
        .map(|(i, tag)| MetaEntry { tag: make_tag(tag), flags: i as u8, payload: vec![9; i] })
        .collect();
    let mut file = vec![0u8; 7];
    file.extend_from_slice(&build_metadata_blob(&es, 7));
    let v = MetadataRefs::from_stream(&file, 7).read_all().unwrap();
    assert_eq!(v.len(), 5);
    for (m, e) in v.iter().zip(&es) {
        assert_eq!((m.metatag, m.flags, m.length), (e.tag, e.flags, e.payload.len() as u32));
        assert_eq!(m.value, e.payload);
    }
    assert_eq!(v.iter().map(|m| m.index).collect::<Vec<_>>(), vec![0, 0, 1, 2, 1]);
    let mut walk = MetadataRefs::from_stream(&file, 7);
    assert_eq!(walk.next().unwrap().index(), 0);
    let rest = walk.read_all().unwrap();
    assert_eq!(rest.iter().map(|m| m.index).collect::<Vec<_>>(), vec![0, 1, 2, 1]);
    file.pop();
    let cut = MetadataRefs::from_stream(&file, 7).read_all();
    assert_eq!(cut.err(), Some(Error::ReadError));
}

#[test]
fn entries_of_a_new_file_are_read_back() {
    let es = [
        MetaEntry { tag: make_tag(b"ABCD"), flags: 1, payload: vec![1, 2, 3] },
        MetaEntry { tag: make_tag(b"ABCD"), flags: 1, payload: vec![4] },
    ];
    for codecs in [vec![], vec![CodecType::ZLibV5]] {
        let mut f = Vec::new();
        write_create(&mut f, &[0; 2048], 1024, 512, &codecs, &es).unwrap();
        let read = Chd::open(f, None).unwrap().read_metas().unwrap();
        assert_eq!(read.len(), 2);
        assert_eq!((read[0].tag, read[0].flags), (make_tag(b"ABCD"), 1));
        assert_eq!(read[0].payload, vec![1, 2, 3]);
        assert_eq!(read[1].payload, vec![4]);
    }
}

#[test]
fn lists_that_run_in_circles_are_refused() {
    let mut f = plain();
    let a = make_tag(b"AAAA");
    write_metadata(&mut f, a, 0, b"first", 1).unwrap();
    let at = u64::from_be_bytes(f[48..56].try_into().unwrap()) as usize;
    let place = f[48..56].to_vec();
    f[at + 8..at + 16].copy_from_slice(&place);
    let before = f.clone();
    assert!(write_metadata(&mut f, make_tag(b"BBBB"), 0, b"x", 1).is_err());
    assert_eq!(f, before);
}

#[test]
fn known_tags() {
    assert_eq!(KnownMetadata::HardDisk.metatag(), 0x47444444);
    assert_eq!(KnownMetadata::CdRomTrack2.metatag(), 0x43485432);
    assert!(KnownMetadata::is_cdrom(make_tag(b"CHTR")));
    assert!(!KnownMetadata::is_cdrom(make_tag(b"GDDD")));
}
