//! Tracks, sheets and images of CDs.

use chd::cd::{
    assemble_logical, build_cht2_entries, create_from_cue, create_from_iso, format_track, parse_iso,
    plan, type_from_string, CdCreateOptions, CdTrack, SourceFile, SubcodeType, TrackType,
    CD_FRAME_SIZE, DEFAULT_HUNK_SIZE, FRAMES_PER_HUNK,
};
use chd::chdfile::Chd;
use chd::codec::{CHD_CODEC_CD_FLAC, CHD_CODEC_CD_LZMA, CHD_CODEC_CD_ZLIB};
use chd::cue::{compute_track_lengths, msf_to_frames, parse_cue, parse_sheet, parse_time, tokenize_line};
use chd::error::Error;

fn words(v: &[&str]) -> Vec<Vec<u8>> {
    v.iter().map(|w| w.as_bytes().to_vec()).collect()
}

fn file(id: usize, data: Vec<u8>) -> SourceFile {
    SourceFile { id, data: Some(data) }
}

fn pattern(len: usize, seed: usize) -> Vec<u8> {
    (0..len).map(|i| (i * 7 + i / 251 + seed) as u8).collect()
}

#[test]
fn msf_parsing() {
    assert_eq!(msf_to_frames(b"00:00:00"), 0);
    assert_eq!(msf_to_frames(b"00:02:00"), 150);
    assert_eq!(msf_to_frames(b"00:04:00"), 300);
    assert_eq!(msf_to_frames(b"01:00:00"), 4500);
    assert_eq!(msf_to_frames(b"150"), 150);
}

#[test]
fn times_that_are_no_numbers() {
    assert_eq!(msf_to_frames(b""), 0);
    assert_eq!(msf_to_frames(b"x:02:03"), 153);
    assert_eq!(msf_to_frames(b" 1 :00:00"), 4500);
    assert_eq!(msf_to_frames(b"1: 2:00"), 4500);
    assert_eq!(msf_to_frames(b"-1"), -1);
    assert_eq!(msf_to_frames(b"+2:+3"), (120 + 3) * 75);
    assert_eq!(msf_to_frames(b"1:2:3:4"), (60 + 2) * 75 + 3);
    assert_eq!(parse_time(b"9223372036854775807"), Some(i64::MAX));
    assert_eq!(parse_time(b"-9223372036854775808"), Some(i64::MIN));
    assert_eq!(parse_time(b"9223372036854775807:00"), None);
}

#[test]
fn tokenize_quotes() {
    assert_eq!(
        tokenize_line(b"  FILE \"my disc.bin\" BINARY"),
        words(&["FILE", "my disc.bin", "BINARY"])
    );
    assert_eq!(
        tokenize_line(b"    TRACK 01 MODE1/2352"),
        words(&["TRACK", "01", "MODE1/2352"])
    );
}

#[test]
fn quotes_join_and_nest() {
    assert_eq!(tokenize_line(b""), words(&[]));
    assert_eq!(tokenize_line(b" \t\r\n"), words(&[]));
    assert_eq!(tokenize_line(b"a\"b c\"d 'e \"f'"), words(&["ab cd", "e \"f"]));
    assert_eq!(tokenize_line(b"\"\" x"), words(&["", "x"]));
    assert_eq!(tokenize_line(b"\"open to the end "), words(&["open to the end "]));
}

#[test]
fn type_strings_round_trip() {
    assert_eq!(type_from_string(b"MODE1/2352").unwrap().0, TrackType::Mode1Raw);
    assert_eq!(TrackType::Mode1Raw.type_string(), "MODE1_RAW");
    assert_eq!(TrackType::Mode1.type_string(), "MODE1");
    assert_eq!(TrackType::Audio.type_string(), "AUDIO");
    assert_eq!(SubcodeType::Absent.subtype_string(), "NONE");
}

#[test]
fn every_type_word_is_read_back() {
    let all = [
        (TrackType::Mode1, 2048),
        (TrackType::Mode1Raw, 2352),
        (TrackType::Mode2, 2336),
        (TrackType::Mode2Form1, 2048),
        (TrackType::Mode2Form2, 2324),
        (TrackType::Mode2FormMix, 2336),
        (TrackType::Mode2Raw, 2352),
        (TrackType::Audio, 2352),
    ];
    for (t, size) in all {
        assert_eq!(type_from_string(t.type_string().as_bytes()), Some((t, size)));
    }
    assert_eq!(type_from_string(b"CDI/2352"), Some((TrackType::Mode2Raw, 2352)));
    assert_eq!(type_from_string(b"MODE2/2324"), Some((TrackType::Mode2Form2, 2324)));
    assert_eq!(type_from_string(b"mode1"), None);
    assert_eq!(SubcodeType::Normal.subtype_string(), "RW");
    assert_eq!(SubcodeType::Raw.subtype_string(), "RW_RAW");
}

#[test]
fn sheet_with_pregap_and_subcode() {
    let sheet = b"REM made by hand\r\nFILE \"a b.bin\" BINARY\r\n  TRACK 01 MODE1/2352 RW_RAW\r\n    INDEX 01 00:00:00\r\n  TRACK 02 AUDIO\r\n    INDEX 00 00:00:10\r\n    INDEX 01 00:00:30\r\n    POSTGAP 00:00:05\r\n  TRACK 03 AUDIO\r\n    PREGAP 00:02:00\r\n    INDEX 01 00:01:00\r\n";
    let sh = parse_sheet(sheet).unwrap();
    assert_eq!(sh.files, words(&["a b.bin"]));
    assert_eq!(sh.tracks.len(), 3);
    assert_eq!(sh.tracks[0].subtype, SubcodeType::Raw);
    assert_eq!(sh.tracks[0].subsize, 96);
    assert_eq!((sh.tracks[0].idx0, sh.tracks[0].idx1, sh.tracks[0].pregap), (0, 0, 0));
    assert_eq!((sh.tracks[1].idx0, sh.tracks[1].idx1, sh.tracks[1].pregap), (10, 30, 20));
    assert_eq!(sh.tracks[1].pgtype, TrackType::Audio);
    assert_eq!(sh.tracks[1].pgdatasize, 2352);
    assert_eq!(sh.tracks[1].postgap, 5);
    assert_eq!((sh.tracks[2].idx0, sh.tracks[2].idx1, sh.tracks[2].pregap), (75, 75, 150));
    assert_eq!(sh.tracks[2].pgtype, TrackType::Mode1);
    assert_eq!(sh.tracks[2].pgdatasize, 0);
}

#[test]
fn the_order_of_bytes_is_for_the_next_track_only() {
    let sheet = b"FILE x MOTOROLA\nTRACK 1 MODE1/2048\nINDEX 1 0\nTRACK 2 MODE1/2048\nINDEX 1 4\n";
    let sh = parse_sheet(sheet).unwrap();
    assert!(sh.tracks[0].swap);
    assert!(!sh.tracks[1].swap);
}

#[test]
fn faults_in_sheets() {
    let fault = |s: &[u8]| parse_sheet(s).err();
    assert_eq!(fault(b""), Some(Error::InvalidData));
    assert_eq!(fault(b"FILE"), Some(Error::InvalidData));
    assert_eq!(fault(b"FILE a WAVE"), Some(Error::UnsupportedFormat));
    assert_eq!(fault(b"FILE a"), Some(Error::UnsupportedFormat));
    assert_eq!(fault(b"TRACK 1 AUDIO"), Some(Error::InvalidData));
    assert_eq!(fault(b"FILE a BINARY\nTRACK 1"), Some(Error::InvalidData));
    assert_eq!(fault(b"FILE a BINARY\nTRACK 1 MODE3"), Some(Error::UnsupportedFormat));
    assert_eq!(fault(b"INDEX 01 00:00:00"), Some(Error::InvalidData));
    assert_eq!(fault(b"FILE a BINARY\nTRACK 1 AUDIO\nINDEX x 0"), Some(Error::InvalidData));
    assert_eq!(fault(b"FILE a BINARY\nTRACK 1 AUDIO\nINDEX 1"), Some(Error::InvalidData));
    assert_eq!(fault(b"PREGAP 1"), Some(Error::InvalidData));
    assert_eq!(fault(b"FILE a BINARY\nTRACK 1 AUDIO\nPOSTGAP"), Some(Error::InvalidData));
    assert_eq!(
        fault(b"FILE a BINARY\nTRACK 1 AUDIO\nPREGAP 9223372036854775807:1"),
        Some(Error::InvalidData)
    );
}

#[test]
fn tracks_of_one_file_meet() {
    let sheet = b"FILE a BINARY\nTRACK 1 MODE1/2352\nINDEX 1 0\nTRACK 2 AUDIO\nINDEX 0 6\nINDEX 1 8\nTRACK 3 AUDIO\nINDEX 1 11\n";
    let files = [file(0, vec![0; 20 * 2352])];
    let ts = parse_cue(sheet, &files).unwrap();
    assert_eq!((ts[0].offset, ts[0].frames), (0, 6));
    assert_eq!((ts[1].offset, ts[1].frames), (6 * 2352, 5));
    assert_eq!((ts[2].offset, ts[2].frames), (11 * 2352, 9));
    assert!(!ts[0].swap && ts[1].swap && ts[2].swap);
}

#[test]
fn tracks_of_two_files() {
    let sheet =
        b"FILE a BINARY\nTRACK 1 MODE1/2048\nINDEX 1 0\nFILE b BINARY\nTRACK 2 AUDIO\nINDEX 1 0\n";
    let files = [file(0, vec![0; 3 * 2048 + 5]), file(1, vec![0; 4 * 2352])];
    let ts = parse_cue(sheet, &files).unwrap();
    assert_eq!((ts[0].file, ts[0].offset, ts[0].frames), (0, 0, 3));
    assert_eq!((ts[1].file, ts[1].offset, ts[1].frames), (1, 0, 4));
    let same = [file(7, vec![0; 9 * 2352]), file(7, vec![0; 9 * 2352])];
    assert_eq!(parse_cue(sheet, &same).err(), Some(Error::InvalidData));
}

#[test]
fn faults_in_lengths() {
    let missing = b"FILE a BINARY\nTRACK 1 AUDIO\nINDEX 0 0\n";
    assert_eq!(parse_cue(missing, &[file(0, vec![])]).err(), Some(Error::InvalidData));
    let backwards = b"FILE a BINARY\nTRACK 1 AUDIO\nINDEX 1 5\nTRACK 2 AUDIO\nINDEX 1 5\n";
    assert_eq!(parse_cue(backwards, &[file(0, vec![])]).err(), Some(Error::InvalidData));
    let long = b"FILE a BINARY\nTRACK 1 AUDIO\nINDEX 1 0\nTRACK 2 AUDIO\nINDEX 1 5\n";
    assert_eq!(parse_cue(long, &[file(0, vec![0; 2352])]).err(), Some(Error::InvalidData));
    let alone = b"FILE a BINARY\nTRACK 1 AUDIO\nINDEX 1 0\n";
    assert_eq!(parse_cue(alone, &[]).err(), Some(Error::ReadError));
    let unread = [SourceFile { id: 0, data: None }];
    assert_eq!(parse_cue(alone, &unread).err(), Some(Error::ReadError));
    let mut placed = CdTrack::new(TrackType::Audio, 2352, 0, false);
    placed.idx1 = 0;
    placed.offset = 16;
    let r = compute_track_lengths(vec![placed], &[]).unwrap();
    assert!(r[0].swap && r[0].offset == 16 && r[0].frames == 0);
}

#[test]
fn frames_stand_in_the_image() {
    let data = pattern(5 * 2352, 3);
    let mut plain = CdTrack::new(TrackType::Mode1Raw, 2352, 0, false);
    plain.frames = 2;
    let mut audio = CdTrack::new(TrackType::Audio, 2352, 0, true);
    audio.offset = 2 * 2352;
    audio.frames = 3;
    let img = assemble_logical(&vec![plain, audio], &[file(0, data.clone())]).unwrap();
    assert_eq!(img.len(), 8 * 2448);
    assert_eq!(&img[2448..2448 + 2352], &data[2352..2 * 2352]);
    assert!(img[2448 + 2352..2 * 2448].iter().all(|b| *b == 0));
    assert!(img[2 * 2448..4 * 2448].iter().all(|b| *b == 0));
    let frame = &img[4 * 2448..4 * 2448 + 2352];
    for k in 0..1176 {
        assert_eq!(frame[2 * k], data[2 * 2352 + 2 * k + 1]);
        assert_eq!(frame[2 * k + 1], data[2 * 2352 + 2 * k]);
    }
    assert!(img[7 * 2448..].iter().all(|b| *b == 0));
}

#[test]
fn short_sectors_have_zeros_behind_them() {
    let data = pattern(2048, 1);
    let mut t = CdTrack::new(TrackType::Mode1, 2048, 0, true);
    t.frames = 1;
    let img = assemble_logical(&vec![t], &[file(0, data.clone())]).unwrap();
    assert_eq!(img.len(), 4 * 2448);
    assert_eq!(img[0], data[1]);
    assert_eq!(img[2046], data[2047]);
    assert_eq!(img[2047], data[2046]);
    assert!(img[2048..].iter().all(|b| *b == 0));
}

#[test]
fn files_too_short_for_their_tracks() {
    let mut t = CdTrack::new(TrackType::Audio, 2352, 0, false);
    t.frames = 2;
    let files = [file(0, vec![0; 2 * 2352 - 1])];
    assert_eq!(assemble_logical(&vec![t], &files).err(), Some(Error::ReadError));
    t.frames = u32::MAX;
    assert_eq!(assemble_logical(&vec![t], &files).err(), Some(Error::OutOfMemory));
    t.frames = 0;
    assert_eq!(assemble_logical(&vec![t], &[]).unwrap(), Vec::<u8>::new());
}

#[test]
fn text_of_a_track() {
    let mut t = CdTrack::new(TrackType::Audio, 2352, 0, true);
    t.frames = 12;
    t.pregap = 150;
    t.postgap = 3;
    assert_eq!(
        format_track(2, &t),
        b"TRACK:2 TYPE:AUDIO SUBTYPE:NONE FRAMES:12 PREGAP:150 PGTYPE:MODE1 PGSUB:NONE POSTGAP:3\0"
            .to_vec()
    );
    t.pgtype = TrackType::Audio;
    t.pgdatasize = 2352;
    t.subtype = SubcodeType::Normal;
    assert_eq!(
        format_track(10, &t),
        b"TRACK:10 TYPE:AUDIO SUBTYPE:RW FRAMES:12 PREGAP:150 PGTYPE:VAUDIO PGSUB:NONE POSTGAP:3\0"
            .to_vec()
    );
    let entries = build_cht2_entries(&vec![t, t]);
    assert_eq!(entries.len(), 2);
    assert_eq!(entries[1].tag, 0x43485432);
    assert_eq!(entries[1].flags, 1);
    assert!(entries[1].payload.starts_with(b"TRACK:2 "));
}

#[test]
fn flat_images_by_their_size() {
    let t = parse_iso(2048 * 16).unwrap();
    assert_eq!((t.trktype, t.datasize, t.frames), (TrackType::Mode1, 2048, 16));
    let t = parse_iso(2336 * 3).unwrap();
    assert_eq!((t.trktype, t.datasize, t.frames), (TrackType::Mode2, 2336, 3));
    let t = parse_iso(2352 * 3).unwrap();
    assert_eq!((t.trktype, t.datasize, t.frames), (TrackType::Mode2Raw, 2352, 3));
    assert_eq!(parse_iso(1).err(), Some(Error::UnsupportedFormat));
    assert_eq!(parse_iso(0).unwrap().frames, 0);
}

#[test]
fn usual_options() {
    let o = CdCreateOptions::default();
    assert_eq!(o.hunk_size, 19584);
    assert_eq!(DEFAULT_HUNK_SIZE, FRAMES_PER_HUNK * CD_FRAME_SIZE);
    assert_eq!(o.codecs, [CHD_CODEC_CD_LZMA, CHD_CODEC_CD_ZLIB, CHD_CODEC_CD_FLAC, 0]);
}

#[test]
fn cd_from_a_sheet_reads_back() {
    let sheet =
        b"FILE a BINARY\nTRACK 1 MODE1/2352\nINDEX 1 0\nTRACK 2 AUDIO\nINDEX 0 6\nINDEX 1 8\n";
    let files = [file(0, pattern(11 * 2352, 9))];
    for codecs in [[0; 4], [CHD_CODEC_CD_LZMA, CHD_CODEC_CD_ZLIB, CHD_CODEC_CD_FLAC, 0]] {
        let opts = CdCreateOptions { codecs, ..Default::default() };
        let mut out = Vec::new();
        create_from_cue(sheet, &files, &mut out, &opts).unwrap();
        let tracks = parse_cue(sheet, &files).unwrap();
        let image = assemble_logical(&tracks, &files).unwrap();
        let mut chd = Chd::open(out, None).unwrap();
        assert_eq!(chd.read_all().unwrap(), image);
        let info = chd.info();
        assert!(info.is_cd);
        assert_eq!(info.track_count, 2);
        assert_eq!(info.unit_bytes, 2448);
        let metas = chd.metadata().unwrap();
        assert_eq!(metas[0].value, format_track(1, &tracks[0]));
        assert_eq!((metas[1].index, metas[1].length as usize), (1, metas[1].value.len()));
    }
}

#[test]
fn cd_from_a_flat_image_reads_back() {
    let data = pattern(5 * 2048, 2);
    let opts = CdCreateOptions { codecs: [CHD_CODEC_CD_ZLIB, 0, 0, 0], ..Default::default() };
    let mut out = vec![1, 2, 3];
    create_from_iso(data.clone(), &mut out, &opts).unwrap();
    assert_eq!(&out[..3], &[1, 2, 3]);
    let mut chd = Chd::open(out[3..].to_vec(), None).unwrap();
    let image = chd.read_all().unwrap();
    assert_eq!(image.len(), 8 * 2448);
    assert_eq!(&image[2448..2448 + 2048], &data[2048..2 * 2048]);
    assert!(chd.verify().unwrap().is_valid());
    let mut untouched = Vec::new();
    assert_eq!(create_from_iso(vec![1], &mut untouched, &opts), Err(Error::UnsupportedFormat));
    assert!(untouched.is_empty());
}

#[test]
fn faults_in_plans_for_cds() {
    let bad = CdCreateOptions { hunk_size: 4096, codecs: [0; 4] };
    assert_eq!(plan(&vec![], &[], &bad).err(), Some(Error::InvalidParameter));
    let bad = CdCreateOptions { hunk_size: 0, codecs: [0; 4] };
    assert_eq!(plan(&vec![], &[], &bad).err(), Some(Error::InvalidParameter));
    let bad = CdCreateOptions { codecs: [1, 2, 3, 4], ..Default::default() };
    assert!(plan(&vec![], &[], &bad).is_err());
}
