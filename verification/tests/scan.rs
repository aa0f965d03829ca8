use midly::error::Error;
use midly::fast_midi::scan_track_notes_only;
use midly::loader::extract_notes_from_bytes;
use midly::scan::{scan_midi_file, FileScan};

fn file(header_len: u32, count: u16, chunks: &[(&[u8], &[u8])]) -> Vec<u8> {
    let mut raw = b"MThd".to_vec();
    raw.extend_from_slice(&header_len.to_be_bytes());
    raw.extend_from_slice(&[0, 1]);
    raw.extend_from_slice(&count.to_be_bytes());
    raw.extend_from_slice(&[0x01, 0xE0]);
    for _ in 6..header_len {
        raw.push(0xEE);
    }
    for (name, data) in chunks {
        raw.extend_from_slice(name);
        raw.extend_from_slice(&(data.len() as u32).to_be_bytes());
        raw.extend_from_slice(data);
    }
    raw
}

const ONE: &[u8] = &[0x05, 0x90, 60, 1, 0x05, 60, 0, 0x00, 0xFF, 0x51, 0x03, 0x00, 0x00, 0x07];
const TWO: &[u8] = &[0x00, 0x90, 61, 1, 0x00, 62, 1, 0x7F, 0xFF, 0x2F, 0x00];

#[test]
fn scanning_adds_up_tracks() {
    let raw = file(6, 2, &[(b"MTrk", ONE), (b"XXXX", b"abc"), (b"MTrk", TWO), (b"MTrk", TWO)]);
    let result = scan_midi_file(&raw).unwrap();
    assert_eq!(result.note_count, 3);
    assert_eq!(result.track_count, 2);
    assert_eq!(result.max_tick, 127);
    assert_eq!(result.division, 480);
    assert_eq!(result.tempo_changes, vec![(0, 500_000), (10, 7)]);
}

#[test]
fn longer_headers_are_skipped() {
    let raw = file(9, 1, &[(b"MTrk", ONE)]);
    assert_eq!(scan_midi_file(&raw).unwrap().note_count, 1);
}

#[test]
fn a_cut_track_ends_the_scan() {
    let raw = file(6, 2, &[(b"MTrk", ONE), (b"MTrk", TWO)]);
    let result = scan_midi_file(&raw[..raw.len() - 1]).unwrap();
    assert_eq!((result.note_count, result.track_count), (1, 1));
    let result = scan_midi_file(&raw[..14]).unwrap();
    assert_eq!((result.note_count, result.track_count), (0, 0));
    assert_eq!(result.tempo_changes, vec![(0, 500_000)]);
}

#[test]
fn the_header_is_searched_in_riff_data() {
    let mut raw = b"RIFF----RMIDdata----".to_vec();
    raw.extend_from_slice(&file(6, 1, &[(b"MTrk", TWO)]));
    assert_eq!(scan_midi_file(&raw).unwrap().note_count, 2);

    let mut late = b"RIFF".to_vec();
    late.resize(4092, 0);
    late.extend_from_slice(&file(6, 1, &[(b"MTrk", TWO)]));
    assert_eq!(scan_midi_file(&late).unwrap().note_count, 2);
    late.insert(4, 0);
    assert_eq!(scan_midi_file(&late).unwrap_err(), Error::RiffNoHeader);
}

#[test]
fn scan_errors() {
    assert_eq!(scan_midi_file(b"MTh").unwrap_err(), Error::FileTooShort);
    assert_eq!(scan_midi_file(b"abcd").unwrap_err(), Error::NotMidiFile);
    assert_eq!(scan_midi_file(b"RIFF").unwrap_err(), Error::RiffNoHeader);
    assert_eq!(scan_midi_file(b"MThd").unwrap_err(), Error::FileHeaderCut);
    assert_eq!(scan_midi_file(&file(5, 0, &[])).unwrap_err(), Error::FileHeaderShort);
    assert_eq!(Error::RiffNoHeader.message(), "no MThd in RIFF");
}

#[test]
fn failing_reads_fail_the_scan() {
    let mut scan = FileScan::new(10_000);
    assert_eq!(scan.request(), Some((0, 4)));
    scan.feed(Some(&b"RIFF"[..]));
    assert_eq!(scan.request(), Some((0, 4096)));
    scan.feed(None);
    assert_eq!(scan.request(), None);
    assert_eq!(scan.finish().unwrap_err(), Error::RiffScan);

    let mut scan = FileScan::new(100);
    scan.feed(Some(&b"MThd"[..]));
    assert_eq!(scan.request(), Some((0, 14)));
    // The file has changed since the signature was read.
    scan.feed(Some(&[0; 14][..]));
    assert_eq!(scan.finish().unwrap_err(), Error::FileHeader);
}

#[test]
fn places_that_cannot_be_reached() {
    let mut scan = FileScan::new(100);
    scan.feed(Some(&b"MThd"[..]));
    scan.seek_failed(4);
    assert_eq!(scan.finish().unwrap_err(), Error::Seek);

    let mut scan = FileScan::new(100);
    scan.feed(Some(&b"RIFF"[..]));
    scan.seek_failed(4);
    assert_eq!(scan.finish().unwrap_err(), Error::Seek);

    let mut scan = FileScan::new(8);
    scan.feed(Some(&b"RIFF"[..]));
    scan.feed(Some(&b"RIFFMThd"[..]));
    assert_eq!(scan.request(), Some((4, 14)));
    scan.seek_failed(8);
    assert_eq!(scan.finish().unwrap_err(), Error::SeekHeader);

    // The rest of a long header is passed over even where no track is announced.
    let raw = file(8, 0, &[]);
    let mut scan = FileScan::new(raw.len() as u64);
    scan.feed(Some(&raw[..4]));
    scan.feed(Some(&raw[..14]));
    assert_eq!(scan.request(), Some((16, 0)));
    scan.seek_failed(14);
    assert_eq!(scan.finish().unwrap_err(), Error::HeaderPadding);

    // A chunk that cannot be passed over is read as if chunks stood in it.
    let raw = file(6, 1, &[(b"XXXX", b"MTrk\x00\x00\x00\x00")]);
    let mut scan = FileScan::new(raw.len() as u64);
    scan.feed(Some(&raw[..4]));
    scan.feed(Some(&raw[..14]));
    scan.feed(Some(&raw[14..22]));
    assert_eq!(scan.request(), Some((30, 8)));
    scan.seek_failed(22);
    assert_eq!(scan.request(), Some((22, 8)));
    scan.feed(Some(&raw[22..30]));
    scan.feed(Some(&raw[30..30]));
    assert_eq!(scan.finish().unwrap().track_count, 1);
}

#[test]
fn padding_may_go_beyond_the_file() {
    let mut raw = file(6, 1, &[]);
    raw[7] = 200;
    let result = scan_midi_file(&raw).unwrap();
    assert_eq!((result.track_count, result.division), (0, 480));
}

#[test]
fn tracks_can_be_scanned_later() {
    let raw = file(9, 3, &[(b"MTrk", ONE), (b"XXXX", b"abc"), (b"MTrk", TWO), (b"MTrk", ONE)]);
    let mut scan = FileScan::new(raw.len() as u64);
    let mut tracks = Vec::new();
    while let Some((at, len)) = scan.request() {
        let piece = &raw[at as usize..(at + len) as usize];
        if scan.wants_track() {
            tracks.push(piece);
            scan.pass_track();
        } else {
            scan.feed(Some(piece));
        }
    }
    assert_eq!(tracks.len(), 3);
    for track in tracks {
        let (notes, max_tick, tempos) = scan_track_notes_only(track);
        scan.add_figures(notes, max_tick, tempos);
    }
    let result = scan.finish().unwrap();
    let at_once = scan_midi_file(&raw).unwrap();
    assert_eq!(result.note_count, 4);
    assert_eq!(result.note_count, at_once.note_count);
    assert_eq!(result.track_count, at_once.track_count);
    assert_eq!(result.max_tick, at_once.max_tick);
    assert_eq!(result.tempo_changes, at_once.tempo_changes);
    assert_eq!(result.division, at_once.division);
}

#[test]
fn a_scan_asks_for_one_piece_after_the_other() {
    let raw = file(8, 2, &[(b"MTrk", ONE), (b"XXXX", b"abc"), (b"MTrk", TWO)]);
    let mut scan = FileScan::new(raw.len() as u64);
    let mut asked = Vec::new();
    while let Some((at, len)) = scan.request() {
        asked.push((at, len));
        scan.feed(raw.get(at as usize..(at + len) as usize));
    }
    assert_eq!(
        asked,
        vec![(0, 4), (0, 14), (16, 0), (16, 8), (24, 14), (38, 8), (49, 8), (57, 11)]
    );
    let result = scan.finish().unwrap();
    assert_eq!(result.note_count, scan_midi_file(&raw).unwrap().note_count);
}

#[test]
fn tempos_of_a_scan_are_sorted_without_repeats() {
    let tempo: &[u8] = &[0x14, 0xFF, 0x51, 0x03, 0x00, 0x00, 0x01, 0x00, 0xFF, 0x51, 0x03, 0x00, 0x00, 0x01];
    let raw = file(6, 2, &[(b"MTrk", tempo), (b"MTrk", ONE)]);
    assert_eq!(
        scan_midi_file(&raw).unwrap().tempo_changes,
        vec![(0, 500_000), (10, 7), (20, 1)]
    );
}

#[test]
fn scan_and_extraction_count_the_same_notes() {
    let raw = file(6, 2, &[(b"MTrk", ONE), (b"MTrk", TWO)]);
    let (notes, tempos) = extract_notes_from_bytes(&raw).unwrap();
    let result = scan_midi_file(&raw).unwrap();
    assert_eq!(result.note_count, notes.len() as u64);
    assert_eq!(result.tempo_changes, tempos);
}
