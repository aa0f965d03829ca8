use midly::error::Error;
use midly::overlap::{
    is_file_narrow, process_midi, process_track, write_varlen, RawEvent, RawEventKind, TrackParser,
};

fn fixed(track: &[u8]) -> Vec<u8> {
    let mut out = Vec::new();
    process_track(track, &mut out).unwrap();
    assert_eq!(out[..4], b"MTrk"[..]);
    let len = u32::from_be_bytes([out[4], out[5], out[6], out[7]]) as usize;
    assert_eq!(len, out.len() - 8);
    out[8..].to_vec()
}

fn file(header_len: u32, chunks: &[(&[u8], &[u8])]) -> Vec<u8> {
    let mut raw = b"MThd".to_vec();
    raw.extend_from_slice(&header_len.to_be_bytes());
    raw.extend_from_slice(&[0, 1, 0, 2, 0, 96]);
    for _ in 6..header_len {
        raw.push(0);
    }
    for (name, data) in chunks {
        raw.extend_from_slice(name);
        raw.extend_from_slice(&(data.len() as u32).to_be_bytes());
        raw.extend_from_slice(data);
    }
    raw
}

fn parsed(data: &[u8]) -> Vec<Result<RawEvent<Vec<u8>>, Error>> {
    let mut parser = TrackParser::new(data);
    let mut found = Vec::new();
    while let Some(item) = parser.next_event() {
        let stop = item.is_err();
        found.push(item);
        if stop {
            break;
        }
    }
    found
}

#[test]
fn overlapping_notes_are_cut() {
    let track = [0x00, 0x90, 60, 100, 0x0A, 60, 90, 0x0A, 60, 0];
    assert_eq!(
        fixed(&track),
        vec![0x00, 0x90, 60, 100, 0x0A, 60, 0, 0x00, 60, 90, 0x0A, 60, 0]
    );
}

#[test]
fn quiet_notes_and_orphans_are_left_out() {
    let track = [
        0x05, 0x90, 60, 10, // too quiet
        0x05, 0x80, 60, 64, // so this ends nothing
        0x05, 0x90, 61, 11, // loud enough
        0x05, 0x81, 61, 64, // another channel
        0x05, 0x80, 61, 64, // the end
        0x05, 0x80, 61, 0, // again
        0x05, 0xB0, 7, 9, //
    ];
    assert_eq!(
        fixed(&track),
        vec![0x0F, 0x90, 61, 11, 0x0A, 0x80, 61, 64, 0x0A, 0xB0, 7, 9]
    );
}

#[test]
fn note_offs_without_velocity_become_note_ons() {
    let track = [0x00, 0x92, 60, 100, 0x0A, 0x82, 60, 0];
    assert_eq!(fixed(&track), vec![0x00, 0x92, 60, 100, 0x0A, 60, 0]);
}

#[test]
fn other_events_are_kept() {
    let track = [
        0x00, 0xC0, 5, 0x00, 6, // running status
        0x01, 0xF0, 0x02, 1, 2, 0x02, 0xF7, 0x01, 3, 0x03, 0xFF, 0x01, 0x02, b'h', b'i', 0x00,
        0xC0, 7, 0x04, 0xFF, 0x2F, 0x00,
    ];
    assert_eq!(fixed(&track), track.to_vec());
}

#[test]
fn fixing_twice_changes_nothing() {
    let track = [
        0x00, 0x90, 60, 100, 0x0A, 60, 90, 0x0A, 61, 5, 0x00, 0xFF, 0x01, 0x00, 0x0A, 0x80, 60, 3, 0x01,
        0x90, 60, 0, 0x00, 0xFF, 0x2F, 0x00,
    ];
    let once = fixed(&track);
    assert_ne!(once, track.to_vec());
    assert_eq!(fixed(&once), once);
}

#[test]
fn events_are_parsed() {
    let midi = |delta: u32, status: u8, data1: u8, data2: Option<u8>| {
        Ok(RawEvent { delta, kind: RawEventKind::Midi { status, data1, data2 } })
    };
    assert_eq!(
        parsed(&[0x00, 0x90, 1, 2, 0x81, 0x00, 3, 4, 0x00, 0xD0, 5, 0x00, 0xF1, 6, 0x00, 0xF2, 7, 8]),
        vec![
            midi(0, 0x90, 1, Some(2)),
            midi(128, 0x90, 3, Some(4)),
            midi(0, 0xD0, 5, None),
            midi(0, 0xF1, 6, None),
            midi(0, 0xF2, 7, Some(8)),
        ]
    );
    assert_eq!(parsed(&[0x00, 0xF8, 0x00, 0xF3, 1]), vec![midi(0, 0xF8, 0, None), midi(0, 0xF3, 1, None)]);
    assert_eq!(parsed(&[]), vec![]);
    assert_eq!(parsed(&[0x81]), vec![]);
    for data in [
        &[0x00][..],
        &[0x00, 0x90, 1],
        &[0x00, 0xC0],
        &[0x00, 0xF2, 1],
        &[0x00, 0xF0, 0x02, 1],
        &[0x00, 0xF7],
        &[0x00, 0xFF],
        &[0x00, 0xFF, 0x01, 0x81],
    ] {
        assert_eq!(parsed(data), vec![Err(Error::UnexpectedEof)], "{:?}", data);
    }
    assert_eq!(parsed(&[0x00, 0x01]), vec![Err(Error::InputRunningStatus)]);
    assert_eq!(parsed(&[0x00, 0xFF, 0x01, 0x00, 0x00, 0x01])[1], Err(Error::InputRunningStatus));
}

#[test]
fn system_messages_are_kept() {
    assert_eq!(fixed(&[0x00, 0xF8]), vec![0x00, 0xF8]);
    // A message without data always has its status, and so has the message behind it.
    let track = [
        0x00, 0xB0, 1, 2, 0x00, 0xF8, 0x00, 0xF8, 0x00, 0xF6, 0x00, 0xF1, 5, 0x00, 0xF2, 7, 8, 0x00,
        0xF3, 9, 0x00, 0xB0, 3, 4,
    ];
    assert_eq!(fixed(&track), track);
    assert_eq!(parsed(&fixed(&track)), parsed(&track));
    // The status of a message with data is left out where it is repeated.
    assert_eq!(
        fixed(&[0x00, 0xF1, 5, 0x00, 0xF1, 6, 0x00, 0xF8, 0x00, 0xF1, 7]),
        vec![0x00, 0xF1, 5, 0x00, 6, 0x00, 0xF8, 0x00, 0xF1, 7]
    );
}

#[test]
fn reading_goes_on_behind_a_data_byte_without_a_status() {
    let mut parser = TrackParser::new(&[0x05, 0x01, 0x03, 0x90, 60, 99, 0x00, 0xC0]);
    assert_eq!(parser.next_event(), Some(Err(Error::InputRunningStatus)));
    assert_eq!(
        parser.next_event(),
        Some(Ok(RawEvent {
            delta: 3,
            kind: RawEventKind::Midi { status: 0x90, data1: 60, data2: Some(99) },
        }))
    );
    assert_eq!(parser.next_event(), Some(Err(Error::UnexpectedEof)));
    assert_eq!(parser.next_event(), None);
}

#[test]
fn rewritten_tracks_read_back() {
    let track = [
        0x05, 0x90, 60, 99, 0x05, 61, 5, 0x05, 60, 98, 0x00, 0xB1, 7, 100, 0x81, 0x00, 8, 1, 0x00,
        0xF0, 0x02, 1, 2, 0x00, 0xFF, 0x51, 0x03, 7, 8, 9, 0x10, 0x80, 60, 0, 0x01, 0xD2, 5, 0x00,
        0xFE, 0x00, 0xFF, 0x2F, 0x00,
    ];
    let midi = |delta, status, data1, data2| {
        Ok(RawEvent { delta, kind: RawEventKind::Midi { status, data1, data2 } })
    };
    assert_eq!(
        parsed(&fixed(&track)),
        vec![
            midi(5, 0x90, 60, Some(99)),
            midi(10, 0x90, 60, Some(0)),
            midi(0, 0x90, 60, Some(98)),
            midi(0, 0xB1, 7, Some(100)),
            midi(128, 0xB1, 8, Some(1)),
            Ok(RawEvent { delta: 0, kind: RawEventKind::SysEx { data: vec![1, 2] } }),
            Ok(RawEvent { delta: 0, kind: RawEventKind::Meta { type_byte: 0x51, data: vec![7, 8, 9] } }),
            midi(16, 0x90, 60, Some(0)),
            midi(1, 0xD2, 5, None),
            midi(0, 0xFE, 0, None),
            Ok(RawEvent { delta: 0, kind: RawEventKind::Meta { type_byte: 0x2F, data: vec![] } }),
        ]
    );
}

#[test]
fn ends_stay_at_their_ticks() {
    // Note 60 is struck at 0 and again at 10, and both end at 30; note 61 is too quiet.
    let track = [
        0x00, 0x90, 60, 99, 0x05, 61, 5, 0x05, 60, 98, 0x05, 61, 0, 0x0F, 0x80, 60, 64, 0x02, 60, 0,
        0x03, 0xFF, 0x2F, 0x00,
    ];
    let mut tick = 0;
    let mut found = Vec::new();
    for event in parsed(&fixed(&track)) {
        let event = event.unwrap();
        tick += event.delta;
        if let RawEventKind::Midi { status, data1, data2 } = event.kind {
            found.push((tick, status, data1, data2));
        } else {
            found.push((tick, 0xFF, 0, None));
        }
    }
    assert_eq!(
        found,
        vec![
            (0, 0x90, 60, Some(99)),
            (10, 0x90, 60, Some(0)),
            (10, 0x90, 60, Some(98)),
            (30, 0x80, 60, Some(64)),
            (35, 0xFF, 0, None),
        ]
    );
}

#[test]
fn times_are_written_in_28_bits() {
    let mut out = Vec::new();
    write_varlen(0x1000_0005, &mut out);
    write_varlen(0, &mut out);
    write_varlen(0x4000, &mut out);
    assert_eq!(out, vec![0x05, 0x00, 0x81, 0x80, 0x00]);
}

#[test]
fn whole_files_are_rewritten() {
    let one: &[u8] = &[0x00, 0x90, 60, 5, 0x00, 0xFF, 0x2F, 0x00];
    let raw = file(8, &[(b"XXXX", b"abc"), (b"MTrk", one), (b"MTrk", one)]);
    assert!(is_file_narrow(&raw));
    let mut out = vec![1];
    process_midi(&raw, &mut out).unwrap();
    let kept: &[u8] = &[0x00, 0xFF, 0x2F, 0x00];
    let mut expected = vec![1];
    expected.extend_from_slice(&file(6, &[(b"MTrk", kept), (b"MTrk", kept)]));
    assert_eq!(out, expected);
}

#[test]
fn a_cut_track_is_taken_as_far_as_it_goes() {
    let mut raw = file(6, &[(b"MTrk", &[0x00, 0x90, 60, 99, 0x85])]);
    raw[21] = 90;
    let mut out = Vec::new();
    process_midi(&raw, &mut out).unwrap();
    // A delta time that is cut off ends the track.
    assert_eq!(out, file(6, &[(b"MTrk", &[0x00, 0x90, 60, 99])]));
}

#[test]
fn rewriting_stops_at_an_error() {
    let good: &[u8] = &[0x00, 0xFF, 0x2F, 0x00];
    let raw = file(6, &[(b"MTrk", good), (b"MTrk", &[0x00, 0xB0, 1, 2, 0x00, 0xB1, 3]), (b"MTrk", good)]);
    let mut out = Vec::new();
    assert_eq!(process_midi(&raw, &mut out).unwrap_err(), Error::UnexpectedEof);
    let mut expected = file(6, &[(b"MTrk", good)]);
    expected.extend_from_slice(b"MTrk\x00\x00\x00\x00\x00\xB0\x01\x02");
    assert_eq!(out, expected);
    assert_eq!(Error::UnexpectedEof.message(), "failed to fill whole buffer");
}

#[test]
fn headers_that_cannot_be_rewritten() {
    let mut out = Vec::new();
    assert_eq!(process_midi(b"MThd", &mut out).unwrap_err(), Error::UnexpectedEof);
    assert_eq!(process_midi(&[0; 14], &mut out).unwrap_err(), Error::InputHeader);
    assert_eq!(process_midi(&file(5, &[]), &mut out).unwrap_err(), Error::InputHeaderLength);
    assert!(out.is_empty());
}

#[test]
fn wide_keys_are_told_apart() {
    assert!(!is_file_narrow(&file(6, &[(b"MTrk", &[0x00, 0x90, 200, 100])])));
    assert!(!is_file_narrow(&file(6, &[(b"MTrk", &[0x00, 0x80, 200, 100])])));
    // A quiet note is not looked at.
    assert!(is_file_narrow(&file(6, &[(b"MTrk", &[0x00, 0x90, 200, 5])])));
    assert!(is_file_narrow(&file(6, &[(b"MTrk", &[0x00, 0xB0, 200, 100])])));
}
