use midly::error::Error;
use midly::fast_midi::{iter_tracks_from_data, parse_header, scan_track_notes_only, MidiEvent, TrackIter};
use midly::primitive::{Format, Fps, Timing, u15};
use midly::vlq::{read_varlen_fast, read_vlq_at, write_vlq};

fn events(data: &[u8]) -> Vec<(u32, MidiEvent<&[u8]>)> {
    let mut iter = TrackIter::new(data);
    assert!(!iter.is_cut());
    let mut found = Vec::new();
    while let Some(event) = iter.next_event() {
        found.push(event);
    }
    found
}

fn header(format: u16, tracks: u16, division: u16) -> Vec<u8> {
    let mut file = b"MThd\x00\x00\x00\x06".to_vec();
    file.extend_from_slice(&format.to_be_bytes());
    file.extend_from_slice(&tracks.to_be_bytes());
    file.extend_from_slice(&division.to_be_bytes());
    file
}

fn riff(form: &[u8], chunks: &[(&[u8], &[u8])]) -> Vec<u8> {
    let mut body = form.to_vec();
    for (name, data) in chunks {
        body.extend_from_slice(name);
        body.extend_from_slice(&(data.len() as u32).to_le_bytes());
        body.extend_from_slice(data);
        if data.len() % 2 == 1 {
            body.push(0);
        }
    }
    let mut file = b"RIFF".to_vec();
    file.extend_from_slice(&(body.len() as u32).to_le_bytes());
    file.extend_from_slice(&body);
    file
}

#[test]
fn quantities_are_read_back() {
    for value in [0u32, 1, 127, 128, 0x2000, 0x3FFF, 0x4000, 0x1F_FFFF, 0x20_0000, 0xFFF_FFFF] {
        let mut bytes = vec![0xAA];
        write_vlq(&mut bytes, value);
        let end = bytes.len();
        bytes.push(0xFF);
        let mut offset = 1;
        assert_eq!(read_vlq_at(&bytes, &mut offset), value);
        assert_eq!(offset, end);
        assert_eq!(read_varlen_fast(&bytes[1..]), Some((value, end - 1)));
    }
    let mut bytes = Vec::new();
    write_vlq(&mut bytes, u32::MAX);
    assert_eq!(bytes, vec![0x8F, 0xFF, 0xFF, 0xFF, 0x7F]);
}

#[test]
fn cut_quantities() {
    let mut offset = 0;
    assert_eq!(read_vlq_at(&[0x81, 0x82], &mut offset), 130);
    assert_eq!(offset, 2);
    assert_eq!(read_vlq_at(&[0x81, 0x82], &mut offset), 0);
    assert_eq!(offset, 2);
    assert_eq!(read_varlen_fast(&[]), None);
    assert_eq!(read_varlen_fast(&[0x81]), None);
    assert_eq!(read_varlen_fast(&[0x81, 0x82, 0x83]), None);
    assert_eq!(read_varlen_fast(&[0x81, 0x80, 0x80, 0x85]), Some((0x20_0005, 4)));
}

#[test]
fn channel_messages_are_read() {
    let data = [
        0x00, 0x90, 60, 100, // note-on
        0x10, 64, 0, // running status, velocity 0
        0x00, 0x83, 60, 5, // note-off
        0x00, 0xB1, 7, 99, // controller
        0x00, 0xC2, 42, // program
        0x00, 0xE3, 0x01, 0x40, // pitch bend
        0x00, 0xA0, 1, 2, // key pressure
    ];
    assert_eq!(
        events(&data),
        vec![
            (0, MidiEvent::NoteOn { channel: 0, key: 60, velocity: 100 }),
            (16, MidiEvent::NoteOff { channel: 0, key: 64, velocity: 0 }),
            (0, MidiEvent::NoteOff { channel: 3, key: 60, velocity: 5 }),
            (0, MidiEvent::ControlChange { channel: 1, controller: 7, value: 99 }),
            (0, MidiEvent::ProgramChange { channel: 2, program: 42 }),
            (0, MidiEvent::PitchBend { channel: 3, bend: 0x2001 }),
            (0, MidiEvent::Other),
        ]
    );
}

#[test]
fn channel_pressure_has_one_data_byte() {
    let data = [0x00, 0xD0, 5, 0x00, 0x90, 60, 100];
    assert_eq!(
        events(&data),
        vec![
            (0, MidiEvent::Other),
            (0, MidiEvent::NoteOn { channel: 0, key: 60, velocity: 100 }),
        ]
    );
    // Under running status too.
    let data = [0x00, 0xD0, 5, 0x03, 6, 0x04, 0x90, 60, 100];
    assert_eq!(
        events(&data),
        vec![
            (0, MidiEvent::Other),
            (3, MidiEvent::Other),
            (4, MidiEvent::NoteOn { channel: 0, key: 60, velocity: 100 }),
        ]
    );
}

#[test]
fn system_events_are_read() {
    let data = [
        0x00, 0xFF, 0x51, 0x03, 0x07, 0xA1, 0x20, // tempo
        0x00, 0xF0, 0x02, 0x01, 0x02, // system exclusive
        0x00, 0xF7, 0x01, 0x05, // escape
        0x00, 0xF8, // clock
        0x00, 0xFF, 0x03, 0x7F, b'a', // a name that is cut off
    ];
    assert_eq!(
        events(&data),
        vec![
            (0, MidiEvent::Meta { event_type: 0x51, data: &[0x07, 0xA1, 0x20][..] }),
            (0, MidiEvent::Other),
            (0, MidiEvent::Other),
            (0, MidiEvent::Other),
            (0, MidiEvent::Meta { event_type: 0x03, data: &b"a"[..] }),
        ]
    );
}

#[test]
fn missing_data_counts_as_zero() {
    assert_eq!(
        events(&[0x00, 0x80, 60]),
        vec![(0, MidiEvent::NoteOff { channel: 0, key: 60, velocity: 0 })]
    );
    assert_eq!(
        events(&[0x00, 0xE0]),
        vec![(0, MidiEvent::PitchBend { channel: 0, bend: 0 })]
    );
    assert_eq!(events(&[]), vec![]);
    assert_eq!(events(&[0x05]), vec![]);
    // A data byte without a status before it.
    assert_eq!(events(&[0x00, 0x3C, 0x40]), vec![]);
}

#[test]
fn cut_meta_events_are_found() {
    assert!(TrackIter::new(&[0x00, 0xFF]).is_cut());
    assert!(TrackIter::new(&[0x00, 0xFF]).at_cut_meta());
    let later = TrackIter::new(&[0x00, 0x90, 60, 100, 0x00, 0xFF]);
    assert!(later.is_cut());
    assert!(!later.at_cut_meta());
    assert!(!TrackIter::new(&[0x00, 0xFF, 0x2F]).is_cut());
    assert!(!TrackIter::new(&[0x00, 0x90, 60, 0xFF]).is_cut());
}

#[test]
fn headers_are_parsed() {
    let mut file = header(1, 3, 480);
    file.push(7);
    let (found, tracks, division, raw) = parse_header(&file).unwrap();
    assert_eq!(found.format, Format::Parallel);
    assert_eq!(found.timing, Timing::Metrical(u15::new(480)));
    assert_eq!((tracks, division), (3, 480));
    assert_eq!(raw, &file[..]);

    let (found, ..) = parse_header(&header(2, 0, 0xE728)[..]).map(|p| (p.0, p.1)).unwrap();
    assert_eq!(found.format, Format::Sequential);
    assert_eq!(found.timing, Timing::Timecode(Fps::Fps25, 40));
    for (word, fps) in [(0xE8u16, Fps::Fps24), (0xE3, Fps::Fps29), (0xE2, Fps::Fps30)] {
        let (found, ..) = parse_header(&header(0, 0, word * 256)).unwrap();
        assert_eq!(found.timing, Timing::Timecode(fps, 0));
    }
}

#[test]
fn headers_are_refused() {
    assert_eq!(parse_header(b"MTh").unwrap_err(), Error::NotMidi);
    assert_eq!(parse_header(b"MTrk").unwrap_err(), Error::NotMidi);
    assert_eq!(parse_header(&header(0, 0, 1)[..13]).unwrap_err(), Error::HeaderCut);
    assert_eq!(parse_header(&header(3, 0, 1)).unwrap_err(), Error::SmfFormat);
    assert_eq!(parse_header(&header(0, 0, 0x8000)).unwrap_err(), Error::SmpteFps);
    assert_eq!(parse_header(&header(0, 0, 0xFF00)).unwrap_err(), Error::SmpteFps);
    assert_eq!(Error::SmpteFps.message(), "invalid smpte fps");
}

#[test]
fn riff_wrappers_are_taken_off() {
    let file = header(1, 0, 96);
    let wrapped = riff(b"RMID", &[(b"LIST", b"abc"), (b"data", &file)]);
    let (.., raw) = parse_header(&wrapped).unwrap();
    assert_eq!(raw, &file[..]);

    // The last chunk goes as far as the file.
    let mut cut = wrapped.clone();
    cut.extend_from_slice(&[1, 2]);
    let (.., raw) = parse_header(&cut).unwrap();
    assert_eq!(raw, &file[..]);

    assert_eq!(parse_header(b"RIFF\x01\x00").unwrap_err(), Error::RiffHeader);
    assert_eq!(parse_header(&riff(b"WAVE", &[(b"data", &file)])).unwrap_err(), Error::RiffType);
    assert_eq!(parse_header(&riff(b"RMID", &[(b"LIST", b"abc")])).unwrap_err(), Error::RiffNoData);
    assert_eq!(parse_header(&riff(b"RMID", &[(b"data", b"MThd")])).unwrap_err(), Error::HeaderCut);
    let other = [&b"MTrk"[..], &[0; 12][..]].concat();
    assert_eq!(parse_header(&riff(b"RMID", &[(b"data", &other)])).unwrap_err(), Error::HeaderChunk);
}

#[test]
fn tracks_are_found() {
    let mut file = header(1, 2, 96);
    file.extend_from_slice(b"XXXX\x00\x00\x00\x02ab");
    file.extend_from_slice(b"MTrk\x00\x00\x00\x04\x00\x90\x3C\x64");
    file.extend_from_slice(b"MTrk\x00\x00\x00\x63\x00\x90\x3D");
    let firsts: Vec<_> = iter_tracks_from_data(&file, 2)
        .into_iter()
        .map(|mut t| t.next_event())
        .collect();
    assert_eq!(
        firsts,
        vec![
            Some((0, MidiEvent::NoteOn { channel: 0, key: 60, velocity: 100 })),
            Some((0, MidiEvent::NoteOff { channel: 0, key: 61, velocity: 0 })),
        ]
    );
    assert_eq!(iter_tracks_from_data(&file, 1).len(), 1);
    assert_eq!(iter_tracks_from_data(&file, 9).len(), 2);
    assert_eq!(iter_tracks_from_data(&file[..14], 9).len(), 0);
}

#[test]
fn scans_count_strikes() {
    let data = [
        0x00, 0x90, 60, 100, // struck
        0x10, 60, 90, // struck again while held
        0x00, 200, 1, // a delta time of two bytes, then a data byte
    ];
    let (notes, tick, tempos) = scan_track_notes_only(&data);
    assert_eq!((notes, tick), (2, 16));
    assert!(tempos.is_empty());

    let data = [
        0x00, 0xFF, 0x51, 0x03, 0x07, 0xA1, 0x20, // tempo
        0x05, 0x90, 0xC8, 0x01, // a key above 127
        0x05, 0x80, 0xC8, 0x00, // let go
        0x05, 0x80, 0xC8, 0x00, // not held any more
        0x05, 0xD0, 0x01, // channel pressure takes one byte
        0x05, 0xFF, 0x51, 0x04, 0x00, 0x00, 0x01, 0x00, // a longer tempo
        0x05, 0xFF, 0x51, 0x03, 0x00, 0x00, 0x00, // no tempo
        0x05, 0x90, 60, 1, // held to the end
        0x05, 0x91, // cut off, but its time counts
    ];
    let (notes, tick, tempos) = scan_track_notes_only(&data);
    assert_eq!((notes, tick), (2, 40));
    assert_eq!(tempos, vec![(0, 500_000), (25, 1)]);
}
