use midly::error::Error;
use midly::event::{MetaMessage, MidiMessage, TrackEvent, TrackEventKind};
use midly::mmap::{is_header_cut, MmapEventIter, MmapSmf};
use midly::primitive::{u14, u15, u24, u28, u4, u7, Format, Fps, PitchBend, SmpteTime, Timing};

type Item<'a> = Result<TrackEvent<&'a [u8]>, Error>;

fn items(data: &[u8]) -> Vec<Item<'_>> {
    let mut iter = MmapEventIter::new(data);
    let mut found = Vec::new();
    while let Some(item) = iter.next() {
        found.push(item);
    }
    found
}

fn midi<'a>(delta: u32, channel: u8, message: MidiMessage) -> Item<'a> {
    Ok(TrackEvent { delta: u28::new(delta), kind: TrackEventKind::Midi { channel: u4::new(channel), message } })
}

fn meta<'a>(message: MetaMessage<&'a [u8]>) -> Item<'a> {
    Ok(TrackEvent { delta: u28::new(0), kind: TrackEventKind::Meta(message) })
}

fn one_meta(kind: u8, data: &[u8]) -> Vec<u8> {
    let mut bytes = vec![0x00, 0xFF, kind, data.len() as u8];
    bytes.extend_from_slice(data);
    bytes
}

fn file(format: u16, division: u16, tracks: &[&[u8]]) -> Vec<u8> {
    let mut raw = b"MThd\x00\x00\x00\x06".to_vec();
    raw.extend_from_slice(&format.to_be_bytes());
    raw.extend_from_slice(&(tracks.len() as u16).to_be_bytes());
    raw.extend_from_slice(&division.to_be_bytes());
    for track in tracks {
        raw.extend_from_slice(b"MTrk");
        raw.extend_from_slice(&(track.len() as u32).to_be_bytes());
        raw.extend_from_slice(track);
    }
    raw
}

#[test]
fn channel_events_in_place() {
    let data = [
        0x00, 0x90, 60, 100, // note-on
        0x81, 0x00, 200, 0x40, // a delta time of two bytes, then a status
    ];
    assert_eq!(
        items(&data)[0],
        midi(0, 0, MidiMessage::NoteOn { key: 60, vel: u7::new(100) })
    );
    let data = [
        0x10, 0x83, 60, 5, 0x00, 61, 6, // running status
        0x00, 0x95, 0xC8, 0xFF, // eight bits of key, seven of velocity
        0x00, 0xA1, 1, 2, 0x00, 0xB2, 3, 4, 0x00, 0xC3, 5, 0x00, 0xD4, 6, 0x00, 0xE5, 0x01, 0x40,
    ];
    assert_eq!(
        items(&data),
        vec![
            midi(16, 3, MidiMessage::NoteOff { key: 60, vel: u7::new(5) }),
            midi(0, 3, MidiMessage::NoteOff { key: 61, vel: u7::new(6) }),
            midi(0, 5, MidiMessage::NoteOn { key: 200, vel: u7::new(127) }),
            midi(0, 1, MidiMessage::Aftertouch { key: u7::new(1), vel: u7::new(2) }),
            midi(0, 2, MidiMessage::Controller { controller: u7::new(3), value: u7::new(4) }),
            midi(0, 3, MidiMessage::ProgramChange { program: u7::new(5) }),
            midi(0, 4, MidiMessage::ChannelAftertouch { vel: u7::new(6) }),
            midi(0, 5, MidiMessage::PitchBend { bend: PitchBend(u14::new(0x2001)) }),
        ]
    );
}

#[test]
fn meta_events_in_place() {
    let text: &[u8] = b"hi";
    let cases: Vec<(u8, &[u8], MetaMessage<&[u8]>)> = vec![
        (0x00, &[1, 2], MetaMessage::TrackNumber(Some(258))),
        (0x00, &[1], MetaMessage::TrackNumber(None)),
        (0x01, text, MetaMessage::Text(text)),
        (0x02, text, MetaMessage::Copyright(text)),
        (0x03, text, MetaMessage::TrackName(text)),
        (0x04, text, MetaMessage::InstrumentName(text)),
        (0x05, text, MetaMessage::Lyric(text)),
        (0x06, text, MetaMessage::Marker(text)),
        (0x07, text, MetaMessage::CuePoint(text)),
        (0x08, text, MetaMessage::ProgramName(text)),
        (0x09, text, MetaMessage::DeviceName(text)),
        (0x20, &[0x15], MetaMessage::MidiChannel(u4::new(5))),
        (0x20, &[], MetaMessage::Unknown(0x20, &[])),
        (0x21, &[0x85], MetaMessage::MidiPort(u7::new(5))),
        (0x2F, &[], MetaMessage::EndOfTrack),
        (0x51, &[7, 0xA1, 0x20, 9], MetaMessage::Tempo(u24::new(500_000))),
        (0x51, &[7, 0xA1], MetaMessage::Unknown(0x51, &[7, 0xA1])),
        (
            0x54,
            &[0x41, 2, 3, 4, 5],
            MetaMessage::SmpteOffset(SmpteTime::new(1, 2, 3, 4, 5, Fps::Fps29).unwrap()),
        ),
        (
            0x54,
            &[0x01, 60, 3, 4, 5],
            MetaMessage::SmpteOffset(SmpteTime::new(0, 0, 0, 0, 0, Fps::Fps24).unwrap()),
        ),
        (0x58, &[6, 3, 24, 8], MetaMessage::TimeSignature(6, 3, 24, 8)),
        (0x59, &[0xFD, 1], MetaMessage::KeySignature(-3, true)),
        (0x7F, text, MetaMessage::SequencerSpecific(text)),
        (0x60, text, MetaMessage::Unknown(0x60, text)),
    ];
    for (kind, data, message) in cases {
        assert_eq!(items(&one_meta(kind, data)), vec![meta(message)], "{:#x}", kind);
    }
}

#[test]
fn times_are_checked() {
    assert!(SmpteTime::new(23, 59, 59, 23, 99, Fps::Fps24).is_some());
    assert!(SmpteTime::new(24, 0, 0, 0, 0, Fps::Fps24).is_none());
    assert!(SmpteTime::new(0, 60, 0, 0, 0, Fps::Fps24).is_none());
    assert!(SmpteTime::new(0, 0, 60, 0, 0, Fps::Fps24).is_none());
    assert!(SmpteTime::new(0, 0, 0, 24, 0, Fps::Fps24).is_none());
    assert!(SmpteTime::new(0, 0, 0, 29, 0, Fps::Fps30).is_some());
    assert!(SmpteTime::new(0, 0, 0, 0, 100, Fps::Fps24).is_none());
}

#[test]
fn data_events_in_place() {
    let data = [0x01, 0xF0, 0x02, 9, 8, 0x02, 0xF7, 0x01, 7];
    let event = |delta: u32, kind| -> Item<'_> { Ok(TrackEvent { delta: u28::new(delta), kind }) };
    assert_eq!(
        items(&data),
        vec![
            event(1, TrackEventKind::SysEx(&[9, 8][..])),
            event(2, TrackEventKind::Escape(&[7][..])),
        ]
    );
}

#[test]
fn errors_end_a_track() {
    let cases: Vec<(&[u8], Error)> = vec![
        (&[0x81], Error::DeltaCut),
        (&[0x00], Error::EventMissing),
        (&[0x00, 0x3C, 0x40], Error::NoRunningStatus),
        (&[0x00, 0xF1, 0x00], Error::StatusByte),
        (&[0x00, 0x90, 60], Error::ChannelMessageCut),
        (&[0x00, 0xC0], Error::ChannelMessageCut),
        (&[0x00, 0xFF], Error::MetaCut),
        (&[0x00, 0xFF, 0x01], Error::MetaLength),
        (&[0x00, 0xFF, 0x01, 0x02, 0x00], Error::MetaDataCut),
        (&[0x00, 0xF0, 0x80], Error::SysExLength),
        (&[0x00, 0xF0, 0x01], Error::SysExDataCut),
        (&[0x00, 0xF7], Error::EscapeLength),
        (&[0x00, 0xF7, 0x05, 0x00], Error::EscapeDataCut),
    ];
    for (data, error) in cases {
        let mut iter = MmapEventIter::new(data);
        assert_eq!(iter.next(), Some(Err(error)), "{:?}", data);
        assert!(iter.remaining().is_empty());
        assert_eq!(iter.next(), None);
    }
    // A meta event ends running status.
    let data = [0x00, 0x90, 60, 1, 0x00, 0xFF, 0x2F, 0x00, 0x00, 61, 1];
    assert_eq!(items(&data)[2], Err(Error::NoRunningStatus));
    assert_eq!(Error::MetaDataCut.message(), "truncated meta event data");
}

#[test]
fn the_rest_of_a_track_is_at_hand() {
    let data = [0x00, 0x90, 60, 1, 0x00, 61, 1];
    let mut iter = MmapEventIter::new(&data);
    assert_eq!(iter.remaining(), &data[..]);
    iter.next();
    assert_eq!(iter.remaining(), &data[4..]);
}

#[test]
fn files_in_place() {
    let one: &[u8] = &[0x00, 0x90, 60, 100, 0x60, 60, 0, 0x00, 0xFF, 0x2F, 0x00];
    let two: &[u8] = &[0x05, 0x91, 61, 1, 0x00, 0xFF];
    let raw = file(1, 96, &[one, two]);
    assert!(!is_header_cut(&raw));
    let smf = MmapSmf::parse(&raw).unwrap();
    assert_eq!(smf.header().format, Format::Parallel);
    assert_eq!(smf.header().timing, Timing::Metrical(u15::new(96)));
    assert_eq!(smf.track_count(), 2);
    assert_eq!(smf.tracks()[0].as_bytes(), one);
    assert_eq!(smf.tracks()[0].event_count(), 3);
    assert_eq!(smf.tracks()[1].event_count(), 2);
    assert_eq!(
        smf.tracks()[0].note_on_events(),
        vec![
            (u28::new(0), 60, u7::new(100), u4::new(0)),
            (u28::new(0x60), 60, u7::new(0), u4::new(0)),
        ]
    );
    assert_eq!(smf.tracks()[1].iter().remaining(), two);

    let stats = smf.stats();
    assert_eq!(stats.track_count, 2);
    assert_eq!(stats.total_events, 5);
    assert_eq!(stats.total_notes, 3);
    assert_eq!(stats.total_duration_ticks, 0x60);
    assert_eq!(stats.header, *smf.header());

    let owned = smf.to_owned();
    assert_eq!(owned.header, *smf.header());
    assert_eq!(owned.tracks.len(), 2);
    assert_eq!(owned.tracks[0].len(), 3);
    // The error that ends the second track is left out.
    assert_eq!(owned.tracks[1].len(), 1);
    let text = file(0, 96, &[&[0x00, 0xFF, 0x01, 0x02, b'h', b'i']]);
    let owned = MmapSmf::parse(&text).unwrap().to_owned();
    assert_eq!(owned.tracks[0][0].kind, TrackEventKind::Meta(MetaMessage::Text(b"hi".to_vec())));
}

#[test]
fn files_that_cannot_be_parsed() {
    let good = file(1, 96, &[&[0x00, 0xFF, 0x2F, 0x00]]);
    let parse = |data: &[u8]| MmapSmf::parse(data).unwrap_err();
    assert_eq!(parse(&good[..13]), Error::DataTooShort);
    let mut bad = good.clone();
    bad[0] = b'X';
    assert_eq!(parse(&bad), Error::MissingHeader);
    let mut bad = good.clone();
    bad[7] = 7;
    assert_eq!(parse(&bad), Error::HeaderLength);
    assert_eq!(parse(&file(3, 96, &[])), Error::MidiFormat);
    assert_eq!(parse(&file(0, 0x8000, &[])), Error::MidiFps);
    assert_eq!(parse(&good[..21]), Error::TrackHeadCut);
    let mut bad = good.clone();
    bad[14] = b'X';
    assert_eq!(parse(&bad), Error::ExpectedTrack);
    assert_eq!(parse(&good[..good.len() - 1]), Error::TrackCut);
    assert_eq!(parse(b"RIFF----RMIDdata----"), Error::RiffWithoutMidi);
    // A header chunk at the very end is not found.
    assert_eq!(parse(b"RIFF----------MThd"), Error::RiffWithoutMidi);
}

#[test]
fn files_in_riff_data() {
    let mut raw = b"RIFF----RMIDdata----".to_vec();
    raw.extend_from_slice(&file(0, 96, &[&[0x00, 0x90, 60, 1]]));
    assert!(!is_header_cut(&raw));
    assert_eq!(MmapSmf::parse(&raw).unwrap().stats().total_notes, 1);
    assert!(is_header_cut(b"RIFF----------MThd\x00"));
    assert!(is_header_cut(b"RIFF----------MThd\x00\x00\x00\x06\x00"));
    assert!(is_header_cut(b"RIFF----------MThd\x00\x00\x00\x06\x00\x01\x00\x00"));
    assert!(!is_header_cut(b"RIFF----------MThd\x00\x00\x00\x06\x00\x03\x00\x00"));
    assert!(!is_header_cut(b"RIFF----------MThd\x00\x00\x00\x07"));
}
