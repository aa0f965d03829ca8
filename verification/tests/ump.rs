use std::borrow::Cow;

use midly::fast_midi::{scan_track_notes_only, MidiEvent, TrackIter};
use midly::ump::{convert_ump_chunk_to_mtrk, preprocess_smf, write_vlq};

#[test]
fn test_empty_data() {
    let result = preprocess_smf(b"");
    assert!(matches!(result, Cow::Borrowed(_)));
}

#[test]
fn test_no_ump_passthrough() {
    // Create minimal SMF with MTrk chunks only
    let mut smf = vec![];
    // MThd header
    smf.extend_from_slice(b"MThd");
    smf.extend_from_slice(&[0, 0, 0, 6]); // header length
    smf.extend_from_slice(&[0, 1]); // format 1
    smf.extend_from_slice(&[0, 2]); // 2 tracks
    smf.extend_from_slice(&[0, 120]); // 120 ticks/quarter

    // MTrk chunk 1 (empty)
    smf.extend_from_slice(b"MTrk");
    smf.extend_from_slice(&[0, 0, 0, 0]); // length 0

    // MTrk chunk 2 (empty)
    smf.extend_from_slice(b"MTrk");
    smf.extend_from_slice(&[0, 0, 0, 0]); // length 0

    let result = preprocess_smf(&smf);
    assert!(matches!(result, Cow::Borrowed(_)));
    assert_eq!(&*result, &smf);
}

#[test]
fn test_write_vlq_zero() {
    let mut buf = Vec::new();
    write_vlq(&mut buf, 0);
    assert_eq!(buf, vec![0]);
}

#[test]
fn test_write_vlq_single_byte() {
    let mut buf = Vec::new();
    write_vlq(&mut buf, 64);
    assert_eq!(buf, vec![64]);
}

#[test]
fn test_write_vlq_two_byte() {
    let mut buf = Vec::new();
    write_vlq(&mut buf, 128);
    assert_eq!(buf, vec![0x81, 0x00]);
}

#[test]
fn test_write_vlq_large() {
    let mut buf = Vec::new();
    write_vlq(&mut buf, 0x123456);
    let decoded = decode_vlq_for_test(&buf);
    assert_eq!(decoded, 0x123456);
}

#[test]
fn test_convert_ump_type2_noteon() {
    // UMP Type 0x2: NoteOn ch0, key=60, vel=100
    // Byte 0: 0x20 (MT=2, ch=0)
    // Byte 1: 0x90 (NoteOn status nibble << 4)
    // Byte 2: 0x3C (key=60)
    // Byte 3: 0x64 (vel=100)
    let ump = vec![0x20, 0x90, 0x3C, 0x64];
    let mtrk = convert_ump_chunk_to_mtrk(&ump);

    // Expect: VLQ(0) + NoteOn ch0 key=60 vel=100
    assert_eq!(mtrk, vec![0x00, 0x90, 0x3C, 0x64]);
}

#[test]
fn test_convert_ump_type2_noteon_256key() {
    // UMP Type 0x2: NoteOn ch0, key=200 (> 127), vel=100
    let ump = vec![0x20, 0x90, 0xC8, 0x64]; // 0xC8 = 200
    let mtrk = convert_ump_chunk_to_mtrk(&ump);

    assert_eq!(mtrk, vec![0x00, 0x90, 0xC8, 0x64]);
}

#[test]
fn test_convert_ump_type2_program_change() {
    // UMP Type 0x2: ProgramChange ch5, program=42
    // Byte 0: 0x25 (MT=2, ch=5)
    // Byte 1: 0xC0 (PC status nibble << 4)
    // Byte 2: 42
    // Byte 3: ignored (but still 8 bits)
    let ump = vec![0x25, 0xC0, 42, 0];
    let mtrk = convert_ump_chunk_to_mtrk(&ump);

    // ProgramChange is 1-byte: VLQ(0) + status + program
    assert_eq!(mtrk, vec![0x00, 0xC5, 42]);
}

#[test]
fn test_convert_ump_type2_with_running_status() {
    // Multiple NoteOn events with running status
    let ump = vec![
        0x20, 0x90, 0x3C, 0x64, // NoteOn ch0 key=60 vel=100
        0x20, 0x90, 0x40, 0x50, // NoteOn ch0 key=64 vel=80 (same status → running)
    ];
    let mtrk = convert_ump_chunk_to_mtrk(&ump);

    // First event: explicit status (VLQ(0) + 0x90 + key + vel)
    // Second event: running status (VLQ(0) + key + vel, no status)
    assert_eq!(
        mtrk,
        vec![
            0x00, 0x90, 0x3C, 0x64, // event 1
            0x00, 0x40, 0x50, // event 2 (no status byte, running from event 1)
        ]
    );
}

#[test]
fn test_convert_ump_type4_noteon() {
    // UMP Type 0x4: MIDI 2.0 NoteOn
    // Word 0: 0x40 | channel=0, status nibble=0x9, note number=60
    // Word 1: velocity=32768 (50% = 0x8000), attr=0
    let ump = vec![
        0x40, 0x90, 0x00, 0x3C, // Word 0: ch=0, NoteOn, note=0x003C=60
        0x80, 0x00, 0x00, 0x00, // Word 1: vel=0x8000=32768 (MSB=0x80)
    ];
    let mtrk = convert_ump_chunk_to_mtrk(&ump);

    // Note: velocity 0x8000 = 32768, >> 8 = 128, clamped to 127
    assert_eq!(mtrk, vec![0x00, 0x90, 60, 127]);
}

#[test]
fn test_convert_ump_type4_noteon_256key() {
    // UMP Type 0x4: NoteOn ch0, note=200 (>127)
    let ump = vec![
        0x40, 0x90, 0x00, 0xC8, // Word 0: ch=0, NoteOn, note=0x00C8=200
        0x7F, 0x00, 0x00, 0x00, // Word 1: vel=0x7F00, attr=0
    ];
    let mtrk = convert_ump_chunk_to_mtrk(&ump);

    assert_eq!(mtrk, vec![0x00, 0x90, 200, 0x7F]);
}

#[test]
fn test_convert_ump_type4_note_number_clamping() {
    // Note number > 255 should be clamped to 255
    let ump = vec![
        0x40, 0x90, 0x01, 0x00, // Word 0: note=0x0100=256 → clamped to 255
        0x7F, 0x00, 0x00, 0x00,
    ];
    let mtrk = convert_ump_chunk_to_mtrk(&ump);
    assert_eq!(mtrk, vec![0x00, 0x90, 255, 0x7F]);
}

#[test]
fn test_timing_message() {
    // Utility Timing message (delta=480) followed by NoteOn
    let ump = vec![
        // Utility: Type 0x0, subtype 0x1, delta=480
        0x00, 0x10, 0x01, 0xE0, // delta = 0x01E0 = 480
        // NoteOn ch0 key=60 vel=100
        0x20, 0x90, 0x3C, 0x64,
    ];
    let mtrk = convert_ump_chunk_to_mtrk(&ump);

    // Expect VLQ(480) + NoteOn
    let mut expected = vec![0x83, 0x60]; // VLQ(480) = 0x83 0x60
    expected.extend_from_slice(&[0x90, 0x3C, 0x64]);
    assert_eq!(mtrk, expected);
}

#[test]
fn test_convert_ump_mixed_mtrk_and_ump() {
    // SMF with one MTrk track and one UMP track
    let mut raw = vec![];
    raw.extend_from_slice(b"MThd");
    raw.extend_from_slice(&[0, 0, 0, 6]); // header len
    raw.extend_from_slice(&[0, 1]); // format 1
    raw.extend_from_slice(&[0, 2]); // 2 tracks
    raw.extend_from_slice(&[0, 120]); // 120 ppq

    // MTrk track (empty)
    raw.extend_from_slice(b"MTrk");
    raw.extend_from_slice(&[0, 0, 0, 0]); // length 0

    // UMP track (one note)
    raw.extend_from_slice(b"UMP ");
    raw.extend_from_slice(&[0, 0, 0, 4]); // length 4
    raw.extend_from_slice(&[0x20, 0x90, 0x3C, 0x64]); // NoteOn ch0 key=60

    let processed = preprocess_smf(&raw);
    assert!(matches!(processed, Cow::Owned(_)));

    // Verify: MTrk should appear twice (original MTrk + converted UMP)
    let processed = processed.into_owned();
    assert!(processed.windows(4).filter(|w| w == b"MTrk").count() >= 2);
    assert!(!processed.windows(4).any(|w| w == b"UMP "));
}

// Helper: decode a VLQ for testing
fn decode_vlq_for_test(data: &[u8]) -> u32 {
    let mut value = 0u32;
    for &byte in data {
        value = (value << 7) | (byte & 0x7F) as u32;
        if byte & 0x80 == 0 {
            break;
        }
    }
    value
}

// The chunk list of a file behind its header.
fn chunks(data: &[u8]) -> Vec<(Vec<u8>, Vec<u8>)> {
    let mut found = Vec::new();
    let mut at = 14;
    while at + 8 <= data.len() {
        let len = u32::from_be_bytes([data[at + 4], data[at + 5], data[at + 6], data[at + 7]]);
        let end = (at + 8 + len as usize).min(data.len());
        found.push((data[at..at + 4].to_vec(), data[at + 8..end].to_vec()));
        at = end;
    }
    found
}

fn file_with(chunks: &[(&[u8], &[u8])]) -> Vec<u8> {
    let mut raw = Vec::new();
    raw.extend_from_slice(b"MThd");
    raw.extend_from_slice(&[0, 0, 0, 6, 0, 1, 0, chunks.len() as u8, 0, 120]);
    for (name, data) in chunks {
        raw.extend_from_slice(name);
        raw.extend_from_slice(&(data.len() as u32).to_be_bytes());
        raw.extend_from_slice(data);
    }
    raw
}

#[test]
fn preprocessing_keeps_other_chunks() {
    let packets: &[u8] = &[0x20, 0x90, 0x3C, 0x64, 0x20, 0x80, 0x3C, 0x40];
    let raw = file_with(&[
        (b"XFIH", &[1, 2, 3]),
        (b"UMP ", packets),
        (b"MTrk", &[0x00, 0xFF, 0x2F, 0x00]),
    ]);
    let once = preprocess_smf(&raw).into_owned();
    assert_eq!(once[..14], raw[..14]);
    assert_eq!(
        chunks(&once),
        vec![
            (b"XFIH".to_vec(), vec![1, 2, 3]),
            (
                b"MTrk".to_vec(),
                vec![0x00, 0x90, 0x3C, 0x64, 0x00, 0x80, 0x3C, 0x40]
            ),
            (b"MTrk".to_vec(), vec![0x00, 0xFF, 0x2F, 0x00]),
        ]
    );
    // A second time there is nothing left to do.
    assert!(matches!(preprocess_smf(&once), Cow::Borrowed(_)));
}

#[test]
fn preprocessing_keeps_trailing_bytes() {
    let mut raw = file_with(&[(b"UMP ", &[0x20, 0x90, 0x3C, 0x64])]);
    raw.extend_from_slice(&[9, 8, 7]);
    let done = preprocess_smf(&raw).into_owned();
    assert_eq!(done[done.len() - 3..], [9, 8, 7]);
}

#[test]
fn packets_of_a_cut_chunk_are_taken_as_far_as_they_go() {
    let mut raw = file_with(&[(b"UMP ", &[0x20, 0x90, 0x3C, 0x64])]);
    // The chunk announces more than there is.
    raw[21] = 40;
    let done = preprocess_smf(&raw).into_owned();
    assert_eq!(
        chunks(&done),
        vec![(b"MTrk".to_vec(), vec![0x00, 0x90, 0x3C, 0x64])]
    );
}

#[test]
fn packets_of_other_types_are_passed_over() {
    let packets = [
        0x10, 0xF8, 0x00, 0x00, // system message
        0x50, 0x00, 0x00, 0x00, 0x20, 0x90, 0x3C, 0x64, // data message of two words
        0x00, 0x00, 0x00, 0x00, // no operation
        0x20, 0x70, 0x3C, 0x64, // no channel message
        0x21, 0xD0, 0x33, 0x44, // channel pressure takes one data byte
        0x40, 0xB0, 0x00, 0x3C, 0x7F, 0x00, 0x00, 0x00, // MIDI 2.0 controller
        0x41, 0x80, 0x00, 0x3C, 0x12, 0x34, 0x00, 0x00, // MIDI 2.0 note-off
        0x40, 0x90, 0x00, 0x3C, // cut in the middle
    ];
    assert_eq!(
        convert_ump_chunk_to_mtrk(&packets),
        vec![0x00, 0xD1, 0x33, 0x00, 0x81, 0x3C, 0x12]
    );
}

#[test]
fn timing_counts_for_one_message() {
    let packets = [
        0x00, 0x10, 0x00, 0x05, // five ticks
        0x20, 0x90, 0x3C, 0x64, //
        0x20, 0x90, 0x3C, 0x00, //
        0x00, 0x1F, 0xFF, 0xFF, // the most ticks there are
        0x21, 0x90, 0x3C, 0x64, //
    ];
    assert_eq!(
        convert_ump_chunk_to_mtrk(&packets),
        vec![
            0x05, 0x90, 0x3C, 0x64, 0x00, 0x3C, 0x00, 0xBF, 0xFF, 0x7F, 0x91, 0x3C, 0x64
        ]
    );
}

#[test]
fn converted_packets_read_back() {
    let packets = [
        0x00, 0x10, 0x00, 0x05, // five ticks
        0x23, 0x90, 0x3C, 0x64, // note-on
        0x23, 0x90, 0x3D, 0x64, // the same status
        0x23, 0xC0, 0x07, 0x00, // program
        0x23, 0x80, 0x3C, 0x01, // note-off
    ];
    let track = convert_ump_chunk_to_mtrk(&packets);
    let mut iter = TrackIter::new(&track);
    let mut events = Vec::new();
    while let Some(event) = iter.next_event() {
        events.push(event);
    }
    assert_eq!(
        events,
        vec![
            (5, MidiEvent::NoteOn { channel: 3, key: 60, velocity: 100 }),
            (0, MidiEvent::NoteOn { channel: 3, key: 61, velocity: 100 }),
            (0, MidiEvent::ProgramChange { channel: 3, program: 7 }),
            (0, MidiEvent::NoteOff { channel: 3, key: 60, velocity: 1 }),
        ]
    );
    let (notes, tick, _) = scan_track_notes_only(&track);
    assert_eq!((notes, tick), (2, 5));
}

#[test]
fn wide_keys_keep_their_status() {
    // Two packets with the same status and key 200, then one with key 60.
    let packets = [0x20, 0x90, 0xC8, 0x64, 0x20, 0x90, 0xC8, 0x50, 0x20, 0x90, 0x3C, 0x40];
    let track = convert_ump_chunk_to_mtrk(&packets[..8]);
    assert_eq!(track, vec![0x00, 0x90, 0xC8, 0x64, 0x00, 0x90, 0xC8, 0x50]);
    let mut iter = TrackIter::new(&track);
    assert_eq!(
        iter.next_event(),
        Some((0, MidiEvent::NoteOn { channel: 0, key: 200, velocity: 100 }))
    );
    assert_eq!(
        iter.next_event(),
        Some((0, MidiEvent::NoteOn { channel: 0, key: 200, velocity: 80 }))
    );
    assert_eq!(iter.next_event(), None);
    assert_eq!(
        convert_ump_chunk_to_mtrk(&packets),
        vec![0x00, 0x90, 0xC8, 0x64, 0x00, 0x90, 0xC8, 0x50, 0x00, 0x3C, 0x40]
    );
}

#[test]
fn converted_channel_pressure_reads_back() {
    let packets = [0x21, 0xD0, 0x05, 0x00, 0x21, 0x90, 0x3C, 0x64];
    let track = convert_ump_chunk_to_mtrk(&packets);
    assert_eq!(track, vec![0x00, 0xD1, 0x05, 0x00, 0x91, 0x3C, 0x64]);
    let mut iter = TrackIter::new(&track);
    assert_eq!(iter.next_event(), Some((0, MidiEvent::Other)));
    assert_eq!(
        iter.next_event(),
        Some((0, MidiEvent::NoteOn { channel: 1, key: 60, velocity: 100 }))
    );
    assert_eq!(iter.next_event(), None);
}

#[test]
fn track_data_is_no_longer_than_its_packets() {
    // The longest delta time in front of a message that needs all its bytes.
    let packets = [0x00, 0x1F, 0xFF, 0xFF, 0x20, 0x90, 0x3C, 0x64, 0x21, 0x90, 0x3C, 0x64];
    let track = convert_ump_chunk_to_mtrk(&packets);
    assert_eq!(track, vec![0xBF, 0xFF, 0x7F, 0x90, 0x3C, 0x64, 0x00, 0x91, 0x3C, 0x64]);
    assert!(track.len() <= packets.len());
    assert_eq!(convert_ump_chunk_to_mtrk(&packets[4..]).len(), 8);
}
