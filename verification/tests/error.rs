use midly::error::Error;

#[test]
fn every_error_has_its_text() {
    let texts = [
        (Error::NotMidi, "not a midi file"),
        (Error::HeaderCut, "invalid midi header"),
        (Error::HeaderChunk, "invalid midi header chunk"),
        (Error::SmfFormat, "invalid smf format"),
        (Error::SmpteFps, "invalid smpte fps"),
        (Error::RiffHeader, "invalid riff header"),
        (Error::RiffType, "riff file is not a midi file"),
        (Error::RiffNoData, "no data chunk in riff file"),
        (Error::FileTooShort, "file too short"),
        (Error::RiffScan, "failed to scan RIFF header"),
        (Error::RiffNoHeader, "no MThd in RIFF"),
        (Error::NotMidiFile, "not a MIDI file"),
        (Error::FileHeaderCut, "truncated MIDI header"),
        (Error::FileHeader, "invalid MIDI header"),
        (Error::FileHeaderShort, "MIDI header too short"),
        (Error::Seek, "seek failed"),
        (Error::SeekHeader, "seek to MThd failed"),
        (Error::HeaderPadding, "failed to skip header padding"),
        (Error::DataTooShort, "file too short for MIDI header"),
        (Error::MissingHeader, "not a MIDI file (missing MThd)"),
        (Error::HeaderLength, "invalid MIDI header length"),
        (Error::MidiFormat, "invalid MIDI format"),
        (Error::MidiFps, "invalid FPS"),
        (Error::TrackHeadCut, "truncated track header"),
        (Error::ExpectedTrack, "expected MTrk chunk"),
        (Error::TrackCut, "truncated track data"),
        (Error::RiffWithoutMidi, "RIFF file does not contain MIDI data"),
        (Error::DeltaCut, "truncated delta time"),
        (Error::EventMissing, "unexpected end of track"),
        (Error::NoRunningStatus, "running status without previous status"),
        (Error::StatusByte, "invalid status byte"),
        (Error::ChannelMessageCut, "truncated channel message"),
        (Error::ChannelMessageType, "unknown channel message type"),
        (Error::MetaCut, "truncated meta event"),
        (Error::MetaLength, "invalid meta event length"),
        (Error::MetaDataCut, "truncated meta event data"),
        (Error::SysExLength, "invalid sysex length"),
        (Error::SysExDataCut, "truncated sysex data"),
        (Error::EscapeLength, "invalid escape length"),
        (Error::EscapeDataCut, "truncated escape data"),
        (Error::UnexpectedEof, "failed to fill whole buffer"),
        (Error::InputHeader, "Not a valid MIDI file (missing MThd)"),
        (Error::InputHeaderLength, "Invalid MThd length"),
        (Error::InputRunningStatus, "Data byte without Running Status"),
    ];
    for (error, text) in texts {
        assert_eq!(error.message(), text);
    }
}
