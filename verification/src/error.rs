//! Why a file or a track could not be read.

use vstd::prelude::*;

verus! {

/// The reasons for which reading fails.
#[derive(Clone, Copy, Debug, PartialEq, Eq, Hash, Structural)]
pub enum Error {
    /// The data starts with no known signature.
    NotMidi,
    /// Fewer bytes than a header takes.
    HeaderCut,
    /// The header chunk carries another name.
    HeaderChunk,
    /// A format number other than 0, 1 and 2.
    SmfFormat,
    /// A frame rate that SMPTE timing does not know.
    SmpteFps,
    /// The RIFF chunk itself is incomplete.
    RiffHeader,
    /// The RIFF data is of another type than `RMID`.
    RiffType,
    /// The RIFF data holds no `data` chunk.
    RiffNoData,
    /// The file ends before its first four bytes.
    FileTooShort,
    /// The start of a RIFF file could not be read.
    RiffScan,
    /// The start of a RIFF file holds no header chunk.
    RiffNoHeader,
    /// The file is neither RIFF nor a plain MIDI file.
    NotMidiFile,
    /// The file ends inside its header.
    FileHeaderCut,
    /// The header chunk of the file carries another name.
    FileHeader,
    /// The header chunk of the file is shorter than six bytes.
    FileHeaderShort,
    /// The start of the file could not be found again.
    Seek,
    /// The header chunk of a RIFF file could not be reached.
    SeekHeader,
    /// The rest of the header chunk could not be passed over.
    HeaderPadding,
    /// The data is shorter than a MIDI header.
    DataTooShort,
    /// The data holds no header chunk where it should.
    MissingHeader,
    /// The header chunk is not six bytes long.
    HeaderLength,
    /// A format number other than 0, 1 and 2 in mapped data.
    MidiFormat,
    /// An unknown frame rate in mapped data.
    MidiFps,
    /// The data ends inside the head of a track chunk.
    TrackHeadCut,
    /// Another chunk stands where a track chunk should.
    ExpectedTrack,
    /// The data ends inside a track.
    TrackCut,
    /// A RIFF file without MIDI data.
    RiffWithoutMidi,
    /// The track ends inside a delta time.
    DeltaCut,
    /// The track ends where an event should stand.
    EventMissing,
    /// A data byte where no status byte came before.
    NoRunningStatus,
    /// A status byte that no track event starts with.
    StatusByte,
    /// The track ends inside a channel message.
    ChannelMessageCut,
    /// A channel message of an unknown type.
    ChannelMessageType,
    /// The track ends before the type of a meta event.
    MetaCut,
    /// The length of a meta event is incomplete.
    MetaLength,
    /// The track ends inside the data of a meta event.
    MetaDataCut,
    /// The length of a system exclusive event is incomplete.
    SysExLength,
    /// The track ends inside a system exclusive event.
    SysExDataCut,
    /// The length of an escape event is incomplete.
    EscapeLength,
    /// The track ends inside an escape event.
    EscapeDataCut,
    /// The input ends where more bytes are needed.
    UnexpectedEof,
    /// The input does not start with a header chunk.
    InputHeader,
    /// The header chunk of the input is shorter than six bytes.
    InputHeaderLength,
    /// A data byte before any status byte of the input.
    InputRunningStatus,
}

impl Error {
    /// The text that goes with the error.
    pub open spec fn text(self) -> Seq<char> {
        match self {
            Error::NotMidi => "not a midi file"@,
            Error::HeaderCut => "invalid midi header"@,
            Error::HeaderChunk => "invalid midi header chunk"@,
            Error::SmfFormat => "invalid smf format"@,
            Error::SmpteFps => "invalid smpte fps"@,
            Error::RiffHeader => "invalid riff header"@,
            Error::RiffType => "riff file is not a midi file"@,
            Error::RiffNoData => "no data chunk in riff file"@,
            Error::FileTooShort => "file too short"@,
            Error::RiffScan => "failed to scan RIFF header"@,
            Error::RiffNoHeader => "no MThd in RIFF"@,
            Error::NotMidiFile => "not a MIDI file"@,
            Error::FileHeaderCut => "truncated MIDI header"@,
            Error::FileHeader => "invalid MIDI header"@,
            Error::FileHeaderShort => "MIDI header too short"@,
            Error::Seek => "seek failed"@,
            Error::SeekHeader => "seek to MThd failed"@,
            Error::HeaderPadding => "failed to skip header padding"@,
            Error::DataTooShort => "file too short for MIDI header"@,
            Error::MissingHeader => "not a MIDI file (missing MThd)"@,
            Error::HeaderLength => "invalid MIDI header length"@,
            Error::MidiFormat => "invalid MIDI format"@,
            Error::MidiFps => "invalid FPS"@,
            Error::TrackHeadCut => "truncated track header"@,
            Error::ExpectedTrack => "expected MTrk chunk"@,
            Error::TrackCut => "truncated track data"@,
            Error::RiffWithoutMidi => "RIFF file does not contain MIDI data"@,
            Error::DeltaCut => "truncated delta time"@,
            Error::EventMissing => "unexpected end of track"@,
            Error::NoRunningStatus => "running status without previous status"@,
            Error::StatusByte => "invalid status byte"@,
            Error::ChannelMessageCut => "truncated channel message"@,
            Error::ChannelMessageType => "unknown channel message type"@,
            Error::MetaCut => "truncated meta event"@,
            Error::MetaLength => "invalid meta event length"@,
            Error::MetaDataCut => "truncated meta event data"@,
            Error::SysExLength => "invalid sysex length"@,
            Error::SysExDataCut => "truncated sysex data"@,
            Error::EscapeLength => "invalid escape length"@,
            Error::EscapeDataCut => "truncated escape data"@,
            Error::UnexpectedEof => "failed to fill whole buffer"@,
            Error::InputHeader => "Not a valid MIDI file (missing MThd)"@,
            Error::InputHeaderLength => "Invalid MThd length"@,
            Error::InputRunningStatus => "Data byte without Running Status"@,
        }
    }

    /// The text that goes with the error.
    pub fn message(self) -> (r: &'static str)
        ensures
            r@ == self.text(),
    {
        match self {
            Error::NotMidi => "not a midi file",
            Error::HeaderCut => "invalid midi header",
            Error::HeaderChunk => "invalid midi header chunk",
            Error::SmfFormat => "invalid smf format",
            Error::SmpteFps => "invalid smpte fps",
            Error::RiffHeader => "invalid riff header",
            Error::RiffType => "riff file is not a midi file",
            Error::RiffNoData => "no data chunk in riff file",
            Error::FileTooShort => "file too short",
            Error::RiffScan => "failed to scan RIFF header",
            Error::RiffNoHeader => "no MThd in RIFF",
            Error::NotMidiFile => "not a MIDI file",
            Error::FileHeaderCut => "truncated MIDI header",
            Error::FileHeader => "invalid MIDI header",
            Error::FileHeaderShort => "MIDI header too short",
            Error::Seek => "seek failed",
            Error::SeekHeader => "seek to MThd failed",
            Error::HeaderPadding => "failed to skip header padding",
            Error::DataTooShort => "file too short for MIDI header",
            Error::MissingHeader => "not a MIDI file (missing MThd)",
            Error::HeaderLength => "invalid MIDI header length",
            Error::MidiFormat => "invalid MIDI format",
            Error::MidiFps => "invalid FPS",
            Error::TrackHeadCut => "truncated track header",
            Error::ExpectedTrack => "expected MTrk chunk",
            Error::TrackCut => "truncated track data",
            Error::RiffWithoutMidi => "RIFF file does not contain MIDI data",
            Error::DeltaCut => "truncated delta time",
            Error::EventMissing => "unexpected end of track",
            Error::NoRunningStatus => "running status without previous status",
            Error::StatusByte => "invalid status byte",
            Error::ChannelMessageCut => "truncated channel message",
            Error::ChannelMessageType => "unknown channel message type",
            Error::MetaCut => "truncated meta event",
            Error::MetaLength => "invalid meta event length",
            Error::MetaDataCut => "truncated meta event data",
            Error::SysExLength => "invalid sysex length",
            Error::SysExDataCut => "truncated sysex data",
            Error::EscapeLength => "invalid escape length",
            Error::EscapeDataCut => "truncated escape data",
            Error::UnexpectedEof => "failed to fill whole buffer",
            Error::InputHeader => "Not a valid MIDI file (missing MThd)",
            Error::InputHeaderLength => "Invalid MThd length",
            Error::InputRunningStatus => "Data byte without Running Status",
        }
    }
}

} // verus!
