//! A parsed file.

use vstd::prelude::*;

use crate::event::TrackEvent;
use crate::primitive::{Format, Timing};

verus! {

/// What the header chunk says.
#[derive(Clone, Copy, Debug, PartialEq, Eq, Hash, Structural)]
pub struct Header {
    pub format: Format,
    pub timing: Timing,
}

/// A parsed file that owns its events.
#[derive(Debug, PartialEq, Eq)]
pub struct Smf {
    pub header: Header,
    pub tracks: Vec<Vec<TrackEvent<Vec<u8>>>>,
}

} // verus!
