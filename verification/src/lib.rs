//! Reading MIDI files: notes, tempo changes, events and figures.
//!
//! - [`fast_midi`] reads tracks event by event, [`mmap`] parses files in place,
//! - [`loader`] extracts notes, [`index`] finds them by time, [`streaming`] loads
//!   them in step with a view window, [`scan`] only counts them,
//! - [`ump`] turns universal MIDI packets into tracks, [`overlap`] rewrites tracks
//!   so that their notes do not overlap,
//! - [`agreement`] states on which tracks the readers agree, [`laws`] what the
//!   functions do in terms of bytes, ticks and keys.

pub mod agreement;
pub mod bytes;
pub mod cue;
pub mod error;
pub mod event;
pub mod fast_midi;
pub mod index;
pub mod laws;
pub mod loader;
pub mod memory;
pub mod mmap;
pub mod note;
pub mod overlap;
pub mod primitive;
pub mod riff;
pub mod scan;
pub mod smf;
pub mod streaming;
pub mod tick;
pub mod ump;
pub mod vlq;
