//! MIDI files wrapped in RIFF.
//!
//! A RIFF file is one `RIFF` chunk. Its data starts with a type, `RMID` for a
//! wrapped MIDI file, and goes on with chunks, of which `data` holds the file.
//! A chunk has a name, a length with the low byte first, data, and a padding
//! byte where the length is odd. Data that the file cuts short is taken as far
//! as it goes.

use vstd::prelude::*;

use crate::bytes::{clip, is_named, read_le32, RIFF, RIFF_DATA, RMID};
use crate::bytes::{le32, lesser, named};
use crate::error::Error;

verus! {

/// Where the data of the chunk at `at` ends, in data that ends at `end`.
pub open spec fn chunk_end(s: Seq<u8>, at: int, end: int) -> int {
    lesser(at + 8 + le32(s, at + 4), end)
}

/// The data of the first chunk named `data` among the chunks from `at` to `end`.
pub open spec fn data_chunk(s: Seq<u8>, at: int, end: int) -> Option<Seq<u8>>
    decreases
        if end > at {
            end - at
        } else {
            0
        },
{
    if at < 0 || at + 8 > end {
        None
    } else if named(s, at, RIFF_DATA) {
        Some(s.subrange(at + 8, chunk_end(s, at, end)))
    } else {
        let len = le32(s, at + 4) as int;
        data_chunk(s, at + 8 + len + len % 2, end)
    }
}

/// The wrapped file, or why there is none.
pub open spec fn unwrapped(s: Seq<u8>) -> Result<Seq<u8>, Error> {
    if s.len() < 8 || !named(s, 0, RIFF) {
        Err(Error::RiffHeader)
    } else {
        let end = chunk_end(s, 0, s.len() as int);
        if end < 12 || !named(s, 8, RMID) {
            Err(Error::RiffType)
        } else {
            match data_chunk(s, 12, end) {
                Some(data) => Ok(data),
                None => Err(Error::RiffNoData),
            }
        }
    }
}

/// Finds the MIDI file inside a RIFF file.
pub fn unwrap<'a>(raw: &'a [u8]) -> (r: Result<&'a [u8], Error>)
    ensures
        match r {
            Ok(data) => unwrapped(raw@) == Ok::<Seq<u8>, Error>(data@),
            Err(e) => unwrapped(raw@) == Err::<Seq<u8>, Error>(e),
        },
{
    let len: usize = raw.len();
    if len < 8 || !is_named(raw, 0, RIFF) {
        return Err(Error::RiffHeader);
    }
    let end: usize = clip(8, read_le32(raw, 4), len);
    if end < 12 || !is_named(raw, 8, RMID) {
        return Err(Error::RiffType);
    }
    let mut at: usize = 12;
    while end - at >= 8
        invariant
            12 <= at <= end <= raw@.len(),
            data_chunk(raw@, 12, end as int) == data_chunk(raw@, at as int, end as int),
            unwrapped(raw@) == match data_chunk(raw@, 12, end as int) {
                Some(data) => Ok::<Seq<u8>, Error>(data),
                None => Err(Error::RiffNoData),
            },
        decreases end - at,
    {
        let chunk_len: u32 = read_le32(raw, at + 4);
        let stop: usize = clip(at + 8, chunk_len, end);
        if is_named(raw, at, RIFF_DATA) {
            return Ok(&raw[at + 8..stop]);
        }
        let ghost next = at + 8 + chunk_len + chunk_len % 2;
        assert(data_chunk(raw@, at as int, end as int) == data_chunk(raw@, next, end as int));
        assert(next + 8 > end ==> data_chunk(raw@, next, end as int) is None);
        if chunk_len % 2 == 1 {
            if stop == end {
                return Err(Error::RiffNoData);
            }
            at = stop + 1;
        } else {
            at = stop;
        }
    }
    Err(Error::RiffNoData)
}

} // verus!
