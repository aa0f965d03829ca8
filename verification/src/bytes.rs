//! Big-endian numbers and chunk names in byte strings.

use vstd::prelude::*;

verus! {

/// The name of the header chunk, `MThd`.
pub const MTHD: u32 = 0x4D54_6864;

/// The name of a track chunk, `MTrk`.
pub const MTRK: u32 = 0x4D54_726B;

/// The name of a chunk of universal MIDI packets, `UMP` and a space.
pub const UMP_CHUNK: u32 = 0x554D_5020;

/// The name of the chunk that wraps a RIFF file, `RIFF`.
pub const RIFF: u32 = 0x5249_4646;

/// The type of a RIFF file that wraps a MIDI file, `RMID`.
pub const RMID: u32 = 0x524D_4944;

/// The name of the chunk that holds the MIDI file, `data`.
pub const RIFF_DATA: u32 = 0x6461_7461;

/// The number that the two bytes at `i` spell, the high byte first.
#[verifier::opaque]
pub open spec fn be16(s: Seq<u8>, i: int) -> u16 {
    (s[i] * 0x100 + s[i + 1]) as u16
}

/// The number that the three bytes at `i` spell, the high byte first.
#[verifier::opaque]
pub open spec fn be24(s: Seq<u8>, i: int) -> u32 {
    (s[i] * 0x1_0000 + s[i + 1] * 0x100 + s[i + 2]) as u32
}

/// The number that the four bytes at `i` spell, the high byte first.
#[verifier::opaque]
pub open spec fn be32(s: Seq<u8>, i: int) -> u32 {
    (s[i] * 0x100_0000 + s[i + 1] * 0x1_0000 + s[i + 2] * 0x100 + s[i + 3]) as u32
}

/// The number that the four bytes at `i` spell, the low byte first.
#[verifier::opaque]
pub open spec fn le32(s: Seq<u8>, i: int) -> u32 {
    (s[i + 3] * 0x100_0000 + s[i + 2] * 0x1_0000 + s[i + 1] * 0x100 + s[i]) as u32
}

/// The four bytes of `v`, the high byte first.
#[verifier::opaque]
pub open spec fn be32_bytes(v: u32) -> Seq<u8> {
    seq![
        (v / 0x100_0000) as u8,
        (v / 0x1_0000 % 0x100) as u8,
        (v / 0x100 % 0x100) as u8,
        (v % 0x100) as u8,
    ]
}

/// Whether the four bytes at `i` lie inside `s` and spell `name`.
pub open spec fn named(s: Seq<u8>, i: int, name: u32) -> bool {
    i + 4 <= s.len() && be32(s, i) == name
}

/// The first place from `from` on at which `name` stands inside the first `end` bytes.
pub open spec fn place_of(s: Seq<u8>, name: u32, from: int, end: int) -> Option<int>
    decreases end - from,
{
    if from + 4 > end {
        None
    } else if named(s, from, name) {
        Some(from)
    } else {
        place_of(s, name, from + 1, end)
    }
}

/// The lesser of two numbers.
pub open spec fn lesser(a: int, b: int) -> int {
    if a <= b {
        a
    } else {
        b
    }
}

/// The byte at `i`, or 0 past the end.
pub open spec fn byte_or_zero(s: Seq<u8>, i: int) -> u8 {
    if i < s.len() {
        s[i]
    } else {
        0
    }
}

/// Reads a 16-bit number, the high byte first.
pub fn read_be16(data: &[u8], i: usize) -> (r: u16)
    requires
        i + 2 <= data@.len(),
    ensures
        r == be16(data@, i as int),
{
    proof {
        reveal(be16);
    }
    data[i] as u16 * 0x100 + data[i + 1] as u16
}

/// Reads a 24-bit number, the high byte first.
pub fn read_be24(data: &[u8], i: usize) -> (r: u32)
    requires
        i + 3 <= data@.len(),
    ensures
        r == be24(data@, i as int),
        r < 0x100_0000,
{
    proof {
        reveal(be24);
    }
    data[i] as u32 * 0x1_0000 + data[i + 1] as u32 * 0x100 + data[i + 2] as u32
}

/// Reads a 32-bit number, the high byte first.
pub fn read_be32(data: &[u8], i: usize) -> (r: u32)
    requires
        i + 4 <= data@.len(),
    ensures
        r == be32(data@, i as int),
{
    proof {
        reveal(be32);
    }
    data[i] as u32 * 0x100_0000 + data[i + 1] as u32 * 0x1_0000 + data[i + 2] as u32 * 0x100 + data[i
        + 3] as u32
}

/// Reads a 32-bit number, the low byte first.
pub fn read_le32(data: &[u8], i: usize) -> (r: u32)
    requires
        i + 4 <= data@.len(),
    ensures
        r == le32(data@, i as int),
{
    proof {
        reveal(le32);
    }
    data[i] as u32 + data[i + 1] as u32 * 0x100 + data[i + 2] as u32 * 0x1_0000 + data[i
        + 3] as u32 * 0x100_0000
}

/// The byte at `i`, or 0 past the end.
pub fn read_or_zero(data: &[u8], i: usize) -> (r: u8)
    ensures
        r == byte_or_zero(data@, i as int),
{
    if i < data.len() {
        data[i]
    } else {
        0
    }
}

/// Whether the four bytes at `i` lie inside `data` and spell `name`.
pub fn is_named(data: &[u8], i: usize, name: u32) -> (r: bool)
    ensures
        r == named(data@, i as int, name),
{
    if i <= data.len() && data.len() - i >= 4 {
        read_be32(data, i) == name
    } else {
        false
    }
}

/// The first place at which `name` stands inside the first `end` bytes.
pub fn find_name(data: &[u8], name: u32, end: usize) -> (r: Option<usize>)
    requires
        end <= data@.len(),
    ensures
        match r {
            Some(i) => place_of(data@, name, 0, end as int) == Some(i as int) && i + 4 <= end
                && named(data@, i as int, name),
            None => place_of(data@, name, 0, end as int) is None,
        },
{
    let mut i: usize = 0;
    while i < end && end - i >= 4
        invariant
            i <= end <= data@.len(),
            place_of(data@, name, 0, end as int) == place_of(data@, name, i as int, end as int),
        decreases end - i,
    {
        if is_named(data, i, name) {
            return Some(i);
        }
        i += 1;
    }
    None
}

/// The place `len` bytes behind `at`, or `end` where that comes first.
pub fn clip(at: usize, len: u32, end: usize) -> (r: usize)
    requires
        at <= end,
    ensures
        r == lesser(at + len, end as int),
{
    if len as u64 <= (end - at) as u64 {
        at + len as usize
    } else {
        end
    }
}

/// Appends the four bytes of `v`, the high byte first.
pub fn push_be32(out: &mut Vec<u8>, v: u32)
    ensures
        final(out)@ == old(out)@ + be32_bytes(v),
{
    out.push((v / 0x100_0000) as u8);
    out.push((v / 0x1_0000 % 0x100) as u8);
    out.push((v / 0x100 % 0x100) as u8);
    out.push((v % 0x100) as u8);
    proof {
        reveal(be32_bytes);
    }
    assert(out@ =~= old(out)@ + be32_bytes(v));
}

/// Appends the bytes of `data` from `from` up to `to`.
pub fn push_range(out: &mut Vec<u8>, data: &[u8], from: usize, to: usize)
    requires
        from <= to <= data@.len(),
    ensures
        final(out)@ == old(out)@ + data@.subrange(from as int, to as int),
{
    let mut i: usize = from;
    while i < to
        invariant
            from <= i <= to <= data@.len(),
            out@ == old(out)@ + data@.subrange(from as int, i as int),
        decreases to - i,
    {
        out.push(data[i]);
        i += 1;
        assert(out@ =~= old(out)@ + data@.subrange(from as int, i as int));
    }
}

/// A copy of `data`.
pub fn copied(data: &[u8]) -> (r: Vec<u8>)
    ensures
        r@ == data@,
{
    let mut r: Vec<u8> = Vec::new();
    push_range(&mut r, data, 0, data.len());
    assert(r@ =~= data@);
    r
}

/// The numbers in a part of a byte string are those of the string.
pub proof fn lemma_part_numbers(s: Seq<u8>, from: int, to: int, i: int)
    requires
        0 <= from <= to <= s.len(),
        0 <= i,
    ensures
        i + 2 <= to - from ==> be16(s.subrange(from, to), i) == be16(s, from + i),
        i + 4 <= to - from ==> be32(s.subrange(from, to), i) == be32(s, from + i),
        i + 4 <= to - from ==> forall|name: u32| #[trigger]
            named(s.subrange(from, to), i, name) == named(s, from + i, name),
{
    reveal(be16);
    reveal(be32);
}

/// A name stands in the first bytes of a string where it stands in the string.
pub proof fn lemma_part_place(s: Seq<u8>, name: u32, from: int, end: int)
    requires
        0 <= from,
        0 <= end <= s.len(),
    ensures
        place_of(s.subrange(0, end), name, from, end) == place_of(s, name, from, end),
    decreases end - from,
{
    if from + 4 <= end {
        lemma_part_numbers(s, 0, end, from);
        lemma_part_place(s, name, from + 1, end);
    }
}

/// Writing a number takes four bytes, and reading them gives the number.
pub proof fn lemma_be32_round_trip(v: u32)
    ensures
        be32_bytes(v).len() == 4,
        be32(be32_bytes(v), 0) == v,
{
    reveal(be32_bytes);
    reveal(be32);
}

} // verus!
