//! Variable-length quantities: numbers in base 128, the high digit first, with
//! the top bit set on every byte but the last.

use vstd::prelude::*;

verus! {

/// How many bytes a reader takes for the quantity at `at`.
///
/// A quantity ends at a byte below 0x80, after four bytes, or with the data.
pub open spec fn vlq_len(s: Seq<u8>, at: int) -> int {
    if at >= s.len() {
        0
    } else if s[at] < 0x80 || at + 1 >= s.len() {
        1
    } else if s[at + 1] < 0x80 || at + 2 >= s.len() {
        2
    } else if s[at + 2] < 0x80 || at + 3 >= s.len() {
        3
    } else {
        4
    }
}

/// The number that the low seven bits of those bytes spell.
#[verifier::opaque]
pub open spec fn vlq_value(s: Seq<u8>, at: int) -> u32 {
    let n = vlq_len(s, at);
    if n == 0 {
        0
    } else if n == 1 {
        (s[at] % 128) as u32
    } else if n == 2 {
        (s[at] % 128 * 128 + s[at + 1] % 128) as u32
    } else if n == 3 {
        (s[at] % 128 * 0x4000 + s[at + 1] % 128 * 128 + s[at + 2] % 128) as u32
    } else {
        (s[at] % 128 * 0x20_0000 + s[at + 1] % 128 * 0x4000 + s[at + 2] % 128 * 128 + s[at + 3]
            % 128) as u32
    }
}

/// Whether the quantity at `at` came to its end before the data did.
///
/// Four bytes make a quantity even where the fourth has its top bit set.
pub open spec fn vlq_complete(s: Seq<u8>, at: int) -> bool {
    let n = vlq_len(s, at);
    n == 4 || (n > 0 && s[at + n - 1] < 0x80)
}

/// The bytes that stand for `v`, without leading zero digits.
#[verifier::opaque]
pub open spec fn vlq_bytes(v: u32) -> Seq<u8> {
    let d0 = (v % 128) as u8;
    let d1 = (v / 128 % 128 + 128) as u8;
    let d2 = (v / 0x4000 % 128 + 128) as u8;
    let d3 = (v / 0x20_0000 % 128 + 128) as u8;
    let d4 = (v / 0x1000_0000 + 128) as u8;
    if v < 0x80 {
        seq![d0]
    } else if v < 0x4000 {
        seq![d1, d0]
    } else if v < 0x20_0000 {
        seq![d2, d1, d0]
    } else if v < 0x1000_0000 {
        seq![d3, d2, d1, d0]
    } else {
        seq![d4, d3, d2, d1, d0]
    }
}

/// How many bytes stand for a number.
pub proof fn lemma_vlq_bytes_len(v: u32)
    ensures
        1 <= vlq_bytes(v).len() <= 5,
        v < 0x80 ==> vlq_bytes(v).len() == 1,
        v < 0x20_0000 ==> vlq_bytes(v).len() <= 3,
{
    reveal(vlq_bytes);
}

/// Reads the quantity at `offset` and moves `offset` behind it.
pub fn read_vlq_at(data: &[u8], offset: &mut usize) -> (r: u32)
    ensures
        r == vlq_value(data@, *old(offset) as int),
        r < 0x1000_0000,
        *final(offset) == *old(offset) + vlq_len(data@, *old(offset) as int),
{
    proof {
        reveal(vlq_value);
    }
    let len: usize = data.len();
    if *offset >= len {
        return 0;
    }
    let b0: u8 = data[*offset];
    *offset += 1;
    let mut v: u32 = (b0 % 128) as u32;
    if b0 < 0x80 || *offset >= len {
        return v;
    }
    let b1: u8 = data[*offset];
    *offset += 1;
    v = v * 128 + (b1 % 128) as u32;
    if b1 < 0x80 || *offset >= len {
        return v;
    }
    let b2: u8 = data[*offset];
    *offset += 1;
    v = v * 128 + (b2 % 128) as u32;
    if b2 < 0x80 || *offset >= len {
        return v;
    }
    let b3: u8 = data[*offset];
    *offset += 1;
    v = v * 128 + (b3 % 128) as u32;
    v
}

/// Reads the quantity at the start of `data`, with the number of bytes it takes;
/// `None` where the data ends before the quantity does.
pub fn read_varlen_fast(data: &[u8]) -> (r: Option<(u32, usize)>)
    ensures
        r == if vlq_complete(data@, 0) {
            Some((vlq_value(data@, 0), vlq_len(data@, 0) as usize))
        } else {
            None
        },
        r matches Some(p) ==> p.0 < 0x1000_0000 && 0 < p.1 <= data@.len() && p.1 <= 4,
{
    let mut n: usize = 0;
    let value: u32 = read_vlq_at(data, &mut n);
    if n == 4 || (n > 0 && data[n - 1] < 0x80) {
        Some((value, n))
    } else {
        None
    }
}

/// Appends the bytes that stand for `value`.
pub fn write_vlq(buf: &mut Vec<u8>, value: u32)
    ensures
        final(buf)@ == old(buf)@ + vlq_bytes(value),
{
    proof {
        reveal(vlq_bytes);
    }
    if value >= 0x1000_0000 {
        buf.push((value / 0x1000_0000 + 128) as u8);
    }
    if value >= 0x20_0000 {
        buf.push((value / 0x20_0000 % 128 + 128) as u8);
    }
    if value >= 0x4000 {
        buf.push((value / 0x4000 % 128 + 128) as u8);
    }
    if value >= 0x80 {
        buf.push((value / 128 % 128 + 128) as u8);
    }
    buf.push((value % 128) as u8);
    assert(buf@ =~= old(buf)@ + vlq_bytes(value));
}

/// A quantity below 2^28 is read back wherever it was written, and the reader
/// stops right behind it.
pub proof fn lemma_vlq_round_trip(before: Seq<u8>, v: u32, after: Seq<u8>)
    requires
        v < 0x1000_0000,
    ensures
        ({
            let s = before + vlq_bytes(v) + after;
            let at = before.len() as int;
            &&& vlq_value(s, at) == v
            &&& vlq_len(s, at) == vlq_bytes(v).len()
            &&& vlq_complete(s, at)
        }),
{
    reveal(vlq_bytes);
    reveal(vlq_value);
    let s = before + vlq_bytes(v) + after;
    let at = before.len() as int;
    let b = vlq_bytes(v);
    lemma_digits(v);
    assert forall|i: int| 0 <= i < b.len() implies #[trigger] b[i] == s[at + i] by {}
    if v < 0x80 {
        assert(b[0] == s[at + 0]);
    } else if v < 0x4000 {
        assert(b[0] == s[at + 0] && b[1] == s[at + 1]);
    } else if v < 0x20_0000 {
        assert(b[0] == s[at + 0] && b[1] == s[at + 1] && b[2] == s[at + 2]);
    } else {
        assert(b[0] == s[at + 0] && b[1] == s[at + 1] && b[2] == s[at + 2] && b[3] == s[at + 3]);
    }
}

/// A quantity in a part of a byte string is that of the string.
pub proof fn lemma_vlq_skip(s: Seq<u8>, from: int, at: int)
    requires
        0 <= from <= s.len(),
        0 <= at,
    ensures
        vlq_len(s.skip(from), at) == vlq_len(s, from + at),
        vlq_value(s.skip(from), at) == vlq_value(s, from + at),
        vlq_complete(s.skip(from), at) == vlq_complete(s, from + at),
        vlq_value(s, from + at) < 0x1000_0000,
{
    reveal(vlq_value);
}

/// A number below 2^28 is the sum of its four digits in base 128.
proof fn lemma_digits(v: u32)
    requires
        v < 0x1000_0000,
    ensures
        v == v / 0x20_0000 * 0x20_0000 + v / 0x4000 % 128 * 0x4000 + v / 128 % 128 * 128 + v % 128,
        v / 0x20_0000 % 128 == v / 0x20_0000,
{
    let q1 = v / 128;
    let q2 = v / 0x4000;
    let q3 = v / 0x20_0000;
    assert(q2 == q1 / 128);
    assert(q3 == q2 / 128);
}

} // verus!
