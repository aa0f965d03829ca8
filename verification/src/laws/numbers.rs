//! Numbers in byte strings.

use vstd::prelude::*;

use crate::bytes::{be16, be24, be32, be32_bytes, le32};
use crate::primitive::{group_low_bits, u14, u15, u24, u28, u4, u7, Format, Fps, Timing};
use crate::vlq::{vlq_bytes, vlq_len, vlq_value};

verus! {

/// A longer number is made of shorter ones, the high part first; with the low byte
/// first it is the number of the reversed bytes.
pub proof fn lemma_numbers_join(s: Seq<u8>, i: int)
    requires
        0 <= i,
        i + 4 <= s.len(),
    ensures
        be16(s, i) == 256 * s[i] + s[i + 1],
        be24(s, i) == 256 * be16(s, i) + s[i + 2],
        be32(s, i) == 256 * be24(s, i) + s[i + 3],
        le32(s, i) == be32(seq![s[i + 3], s[i + 2], s[i + 1], s[i]], 0),
{
    reveal(be16);
    reveal(be24);
    reveal(be32);
    reveal(le32);
}

/// The number of three bytes, and that of two.
pub proof fn lemma_short_numbers(a: u8, b: u8, c: u8)
    ensures
        be16(seq![a, b], 0) == 256 * a + b,
        be24(seq![a, b, c], 0) == 65536 * a + 256 * b + c,
{
    reveal(be16);
    reveal(be24);
}

/// The bytes of a number, weighed with their places, add up to it.
pub proof fn lemma_bytes_weigh(v: u32)
    ensures
        ({
            let b = be32_bytes(v);
            &&& b.len() == 4
            &&& v == 0x100_0000 * b[0] + 0x1_0000 * b[1] + 0x100 * b[2] + b[3]
        }),
{
    reveal(be32_bytes);
}

/// A quantity is read digit by digit in base 128, the high digit first. It ends with
/// the first byte below 128.
pub proof fn lemma_digits_read(a: u8, b: u8, c: u8, d: u8, after: Seq<u8>)
    requires
        a < 128,
        b < 128,
        c < 128,
        d < 128,
    ensures
        ({
            let four = seq![(128 + a) as u8, (128 + b) as u8, (128 + c) as u8, d] + after;
            let three = seq![(128 + a) as u8, (128 + b) as u8, d] + after;
            let two = seq![(128 + a) as u8, d] + after;
            let one = seq![d] + after;
            &&& vlq_len(four, 0) == 4 && vlq_value(four, 0) == ((a * 128 + b) * 128 + c) * 128 + d
            &&& vlq_len(three, 0) == 3 && vlq_value(three, 0) == (a * 128 + b) * 128 + d
            &&& vlq_len(two, 0) == 2 && vlq_value(two, 0) == a * 128 + d
            &&& vlq_len(one, 0) == 1 && vlq_value(one, 0) == d
        }),
{
    reveal(vlq_value);
}

/// What the digits of a written quantity amount to.
pub open spec fn digits_sum(b: Seq<u8>) -> int
    decreases b.len(),
{
    if b.len() == 0 {
        0
    } else {
        128 * digits_sum(b.drop_last()) + b.last() % 128
    }
}

/// The digits of a number in base 128.
proof fn lemma_quotients(v: u32)
    ensures
        v == 128 * (v / 128) + v % 128,
        v / 128 == 128 * (v / 0x4000) + v / 128 % 128,
        v / 0x4000 == 128 * (v / 0x20_0000) + v / 0x4000 % 128,
        v / 0x20_0000 == 128 * (v / 0x1000_0000) + v / 0x20_0000 % 128,
        v / 0x1000_0000 < 16,
        v < 0x4000 ==> v / 0x4000 == 0,
        v < 0x20_0000 ==> v / 0x20_0000 == 0,
        v < 0x1000_0000 ==> v / 0x1000_0000 == 0,
{
    assert(v / 0x4000 == v / 128 / 128);
    assert(v / 0x20_0000 == v / 0x4000 / 128);
    assert(v / 0x1000_0000 == v / 0x20_0000 / 128);
}

/// A quantity is written with its digits in base 128, each byte but the last with 128
/// on top, and without leading zeros.
pub proof fn lemma_digits_written(v: u32)
    ensures
        ({
            let b = vlq_bytes(v);
            &&& 1 <= b.len() <= 5
            &&& digits_sum(b) == v
            &&& b.last() < 128
            &&& forall|i: int| 0 <= i < b.len() - 1 ==> #[trigger] b[i] >= 128
            &&& b.len() > 1 ==> b[0] > 128
        }),
{
    reveal(vlq_bytes);
    reveal_with_fuel(digits_sum, 6);
    let b = vlq_bytes(v);
    lemma_quotients(v);
    if b.len() == 2 {
        assert(b.drop_last() =~= seq![b[0]]);
    } else if b.len() == 3 {
        assert(b.drop_last() =~= seq![b[0], b[1]]);
        assert(b.drop_last().drop_last() =~= seq![b[0]]);
    } else if b.len() == 4 {
        assert(b.drop_last() =~= seq![b[0], b[1], b[2]]);
        assert(b.drop_last().drop_last() =~= seq![b[0], b[1]]);
        assert(b.drop_last().drop_last().drop_last() =~= seq![b[0]]);
    } else if b.len() == 5 {
        assert(b.drop_last() =~= seq![b[0], b[1], b[2], b[3]]);
        assert(b.drop_last().drop_last() =~= seq![b[0], b[1], b[2]]);
        assert(b.drop_last().drop_last().drop_last() =~= seq![b[0], b[1]]);
        assert(b.drop_last().drop_last().drop_last().drop_last() =~= seq![b[0]]);
    }
}

/// A restricted integer keeps every number that it has room for, and numbers that
/// differ by its size are the same to it.
pub proof fn lemma_restricted(a: u8, b: u16, c: u32)
    ensures
        a < 0x10 ==> u4::new(a).value() == a,
        a < 0x80 ==> u7::new(a).value() == a,
        a >= 0x80 ==> u7::new(a).value() == a - 0x80,
        a >= 0x10 ==> u4::new(a).value() == u4::new((a - 0x10) as u8).value(),
        b < 0x4000 ==> u14::new(b).value() == b,
        b < 0x8000 ==> u15::new(b).value() == b,
        c < 0x100_0000 ==> u24::new(c).value() == c,
        c < 0x1000_0000 ==> u28::new(c).value() == c,
        b >= 0x4000 ==> u14::new(b).value() == u14::new((b - 0x4000) as u16).value(),
        b >= 0x8000 ==> u15::new(b).value() == b - 0x8000,
        c >= 0x100_0000 ==> u24::new(c).value() == u24::new((c - 0x100_0000) as u32).value(),
        c >= 0x1000_0000 ==> u28::new(c).value() == u28::new((c - 0x1000_0000) as u32).value(),
{
    broadcast use group_low_bits;

}

/// The division word of a header: ticks per quarter note as it stands, or the negated
/// frame rate and the ticks of a frame. Other frame rates are none.
pub proof fn lemma_divisions(ticks: u16, rate: u8, frame: u8)
    requires
        0 < rate <= 128,
    ensures
        ticks < 0x8000 ==> (Timing::of_division(ticks) matches Some(Timing::Metrical(t))
            && t.value() == ticks),
        ({
            let timing = Timing::of_division(((256 - rate) * 256 + frame) as u16);
            &&& timing is Some <==> rate == 24 || rate == 25 || rate == 29 || rate == 30
            &&& timing matches Some(t) ==> (t matches Timing::Timecode(fps, per_frame)
                && fps.number() == rate && per_frame == frame)
        }),
        Fps::Fps24.number() == 24 && Fps::Fps25.number() == 25,
        Fps::Fps29.number() == 29 && Fps::Fps30.number() == 30,
{
    broadcast use group_low_bits;

    let division = ((256 - rate) * 256 + frame) as u16;
    assert(division / 0x100 == 256 - rate);
    assert(division % 0x100 == frame);
}

/// The format numbers of a header are 0, 1 and 2.
pub proof fn lemma_formats(raw: u16)
    ensures
        Format::of_number(raw) is Some <==> raw <= 2,
        Format::of_number(0) == Some(Format::SingleTrack),
        Format::of_number(1) == Some(Format::Parallel),
        Format::of_number(2) == Some(Format::Sequential),
{
}

} // verus!
