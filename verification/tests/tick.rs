use midly::tick::{to_single, TickPoint};

fn at(x: f32) -> TickPoint {
    if x.is_nan() {
        TickPoint::Undefined
    } else {
        TickPoint::At { whole: x.floor() as i64, past: x != x.floor() }
    }
}

#[test]
fn rounding_is_that_of_single_precision() {
    let mut ticks = vec![0u32, 1, 2, 1000, 0xFF_FFFF, 0x100_0000, 0x100_0001, 0x100_0002];
    ticks.extend_from_slice(&[0x100_0003, 0x1FF_FFFF, 0x200_0001, 0x200_0002, 0x200_0003]);
    ticks.extend_from_slice(&[0x200_0006, 0x7FFF_FFFF, 0x8000_0000, 0x8000_0080, 0x8000_0081]);
    ticks.extend_from_slice(&[0x8000_0180, 0xFFFF_FF7F, 0xFFFF_FF80, 0xFFFF_FFFF]);
    let mut seed = 12345u32;
    for _ in 0..20_000 {
        seed = seed.wrapping_mul(1_664_525).wrapping_add(1_013_904_223);
        ticks.push(seed);
        ticks.push(seed >> 6);
    }
    for tick in ticks {
        assert_eq!(to_single(tick), tick as f32 as i64, "tick {}", tick);
    }
}

#[test]
fn places_compare_like_floats() {
    let places = [
        -1.5f32, -1.0, -0.25, 0.0, 0.25, 1.0, 1.5, 2.0, 100.75, 5e9, 1e30, -1e30,
        f32::INFINITY, f32::NEG_INFINITY, f32::NAN,
    ];
    for x in places {
        let p = at(x);
        for tick in [0u32, 1, 2, 100, 101, u32::MAX] {
            let t = to_single(tick);
            let f = tick as f32;
            assert_eq!(p.is_at_or_after(t), f <= x, "{} {}", x, tick);
            assert_eq!(p.is_before(t), f > x, "{} {}", x, tick);
            assert_eq!(p.is_at_or_before(t), f >= x, "{} {}", x, tick);
            assert_eq!(p.is_after(t), f < x, "{} {}", x, tick);
        }
        assert_eq!(p.clamp(), x.max(0.0) as u32, "{}", x);
    }
}
