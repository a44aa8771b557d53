use pq2hlg::pq::{nits_bounds, to_nits, CODE_MAX, PEAK_NITS};

// The curve in floating point, as ITU-R BT.2100 writes it.
fn curve(e: f64) -> f64 {
    (
        (e.powf(0.012683313515655966) - 0.8359375).max(0.0)
        /
        (18.8515625 - 18.6875 * e.powf(0.012683313515655966))
    )
    .powf(6.277394636015326)
}

fn nits_by_float(code: u16) -> u16 {
    (curve(code as f64 / 65_535.0) * 10_000.0).ceil() as u16
}

fn agrees_with_float(from: u16, to: u16) {
    for code in from..=to {
        assert_eq!(to_nits(code), nits_by_float(code), "code value {}", code);
    }
}

#[test]
fn to_nits_agrees_with_float_first_quarter() {
    agrees_with_float(0x0000, 0x3FFF);
}

#[test]
fn to_nits_agrees_with_float_second_quarter() {
    agrees_with_float(0x4000, 0x7FFF);
}

#[test]
fn to_nits_agrees_with_float_third_quarter() {
    agrees_with_float(0x8000, 0xBFFF);
}

#[test]
fn to_nits_agrees_with_float_fourth_quarter() {
    agrees_with_float(0xC000, 0xFFFF);
}

#[test]
fn to_nits_black_is_zero() {
    assert_eq!(to_nits(0), 0);
}

#[test]
fn to_nits_peak_is_ten_thousand() {
    assert_eq!(CODE_MAX, 0xFFFF);
    assert_eq!(PEAK_NITS, 10_000);
    assert_eq!(to_nits(CODE_MAX), PEAK_NITS);
}

#[test]
fn to_nits_rounds_up() {
    // The least light above black is still a whole nit.
    assert_eq!(to_nits(1), 1);
    assert_eq!(to_nits(1000), 1);
    // 5.154 nits, 92.25 nits, 309.01 nits and 1744.23 nits.
    assert_eq!(to_nits(0x4000), 6);
    assert_eq!(to_nits(0x8000), 93);
    assert_eq!(to_nits(0xA000), 310);
    assert_eq!(to_nits(0xD000), 1745);
    // 9998.54 nits.
    assert_eq!(to_nits(0xFFFE), 9999);
}

#[test]
fn to_nits_just_above_a_whole_number() {
    // 47.9923 nits and 48.0000058 nits.
    assert_eq!(to_nits(28_599), 48);
    assert_eq!(to_nits(28_600), 49);
}

#[test]
fn to_nits_reference_levels() {
    // 18% grey card, 83% and 90% white cards, reference white.
    assert_eq!(to_nits(24_904), 26);
    assert_eq!(to_nits(36_536), 163);
    assert_eq!(to_nits(37_191), 179);
    assert_eq!(to_nits(0x94A7), 203);
    // 1,000 nits and 4,000 nits, each a little above.
    assert_eq!(to_nits(49_271), 1001);
    assert_eq!(to_nits(59_151), 4001);
}

#[test]
fn to_nits_never_decreases() {
    let mut last = 0;
    for code in 0..=CODE_MAX {
        let nits = to_nits(code);
        assert!(last <= nits, "code value {}", code);
        assert!(nits <= PEAK_NITS, "code value {}", code);
        last = nits;
    }
}

fn bounds_meet(from: u16, to: u16) {
    for code in from..=to {
        let nits = to_nits(code);
        assert_eq!(nits_bounds(code), (nits, nits), "code value {}", code);
    }
}

#[test]
fn nits_bounds_meet_first_quarter() {
    bounds_meet(0x0000, 0x3FFF);
}

#[test]
fn nits_bounds_meet_second_quarter() {
    bounds_meet(0x4000, 0x7FFF);
}

#[test]
fn nits_bounds_meet_third_quarter() {
    bounds_meet(0x8000, 0xBFFF);
}

#[test]
fn nits_bounds_meet_fourth_quarter() {
    bounds_meet(0xC000, 0xFFFF);
}

#[test]
fn nits_bounds_at_the_ends() {
    assert_eq!(nits_bounds(0), (0, 0));
    assert_eq!(nits_bounds(1), (1, 1));
    assert_eq!(nits_bounds(0x94A7), (203, 203));
    assert_eq!(nits_bounds(CODE_MAX), (PEAK_NITS, PEAK_NITS));
}
