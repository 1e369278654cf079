use rust_rocket::Interpolation;

fn interp(kind: Interpolation, t: f32) -> f32 {
    f32::from_bits(kind.interpolate(t.to_bits()))
}

#[test]
fn interpolate_at_half() {
    assert_eq!(interp(Interpolation::Linear, 0.5), 0.5);
    assert_eq!(interp(Interpolation::Step, 0.5), 0.0);
    assert_eq!(interp(Interpolation::Smooth, 0.5), 0.5);
    assert_eq!(interp(Interpolation::Ramp, 0.5), 0.25);
}

#[test]
fn interpolate_at_bounds() {
    for kind in [
        Interpolation::Step,
        Interpolation::Linear,
        Interpolation::Smooth,
        Interpolation::Ramp,
    ] {
        assert_eq!(interp(kind, 0.0), 0.0);
        let at_one = interp(kind, 1.0);
        if matches!(kind, Interpolation::Step) {
            assert_eq!(at_one, 0.0);
        } else {
            assert_eq!(at_one, 1.0);
        }
    }
}

#[test]
fn smooth_quarter() {
    // t * t * (3 - 2 * t) at t = 0.25: 0.0625 * 2.5 = 0.15625, exact in
    // single precision.
    assert_eq!(interp(Interpolation::Smooth, 0.25), 0.15625);
}

#[test]
fn unknown_code_decodes_to_step() {
    assert_eq!(Interpolation::from(0u8), Interpolation::Step);
    assert_eq!(Interpolation::from(1u8), Interpolation::Linear);
    assert_eq!(Interpolation::from(2u8), Interpolation::Smooth);
    assert_eq!(Interpolation::from(3u8), Interpolation::Ramp);
    assert_eq!(Interpolation::from(4u8), Interpolation::Step);
    assert_eq!(Interpolation::from(255u8), Interpolation::Step);
}
