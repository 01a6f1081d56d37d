use barnsley_fern::step::{step, Point};
use barnsley_fern::transform::Transform;

fn apply(map: Transform, x: f64, y: f64) -> (f64, f64) {
    let to = map.apply(Point { x: x.to_bits(), y: y.to_bits() });
    (f64::from_bits(to.x), f64::from_bits(to.y))
}

fn grid() -> Vec<(f64, f64)> {
    let mut all = Vec::new();
    let mut state: u64 = 5;
    for _ in 0..2000 {
        state = state.wrapping_mul(6364136223846793005).wrapping_add(1442695040888963407);
        let x = (state >> 11) as f64 / 9007199254740992.0 * 6.0 - 3.0;
        state = state.wrapping_mul(6364136223846793005).wrapping_add(1442695040888963407);
        let y = (state >> 11) as f64 / 9007199254740992.0 * 10.0;
        all.push((x, y));
    }
    all.push((0.0, 0.0));
    all.push((-2.182, 9.9983));
    all.push((2.6558, 0.0));
    all
}

#[test]
fn stem_ignores_x() {
    for x in [0.0, 1.0, -2.182, 2.6558, 1.0e300, f64::INFINITY, f64::NAN].iter() {
        let (to_x, to_y) = apply(Transform::Stem, *x, 3.5);
        assert_eq!(to_x.to_bits(), 0.0f64.to_bits());
        assert_eq!(to_y.to_bits(), (0.16f64 * 3.5).to_bits());
    }
    assert_eq!(apply(Transform::Stem, 7.0, 1.0), (0.0, 0.16));
    assert_eq!(apply(Transform::Stem, 7.0, 0.0), (0.0, 0.0));
}

#[test]
fn stem_is_the_formula() {
    for (x, y) in grid() {
        let (to_x, to_y) = apply(Transform::Stem, x, y);
        assert_eq!(to_x.to_bits(), 0.0f64.to_bits());
        assert_eq!(to_y.to_bits(), (0.16 * y).to_bits());
    }
}

#[test]
fn large_leaflet_is_the_formula() {
    for (x, y) in grid() {
        let (to_x, to_y) = apply(Transform::LargeLeaflet, x, y);
        assert_eq!(to_x.to_bits(), (0.85 * x + 0.04 * y).to_bits());
        assert_eq!(to_y.to_bits(), (-0.04 * x + 0.85 * y + 1.6).to_bits());
    }
    assert_eq!(apply(Transform::LargeLeaflet, 0.0, 0.0), (0.0, 1.6));
}

#[test]
fn left_leaflet_is_the_formula() {
    for (x, y) in grid() {
        let (to_x, to_y) = apply(Transform::LeftLeaflet, x, y);
        assert_eq!(to_x.to_bits(), (0.2 * x - 0.26 * y).to_bits());
        assert_eq!(to_y.to_bits(), (0.23 * x + 0.22 * y + 1.6).to_bits());
    }
    assert_eq!(apply(Transform::LeftLeaflet, 1.0, 0.0), (0.2, 0.23 + 1.6));
}

#[test]
fn right_leaflet_is_the_formula() {
    for (x, y) in grid() {
        let (to_x, to_y) = apply(Transform::RightLeaflet, x, y);
        assert_eq!(to_x.to_bits(), (-0.15 * x + 0.28 * y).to_bits());
        assert_eq!(to_y.to_bits(), (0.26 * x + 0.24 * y + 0.44).to_bits());
    }
    let (to_x, to_y) = apply(Transform::RightLeaflet, 0.0, 1.6);
    assert!((to_x - 0.448).abs() < 1e-9);
    assert!((to_y - 0.824).abs() < 1e-9);
    assert_eq!(to_x.to_bits(), 0x3FDC_AC08_3126_E97A);
    assert_eq!(to_y.to_bits(), 0x3FEA_5E35_3F7C_ED92);
}

#[test]
fn steps_from_points_that_are_no_numbers() {
    let (to_x, to_y) = apply(Transform::LargeLeaflet, f64::NAN, 1.0);
    assert!(to_x.is_nan() && to_y.is_nan());
    let (to_x, to_y) = apply(Transform::LeftLeaflet, f64::INFINITY, f64::INFINITY);
    assert!(to_x.is_nan());
    assert_eq!(to_y, f64::INFINITY);
    let (to_x, to_y) = apply(Transform::RightLeaflet, f64::MAX, f64::MAX);
    assert_eq!(to_x.to_bits(), (-0.15 * f64::MAX + 0.28 * f64::MAX).to_bits());
    assert_eq!(to_y.to_bits(), (0.26 * f64::MAX + 0.24 * f64::MAX + 0.44).to_bits());
    let (to_x, to_y) = apply(Transform::LargeLeaflet, -0.0, -0.0);
    assert_eq!(to_x.to_bits(), (0.85 * -0.0f64 + 0.04 * -0.0f64).to_bits());
    assert_eq!(to_y.to_bits(), 1.6f64.to_bits());
}

#[test]
fn step_selects_and_applies() {
    let from = Point { x: 0.75f64.to_bits(), y: 2.5f64.to_bits() };
    for (draw, map) in [
        (0.0, Transform::Stem),
        (0.005, Transform::Stem),
        (0.01, Transform::LargeLeaflet),
        (0.5, Transform::LargeLeaflet),
        (0.86, Transform::LeftLeaflet),
        (0.9, Transform::LeftLeaflet),
        (0.93, Transform::RightLeaflet),
        (0.95, Transform::RightLeaflet),
    ]
    .iter()
    {
        let draw: f64 = *draw;
        assert_eq!(step(from, draw.to_bits()), map.apply(from), "{}", draw);
    }
    let to = step(from, 0.95f64.to_bits());
    assert_eq!(f64::from_bits(to.x), -0.15 * 0.75 + 0.28 * 2.5);
    assert_eq!(f64::from_bits(to.y), 0.26 * 0.75 + 0.24 * 2.5 + 0.44);
}
