use barnsley_fern::transform::{Transform, LARGE_LEAFLET_LIMIT, LEFT_LEAFLET_LIMIT, STEM_LIMIT};

fn select(draw: f64) -> Transform {
    Transform::select(draw.to_bits())
}

fn by_comparison(draw: f64) -> Transform {
    if draw < 0.01 {
        Transform::Stem
    } else if draw < 0.86 {
        Transform::LargeLeaflet
    } else if draw < 0.93 {
        Transform::LeftLeaflet
    } else {
        Transform::RightLeaflet
    }
}

#[test]
fn zero_selects_the_stem() {
    assert_eq!(select(0.0), Transform::Stem);
}

#[test]
fn just_below_the_first_limit_selects_the_stem() {
    assert_eq!(select(0.009999), Transform::Stem);
    assert_eq!(Transform::select(STEM_LIMIT - 1), Transform::Stem);
}

#[test]
fn the_first_limit_selects_the_large_leaflet() {
    assert_eq!(select(0.01), Transform::LargeLeaflet);
    assert_eq!(Transform::select(STEM_LIMIT), Transform::LargeLeaflet);
}

#[test]
fn just_below_the_second_limit_selects_the_large_leaflet() {
    assert_eq!(select(0.859999), Transform::LargeLeaflet);
    assert_eq!(Transform::select(LARGE_LEAFLET_LIMIT - 1), Transform::LargeLeaflet);
}

#[test]
fn the_second_limit_selects_the_left_leaflet() {
    assert_eq!(select(0.86), Transform::LeftLeaflet);
    assert_eq!(Transform::select(LARGE_LEAFLET_LIMIT), Transform::LeftLeaflet);
}

#[test]
fn just_below_the_third_limit_selects_the_left_leaflet() {
    assert_eq!(select(0.929999), Transform::LeftLeaflet);
    assert_eq!(Transform::select(LEFT_LEAFLET_LIMIT - 1), Transform::LeftLeaflet);
}

#[test]
fn the_third_limit_selects_the_right_leaflet() {
    assert_eq!(select(0.93), Transform::RightLeaflet);
    assert_eq!(Transform::select(LEFT_LEAFLET_LIMIT), Transform::RightLeaflet);
}

#[test]
fn just_below_one_selects_the_right_leaflet() {
    assert_eq!(select(0.999999), Transform::RightLeaflet);
    assert_eq!(select(f64::from_bits(1.0f64.to_bits() - 1)), Transform::RightLeaflet);
}

#[test]
fn draws_outside_the_unit_interval_follow_the_comparisons() {
    assert_eq!(select(-0.0), Transform::Stem);
    assert_eq!(select(-0.5), Transform::Stem);
    assert_eq!(select(f64::NEG_INFINITY), Transform::Stem);
    assert_eq!(select(1.0), Transform::RightLeaflet);
    assert_eq!(select(1.5), Transform::RightLeaflet);
    assert_eq!(select(f64::INFINITY), Transform::RightLeaflet);
    assert_eq!(select(f64::NAN), Transform::RightLeaflet);
    assert_eq!(select(-f64::NAN), Transform::RightLeaflet);
}

#[test]
fn selection_agrees_with_the_comparisons_of_the_numbers() {
    let mut state: u64 = 7;
    for _ in 0..50_000 {
        state = state.wrapping_mul(6364136223846793005).wrapping_add(1442695040888963407);
        let draw = (state >> 11) as f64 / 9007199254740992.0;
        assert_eq!(select(draw), by_comparison(draw), "{}", draw);
        let any = f64::from_bits(state);
        assert_eq!(select(any), by_comparison(any), "{:?}", any);
    }
}

#[test]
fn shares_of_many_draws_are_near_the_weights() {
    let mut state: u64 = 2024;
    let mut counts = [0u32; 4];
    for _ in 0..100_000 {
        state = state.wrapping_mul(6364136223846793005).wrapping_add(1442695040888963407);
        let draw = (state >> 11) as f64 / 9007199254740992.0;
        match select(draw) {
            Transform::Stem => counts[0] += 1,
            Transform::LargeLeaflet => counts[1] += 1,
            Transform::LeftLeaflet => counts[2] += 1,
            Transform::RightLeaflet => counts[3] += 1,
        }
    }
    assert_eq!(counts, [1049, 85057, 6926, 6968]);
}
