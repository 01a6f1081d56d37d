use barnsley_fern::batch::{create_array, points, BatchError};
use barnsley_fern::bounds::bounds;
use std::cell::Cell;

fn next_draw(state: &Cell<u64>) -> f64 {
    let next = state.get().wrapping_mul(6364136223846793005).wrapping_add(1442695040888963407);
    state.set(next);
    (next >> 11) as f64 / 9007199254740992.0
}

fn by_the_formulas(x: f64, y: f64, draw: f64) -> (f64, f64) {
    if draw < 0.01 {
        (0.0, 0.16 * y)
    } else if draw < 0.86 {
        (0.85 * x + 0.04 * y, -0.04 * x + 0.85 * y + 1.6)
    } else if draw < 0.93 {
        (0.2 * x - 0.26 * y, 0.23 * x + 0.22 * y + 1.6)
    } else {
        (-0.15 * x + 0.28 * y, 0.26 * x + 0.24 * y + 0.44)
    }
}

fn run(
    start: (f64, f64),
    script: &[f64],
    size: usize,
    room: usize,
) -> (Result<(), BatchError>, Vec<f64>, Vec<f64>, usize) {
    let asked = Cell::new(0usize);
    let mut xs = create_array(room);
    let mut ys = create_array(room);
    let outcome = points(
        start.0.to_bits(),
        start.1.to_bits(),
        &mut xs,
        &mut ys,
        size,
        || {
            let at = asked.get();
            asked.set(at + 1);
            script.get(at).map(|draw| draw.to_bits())
        },
    );
    (
        outcome,
        xs.iter().map(|bits| f64::from_bits(*bits)).collect(),
        ys.iter().map(|bits| f64::from_bits(*bits)).collect(),
        asked.get(),
    )
}

#[test]
fn create_array_gives_zeros() {
    let buffer = create_array(5);
    assert_eq!(buffer, vec![0u64; 5]);
    assert_eq!(f64::from_bits(buffer[4]), 0.0);
    assert_eq!(create_array(1000).len(), 1000);
}

#[test]
fn create_array_of_size_zero_is_empty() {
    assert!(create_array(0).is_empty());
}

#[test]
fn three_chained_points() {
    let (outcome, xs, ys, asked) = run((0.0, 0.0), &[0.005, 0.5, 0.95], 3, 3);
    assert_eq!(outcome, Ok(()));
    assert_eq!(asked, 3);
    assert_eq!((xs[0], ys[0]), (0.0, 0.0));
    assert_eq!((xs[1], ys[1]), (0.0, 1.6));
    assert!((xs[2] - 0.448).abs() < 1e-9);
    assert!((ys[2] - 0.824).abs() < 1e-9);
    assert_eq!(xs[2], -0.15 * 0.0 + 0.28 * 1.6);
    assert_eq!(ys[2], 0.26 * 0.0 + 0.24 * 1.6 + 0.44);
    assert_eq!(xs[2].to_bits(), 0x3FDC_AC08_3126_E97A);
    assert_eq!(ys[2].to_bits(), 0x3FEA_5E35_3F7C_ED92);
}

#[test]
fn size_zero_writes_nothing_and_draws_nothing() {
    let asked = Cell::new(0usize);
    let mut xs = vec![11u64, 12, 13];
    let mut ys = vec![21u64, 22, 23];
    let outcome = points(
        1.0f64.to_bits(),
        2.0f64.to_bits(),
        &mut xs,
        &mut ys,
        0,
        || {
            asked.set(asked.get() + 1);
            Some(0.5f64.to_bits())
        },
    );
    assert_eq!(outcome, Ok(()));
    assert_eq!(asked.get(), 0);
    assert_eq!(xs, vec![11u64, 12, 13]);
    assert_eq!(ys, vec![21u64, 22, 23]);
    let mut none: Vec<u64> = create_array(0);
    let mut nothing: Vec<u64> = create_array(0);
    let empty = points(0, 0, &mut none, &mut nothing, 0, || None);
    assert_eq!(empty, Ok(()));
}

#[test]
fn same_draws_give_the_same_points() {
    let state = Cell::new(31u64);
    let script: Vec<f64> = (0..500).map(|_| next_draw(&state)).collect();
    let first = run((0.25, 0.75), &script, 500, 500);
    let second = run((0.25, 0.75), &script, 500, 500);
    assert_eq!(first.0, Ok(()));
    assert_eq!(second.0, Ok(()));
    let bits = |all: &Vec<f64>| all.iter().map(|v| v.to_bits()).collect::<Vec<u64>>();
    assert_eq!(bits(&first.1), bits(&second.1));
    assert_eq!(bits(&first.2), bits(&second.2));
}

#[test]
fn batch_follows_the_formulas_point_by_point() {
    let state = Cell::new(77u64);
    let script: Vec<f64> = (0..20_000).map(|_| next_draw(&state)).collect();
    let (outcome, xs, ys, asked) = run((0.0, 0.0), &script, 20_000, 20_000);
    assert_eq!(outcome, Ok(()));
    assert_eq!(asked, 20_000);
    let (mut x, mut y) = (0.0f64, 0.0f64);
    for at in 0..20_000 {
        let (to_x, to_y) = by_the_formulas(x, y, script[at]);
        assert_eq!(xs[at].to_bits(), to_x.to_bits(), "x at {}", at);
        assert_eq!(ys[at].to_bits(), to_y.to_bits(), "y at {}", at);
        x = to_x;
        y = to_y;
    }
}

#[test]
fn places_after_the_batch_are_left_alone() {
    let mut xs = vec![u64::MAX; 6];
    let mut ys = vec![u64::MAX - 1; 8];
    let outcome = points(0, 0, &mut xs, &mut ys, 4, || Some(0.5f64.to_bits()));
    assert_eq!(outcome, Ok(()));
    assert_eq!(&xs[4..], &[u64::MAX; 2]);
    assert_eq!(&ys[4..], &[u64::MAX - 1; 4]);
    assert_eq!(f64::from_bits(ys[0]), 1.6);
    assert_eq!(f64::from_bits(ys[1]), 0.85 * 1.6 + 1.6);
    assert_eq!(f64::from_bits(xs[1]), 0.85 * 0.0 + 0.04 * 1.6);
    assert!(xs[..4].iter().all(|bits| *bits != u64::MAX));
}

#[test]
fn short_x_buffer_is_an_invalid_argument() {
    let (outcome, xs, ys, asked) = {
        let asked = Cell::new(0usize);
        let mut xs = vec![5u64; 2];
        let mut ys = vec![6u64; 3];
        let outcome = points(
            0,
            0,
            &mut xs,
            &mut ys,
            3,
            || {
                asked.set(asked.get() + 1);
                Some(0)
            },
        );
        (outcome, xs, ys, asked.get())
    };
    assert_eq!(outcome, Err(BatchError::InvalidArgument));
    assert_eq!(asked, 0);
    assert_eq!(xs, vec![5u64; 2]);
    assert_eq!(ys, vec![6u64; 3]);
}

#[test]
fn short_y_buffer_is_an_invalid_argument() {
    let mut xs = vec![5u64; 3];
    let mut ys = vec![6u64; 0];
    let outcome = points(0, 0, &mut xs, &mut ys, 1, || Some(0));
    assert_eq!(outcome, Err(BatchError::InvalidArgument));
    assert_eq!(xs, vec![5u64; 3]);
    let exact = points(0, 0, &mut xs, &mut vec![0u64; 3], 3, || Some(0));
    assert_eq!(exact, Ok(()));
}

#[test]
fn failed_source_leaves_the_points_made_so_far() {
    let (outcome, xs, ys, asked) = run((0.0, 0.0), &[0.5, 0.5], 5, 5);
    assert_eq!(outcome, Err(BatchError::SourceFailed { written: 2 }));
    assert_eq!(asked, 3);
    assert_eq!((xs[0], ys[0]), (0.0, 1.6));
    assert_eq!((xs[1], ys[1]), (0.85 * 0.0 + 0.04 * 1.6, -0.04 * 0.0 + 0.85 * 1.6 + 1.6));
    assert_eq!(&xs[2..], &[0.0; 3]);
    assert_eq!(&ys[2..], &[0.0; 3]);
}

#[test]
fn source_that_fails_at_once_writes_nothing() {
    let mut xs = vec![9u64; 2];
    let mut ys = vec![9u64; 2];
    let outcome = points(0, 0, &mut xs, &mut ys, 2, || None);
    assert_eq!(outcome, Err(BatchError::SourceFailed { written: 0 }));
    assert_eq!(xs, vec![9u64; 2]);
    assert_eq!(ys, vec![9u64; 2]);
}

#[test]
fn two_batches_continue_one_chain() {
    let state = Cell::new(123u64);
    let script: Vec<f64> = (0..60).map(|_| next_draw(&state)).collect();
    let whole = run((0.5, 0.5), &script, 60, 60);
    let first = run((0.5, 0.5), &script[..25], 25, 25);
    let second = run((first.1[24], first.2[24]), &script[25..], 35, 35);
    assert_eq!(whole.0, Ok(()));
    assert_eq!(first.0, Ok(()));
    assert_eq!(second.0, Ok(()));
    let joined_xs: Vec<f64> = first.1.iter().chain(second.1.iter()).copied().collect();
    let joined_ys: Vec<f64> = first.2.iter().chain(second.2.iter()).copied().collect();
    assert_eq!(whole.1, joined_xs);
    assert_eq!(whole.2, joined_ys);
}

#[test]
fn long_run_stays_in_the_bounds_and_seldom_near_the_ground() {
    let state = Cell::new(2024u64);
    let size = 100_000usize;
    let mut xs = create_array(size);
    let mut ys = create_array(size);
    let outcome = points(
        0.0f64.to_bits(),
        0.0f64.to_bits(),
        &mut xs,
        &mut ys,
        size,
        || Some(next_draw(&state).to_bits()),
    );
    assert_eq!(outcome, Ok(()));
    let (left, right, bottom, top) = bounds();
    let (left, right) = (f64::from_bits(left), f64::from_bits(right));
    let (bottom, top) = (f64::from_bits(bottom), f64::from_bits(top));
    let mut low = 0usize;
    for at in 0..size {
        let (x, y) = (f64::from_bits(xs[at]), f64::from_bits(ys[at]));
        assert!(left <= x && x <= right, "x = {} at {}", x, at);
        assert!(bottom <= y && y <= top, "y = {} at {}", y, at);
        if y < 0.1 {
            low += 1;
        }
    }
    assert!(low < size / 100);
    assert_eq!(low, 4);
    assert_eq!(xs[size - 1], 0x4003_5F9C_3FD8_D4BC);
    assert_eq!(ys[size - 1], 0x4023_B668_0A6B_599F);
}
