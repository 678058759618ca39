use raytracer::{advance, begin, pixel_order, samples_in_parallel, Outcome, PathStep, Shade};

#[test]
fn no_bounces_left_is_black() {
    assert_eq!(begin(0), PathStep::Finish(Shade::Black));
    assert_eq!(begin(50), PathStep::Trace(50));
}

#[test]
fn outcomes_decide_the_next_step() {
    assert_eq!(advance(3, Outcome::Missed), PathStep::Finish(Shade::Sky));
    assert_eq!(advance(3, Outcome::Absorbed), PathStep::Finish(Shade::Black));
    assert_eq!(advance(3, Outcome::Scattered), PathStep::Trace(2));
    assert_eq!(advance(1, Outcome::Scattered), PathStep::Finish(Shade::Black));
}

#[test]
fn a_path_of_scatters_stops_at_its_budget() {
    let mut step = begin(4);
    let mut traces = 0;
    while let PathStep::Trace(depth) = step {
        traces += 1;
        step = advance(depth, Outcome::Scattered);
    }
    assert_eq!(traces, 4);
    assert_eq!(step, PathStep::Finish(Shade::Black));
}

#[test]
fn pixels_run_top_row_first_left_to_right() {
    assert_eq!(
        pixel_order(3, 2),
        vec![(0, 1), (1, 1), (2, 1), (0, 0), (1, 0), (2, 0)]
    );
    assert!(pixel_order(0, 5).is_empty());
    assert_eq!(pixel_order(1, 3), vec![(0, 2), (0, 1), (0, 0)]);
}

#[test]
fn many_samples_run_in_parallel() {
    assert!(!samples_in_parallel(1));
    assert!(!samples_in_parallel(349));
    assert!(samples_in_parallel(350));
    assert!(samples_in_parallel(1000));
}
