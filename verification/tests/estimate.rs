use lattice_walk::estimate::{
    erw_return_time, monte_carlo_erw_et, monte_carlo_et, replay_monte_carlo_erw_et,
    replay_monte_carlo_et, return_time, EstimateError,
};
use lattice_walk::lattice::Direction;
use lattice_walk::sampler::ONE;

const UNIT: u64 = 0x1_0000_0000;

#[test]
fn a_walk_that_never_returns_records_its_budget() {
    let moves = vec![Direction::PlusX; 5];
    assert_eq!(return_time(&moves), 5);
    assert_eq!(replay_monte_carlo_et(&vec![moves]), Ok(5));
}

#[test]
fn a_trial_without_steps_records_zero() {
    assert_eq!(return_time(&Vec::new()), 0);
    assert_eq!(erw_return_time(&Vec::new(), UNIT, 0, 0), 0);
}

#[test]
fn a_single_step_cannot_return() {
    assert_eq!(return_time(&vec![Direction::MinusY]), 1);
}

#[test]
fn return_time_is_the_first_return() {
    let there_and_back = vec![Direction::PlusX, Direction::MinusX];
    assert_eq!(return_time(&there_and_back), 2);
    let square = vec![Direction::PlusX, Direction::PlusY, Direction::MinusX, Direction::MinusY];
    assert_eq!(return_time(&square), 4);
    let twice = vec![
        Direction::PlusY,
        Direction::MinusY,
        Direction::PlusX,
        Direction::MinusX,
        Direction::PlusX,
    ];
    assert_eq!(return_time(&twice), 2);
}

#[test]
fn steps_after_the_return_do_not_matter() {
    let mut moves = vec![Direction::PlusX, Direction::PlusX, Direction::MinusX, Direction::MinusX];
    assert_eq!(return_time(&moves), 4);
    moves.extend(vec![Direction::PlusY; 20]);
    assert_eq!(return_time(&moves), 4);
}

#[test]
fn a_return_on_the_last_step_records_the_budget() {
    let moves = vec![
        Direction::PlusX,
        Direction::PlusY,
        Direction::PlusY,
        Direction::MinusX,
        Direction::MinusY,
        Direction::MinusY,
    ];
    assert_eq!(return_time(&moves), 6);
}

#[test]
fn a_walk_that_passes_beside_the_origin_has_not_returned() {
    let moves = vec![
        Direction::PlusX,
        Direction::PlusY,
        Direction::MinusX,
        Direction::MinusX,
        Direction::MinusY,
        Direction::MinusY,
        Direction::PlusX,
    ];
    assert_eq!(return_time(&moves), 7);
}

#[test]
fn reinforced_trial_returns_when_the_draw_selects_the_way_back() {
    let draws: Vec<u128> = vec![0, 3 * ONE, 0, 0];
    assert_eq!(erw_return_time(&draws, UNIT, 0, 0), 2);
}

#[test]
fn reinforced_trial_under_delay_goes_on() {
    let draws: Vec<u128> = vec![0, 3 * ONE, 0, 0];
    assert_eq!(erw_return_time(&draws, UNIT, 2, 0), 4);
}

#[test]
fn reinforced_trial_that_never_returns_records_its_budget() {
    let draws: Vec<u128> = vec![0; 5];
    assert_eq!(erw_return_time(&draws, 9 * UNIT, 0, 3), 5);
    assert_eq!(replay_monte_carlo_erw_et(&vec![draws], 9 * UNIT, 0, 3), Ok(5));
}

#[test]
fn replayed_estimator_adds_up_the_recorded_times() {
    let runs = vec![
        vec![Direction::PlusX, Direction::MinusX, Direction::PlusX, Direction::PlusX],
        vec![Direction::PlusX; 4],
        vec![Direction::PlusY, Direction::PlusX, Direction::MinusY, Direction::MinusX],
    ];
    assert_eq!(replay_monte_carlo_et(&runs), Ok(2 + 4 + 4));
}

#[test]
fn replayed_reinforced_estimator_adds_up_the_recorded_times() {
    let runs: Vec<Vec<u128>> = vec![vec![0, 3 * ONE, 0], vec![0, 0, 0], vec![0, ONE + 1, 0]];
    assert_eq!(replay_monte_carlo_erw_et(&runs, UNIT, 0, 0), Ok(2 + 3 + 2));
    assert_eq!(replay_monte_carlo_erw_et(&runs, UNIT, 5, 0), Ok(3 + 3 + 2));
}

#[test]
fn replayed_estimators_are_reproducible() {
    let runs = vec![
        vec![Direction::PlusX, Direction::PlusY, Direction::MinusX, Direction::MinusY],
        vec![Direction::MinusY, Direction::PlusY],
        vec![Direction::MinusX; 9],
    ];
    let first = replay_monte_carlo_et(&runs);
    assert_eq!(first, Ok(15));
    for _ in 0..10 {
        assert_eq!(replay_monte_carlo_et(&runs), first);
    }
    let draws: Vec<Vec<u128>> = vec![
        vec![ONE / 3, 5 * ONE / 2, 7 * ONE / 2, ONE, 4 * ONE],
        vec![2 * ONE + 1, 3 * ONE + 7, 0, 0],
    ];
    let reinforced = replay_monte_carlo_erw_et(&draws, 3 * UNIT / 2, 1, 2);
    assert!(reinforced.is_ok());
    for _ in 0..10 {
        assert_eq!(replay_monte_carlo_erw_et(&draws, 3 * UNIT / 2, 1, 2), reinforced);
    }
}

#[test]
fn estimators_refuse_zero_trials() {
    assert_eq!(monte_carlo_et(0, 10), Err(EstimateError::InvalidArgument));
    assert_eq!(monte_carlo_erw_et(0, 10, UNIT, 0, 0), Err(EstimateError::InvalidArgument));
    assert_eq!(replay_monte_carlo_et(&Vec::new()), Err(EstimateError::InvalidArgument));
    assert_eq!(
        replay_monte_carlo_erw_et(&Vec::new(), UNIT, 0, 0),
        Err(EstimateError::InvalidArgument)
    );
}

#[test]
fn trials_without_steps_total_zero() {
    assert_eq!(monte_carlo_et(8, 0), Ok(0));
    assert_eq!(monte_carlo_erw_et(8, 0, UNIT, 0, 0), Ok(0));
}

#[test]
fn trials_of_one_step_record_one_each() {
    assert_eq!(monte_carlo_et(25, 1), Ok(25));
    assert_eq!(monte_carlo_erw_et(25, 1, 4 * UNIT, 0, 2), Ok(25));
}

#[test]
fn plain_total_lies_between_two_per_trial_and_the_budget() {
    let total: u64 = monte_carlo_et(200, 50).unwrap();
    assert!(total >= 2 * 200);
    assert!(total <= 200 * 50);
    assert_eq!(total % 2, 0);
    assert!(total < 200 * 50);
}

#[test]
fn reinforced_total_lies_between_two_per_trial_and_the_budget() {
    let total: u64 = monte_carlo_erw_et(200, 50, 2 * UNIT, 0, 0).unwrap();
    assert!(total >= 2 * 200);
    assert!(total <= 200 * 50);
    assert_eq!(total % 2, 0);
    let windowed: u64 = monte_carlo_erw_et(200, 51, 2 * UNIT, 3, 4).unwrap();
    assert!(windowed >= 2 * 200);
    assert!(windowed <= 200 * 51);
}

#[test]
fn strong_reinforcement_brings_the_walk_home_sooner() {
    let plain: u64 = monte_carlo_erw_et(400, 100, 0, 0, 0).unwrap();
    let strong: u64 = monte_carlo_erw_et(400, 100, 1000 * UNIT, 0, 0).unwrap();
    assert!(strong < plain);
}
