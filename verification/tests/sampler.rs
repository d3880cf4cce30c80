use lattice_walk::lattice::{edge_key, LatticePoint};
use lattice_walk::ledger::Ledger;
use lattice_walk::random::RandomSource;
use lattice_walk::sampler::{
    choose_neighbor, edge_weight, neighbor_weights, sample_next, select, total_weight, ONE,
};

const HALF: u64 = 0x8000_0000;
const UNIT: u64 = 0x1_0000_0000;

fn at(x: i32, y: i32) -> LatticePoint {
    LatticePoint { x, y }
}

#[test]
fn one_is_two_to_the_thirty_second() {
    assert_eq!(ONE, 1u128 << 32);
}

#[test]
fn unreinforced_weight_is_one() {
    assert_eq!(edge_weight(0, UNIT, false), ONE);
    assert_eq!(edge_weight(1000, u64::MAX, false), ONE);
}

#[test]
fn weight_of_an_unvisited_edge_is_one() {
    assert_eq!(edge_weight(0, UNIT, true), ONE);
    assert_eq!(edge_weight(0, u64::MAX, true), ONE);
}

#[test]
fn weight_is_one_plus_strength_times_count() {
    assert_eq!(edge_weight(3, UNIT, true), 4 * ONE);
    assert_eq!(edge_weight(3, HALF, true), ONE + 3 * (ONE / 2));
    assert_eq!(edge_weight(7, 3 * UNIT + HALF, true), ONE + 7 * (3 * ONE + ONE / 2));
    assert_eq!(edge_weight(5, 1, true), ONE + 5);
}

#[test]
fn weight_with_zero_strength_is_one() {
    assert_eq!(edge_weight(12, 0, true), ONE);
}

#[test]
fn largest_weight_does_not_overflow() {
    let weight: u128 = edge_weight(u32::MAX, u64::MAX, true);
    assert_eq!(weight, ONE + (u64::MAX as u128) * (u32::MAX as u128));
    let weights = [weight, weight, weight, weight];
    assert_eq!(total_weight(&weights), 4 * weight);
}

#[test]
fn weight_grows_strictly_with_the_count() {
    for strength in [1u64, HALF, UNIT, u64::MAX] {
        let mut last: u128 = edge_weight(0, strength, true);
        for count in 1u32..40 {
            let weight: u128 = edge_weight(count, strength, true);
            assert!(weight > last);
            last = weight;
        }
    }
}

#[test]
fn select_takes_the_first_running_sum_that_reaches_the_draw() {
    let weights = [ONE, 3 * ONE, ONE, 2 * ONE];
    assert_eq!(select(&weights, 0), 0);
    assert_eq!(select(&weights, ONE - 1), 0);
    assert_eq!(select(&weights, ONE + 1), 1);
    assert_eq!(select(&weights, 4 * ONE - 1), 1);
    assert_eq!(select(&weights, 4 * ONE + 1), 2);
    assert_eq!(select(&weights, 5 * ONE + 1), 3);
    assert_eq!(select(&weights, 7 * ONE - 1), 3);
}

#[test]
fn a_draw_equal_to_a_running_sum_goes_to_the_earlier_neighbour() {
    let weights = [ONE, 3 * ONE, ONE, 2 * ONE];
    assert_eq!(select(&weights, ONE), 0);
    assert_eq!(select(&weights, 4 * ONE), 1);
    assert_eq!(select(&weights, 5 * ONE), 2);
    assert_eq!(select(&weights, 7 * ONE), 3);
}

#[test]
fn a_draw_above_the_total_selects_the_first_neighbour() {
    let weights = [ONE, 3 * ONE, ONE, 2 * ONE];
    assert_eq!(select(&weights, 7 * ONE + 1), 0);
    assert_eq!(select(&weights, u128::MAX), 0);
}

#[test]
fn total_weight_adds_the_four_weights() {
    assert_eq!(total_weight(&[ONE, 3 * ONE, ONE, 2 * ONE]), 7 * ONE);
    assert_eq!(total_weight(&[1, 2, 3, 4]), 10);
}

#[test]
fn first_step_is_unbiased_even_without_delay() {
    let ledger = Ledger::new(0);
    for strength in [0u64, 1, UNIT, u64::MAX] {
        let weights = neighbor_weights(at(0, 0), &ledger, 0, 0, strength);
        assert_eq!(weights, [ONE, ONE, ONE, ONE]);
    }
    let bounded = Ledger::new(3);
    assert_eq!(neighbor_weights(at(0, 0), &bounded, 0, 0, UNIT), [ONE, ONE, ONE, ONE]);
}

#[test]
fn weights_follow_the_counts_in_neighbour_order() {
    let here = at(1, 1);
    let mut ledger = Ledger::new(0);
    ledger.record_traversal(edge_key(here, at(0, 1)));
    ledger.record_traversal(edge_key(at(0, 1), here));
    ledger.record_traversal(edge_key(here, at(1, 0)));
    ledger.record_traversal(edge_key(here, at(2, 1)));
    ledger.record_traversal(edge_key(here, at(2, 1)));
    ledger.record_traversal(edge_key(here, at(2, 1)));
    let weights = neighbor_weights(here, &ledger, 10, 0, UNIT);
    assert_eq!(weights, [4 * ONE, 3 * ONE, ONE, 2 * ONE]);
    let halved = neighbor_weights(here, &ledger, 10, 0, HALF);
    assert_eq!(halved, [ONE + 3 * (ONE / 2), 2 * ONE, ONE, ONE + ONE / 2]);
}

#[test]
fn weights_are_one_until_the_delay_has_passed() {
    let here = at(0, 0);
    let mut ledger = Ledger::new(0);
    ledger.record_traversal(edge_key(here, at(1, 0)));
    assert_eq!(neighbor_weights(here, &ledger, 0, 3, UNIT), [ONE, ONE, ONE, ONE]);
    assert_eq!(neighbor_weights(here, &ledger, 2, 3, UNIT), [ONE, ONE, ONE, ONE]);
    assert_eq!(neighbor_weights(here, &ledger, 3, 3, UNIT), [2 * ONE, ONE, ONE, ONE]);
    assert_eq!(neighbor_weights(here, &ledger, 4, 3, UNIT), [2 * ONE, ONE, ONE, ONE]);
}

#[test]
fn choose_neighbor_returns_the_selected_neighbour() {
    let here = at(5, -5);
    let weights = [ONE, ONE, ONE, ONE];
    assert_eq!(choose_neighbor(here, &weights, 0), at(6, -5));
    assert_eq!(choose_neighbor(here, &weights, ONE), at(6, -5));
    assert_eq!(choose_neighbor(here, &weights, ONE + 1), at(4, -5));
    assert_eq!(choose_neighbor(here, &weights, 2 * ONE + 1), at(5, -4));
    assert_eq!(choose_neighbor(here, &weights, 4 * ONE - 1), at(5, -6));
}

#[test]
fn sample_next_returns_a_neighbour() {
    let here = at(2, 3);
    let mut ledger = Ledger::new(0);
    ledger.record_traversal(edge_key(here, at(3, 3)));
    let mut source = RandomSource::new();
    let around = here.neighbors();
    let mut seen = [false; 4];
    for step in 0usize..400 {
        let next = sample_next(here, &ledger, step, 5, UNIT, &mut source);
        let index = around.iter().position(|p| *p == next);
        assert!(index.is_some());
        seen[index.unwrap()] = true;
    }
    assert_eq!(seen, [true, true, true, true]);
}

#[test]
fn draws_stay_below_their_bound() {
    let mut source = RandomSource::new();
    let mut seen = [false; 4];
    for _ in 0..400 {
        let draw: u128 = source.below(4);
        assert!(draw < 4);
        seen[draw as usize] = true;
    }
    assert_eq!(seen, [true, true, true, true]);
    for _ in 0..20 {
        assert_eq!(source.below(1), 0);
    }
    let wide: u128 = 7 * ONE * ONE * ONE;
    for _ in 0..100 {
        assert!(source.below(wide) < wide);
    }
}
