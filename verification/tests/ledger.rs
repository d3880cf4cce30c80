use lattice_walk::lattice::{edge_key, EdgeKey, LatticePoint};
use lattice_walk::ledger::Ledger;

fn horizontal(x: i32, y: i32) -> EdgeKey {
    edge_key(LatticePoint { x, y }, LatticePoint { x: x + 1, y })
}

fn vertical(x: i32, y: i32) -> EdgeKey {
    edge_key(LatticePoint { x, y }, LatticePoint { x, y: y + 1 })
}

#[test]
fn fresh_ledger_counts_nothing() {
    let ledger = Ledger::new(0);
    assert_eq!(ledger.count(&horizontal(0, 0)), 0);
    assert_eq!(ledger.count(&vertical(-5, 9)), 0);
    assert_eq!(ledger.memory(), 0);
    assert_eq!(ledger.history_len(), 0);
}

#[test]
fn ledger_keeps_its_memory_bound() {
    let ledger = Ledger::new(17);
    assert_eq!(ledger.memory(), 17);
}

#[test]
fn a_traversal_counts_once_from_either_end() {
    let a = LatticePoint { x: 2, y: 2 };
    let b = LatticePoint { x: 2, y: 3 };
    let mut ledger = Ledger::new(0);
    ledger.record_traversal(edge_key(a, b));
    ledger.record_traversal(edge_key(b, a));
    assert_eq!(ledger.count(&edge_key(a, b)), 2);
    assert_eq!(ledger.count(&edge_key(b, a)), 2);
}

#[test]
fn unbounded_memory_counts_every_traversal() {
    let edge = horizontal(0, 0);
    let mut ledger = Ledger::new(0);
    for round in 0u32..50 {
        ledger.record_traversal(edge);
        ledger.record_traversal(vertical(round as i32, 1));
        ledger.record_traversal(horizontal(3, round as i32 + 1));
        assert_eq!(ledger.count(&edge), round + 1);
    }
    assert_eq!(ledger.count(&edge), 50);
    assert_eq!(ledger.count(&vertical(7, 1)), 1);
    assert_eq!(ledger.history_len(), 0);
}

#[test]
fn unbounded_memory_never_lowers_a_count() {
    let watched = [horizontal(0, 0), vertical(0, 0), horizontal(-1, 0)];
    let mut ledger = Ledger::new(0);
    let mut before = [0u32; 3];
    for round in 0usize..60 {
        ledger.record_traversal(watched[round % 2]);
        ledger.record_traversal(vertical(round as i32, 5));
        for i in 0usize..3 {
            let now = ledger.count(&watched[i]);
            assert!(now >= before[i]);
            before[i] = now;
        }
    }
    assert_eq!(before, [30, 30, 0]);
}

#[test]
fn bounded_memory_forgets_a_traversal_after_the_window_has_passed() {
    let edge = horizontal(0, 0);
    let mut ledger = Ledger::new(3);
    let before = ledger.count(&edge);
    ledger.record_traversal(edge);
    assert_eq!(ledger.count(&edge), 1);
    ledger.record_traversal(vertical(1, 0));
    ledger.record_traversal(horizontal(1, 1));
    assert_eq!(ledger.count(&edge), 1);
    ledger.record_traversal(vertical(2, 1));
    assert_eq!(ledger.count(&edge), before);
    assert_eq!(ledger.count(&edge), 0);
}

#[test]
fn bounded_memory_forgets_a_repeated_edge() {
    let edge = vertical(0, 0);
    let mut ledger = Ledger::new(4);
    for _ in 0..9 {
        ledger.record_traversal(edge);
    }
    assert_eq!(ledger.count(&edge), 4);
    ledger.record_traversal(horizontal(0, 1));
    assert_eq!(ledger.count(&edge), 3);
    ledger.record_traversal(horizontal(1, 1));
    ledger.record_traversal(horizontal(2, 1));
    assert_eq!(ledger.count(&edge), 1);
    ledger.record_traversal(horizontal(3, 1));
    assert_eq!(ledger.count(&edge), 0);
    assert_eq!(ledger.count(&horizontal(0, 1)), 1);
}

#[test]
fn bounded_memory_count_is_the_number_of_occurrences_in_the_window() {
    let e = horizontal(0, 0);
    let f = vertical(0, 0);
    let mut ledger = Ledger::new(2);
    ledger.record_traversal(e);
    ledger.record_traversal(e);
    assert_eq!(ledger.count(&e), 2);
    ledger.record_traversal(e);
    assert_eq!(ledger.count(&e), 2);
    ledger.record_traversal(f);
    assert_eq!((ledger.count(&e), ledger.count(&f)), (1, 1));
    ledger.record_traversal(f);
    assert_eq!((ledger.count(&e), ledger.count(&f)), (0, 2));
}

#[test]
fn history_never_exceeds_the_window() {
    let mut ledger = Ledger::new(5);
    for round in 0usize..40 {
        ledger.record_traversal(horizontal(round as i32, 0));
        assert_eq!(ledger.history_len(), (round + 1).min(5));
    }
}

#[test]
fn window_of_one_remembers_only_the_last_traversal() {
    let e = horizontal(0, 0);
    let f = horizontal(1, 0);
    let mut ledger = Ledger::new(1);
    ledger.record_traversal(e);
    assert_eq!((ledger.count(&e), ledger.count(&f)), (1, 0));
    ledger.record_traversal(f);
    assert_eq!((ledger.count(&e), ledger.count(&f)), (0, 1));
    ledger.record_traversal(f);
    assert_eq!((ledger.count(&e), ledger.count(&f)), (0, 1));
}

#[test]
fn edges_with_extreme_coordinates_are_kept_apart() {
    let far = edge_key(
        LatticePoint { x: i32::MIN, y: i32::MAX },
        LatticePoint { x: i32::MAX, y: i32::MIN },
    );
    let near = edge_key(
        LatticePoint { x: i32::MIN, y: i32::MAX },
        LatticePoint { x: i32::MAX, y: i32::MIN + 1 },
    );
    let mut ledger = Ledger::new(0);
    ledger.record_traversal(far);
    ledger.record_traversal(far);
    ledger.record_traversal(near);
    assert_eq!(ledger.count(&far), 2);
    assert_eq!(ledger.count(&near), 1);
    assert_eq!(ledger.count(&horizontal(0, 0)), 0);
}
