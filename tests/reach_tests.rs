use travelling_ant::{compute_reachable_count, reachable_cells, Cell};

#[test]
fn zero_threshold_counts_origin_only() {
    assert_eq!(compute_reachable_count(Cell::new(0, 0), 0), Some(1));
}

#[test]
fn threshold_one_reaches_direct_neighbours() {
    assert_eq!(compute_reachable_count(Cell::new(0, 0), 1), Some(3));
    let cells = reachable_cells(Cell::new(0, 0), 1).unwrap();
    assert_eq!(cells, vec![Cell::new(0, 0), Cell::new(1, 0), Cell::new(0, 1)]);
}

#[test]
fn threshold_two_reaches_six_cells() {
    // (0,0), (1,0), (0,1), (2,0), (1,1), (0,2)
    assert_eq!(compute_reachable_count(Cell::new(0, 0), 2), Some(6));
}

#[test]
fn source_counts_even_when_not_admissible() {
    // (99,99) has digit sum 36; with threshold 0 nothing around it qualifies.
    assert_eq!(compute_reachable_count(Cell::new(99, 99), 0), Some(1));
    // The neighbours of (10,0) have digit sums 9, 2 and 2: all above 1.
    assert_eq!(compute_reachable_count(Cell::new(10, 0), 1), Some(1));
}

#[test]
fn count_is_at_least_one() {
    for t in 0..4u32 {
        let n = compute_reachable_count(Cell::new(7, 3), t).unwrap();
        assert!(n >= 1);
    }
}

#[test]
fn repeated_runs_agree() {
    let a = compute_reachable_count(Cell::new(5, 5), 12);
    let b = compute_reachable_count(Cell::new(5, 5), 12);
    assert_eq!(a, b);
    assert!(a.is_some());
}

#[test]
fn no_cell_enqueued_twice() {
    let cells = reachable_cells(Cell::new(0, 0), 10).unwrap();
    let count = compute_reachable_count(Cell::new(0, 0), 10).unwrap();
    assert_eq!(cells.len() as u32, count);
    for i in 0..cells.len() {
        for j in (i + 1)..cells.len() {
            assert_ne!(cells[i], cells[j]);
        }
        assert!(i == 0 || cells[i].sum_of_digits() <= 10);
    }
}

#[test]
fn source_on_the_edge_of_u32_is_refused() {
    assert_eq!(compute_reachable_count(Cell::new(u32::MAX, 0), 0), None);
    assert_eq!(compute_reachable_count(Cell::new(0, u32::MAX), 200), None);
}
