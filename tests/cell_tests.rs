use travelling_ant::{get_adjacent_cells, Cell};

#[test]
fn cell_sum_of_digits_is_23() {
    let cell = Cell::new(25, 2010184);
    assert_eq!(cell.sum_of_digits(), 23);
}

#[test]
fn adjacent_cells_except_bottom() {
    let cell = Cell::new(1027, 0);
    let adjacent_cells = get_adjacent_cells(&cell);
    assert_eq!(adjacent_cells.len(), 3);
    assert!(adjacent_cells.contains(&Cell { x: 1026, y: 0 }));
    assert!(adjacent_cells.contains(&Cell { x: 1028, y: 0 }));
    assert!(adjacent_cells.contains(&Cell { x: 1027, y: 1 }));
}

#[test]
fn digit_sum_parts_add_up() {
    let cell = Cell::new(25, 2010184);
    assert_eq!(cell.sum_of_digits_x(), 7);
    assert_eq!(cell.sum_of_digits_y(), 16);
    let swapped = Cell::new(2010184, 25);
    assert_eq!(swapped.sum_of_digits(), 23);
}

#[test]
fn digit_sum_of_zero_and_largest() {
    assert_eq!(Cell::new(0, 0).sum_of_digits(), 0);
    let big = Cell::new(u32::MAX, u32::MAX);
    assert_eq!(big.sum_of_digits_x(), 57);
    assert_eq!(big.sum_of_digits(), 114);
}

#[test]
fn adjacent_cells_of_origin() {
    let adjacent_cells = get_adjacent_cells(&Cell::new(0, 0));
    assert_eq!(adjacent_cells.len(), 2);
    assert!(adjacent_cells.contains(&Cell { x: 1, y: 0 }));
    assert!(adjacent_cells.contains(&Cell { x: 0, y: 1 }));
}

#[test]
fn adjacent_cells_on_left_edge() {
    let adjacent_cells = get_adjacent_cells(&Cell::new(0, 5));
    assert_eq!(adjacent_cells, vec![Cell::new(1, 5), Cell::new(0, 6), Cell::new(0, 4)]);
}

#[test]
fn adjacent_cells_inside() {
    let adjacent_cells = get_adjacent_cells(&Cell::new(3, 7));
    assert_eq!(
        adjacent_cells,
        vec![Cell::new(4, 7), Cell::new(3, 8), Cell::new(2, 7), Cell::new(3, 6)]
    );
}
