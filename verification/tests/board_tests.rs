use rltoolkit::board::Board;

#[test]
fn new_board_is_zeroed_with_the_given_shape() {
    let b = Board::new(6, 7);
    assert_eq!(b.get_i(), 6);
    assert_eq!(b.get_j(), 7);
    assert_eq!(b.len(), 42);
    for i in 0..42 {
        assert_eq!(b.get(i), 0);
    }
    for r in 0..6 {
        for c in 0..7 {
            assert_eq!(b.get_ij(r, c), 0);
        }
    }
}

#[test]
fn put_ij_writes_one_cell_row_major() {
    let mut b = Board::new(4, 5);
    b.put_ij(2, 3, 9);
    assert_eq!(b.get_ij(2, 3), 9);
    assert_eq!(b.get(2 * 5 + 3), 9);
    let v = b.get_board();
    for p in 0..20 {
        assert_eq!(v[p], if p == 13 { 9 } else { 0 });
    }
}

#[test]
fn reset_zeroes_every_cell_in_place() {
    let mut b = Board::new(3, 3);
    b.put_ij(0, 0, 1);
    b.put_ij(1, 1, 2);
    b.put_ij(2, 2, 1);
    b.reset();
    assert_eq!(b.get_i(), 3);
    assert_eq!(b.get_j(), 3);
    for i in 0..9 {
        assert_eq!(b.get(i), 0);
    }
}

#[test]
fn run_length_counts_the_start_cell_and_stops_at_a_mismatch() {
    let mut b = Board::new(6, 7);
    // a vertical stack of three in column 2, rows 3..=5
    b.put_ij(3, 2, 1);
    b.put_ij(4, 2, 1);
    b.put_ij(5, 2, 1);
    assert_eq!(b.run_length(3, 2, 1, 0), 3); // downward from the top of the stack
    assert_eq!(b.run_length(5, 2, -1, 0), 3); // upward from the bottom
    assert_eq!(b.run_length(4, 2, 1, 0), 2);
    assert_eq!(b.run_length(4, 2, -1, 0), 2);
    assert_eq!(b.run_length(3, 2, -1, 0), 1); // an empty cell above breaks the run
    assert_eq!(b.run_length(5, 2, 0, 1), 1); // horizontal neighbours differ
}

#[test]
fn run_length_stops_at_the_grid_boundary() {
    let b = Board::new(6, 7);
    // the whole bottom row is one run of empty cells
    assert_eq!(b.run_length(5, 0, 0, 1), 7);
    assert_eq!(b.run_length(5, 6, 0, -1), 7);
    assert_eq!(b.run_length(0, 0, 1, 1), 6);
    assert_eq!(b.run_length(5, 0, -1, 1), 6);
}

#[test]
fn run_length_takes_steps_larger_than_one() {
    let mut b = Board::new(6, 7);
    b.put_ij(5, 0, 3);
    b.put_ij(5, 2, 3);
    b.put_ij(5, 4, 3);
    assert_eq!(b.run_length(5, 0, 0, 2), 3);
    assert_eq!(b.run_length(5, 4, 0, -2), 3);
}

#[test]
fn longest_queries_sum_both_scans_counting_the_start_once() {
    let mut b = Board::new(6, 7);
    // horizontal: 2 2 2 2 on row 1, columns 1..=4
    for c in 1..=4 {
        b.put_ij(1, c, 2);
    }
    assert_eq!(b.longest_row(1, 2), 4);
    assert_eq!(b.longest_row(1, 1), 4);
    assert_eq!(b.longest_col(1, 2), 1);
    // down-right diagonal of three
    let mut d = Board::new(6, 7);
    d.put_ij(2, 2, 1);
    d.put_ij(3, 3, 1);
    d.put_ij(4, 4, 1);
    assert_eq!(d.longest_diag_1(3, 3), 3);
    assert_eq!(d.longest_diag_1(2, 2), 3);
    assert_eq!(d.longest_diag_2(3, 3), 1);
    // down-left diagonal of three
    let mut e = Board::new(6, 7);
    e.put_ij(2, 4, 1);
    e.put_ij(3, 3, 1);
    e.put_ij(4, 2, 1);
    assert_eq!(e.longest_diag_2(3, 3), 3);
    assert_eq!(e.longest_diag_1(3, 3), 1);
}

#[test]
fn display_is_one_digit_per_cell_one_line_per_row() {
    let mut b = Board::new(2, 3);
    b.put_ij(0, 1, 5);
    b.put_ij(1, 2, 9);
    assert_eq!(b.to_string(), "050\n009\n");
}
