use lights_out::bit::Bit;
use lights_out::error::ShapeError;
use lights_out::matrix::{
    first_active_column_since, get_leading_column, leading_key, BoundedPosition, Matrix,
};

fn bits(text: &str) -> Vec<Bit> {
    text.chars().map(|c| if c == '1' { Bit::On } else { Bit::Off }).collect()
}

fn matrix(rows: &[&str]) -> Matrix {
    let data: Vec<Vec<Bit>> = rows.iter().map(|r| bits(r)).collect();
    Matrix::new(data, rows.len(), rows[0].len()).unwrap()
}

fn rows_of(m: &Matrix) -> Vec<String> {
    m.data.iter().map(|r| r.iter().map(|b| b.to_char()).collect()).collect()
}

#[test]
fn new_keeps_the_rows_it_is_given() {
    let m = Matrix::new(vec![bits("101"), bits("010")], 2, 3).unwrap();
    assert_eq!(m.rows, 2);
    assert_eq!(m.cols, 3);
    assert_eq!(m.data, vec![bits("101"), bits("010")]);
}

#[test]
fn new_refuses_an_empty_shape() {
    assert_eq!(Matrix::new(vec![], 0, 3), Err(ShapeError::Empty));
    assert_eq!(Matrix::new(vec![vec![], vec![]], 2, 0), Err(ShapeError::Empty));
    assert_eq!(Matrix::new(vec![bits("1")], 0, 0), Err(ShapeError::Empty));
}

#[test]
fn new_refuses_a_wrong_number_of_rows() {
    assert_eq!(Matrix::new(vec![bits("10")], 2, 2), Err(ShapeError::RowCount));
    assert_eq!(Matrix::new(vec![bits("10"), bits("01"), bits("11")], 2, 2), Err(ShapeError::RowCount));
}

#[test]
fn new_refuses_a_row_of_wrong_length() {
    assert_eq!(Matrix::new(vec![bits("10"), bits("0")], 2, 2), Err(ShapeError::RowLength));
    assert_eq!(Matrix::new(vec![bits("10"), bits("011")], 2, 2), Err(ShapeError::RowLength));
}

#[test]
fn augmenting_appends_a_column() {
    let mut m = matrix(&["10", "01"]);
    assert_eq!(m.augment_column(&bits("10")), Ok(()));
    assert_eq!(m.cols, 3);
    assert_eq!(m.rows, 2);
    assert_eq!(rows_of(&m), vec!["101", "010"]);
}

#[test]
fn augmenting_with_a_column_of_wrong_length_changes_nothing() {
    let mut m = matrix(&["10", "01"]);
    let before = m.clone();
    assert_eq!(m.augment_column(&bits("101")), Err(ShapeError::ColumnLength));
    assert_eq!(m, before);
    assert_eq!(m.augment_column(&bits("1")), Err(ShapeError::ColumnLength));
    assert_eq!(m, before);
}

#[test]
fn first_active_column_is_searched_from_the_given_index() {
    let row = bits("0100101");
    assert_eq!(first_active_column_since(&row, 0), Some(1));
    assert_eq!(first_active_column_since(&row, 1), Some(1));
    assert_eq!(first_active_column_since(&row, 2), Some(4));
    assert_eq!(first_active_column_since(&row, 5), Some(6));
    assert_eq!(first_active_column_since(&row, 7), None);
    assert_eq!(first_active_column_since(&row, 100), None);
    assert_eq!(first_active_column_since(&bits("000"), 0), None);
    assert_eq!(first_active_column_since(&[], 0), None);
}

#[test]
fn leading_column_is_the_first_on_entry() {
    assert_eq!(get_leading_column(&bits("0011")), Some(2));
    assert_eq!(get_leading_column(&bits("1000")), Some(0));
    assert_eq!(get_leading_column(&bits("0000")), None);
    assert_eq!(get_leading_column(&[]), None);
}

#[test]
fn zero_rows_get_the_key_past_the_last_column() {
    assert_eq!(leading_key(&bits("0000"), 4), 4);
    assert_eq!(leading_key(&bits("0001"), 4), 3);
    assert_eq!(leading_key(&bits("1001"), 4), 0);
}

#[test]
fn positions_step_inside_their_grid_only() {
    let mut p = BoundedPosition::origin(2, 3).unwrap();
    assert_eq!((p.row(), p.col()), (0, 0));
    assert!(p.step_right());
    assert_eq!((p.row(), p.col()), (0, 1));
    assert!(!p.step_right());
    assert_eq!((p.row(), p.col()), (0, 1));
    assert!(p.step_down());
    assert!(p.step_down());
    assert_eq!((p.row(), p.col()), (2, 1));
    assert!(!p.step_down());
    assert_eq!((p.row(), p.col()), (2, 1));
}

#[test]
fn there_is_no_position_in_an_empty_grid() {
    assert!(BoundedPosition::origin(0, 3).is_none());
    assert!(BoundedPosition::origin(3, 0).is_none());
    assert!(BoundedPosition::origin(1, 1).is_some());
}

#[test]
fn get_at_reads_the_cell_under_the_cursor() {
    let m = matrix(&["01", "10"]);
    let mut p = BoundedPosition::origin(2, 2).unwrap();
    assert_eq!(m.get_at(p), Bit::Off);
    p.step_right();
    assert_eq!(m.get_at(p), Bit::On);
    p.step_down();
    assert_eq!(m.get_at(p), Bit::Off);
}

#[test]
fn sorting_orders_rows_by_leading_column_and_keeps_ties_in_order() {
    let mut m = matrix(&["0000", "0011", "1000", "0010", "0101", "1111", "0000", "0111"]);
    m.sort_rows_by_leading_column();
    assert_eq!(
        rows_of(&m),
        vec!["1000", "1111", "0101", "0111", "0011", "0010", "0000", "0000"]
    );
}

#[test]
fn sorting_a_sorted_matrix_changes_nothing() {
    let mut m = matrix(&["110", "011", "001", "000"]);
    let before = m.clone();
    m.sort_rows_by_leading_column();
    assert_eq!(m, before);
}

#[test]
fn swapping_rows() {
    let mut m = matrix(&["100", "010", "001"]);
    m.swap_rows(0, 2);
    assert_eq!(rows_of(&m), vec!["001", "010", "100"]);
    m.swap_rows(1, 1);
    assert_eq!(rows_of(&m), vec!["001", "010", "100"]);
    m.swap_rows(2, 1);
    assert_eq!(rows_of(&m), vec!["001", "100", "010"]);
}

#[test]
fn adding_a_row_into_another_leaves_the_source_alone() {
    let mut m = matrix(&["1100", "1010", "0001"]);
    m.elementary_add_row_to(0, 1);
    assert_eq!(rows_of(&m), vec!["1100", "0110", "0001"]);
    m.elementary_add_row_to(2, 0);
    assert_eq!(rows_of(&m), vec!["1101", "0110", "0001"]);
}

#[test]
fn adding_a_row_twice_restores_the_target() {
    let mut m = matrix(&["1101", "0111"]);
    let before = m.clone();
    m.elementary_add_row_to(0, 1);
    m.elementary_add_row_to(0, 1);
    assert_eq!(m, before);
}

#[test]
fn decimating_clears_the_column_in_every_other_row() {
    let mut m = matrix(&["0110", "1101", "0100", "1011"]);
    m.decimate_column_with_row(0, 1);
    assert_eq!(rows_of(&m), vec!["0110", "1011", "0010", "1011"]);
}

#[test]
fn eliminating_a_dependent_system() {
    let mut m = matrix(&["0110", "1101", "1011"]);
    m.eliminate();
    assert_eq!(rows_of(&m), vec!["1011", "0110", "0000"]);
}

#[test]
fn eliminating_a_system_with_a_gap_between_leading_columns() {
    let mut m = matrix(&["11101", "00110", "11011", "00000"]);
    m.eliminate();
    assert_eq!(rows_of(&m), vec!["11011", "00110", "00000", "00000"]);
}

#[test]
fn eliminating_the_identity_changes_nothing() {
    let mut m = matrix(&["100", "010", "001"]);
    let before = m.clone();
    m.eliminate();
    assert_eq!(m, before);
}

#[test]
fn eliminating_a_zero_matrix_changes_nothing() {
    let mut m = matrix(&["000", "000"]);
    let before = m.clone();
    m.eliminate();
    assert_eq!(m, before);
}

#[test]
fn eliminating_a_single_cell() {
    let mut one = matrix(&["1"]);
    one.eliminate();
    assert_eq!(rows_of(&one), vec!["1"]);
    let mut zero = matrix(&["0"]);
    zero.eliminate();
    assert_eq!(rows_of(&zero), vec!["0"]);
}

#[test]
fn elimination_is_idempotent() {
    let samples: Vec<Vec<&str>> = vec![
        vec!["0110", "1101", "1011"],
        vec!["1101", "1100"],
        vec!["11101", "00110", "11011", "00000"],
        vec!["0001", "0010", "0100", "1000"],
        vec!["111", "111", "111"],
        vec!["01", "01", "10", "11"],
    ];
    for sample in samples {
        let mut once = matrix(&sample);
        once.eliminate();
        let mut twice = once.clone();
        twice.eliminate();
        assert_eq!(twice, once);
    }
}

#[test]
fn elimination_leaves_a_reduced_matrix() {
    let samples: Vec<Vec<&str>> = vec![
        vec!["0110", "1101", "1011"],
        vec!["1101", "1100"],
        vec!["11101", "00110", "11011", "00000"],
        vec!["0001", "0010", "0100", "1000"],
        vec!["111", "111", "111"],
        vec!["01", "01", "10", "11"],
    ];
    for sample in samples {
        let mut m = matrix(&sample);
        m.eliminate();
        assert!(m.is_row_reduced());
    }
}

#[test]
fn rank_never_exceeds_rows_or_columns() {
    let samples: Vec<Vec<&str>> = vec![
        vec!["0110", "1101", "1011"],
        vec!["01", "01", "10", "11"],
        vec!["1", "1", "1"],
        vec!["10101"],
        vec!["111", "101", "110"],
    ];
    for sample in samples {
        let mut m = matrix(&sample);
        m.eliminate();
        let rank = m.non_zero_row_count();
        assert!(rank <= m.rows);
        assert!(rank <= m.cols);
    }
}

#[test]
fn leading_columns_of_a_reduced_matrix_strictly_increase() {
    let mut m = matrix(&["11101", "00110", "11011", "00000", "10000"]);
    m.eliminate();
    let rank = m.non_zero_row_count();
    let leads: Vec<usize> =
        (0..rank).map(|r| get_leading_column(&m.data[r]).unwrap()).collect();
    for pair in leads.windows(2) {
        assert!(pair[0] < pair[1]);
    }
    for r in rank..m.rows {
        assert!(m.is_row_zero(r));
    }
}

#[test]
fn recognising_reduced_matrices() {
    assert!(matrix(&["1011", "0110", "0000"]).is_row_reduced());
    assert!(matrix(&["000", "000"]).is_row_reduced());
    assert!(!matrix(&["0110", "1011"]).is_row_reduced());
    assert!(!matrix(&["110", "010"]).is_row_reduced());
    assert!(!matrix(&["000", "100"]).is_row_reduced());
    assert!(!matrix(&["100", "100"]).is_row_reduced());
}

#[test]
fn zero_rows_are_recognised() {
    let m = matrix(&["000", "010", "000"]);
    assert!(m.is_row_zero(0));
    assert!(!m.is_row_zero(1));
    assert!(m.is_row_zero(2));
}

#[test]
fn non_zero_rows_are_counted_up_to_the_first_zero_row() {
    assert_eq!(matrix(&["100", "010", "000"]).non_zero_row_count(), 2);
    assert_eq!(matrix(&["100", "010", "001"]).non_zero_row_count(), 3);
    assert_eq!(matrix(&["000", "010", "001"]).non_zero_row_count(), 0);
    assert_eq!(matrix(&["100", "000", "001"]).non_zero_row_count(), 1);
}

#[test]
fn free_columns_of_reduced_matrices() {
    assert_eq!(matrix(&["1011", "0110", "0000"]).non_leading_columns(), vec![2, 3]);
    assert_eq!(matrix(&["11011", "00110", "00000", "00000"]).non_leading_columns(), vec![1, 3, 4]);
    assert_eq!(matrix(&["1100", "0001"]).non_leading_columns(), vec![1, 2]);
    assert_eq!(matrix(&["100", "010", "001"]).non_leading_columns(), Vec::<usize>::new());
    assert_eq!(matrix(&["000"]).non_leading_columns(), vec![0, 1, 2]);
}

#[test]
fn columns_right_of_the_last_leading_entry_are_free() {
    assert_eq!(matrix(&["100"]).non_leading_columns(), vec![1, 2]);
    assert_eq!(matrix(&["110"]).non_leading_columns(), vec![1, 2]);
    assert_eq!(matrix(&["0100"]).non_leading_columns(), vec![0, 2, 3]);
    assert_eq!(matrix(&["10110", "01011"]).non_leading_columns(), vec![2, 3, 4]);
    assert_eq!(matrix(&["1"]).non_leading_columns(), Vec::<usize>::new());
}

#[test]
fn a_matrix_renders_one_line_per_row() {
    assert_eq!(matrix(&["101", "010"]).to_string(), "101\n010\n");
    assert_eq!(matrix(&["1"]).to_string(), "1\n");
}

#[test]
fn selected_columns_are_shown_and_the_others_dotted() {
    let m = matrix(&["1011", "0110"]);
    assert_eq!(m.display_selected_columns(&[0, 3]), "1..1\n0..0\n");
    assert_eq!(m.display_selected_columns(&[]), "....\n....\n");
    assert_eq!(m.display_selected_columns(&[1, 2, 7]), ".01.\n.11.\n");
}

#[test]
fn an_elimination_report() {
    let mut m = matrix(&["0110", "1101", "1011"]);
    let report = m.report_elimination();
    assert_eq!(rows_of(&m), vec!["1011", "0110", "0000"]);
    assert_eq!(
        report,
        "Input:\n0110\n1101\n1011\n\nOutput:\n1011\n0110\n0000\n\nRank: 2\nFree columns:\n..11\n..10\n..00\n"
    );
}

#[test]
fn recognising_well_formed_matrices() {
    assert!(matrix(&["10", "01"]).is_well_formed());
    assert!(!Matrix { rows: 2, cols: 2, data: vec![bits("10")] }.is_well_formed());
    assert!(!Matrix { rows: 1, cols: 2, data: vec![bits("101")] }.is_well_formed());
    assert!(!Matrix { rows: 0, cols: 2, data: vec![] }.is_well_formed());
    assert!(!Matrix { rows: 1, cols: 0, data: vec![vec![]] }.is_well_formed());
}
