use lights_out::grid::{Direction, Grid, Position};

#[test]
fn directions_have_opposites() {
    assert_eq!(Direction::Up.op(), Direction::Down);
    assert_eq!(Direction::Down.op(), Direction::Up);
    assert_eq!(Direction::Left.op(), Direction::Right);
    assert_eq!(Direction::Right.op(), Direction::Left);
}

#[test]
fn opposite_of_opposite_is_the_direction() {
    for d in [Direction::Up, Direction::Down, Direction::Left, Direction::Right] {
        assert_eq!(d.op().op(), d);
    }
}

#[test]
fn a_position_holds_row_and_column() {
    let p = Position::new(3, 5);
    assert_eq!(p.row, 3);
    assert_eq!(p.col, 5);
    assert_eq!(p, Position { row: 3, col: 5 });
}

#[test]
fn positions_are_listed_row_by_row() {
    assert_eq!(
        Position::iter_row_major(3, 2),
        vec![
            Position::new(0, 0),
            Position::new(0, 1),
            Position::new(0, 2),
            Position::new(1, 0),
            Position::new(1, 1),
            Position::new(1, 2)
        ]
    );
    assert!(Position::iter_row_major(0, 4).is_empty());
    assert!(Position::iter_row_major(4, 0).is_empty());
}

#[test]
fn full_lines_make_a_grid() {
    let g = Grid::new_full_lines(vec![vec![1, 2, 3], vec![4, 5, 6]], 3, 2).unwrap();
    assert_eq!(g.get_width(), 3);
    assert_eq!(g.get_cols(), 3);
    assert_eq!(g.get_height(), 2);
    assert_eq!(g.get_rows(), 2);
    assert_eq!(*g.get(Position::new(0, 0)), 1);
    assert_eq!(*g.get(Position::new(0, 2)), 3);
    assert_eq!(*g.get(Position::new(1, 0)), 4);
    assert_eq!(*g.get(Position::new(1, 2)), 6);
}

#[test]
fn full_lines_must_fit_the_dimensions() {
    assert!(Grid::new_full_lines(vec![vec![1, 2], vec![3]], 2, 2).is_none());
    assert!(Grid::new_full_lines(vec![vec![1, 2]], 2, 2).is_none());
    assert!(Grid::new_full_lines(vec![vec![1, 2], vec![3, 4]], 3, 2).is_none());
    assert!(Grid::new_full_lines(Vec::<Vec<u8>>::new(), 2, 0).is_none());
    assert!(Grid::new_full_lines(vec![Vec::<u8>::new()], 0, 1).is_none());
}

#[test]
fn partial_lines_are_filled_up() {
    let g = Grid::new_partial_lines(vec![vec![1], vec![2, 3, 4], vec![]], 0).unwrap();
    assert_eq!(g.get_width(), 3);
    assert_eq!(g.get_height(), 3);
    let all: Vec<i32> =
        Position::iter_row_major(3, 3).into_iter().map(|p| *g.get(p)).collect();
    assert_eq!(all, vec![1, 0, 0, 2, 3, 4, 0, 0, 0]);
}

#[test]
fn there_is_no_grid_without_a_cell() {
    assert!(Grid::new_partial_lines(Vec::<Vec<u8>>::new(), 0).is_none());
    assert!(Grid::new_partial_lines(vec![Vec::<u8>::new(), vec![]], 0).is_none());
}

#[test]
fn row_and_column_indices() {
    let g = Grid::new_full_lines(vec![vec![0; 4]; 2], 4, 2).unwrap();
    assert_eq!(g.rows_iter().collect::<Vec<usize>>(), vec![0, 1]);
    assert_eq!(g.cols_iter().collect::<Vec<usize>>(), vec![0, 1, 2, 3]);
}

#[test]
fn bounds_of_a_grid() {
    let g = Grid::new_full_lines(vec![vec![0; 3]; 2], 3, 2).unwrap();
    assert!(Position::new(0, 0).is_in_bounds_of(&g));
    assert!(Position::new(1, 2).is_in_bounds_of(&g));
    assert!(!Position::new(2, 0).is_in_bounds_of(&g));
    assert!(!Position::new(0, 3).is_in_bounds_of(&g));
}

#[test]
fn stepping_stops_at_the_edges() {
    let g = Grid::new_full_lines(vec![vec![0; 3]; 2], 3, 2).unwrap();
    let corner = Position::new(0, 0);
    assert_eq!(corner.step_in_bounds(&g, Direction::Up), None);
    assert_eq!(corner.step_in_bounds(&g, Direction::Left), None);
    assert_eq!(corner.step_in_bounds(&g, Direction::Down), Some(Position::new(1, 0)));
    assert_eq!(corner.step_in_bounds(&g, Direction::Right), Some(Position::new(0, 1)));
    let other = Position::new(1, 2);
    assert_eq!(other.step_in_bounds(&g, Direction::Down), None);
    assert_eq!(other.step_in_bounds(&g, Direction::Right), None);
    assert_eq!(other.step_in_bounds(&g, Direction::Up), Some(Position::new(0, 2)));
    assert_eq!(other.step_in_bounds(&g, Direction::Left), Some(Position::new(1, 1)));
}

#[test]
fn counting_cells() {
    let g = Grid::new_full_lines(vec![vec![1, 2, 3], vec![4, 5, 6]], 3, 2).unwrap();
    assert_eq!(g.count(|v| *v % 2 == 0), 3);
    assert_eq!(g.count(|v| *v > 4), 2);
    assert_eq!(g.count(|_| false), 0);
    assert_eq!(g.count(|_| true), 6);
}

#[test]
fn mapping_cells() {
    let g = Grid::new_full_lines(vec![vec![1, 2, 3], vec![4, 5, 6]], 3, 2).unwrap();
    let doubled = g.map(|v| *v * 2);
    assert_eq!(doubled.get_width(), 3);
    assert_eq!(doubled.get_height(), 2);
    assert_eq!(doubled, Grid::new_full_lines(vec![vec![2, 4, 6], vec![8, 10, 12]], 3, 2).unwrap());
}

#[test]
fn setting_a_cell() {
    let mut g = Grid::new_full_lines(vec![vec![1, 2, 3], vec![4, 5, 6]], 3, 2).unwrap();
    g.set(Position::new(1, 1), 50);
    assert_eq!(g, Grid::new_full_lines(vec![vec![1, 2, 3], vec![4, 50, 6]], 3, 2).unwrap());
}
