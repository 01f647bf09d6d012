use lights_out::bit::Bit;
use lights_out::board::{
    is_valid_line, parse_basic_cell, parse_basic_cell_line, parse_bit, parse_bit_line, parse_board,
    BoardDescription, Cell,
};
use lights_out::equations::Assignment;
use lights_out::error::ShapeError;
use lights_out::grid::{Direction, Position};
use nom::error::{Error, ErrorKind};
use std::collections::HashMap;

fn board(text: &str) -> BoardDescription {
    let (rest, board) = parse_board(text).unwrap();
    assert_eq!(rest, "");
    board
}

fn rows_of(m: &lights_out::matrix::Matrix) -> Vec<String> {
    m.data.iter().map(|r| r.iter().map(|b| b.to_char()).collect()).collect()
}

fn assignment(text: &str) -> Assignment {
    Assignment(
        text.chars()
            .enumerate()
            .map(|(i, c)| (i, if c == '1' { Bit::On } else { Bit::Off }))
            .collect::<HashMap<usize, Bit>>(),
    )
}

#[test]
fn a_cell_holds_what_it_is_made_from() {
    let c = Cell::new(true, false, true, false, Bit::On);
    assert!(c.affects_up);
    assert!(!c.affects_down);
    assert!(c.affects_left);
    assert!(!c.affects_right);
    assert_eq!(c.starting_value, Bit::On);
    assert!(c.affects(Direction::Up));
    assert!(!c.affects(Direction::Down));
    assert!(c.affects(Direction::Left));
    assert!(!c.affects(Direction::Right));
}

#[test]
fn a_basic_cell_affects_every_neighbour() {
    assert_eq!(Cell::new_basic(Bit::Off), Cell::new(true, true, true, true, Bit::Off));
    assert_eq!(Cell::new_basic(Bit::On), Cell::new(true, true, true, true, Bit::On));
}

#[test]
fn a_cell_renders_its_fields() {
    assert_eq!(
        Cell::new(true, false, false, true, Bit::On).to_string(),
        "U:true D:false L:false R:true V:1\n"
    );
}

#[test]
fn parsing_one_character() {
    assert_eq!(parse_bit("1x"), Ok(("x", Some(Bit::On))));
    assert_eq!(parse_bit("0"), Ok(("", Some(Bit::Off))));
    assert_eq!(parse_bit(" 1"), Ok(("1", None)));
    assert_eq!(parse_bit("x1"), Err(nom::Err::Error(Error::new("x1", ErrorKind::OneOf))));
    assert_eq!(parse_bit(""), Err(nom::Err::Error(Error::new("", ErrorKind::OneOf))));
    assert_eq!(parse_bit("\n"), Err(nom::Err::Error(Error::new("\n", ErrorKind::OneOf))));
}

#[test]
fn parsing_characters_beyond_ascii() {
    assert_eq!(parse_bit("1\u{e9}0"), Ok(("\u{e9}0", Some(Bit::On))));
    assert_eq!(
        parse_bit("\u{e9}0"),
        Err(nom::Err::Error(Error::new("\u{e9}0", ErrorKind::OneOf)))
    );
}

#[test]
fn parsing_one_cell() {
    assert_eq!(parse_basic_cell("10").map(|(r, c)| (r, c)), Ok(("0", Some(Cell::new_basic(Bit::On)))));
    assert_eq!(parse_basic_cell("0"), Ok(("", Some(Cell::new_basic(Bit::Off)))));
    assert_eq!(parse_basic_cell(" "), Ok(("", None)));
    assert_eq!(parse_basic_cell("a"), Err(nom::Err::Error(Error::new("a", ErrorKind::OneOf))));
}

#[test]
fn parsing_a_line_of_bits() {
    assert_eq!(
        parse_bit_line("01 1\n0"),
        Ok(("\n0", vec![Some(Bit::Off), Some(Bit::On), None, Some(Bit::On)]))
    );
    assert_eq!(parse_bit_line("1"), Ok(("", vec![Some(Bit::On)])));
    assert_eq!(parse_bit_line("\n1"), Err(nom::Err::Error(Error::new("\n1", ErrorKind::OneOf))));
    assert_eq!(parse_bit_line(""), Err(nom::Err::Error(Error::new("", ErrorKind::OneOf))));
}

#[test]
fn parsing_a_line_of_cells() {
    assert_eq!(
        parse_basic_cell_line("1 0x"),
        Ok(("x", vec![Some(Cell::new_basic(Bit::On)), None, Some(Cell::new_basic(Bit::Off))]))
    );
    assert_eq!(
        parse_basic_cell_line("x"),
        Err(nom::Err::Error(Error::new("x", ErrorKind::OneOf)))
    );
}

#[test]
fn parsing_a_board() {
    let b = board("01\n10");
    assert_eq!(b.width(), 2);
    assert_eq!(b.height(), 2);
    assert_eq!(b.cell_at(Position::new(0, 0)), Some(Cell::new_basic(Bit::Off)));
    assert_eq!(b.cell_at(Position::new(0, 1)), Some(Cell::new_basic(Bit::On)));
    assert_eq!(b.cell_at(Position::new(1, 0)), Some(Cell::new_basic(Bit::On)));
    assert_eq!(b.cell_at(Position::new(1, 1)), Some(Cell::new_basic(Bit::Off)));
}

#[test]
fn a_board_may_end_with_one_line_feed() {
    let b = board("01\n10\n");
    assert_eq!(b.to_string(), "W: 2 H: 2 C: 2\n01\n10\n");
    let b = board("1\n");
    assert_eq!(b.to_string(), "W: 1 H: 1 C: 1\n1\n");
}

#[test]
fn short_lines_of_a_board_are_filled_with_nothing() {
    let b = board("0\n101\n 1");
    assert_eq!(b.width(), 3);
    assert_eq!(b.height(), 3);
    assert_eq!(b.cell_at(Position::new(0, 1)), None);
    assert_eq!(b.cell_at(Position::new(0, 2)), None);
    assert_eq!(b.cell_at(Position::new(2, 0)), None);
    assert_eq!(b.cell_at(Position::new(2, 2)), None);
    assert_eq!(b.to_string(), "W: 3 H: 3 C: 3\n0  \n101\n 1 \n");
}

#[test]
fn text_that_is_no_board_is_refused() {
    assert_eq!(
        parse_board("").map(|(r, _)| r),
        Err(nom::Err::Error(Error::new("", ErrorKind::OneOf)))
    );
    assert_eq!(
        parse_board("\n01").map(|(r, _)| r),
        Err(nom::Err::Error(Error::new("\n01", ErrorKind::OneOf)))
    );
    assert_eq!(
        parse_board("0x").map(|(r, _)| r),
        Err(nom::Err::Error(Error::new("x", ErrorKind::Char)))
    );
    assert_eq!(
        parse_board("01\n\n10").map(|(r, _)| r),
        Err(nom::Err::Error(Error::new("\n10", ErrorKind::Eof)))
    );
    assert_eq!(
        parse_board("01\n10\n\n").map(|(r, _)| r),
        Err(nom::Err::Error(Error::new("\n", ErrorKind::Eof)))
    );
    assert_eq!(
        parse_board("01\n1x").map(|(r, _)| r),
        Err(nom::Err::Error(Error::new("x", ErrorKind::Char)))
    );
    assert_eq!(
        parse_board("01\nx").map(|(r, _)| r),
        Err(nom::Err::Error(Error::new("x", ErrorKind::Eof)))
    );
}

#[test]
fn valid_lines_hold_board_characters_only() {
    assert!(is_valid_line("01 10"));
    assert!(is_valid_line(""));
    assert!(is_valid_line("   "));
    assert!(!is_valid_line("012"));
    assert!(!is_valid_line("done"));
    assert!(!is_valid_line("01\n"));
    assert!(!is_valid_line("0\u{e9}"));
}

#[test]
fn lit_lights_are_counted() {
    assert_eq!(board("01\n10").count_ones(), 2);
    assert_eq!(board("000").count_ones(), 0);
    assert_eq!(board("1 1\n 1 ").count_ones(), 3);
}

#[test]
fn the_system_of_a_two_by_two_board() {
    let (m, locations) = board("00\n00").to_matrix().unwrap();
    assert_eq!(m.rows, 4);
    assert_eq!(m.cols, 5);
    assert_eq!(rows_of(&m), vec!["11101", "11011", "10111", "01111"]);
    assert_eq!(locations.len(), 4);
    assert_eq!(locations[&0], Position::new(0, 0));
    assert_eq!(locations[&1], Position::new(0, 1));
    assert_eq!(locations[&2], Position::new(1, 0));
    assert_eq!(locations[&3], Position::new(1, 1));
}

#[test]
fn the_system_of_a_board_with_a_gap() {
    let (m, locations) = board("0 \n10").to_matrix().unwrap();
    assert_eq!(rows_of(&m), vec!["1101", "1110", "0111"]);
    assert_eq!(locations.len(), 3);
    assert_eq!(locations[&0], Position::new(0, 0));
    assert_eq!(locations[&1], Position::new(1, 0));
    assert_eq!(locations[&2], Position::new(1, 1));
}

#[test]
fn the_system_of_the_three_by_three_board() {
    let (m, _) = board("000\n000\n000").to_matrix().unwrap();
    assert_eq!(
        rows_of(&m),
        vec![
            "1101000001",
            "1110100001",
            "0110010001",
            "1001101001",
            "0101110101",
            "0010110011",
            "0001001101",
            "0000101111",
            "0000010111"
        ]
    );
}

#[test]
fn the_system_of_a_single_cell() {
    let (m, locations) = board("0").to_matrix().unwrap();
    assert_eq!(rows_of(&m), vec!["11"]);
    assert_eq!(locations[&0], Position::new(0, 0));
    let (m, _) = board("1").to_matrix().unwrap();
    assert_eq!(rows_of(&m), vec!["10"]);
}

#[test]
fn two_separate_cells_do_not_toggle_each_other() {
    let (m, _) = board("0 1").to_matrix().unwrap();
    assert_eq!(rows_of(&m), vec!["101", "010"]);
}

#[test]
fn a_board_without_lights_has_no_system() {
    assert_eq!(board("  \n  ").to_matrix(), Err(ShapeError::Empty));
}

#[test]
fn modifiers_restrict_what_a_light_toggles() {
    let mut b = board("000\n000\n000");
    assert!(b.apply_modifiers(1, " H"));
    assert!(b.apply_modifiers(0, "V O"));
    assert_eq!(b.cell_at(Position::new(1, 1)), Some(Cell::new(false, false, true, true, Bit::Off)));
    assert_eq!(b.cell_at(Position::new(0, 0)), Some(Cell::new(true, true, false, false, Bit::Off)));
    assert_eq!(b.cell_at(Position::new(0, 2)), Some(Cell::new_basic(Bit::Off)));
    let (m, _) = b.to_matrix().unwrap();
    assert_eq!(
        rows_of(&m),
        vec![
            "1001000001",
            "1110100001",
            "0110010001",
            "1001101001",
            "0001110001",
            "0010110011",
            "0001001101",
            "0000101111",
            "0000010111"
        ]
    );
}

#[test]
fn characters_that_are_no_modifiers_and_those_beyond_the_board_are_passed_over() {
    let mut b = board("00");
    assert!(b.apply_modifiers(0, "x?HHH"));
    assert_eq!(b.cell_at(Position::new(0, 0)), Some(Cell::new_basic(Bit::Off)));
    assert_eq!(b.cell_at(Position::new(0, 1)), Some(Cell::new_basic(Bit::Off)));
    assert!(b.apply_modifiers(0, ""));
}

#[test]
fn a_modifier_needs_a_light() {
    let mut b = board("0 0");
    assert!(!b.apply_modifiers(0, "HVV"));
    assert_eq!(b.cell_at(Position::new(0, 0)), Some(Cell::new(false, false, true, true, Bit::Off)));
    assert_eq!(b.cell_at(Position::new(0, 2)), Some(Cell::new_basic(Bit::Off)));
    assert!(!b.apply_modifiers(0, " O"));
}

#[test]
fn an_assignment_is_shown_on_the_board() {
    let b = board("0 \n10");
    let (_, locations) = b.to_matrix().unwrap();
    let shown = b.assign_assignment(assignment("101"), &locations);
    assert_eq!(shown.count_ones(), 2);
    assert_eq!(shown.to_string(), "W: 2 H: 2 C: 2\n1 \n01\n");
}

#[test]
fn positions_without_a_variable_keep_their_starting_value() {
    let b = board("11\n01");
    let mut locations = HashMap::new();
    locations.insert(0, Position::new(1, 0));
    let mut values = HashMap::new();
    values.insert(0, Bit::On);
    values.insert(5, Bit::Off);
    let shown = b.assign_assignment(Assignment(values), &locations);
    assert_eq!(shown.to_string(), "W: 2 H: 2 C: 4\n11\n11\n");
    let shown = b.assign_assignment(Assignment(HashMap::new()), &HashMap::new());
    assert_eq!(shown.to_string(), "W: 2 H: 2 C: 3\n11\n01\n");
}

#[test]
fn setting_a_cell_of_a_board() {
    let mut b = board("00");
    b.set_cell(Position::new(0, 1), None);
    b.set_cell(Position::new(0, 0), Some(Cell::new_basic(Bit::On)));
    assert_eq!(b.to_string(), "W: 2 H: 1 C: 1\n1 \n");
}
