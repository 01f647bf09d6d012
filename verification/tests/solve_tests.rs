use lights_out::bit::Bit;
use lights_out::board::parse_board;
use lights_out::matrix::Matrix;
use lights_out::solve::{fewest_presses, solve};

fn bits(text: &str) -> Vec<Bit> {
    text.chars().map(|c| if c == '1' { Bit::On } else { Bit::Off }).collect()
}

fn matrix(rows: &[&str]) -> Matrix {
    let data: Vec<Vec<Bit>> = rows.iter().map(|r| bits(r)).collect();
    Matrix::new(data, rows.len(), rows[0].len()).unwrap()
}

fn all_solutions(m: &Matrix) -> Vec<String> {
    let n = m.cols - 1;
    let mut found = Vec::new();
    for code in 0..(1usize << n) {
        let x: Vec<Bit> =
            (0..n).map(|j| if (code >> (n - 1 - j)) & 1 == 1 { Bit::On } else { Bit::Off }).collect();
        let holds = m.data.iter().all(|row| {
            let mut sum = Bit::Off;
            for j in 0..n {
                sum += row[j] * x[j];
            }
            sum == row[n]
        });
        if holds {
            found.push(x.iter().map(|b| b.to_char()).collect());
        }
    }
    found
}

#[test]
fn solving_finds_exactly_the_solutions() {
    let samples: Vec<Vec<&str>> = vec![
        vec!["0110", "1101", "1011"],
        vec!["11101", "00110", "11011", "00000"],
        vec!["1001", "0101", "0011"],
        vec!["0000", "0000", "0000"],
        vec!["110", "111"],
        vec!["1101", "1011", "0110", "0000", "1101"],
        vec!["0001", "0000", "0000"],
        vec!["11", "10"],
        vec!["1"],
        vec!["0"],
    ];
    for sample in samples {
        let m = matrix(&sample);
        let mut expected = all_solutions(&m);
        let mut found: Vec<String> =
            solve(m.clone()).iter().map(|a| a.as_bitstring().unwrap()).collect();
        expected.sort();
        found.sort();
        assert_eq!(found, expected);
    }
}

#[test]
fn solving_the_three_by_three_board() {
    let (_, board) = parse_board("000\n000\n000").unwrap();
    let (m, locations) = board.to_matrix().unwrap();
    let solutions = solve(m);
    assert_eq!(solutions.len(), 1);
    assert_eq!(solutions[0].as_bitstring().unwrap(), "101010101");
    let (moves, shown, index) = fewest_presses(&board, &solutions, &locations).unwrap();
    assert_eq!(moves, 5);
    assert_eq!(index, 0);
    assert_eq!(shown.to_string(), "W: 3 H: 3 C: 5\n101\n010\n101\n");
}

#[test]
fn the_first_of_the_solutions_with_fewest_presses_is_chosen() {
    let (_, board) = parse_board("00\n00").unwrap();
    let (m, locations) = board.to_matrix().unwrap();
    let solutions = solve(m);
    let texts: Vec<String> = solutions.iter().map(|a| a.as_bitstring().unwrap()).collect();
    assert_eq!(texts, vec!["1111"]);
    let (moves, _, index) = fewest_presses(&board, &solutions, &locations).unwrap();
    assert_eq!((moves, index), (4, 0));

    let (_, board) = parse_board("11\n11\n11").unwrap();
    let (m, locations) = board.to_matrix().unwrap();
    let solutions = solve(m);
    let counts: Vec<usize> = solutions
        .iter()
        .map(|a| a.as_bitstring().unwrap().chars().filter(|c| *c == '1').count())
        .collect();
    let least = *counts.iter().min().unwrap();
    let first = counts.iter().position(|c| *c == least).unwrap();
    let (moves, shown, index) = fewest_presses(&board, &solutions, &locations).unwrap();
    assert_eq!(moves, least);
    assert_eq!(index, first);
    assert_eq!(shown.count_ones(), least);
    assert_eq!(moves, 0);
}

#[test]
fn among_no_solutions_there_is_none_to_choose() {
    let (_, board) = parse_board("0").unwrap();
    let (_, locations) = board.to_matrix().unwrap();
    assert!(fewest_presses(&board, &Vec::new(), &locations).is_none());
}

#[test]
fn systems_with_fewer_equations_than_variables_are_solved_in_full() {
    let m = matrix(&["111"]);
    let found: Vec<String> = solve(m).iter().map(|a| a.as_bitstring().unwrap()).collect();
    assert_eq!(found, vec!["10", "01"]);
    let samples: Vec<Vec<&str>> = vec![
        vec!["110"],
        vec!["1000"],
        vec!["10110", "01011"],
        vec!["11111", "11110"],
        vec!["010101", "101010", "111111"],
        vec!["0001"],
    ];
    for sample in samples {
        let m = matrix(&sample);
        let mut expected = all_solutions(&m);
        let mut found: Vec<String> =
            solve(m.clone()).iter().map(|a| a.as_bitstring().unwrap()).collect();
        expected.sort();
        found.sort();
        assert_eq!(found, expected);
    }
}
