use lights_out::bit::Bit;
use lights_out::equations::{enumerate_all_assignments, Assignment, Equations};
use lights_out::error::ResourceLimitError;
use lights_out::matrix::Matrix;
use std::collections::{HashMap, HashSet};

fn bits(text: &str) -> Vec<Bit> {
    text.chars().map(|c| if c == '1' { Bit::On } else { Bit::Off }).collect()
}

fn matrix(rows: &[&str]) -> Matrix {
    let data: Vec<Vec<Bit>> = rows.iter().map(|r| bits(r)).collect();
    Matrix::new(data, rows.len(), rows[0].len()).unwrap()
}

fn system(coefficients: &[&str], constants: &str) -> Matrix {
    let mut m = matrix(coefficients);
    m.augment_column(&bits(constants)).unwrap();
    m
}

fn solved(m: &Matrix) -> Equations {
    let mut reduced = m.clone();
    reduced.eliminate();
    assert!(reduced.is_row_reduced());
    Equations::new(reduced)
}

fn assignment(pairs: &[(usize, Bit)]) -> Assignment {
    Assignment(pairs.iter().cloned().collect::<HashMap<usize, Bit>>())
}

fn satisfies(m: &Matrix, a: &Assignment) -> bool {
    let n = m.cols - 1;
    m.data.iter().all(|row| {
        let mut sum = Bit::Off;
        for j in 0..n {
            sum += row[j] * a.0[&j];
        }
        sum == row[n]
    })
}

fn bitstrings(all: &[Assignment]) -> Vec<String> {
    all.iter().map(|a| a.as_bitstring().unwrap()).collect()
}

#[test]
fn the_three_by_three_board_has_one_solution() {
    let coefficients = [
        "110100000",
        "111010000",
        "011001000",
        "100110100",
        "010111010",
        "001011001",
        "000100110",
        "000010111",
        "000001011",
    ];
    let m = system(&coefficients, "111111111");
    let mut reduced = m.clone();
    reduced.eliminate();
    assert_eq!(reduced.non_zero_row_count(), 9);
    let eqs = Equations::new(reduced);
    assert!(eqs.is_solvable());
    assert_eq!(eqs.free_variables(), Vec::<usize>::new());
    let all = eqs.enumerate_all_results();
    assert_eq!(bitstrings(&all), vec!["101010101"]);
    assert!(satisfies(&m, &all[0]));
}

#[test]
fn a_single_unlit_cell_must_be_pressed() {
    let m = system(&["1"], "1");
    let eqs = solved(&m);
    assert!(eqs.is_solvable());
    assert_eq!(eqs.free_variables().len(), 0);
    let all = eqs.enumerate_all_results();
    assert_eq!(all.len(), 1);
    assert_eq!(all[0].0.len(), 1);
    assert_eq!(all[0].0[&0], Bit::On);
}

#[test]
fn of_two_separate_cells_only_the_unlit_one_is_pressed() {
    let m = system(&["10", "01"], "10");
    let eqs = solved(&m);
    assert_eq!(eqs.free_variables().len(), 0);
    let all = eqs.enumerate_all_results();
    assert_eq!(all.len(), 1);
    assert_eq!(all[0].0[&0], Bit::On);
    assert_eq!(all[0].0[&1], Bit::Off);
    assert_eq!(all[0].as_bitstring().unwrap(), "10");
}

#[test]
fn an_infeasible_system_has_no_solution() {
    let m = system(&["11", "11"], "01");
    let mut reduced = m.clone();
    reduced.eliminate();
    assert_eq!(reduced.data, vec![bits("110"), bits("001")]);
    let eqs = Equations::new(reduced);
    assert!(!eqs.is_solvable());
    assert_eq!(eqs.enumerate_all_results().len(), 0);
}

#[test]
fn a_lone_contradiction_has_no_solution() {
    let eqs = solved(&matrix(&["01"]));
    assert!(!eqs.is_solvable());
    assert_eq!(eqs.free_variables(), vec![0]);
    assert!(eqs.enumerate_all_results().is_empty());
}

#[test]
fn free_variables_and_formulas_of_a_dependent_system() {
    let eqs = solved(&matrix(&["0110", "1101", "1011"]));
    assert!(eqs.is_solvable());
    assert_eq!(eqs.free_variables(), vec![2]);
    assert_eq!(eqs.formula_of(0), Some((vec![2], Bit::On)));
    assert_eq!(eqs.formula_of(1), Some((vec![2], Bit::Off)));
    assert_eq!(eqs.formula_of(2), None);
    assert_eq!(eqs.formula_of(3), None);
}

#[test]
fn formulas_sum_every_free_variable_of_their_row() {
    let eqs = solved(&matrix(&["11101", "00110", "11011", "00000"]));
    assert_eq!(eqs.free_variables(), vec![1, 3]);
    assert_eq!(eqs.formula_of(0), Some((vec![1, 3], Bit::On)));
    assert_eq!(eqs.formula_of(2), Some((vec![3], Bit::Off)));
    assert_eq!(eqs.formula_of(1), None);
}

#[test]
fn every_variable_is_free_or_dependent_and_never_both() {
    let samples: Vec<Vec<&str>> = vec![
        vec!["0110", "1101", "1011"],
        vec!["11101", "00110", "11011", "00000"],
        vec!["1001", "0101", "0011"],
        vec!["0000", "0000", "0000"],
        vec!["111", "111"],
        vec!["110"],
        vec!["100"],
        vec!["10110", "01011"],
        vec!["001"],
    ];
    for sample in samples {
        let m = matrix(&sample);
        let eqs = solved(&m);
        let free = eqs.free_variables();
        for var in 0..m.cols - 1 {
            assert_ne!(free.contains(&var), eqs.formula_of(var).is_some());
        }
    }
}

#[test]
fn with_fewer_equations_than_variables_the_rest_are_free() {
    let eqs = solved(&matrix(&["110"]));
    assert_eq!(eqs.free_variables(), vec![1]);
    assert_eq!(eqs.formula_of(0), Some((vec![1], Bit::Off)));
    assert_eq!(eqs.formula_of(1), None);
    assert_eq!(bitstrings(&eqs.enumerate_all_results()), vec!["00", "11"]);

    let eqs = solved(&matrix(&["100"]));
    assert_eq!(eqs.free_variables(), vec![1]);
    assert_eq!(eqs.formula_of(0), Some((vec![], Bit::Off)));
    assert_eq!(bitstrings(&eqs.enumerate_all_results()), vec!["00", "01"]);

    let eqs = solved(&matrix(&["10110", "01011"]));
    assert_eq!(eqs.free_variables(), vec![2, 3]);
    assert_eq!(eqs.formula_of(0), Some((vec![2, 3], Bit::Off)));
    assert_eq!(eqs.formula_of(1), Some((vec![3], Bit::On)));
    assert_eq!(eqs.enumerate_all_results().len(), 4);
}

#[test]
fn backfeed_computes_every_dependent_variable() {
    let eqs = solved(&matrix(&["11101", "00110", "11011", "00000"]));
    let full = eqs.backfeed(assignment(&[(1, Bit::On), (3, Bit::Off)]));
    assert_eq!(full.0.len(), 4);
    assert_eq!(full.0[&0], Bit::Off);
    assert_eq!(full.0[&1], Bit::On);
    assert_eq!(full.0[&2], Bit::Off);
    assert_eq!(full.0[&3], Bit::Off);
    let full = eqs.backfeed(assignment(&[(1, Bit::On), (3, Bit::On)]));
    assert_eq!(full.as_bitstring().unwrap(), "1111");
}

#[test]
fn backfeed_keeps_the_values_it_is_given() {
    let eqs = solved(&matrix(&["0110", "1101", "1011"]));
    let full = eqs.backfeed(assignment(&[(2, Bit::On), (0, Bit::On), (7, Bit::On)]));
    assert_eq!(full.0.len(), 4);
    assert_eq!(full.0[&0], Bit::On);
    assert_eq!(full.0[&1], Bit::On);
    assert_eq!(full.0[&2], Bit::On);
    assert_eq!(full.0[&7], Bit::On);
}

#[test]
fn every_enumerated_assignment_solves_the_system_it_came_from() {
    let samples: Vec<Vec<&str>> = vec![
        vec!["0110", "1101", "1011"],
        vec!["11101", "00110", "11011", "00000"],
        vec!["1001", "0101", "0011"],
        vec!["0000", "0000", "0000"],
        vec!["110", "110"],
        vec!["1101", "1011", "0110", "0000", "1101"],
        vec!["111"],
        vec!["10110", "01011"],
        vec!["1000"],
    ];
    for sample in samples {
        let m = matrix(&sample);
        let eqs = solved(&m);
        let all = eqs.enumerate_all_results();
        assert!(!all.is_empty());
        for a in &all {
            assert_eq!(a.0.len(), m.cols - 1);
            assert!(satisfies(&m, a));
        }
    }
}

#[test]
fn there_are_two_to_the_number_of_free_variables_solutions_all_different() {
    let samples: Vec<(Vec<&str>, usize)> = vec![
        (vec!["0110", "1101", "1011"], 2),
        (vec!["11101", "00110", "11011", "00000"], 4),
        (vec!["1001", "0101", "0011"], 1),
        (vec!["0000", "0000", "0000"], 8),
        (vec!["11110", "00000", "00000", "00000"], 8),
    ];
    for (sample, expected) in samples {
        let eqs = solved(&matrix(&sample));
        let all = eqs.enumerate_all_results();
        assert_eq!(all.len(), expected);
        assert_eq!(all.len(), 1 << eqs.free_variables().len());
        let texts = bitstrings(&all);
        for i in 0..texts.len() {
            for j in 0..i {
                assert_ne!(texts[i], texts[j]);
            }
        }
    }
}

#[test]
fn solutions_come_in_the_order_of_their_free_variables() {
    let eqs = solved(&matrix(&["11101", "00110", "11011", "00000"]));
    let all = eqs.enumerate_all_results();
    assert_eq!(bitstrings(&all), vec!["1000", "0011", "0100", "1111"]);
    let eqs = solved(&matrix(&["0110", "1101", "1011"]));
    assert_eq!(bitstrings(&eqs.enumerate_all_results()), vec!["100", "011"]);
}

#[test]
fn assignments_of_a_set_of_variables_are_enumerated_in_ascending_order() {
    let vars: HashSet<usize> = [3, 1].into_iter().collect();
    let all = enumerate_all_assignments(&vars);
    assert_eq!(all.len(), 4);
    let values: Vec<(Bit, Bit)> = all.iter().map(|a| (a.0[&1], a.0[&3])).collect();
    assert_eq!(
        values,
        vec![
            (Bit::Off, Bit::Off),
            (Bit::Off, Bit::On),
            (Bit::On, Bit::Off),
            (Bit::On, Bit::On)
        ]
    );
    for a in &all {
        assert_eq!(a.0.len(), 2);
    }
}

#[test]
fn one_variable_has_two_assignments() {
    let vars: HashSet<usize> = [5].into_iter().collect();
    let all = enumerate_all_assignments(&vars);
    assert_eq!(all.len(), 2);
    assert_eq!(all[0].0[&5], Bit::Off);
    assert_eq!(all[1].0[&5], Bit::On);
}

#[test]
fn no_variables_have_no_assignment() {
    assert!(enumerate_all_assignments(&HashSet::new()).is_empty());
}

#[test]
fn many_variables_are_taken_in_ascending_order() {
    let vars: HashSet<usize> = [40, 7, 19, 2, 11].into_iter().collect();
    let all = enumerate_all_assignments(&vars);
    assert_eq!(all.len(), 32);
    let order = [2, 7, 11, 19, 40];
    for (i, a) in all.iter().enumerate() {
        for (j, var) in order.iter().enumerate() {
            let expected = if (i >> (4 - j)) & 1 == 1 { Bit::On } else { Bit::Off };
            assert_eq!(a.0[var], expected);
        }
    }
}

#[test]
fn a_bitstring_needs_the_variables_from_zero_up() {
    assert_eq!(
        assignment(&[(0, Bit::On), (1, Bit::Off), (2, Bit::On)]).as_bitstring(),
        Some("101".to_string())
    );
    assert_eq!(assignment(&[]).as_bitstring(), Some(String::new()));
    assert_eq!(assignment(&[(0, Bit::On), (2, Bit::On)]).as_bitstring(), None);
    assert_eq!(assignment(&[(1, Bit::On)]).as_bitstring(), None);
}

#[test]
fn an_assignment_renders_its_variables_in_ascending_order() {
    assert_eq!(
        assignment(&[(10, Bit::On), (0, Bit::Off), (3, Bit::On)]).to_string(),
        "0:0, 3:1, 10:1, "
    );
    assert_eq!(assignment(&[]).to_string(), "");
    assert_eq!(assignment(&[(1234567, Bit::Off)]).to_string(), "1234567:0, ");
}

#[test]
fn equations_render_free_variables_and_formulas() {
    let eqs = solved(&matrix(&["11101", "00110", "11011", "00000"]));
    assert_eq!(
        eqs.to_string(),
        "Free vars: x_1, x_3, Equations:\nx_0 = 1 + x_1 + x_3\nx_2 = 0 + x_3\n"
    );
    let eqs = solved(&matrix(&["101", "010"]));
    assert_eq!(eqs.to_string(), "Free vars: Equations:\nx_0 = 1\nx_1 = 0\n");
}

#[test]
fn enumeration_is_refused_beyond_the_limit() {
    let eqs = solved(&matrix(&["11101", "00110", "11011", "00000"]));
    assert_eq!(
        eqs.enumerate_results_within(1).map(|all| all.len()),
        Err(ResourceLimitError { free_variables: 2, limit: 1 })
    );
    assert_eq!(
        eqs.enumerate_results_within(0).map(|all| all.len()),
        Err(ResourceLimitError { free_variables: 2, limit: 0 })
    );
    let all = eqs.enumerate_results_within(2).unwrap();
    assert_eq!(bitstrings(&all), vec!["1000", "0011", "0100", "1111"]);
    assert_eq!(eqs.enumerate_results_within(64).unwrap().len(), 4);
}

#[test]
fn a_copy_of_the_equations_has_the_same_solutions() {
    let eqs = solved(&matrix(&["11101", "00110", "11011", "00000"]));
    let copy = eqs.clone();
    assert_eq!(copy.free_variables(), eqs.free_variables());
    assert_eq!(copy.is_solvable(), eqs.is_solvable());
    assert_eq!(copy.to_string(), eqs.to_string());
    assert_eq!(bitstrings(&copy.enumerate_all_results()), bitstrings(&eqs.enumerate_all_results()));
}
