//! Solving a system from its augmented matrix, and choosing among the
//! solutions of a puzzle the one with the fewest presses.

use crate::bit::Bit;
use crate::board::{is_on, BoardAssignment, BoardDescription};
use crate::equations::{Assignment, Equations};
use crate::grid::{count_true, Position};
use crate::laws::{law_every_solution_is_enumerated, law_solutions_solve};
use crate::matrix::Matrix;
use crate::solution::{is_full, satisfies};
use std::collections::HashMap;
use vstd::arithmetic::power2::pow2;
use vstd::prelude::*;

verus! {

/// Finds every solution of the system whose augmented matrix is `matrix`:
/// the last column holds the constants of the equations, every other column
/// stands for a variable. The assignments returned are exactly the
/// assignments of all the variables that satisfy every equation, each once.
pub fn solve(matrix: Matrix) -> (solutions: Vec<Assignment>)
    requires
        matrix.wf(),
    ensures
        forall|i: int, j: int|
            0 <= i < j < solutions@.len() ==> (#[trigger] solutions@[i])@ != (
            #[trigger] solutions@[j])@,
        forall|a: Map<usize, Bit>|
            #![trigger is_full(a, (matrix.cols - 1) as nat)]
            (is_full(a, (matrix.cols - 1) as nat) && satisfies(
                matrix@,
                a,
                (matrix.cols - 1) as nat,
            )) <==> exists|i: int| 0 <= i < solutions@.len() && (#[trigger] solutions@[i])@ == a,
{
    let ghost system = matrix@;
    let ghost cols = matrix.cols as int;
    let ghost n = (cols - 1) as nat;
    let mut reduced = matrix;
    reduced.eliminate();
    let ghost echelon = reduced@;
    let eqs = Equations::new(reduced);
    let solutions = eqs.enumerate_all_results();
    proof {
        assert forall|a: Map<usize, Bit>|
            #![trigger is_full(a, n)]
            (is_full(a, n) && satisfies(system, a, n)) <==> exists|i: int|
                0 <= i < solutions@.len() && (#[trigger] solutions@[i])@ == a by {
            if is_full(a, n) && satisfies(system, a, n) {
                law_every_solution_is_enumerated(eqs, system, echelon, cols, a);
                let i = choose|i: nat| i < pow2(eqs.free().len()) && #[trigger] eqs.solution(i) == a;
                assert(solutions@[i as int]@ == a);
            }
            if exists|i: int| 0 <= i < solutions@.len() && (#[trigger] solutions@[i])@ == a {
                let i = choose|i: int|
                    0 <= i < solutions@.len() && (#[trigger] solutions@[i])@ == a;
                assert(eqs.solvable());
                law_solutions_solve(eqs, system, echelon, cols, i as nat);
            }
        }
    }
    solutions
}

/// The number of lights of `shown` whose bit is `On`.
pub open spec fn presses(shown: BoardAssignment) -> nat {
    count_true(shown.bits().cells().map_values(|bit: Option<Bit>| is_on(bit)))
}

/// `count` is the number of presses of a board that shows `result`.
pub open spec fn is_press_count(
    board: &BoardDescription,
    result: Map<usize, Bit>,
    locations: Map<usize, Position>,
    count: nat,
) -> bool {
    exists|shown: BoardAssignment| #[trigger]
        board.is_shown(result, locations, shown) && count == presses(shown)
}

/// `counts` holds, for each of `results`, the number of presses of a board
/// that shows it.
pub open spec fn counts_presses(
    board: &BoardDescription,
    results: Seq<Assignment>,
    locations: Map<usize, Position>,
    counts: Seq<nat>,
) -> bool {
    &&& counts.len() == results.len()
    &&& forall|j: int|
        0 <= j < results.len() ==> is_press_count(board, results[j]@, locations, #[trigger] counts[j])
}

/// Each of `results` gives a bit to every variable that has a location,
/// and every location lies on the board.
pub open spec fn can_be_shown(
    board: &BoardDescription,
    results: Seq<Assignment>,
    locations: Map<usize, Position>,
) -> bool {
    &&& forall|i: usize| #[trigger]
        locations.contains_key(i) ==> locations[i].in_bounds(&board.lights())
    &&& forall|j: int, i: usize|
        #![trigger results[j], locations.contains_key(i)]
        0 <= j < results.len() && locations.contains_key(i) ==> results[j]@.contains_key(i)
}

/// Chooses among `results` the first with the fewest presses, and returns
/// its number of presses, the board that shows it, and its index. There is
/// none to choose if `results` is empty.
pub fn fewest_presses(
    board: &BoardDescription,
    results: &Vec<Assignment>,
    locations: &HashMap<usize, Position>,
) -> (best: Option<(usize, BoardAssignment, usize)>)
    requires
        board.wf(),
        can_be_shown(board, results@, locations@),
    ensures
        best is None <==> results@.len() == 0,
        best matches Some((moves, shown, index)) ==> {
            &&& index < results@.len()
            &&& board.is_shown(results@[index as int]@, locations@, shown)
            &&& moves == presses(shown)
            &&& exists|counts: Seq<nat>|
                {
                    &&& #[trigger] counts_presses(board, results@, locations@, counts)
                    &&& counts[index as int] == moves
                    &&& forall|j: int| 0 <= j < counts.len() ==> #[trigger] counts[j] >= moves
                    &&& forall|j: int| 0 <= j < index ==> #[trigger] counts[j] > moves
                }
        },
{
    let mut min_moves_board_count: Option<(usize, BoardAssignment, usize)> = None;
    let ghost mut counts: Seq<nat> = Seq::empty();
    let mut count: usize = 0;
    while count < results.len()
        invariant
            board.wf(),
            count <= results@.len(),
            can_be_shown(board, results@, locations@),
            counts.len() == count,
            forall|j: int|
                0 <= j < count ==> is_press_count(
                    board,
                    results@[j]@,
                    locations@,
                    #[trigger] counts[j],
                ),
            min_moves_board_count is None <==> count == 0,
            min_moves_board_count matches Some((moves, shown, index)) ==> {
                &&& index < count
                &&& board.is_shown(results@[index as int]@, locations@, shown)
                &&& moves == presses(shown)
                &&& counts[index as int] == moves
                &&& forall|j: int| 0 <= j < count ==> #[trigger] counts[j] >= moves
                &&& forall|j: int| 0 <= j < index ==> #[trigger] counts[j] > moves
            },
        decreases results@.len() - count,
    {
        let assignment = Assignment(results[count].0.clone());
        proof {
            assert(assignment@ == results@[count as int]@);
            assert forall|i: usize| #[trigger] locations@.contains_key(i) implies assignment@.contains_key(
                i,
            ) && locations@[i].in_bounds(&board.lights()) by {
                assert(results@[count as int]@.contains_key(i));
            }
        }
        let assigned_board = board.assign_assignment(assignment, locations);
        let ones = assigned_board.count_ones();
        proof {
            let earlier = counts;
            counts = counts.push(ones as nat);
            assert(board.is_shown(results@[count as int]@, locations@, assigned_board));
            assert forall|j: int| 0 <= j < count + 1 implies is_press_count(
                board,
                results@[j]@,
                locations@,
                #[trigger] counts[j],
            ) by {
                if j < count {
                    assert(counts[j] == earlier[j]);
                }
            }
        }
        let replace = match &min_moves_board_count {
            Some((min_moves, _, _)) => ones < *min_moves,
            None => true,
        };
        if replace {
            min_moves_board_count = Some((ones, assigned_board, count));
        }
        count += 1;
    }
    proof {
        if min_moves_board_count is Some {
            assert(counts_presses(board, results@, locations@, counts));
        }
    }
    min_moves_board_count
}

} // verus!
