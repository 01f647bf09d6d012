//! Boards of lights: which cells exist, how each is lit, and which
//! neighbours a press toggles.

use crate::bit::Bit;
use crate::error::ShapeError;
use crate::grid::{count_true, lemma_cell_index, Direction, Grid, Position};
use crate::lexing::{eof, newline, one_of};
use crate::equations::Assignment;
use crate::matrix::Matrix;
use std::collections::HashMap;
use crate::text::{decimal_digits, push_decimal};
use vstd::prelude::*;
use vstd::std_specs::iter::IteratorSpec;
use vstd::string::StringExecFns;

verus! {

broadcast use vstd::std_specs::hash::group_hash_axioms;

/// A light: the neighbours that pressing it toggles besides itself, and
/// whether it is lit at the start.
#[derive(Clone, Copy, Debug, PartialEq, Eq, Structural)]
pub struct Cell {
    pub affects_up: bool,
    pub affects_down: bool,
    pub affects_left: bool,
    pub affects_right: bool,
    pub starting_value: Bit,
}

/// A board as it is at the start: a grid in which each position holds a
/// light or nothing.
#[derive(Clone, Debug)]
pub struct BoardDescription {
    grid: Grid<Option<Cell>>,
}

/// A bit for every light of a board.
#[derive(Clone, Debug)]
pub struct BoardAssignment {
    grid: Grid<Option<Bit>>,
}

impl Cell {
    /// A light that toggles the neighbours named, with the starting value
    /// given.
    pub fn new(
        affects_up: bool,
        affects_down: bool,
        affects_left: bool,
        affects_right: bool,
        starting_value: Bit,
    ) -> (cell: Cell)
        ensures
            cell == (Cell {
                affects_up,
                affects_down,
                affects_left,
                affects_right,
                starting_value,
            }),
    {
        Cell { affects_up, affects_down, affects_left, affects_right, starting_value }
    }

    /// A light that toggles all four neighbours.
    pub fn new_basic(b: Bit) -> (cell: Cell)
        ensures
            cell == (Cell {
                affects_up: true,
                affects_down: true,
                affects_left: true,
                affects_right: true,
                starting_value: b,
            }),
    {
        Cell::new(true, true, true, true, b)
    }

    /// Whether pressing the light toggles its neighbour in direction `dir`.
    pub open spec fn reaches(self, dir: Direction) -> bool {
        match dir {
            Direction::Up => self.affects_up,
            Direction::Down => self.affects_down,
            Direction::Left => self.affects_left,
            Direction::Right => self.affects_right,
        }
    }

    /// Whether pressing the light toggles its neighbour in direction `dir`.
    pub fn affects(&self, dir: Direction) -> (reached: bool)
        ensures
            reached == self.reaches(dir),
    {
        match dir {
            Direction::Up => self.affects_up,
            Direction::Down => self.affects_down,
            Direction::Left => self.affects_left,
            Direction::Right => self.affects_right,
        }
    }
}

/// Whether the position holds a light that is lit.
pub open spec fn is_lit(cell: Option<Cell>) -> bool {
    cell matches Some(c) && c.starting_value == Bit::On
}

/// Whether the position holds the bit `On`.
pub open spec fn is_on(bit: Option<Bit>) -> bool {
    bit == Some(Bit::On)
}

/// If `flags` tells of each entry of `cells` whether `pred` holds of it,
/// then `flags` is `cells` mapped by `pred`.
proof fn lemma_flags_are_map<V>(cells: Seq<V>, flags: Seq<bool>, pred: spec_fn(V) -> bool)
    requires
        flags.len() == cells.len(),
        forall|i: int| 0 <= i < flags.len() ==> #[trigger] flags[i] == pred(cells[i]),
    ensures
        flags == cells.map_values(pred),
{
    assert(flags =~= cells.map_values(pred));
}

impl BoardAssignment {
    /// The grid of bits.
    pub closed spec fn bits(&self) -> Grid<Option<Bit>> {
        self.grid
    }

    /// Counts the lights whose bit is `On`.
    pub fn count_ones(&self) -> (n: usize)
        ensures
            n == count_true(self.bits().cells().map_values(|bit: Option<Bit>| is_on(bit))),
    {
        let lit = |oc: &Option<Bit>| -> (on: bool)
            ensures
                on == is_on(*oc),
            {
                match oc {
                    Some(c) => *c == Bit::On,
                    None => false,
                }
            };
        let n = self.grid.count(lit);
        proof {
            let cells = self.grid.cells();
            let flags = choose|flags: Seq<bool>|
                {
                    &&& flags.len() == cells.len()
                    &&& forall|i: int|
                        0 <= i < flags.len() ==> call_ensures(lit, (&cells[i],), #[trigger] flags[i])
                    &&& n == count_true(flags)
                };
            lemma_flags_are_map(cells, flags, |bit: Option<Bit>| is_on(bit));
        }
        n
    }
}

impl BoardDescription {
    /// The grid of lights.
    pub closed spec fn lights(&self) -> Grid<Option<Cell>> {
        self.grid
    }

    /// The board has at least one position.
    pub open spec fn wf(&self) -> bool {
        self.lights().wf()
    }

    /// Counts the lights that are lit at the start.
    pub fn count_ones(&self) -> (n: usize)
        ensures
            n == count_true(self.lights().cells().map_values(|cell: Option<Cell>| is_lit(cell))),
    {
        let lit = |oc: &Option<Cell>| -> (on: bool)
            ensures
                on == is_lit(*oc),
            {
                match oc {
                    Some(c) => c.starting_value == Bit::On,
                    None => false,
                }
            };
        let n = self.grid.count(lit);
        proof {
            let cells = self.grid.cells();
            let flags = choose|flags: Seq<bool>|
                {
                    &&& flags.len() == cells.len()
                    &&& forall|i: int|
                        0 <= i < flags.len() ==> call_ensures(lit, (&cells[i],), #[trigger] flags[i])
                    &&& n == count_true(flags)
                };
            lemma_flags_are_map(cells, flags, |cell: Option<Cell>| is_lit(cell));
        }
        n
    }

    /// The number of rows of the board.
    pub fn height(&self) -> (height: usize)
        ensures
            height == self.lights().spec_height(),
    {
        self.grid.get_height()
    }

    /// The number of columns of the board.
    pub fn width(&self) -> (width: usize)
        ensures
            width == self.lights().spec_width(),
    {
        self.grid.get_width()
    }

    /// The light at `pos`, if the position holds one. The position must lie
    /// on the board.
    pub fn cell_at(&self, pos: Position) -> (cell: Option<Cell>)
        requires
            self.wf(),
            pos.in_bounds(&self.lights()),
        ensures
            cell == self.lights().cell(pos.row as int, pos.col as int),
    {
        *self.grid.get(pos)
    }

    /// Puts `cell` at `pos`, which must lie on the board.
    pub fn set_cell(&mut self, pos: Position, cell: Option<Cell>)
        requires
            old(self).wf(),
            pos.in_bounds(&old(self).lights()),
        ensures
            final(self).wf(),
            final(self).lights().spec_width() == old(self).lights().spec_width(),
            final(self).lights().spec_height() == old(self).lights().spec_height(),
            final(self).lights().cells() == old(self).lights().cells().update(
                pos.row * old(self).lights().spec_width() + pos.col,
                cell,
            ),
    {
        self.grid.set(pos, cell);
    }
}

/// A row of `n` entries, all `Off`.
fn zero_row(n: usize) -> (row: Vec<Bit>)
    ensures
        row@.len() == n,
        forall|j: int| 0 <= j < n ==> row@[j] == Bit::Off,
{
    let mut row: Vec<Bit> = Vec::new();
    let mut j: usize = 0;
    while j < n
        invariant
            j <= n,
            row@.len() == j,
            forall|k: int| 0 <= k < j ==> row@[k] == Bit::Off,
        decreases n - j,
    {
        row.push(Bit::Off);
        j += 1;
    }
    row
}

impl BoardDescription {
    /// The position that is the `k`-th of the board, counted row by row.
    pub open spec fn position_of(&self, k: int) -> Position {
        Position {
            row: (k / self.lights().spec_width() as int) as usize,
            col: (k % self.lights().spec_width() as int) as usize,
        }
    }

    /// The place of `pos` among the positions of the board, counted row by
    /// row.
    pub open spec fn place_of(&self, pos: Position) -> int {
        pos.row * self.lights().spec_width() + pos.col
    }

    /// The positions among the first `k` of the board that hold a light, in
    /// order.
    pub open spec fn lights_before(&self, k: nat) -> Seq<Position>
        decreases k,
    {
        if k == 0 {
            Seq::empty()
        } else {
            let before = self.lights_before((k - 1) as nat);
            if self.lights().cells()[k - 1] is Some {
                before.push(self.position_of(k - 1))
            } else {
                before
            }
        }
    }

    /// The positions that hold a light, row by row. Its place in this
    /// sequence is the light's variable.
    pub open spec fn light_positions(&self) -> Seq<Position> {
        self.lights_before(self.lights().cells().len())
    }

    /// What the position `pos` holds.
    pub open spec fn light_at(&self, pos: Position) -> Option<Cell> {
        self.lights().cell(pos.row as int, pos.col as int)
    }

    /// The light at `a` toggles its neighbour in direction `dir`, which is
    /// the position `b`.
    pub open spec fn pushes(&self, a: Position, b: Position, dir: Direction) -> bool {
        &&& self.light_at(a) matches Some(c)
        &&& c.reaches(dir)
        &&& a.step(&self.lights(), dir) == Some(b)
    }

    /// Pressing the light at `a` toggles the position `b`: they are the same
    /// position, or `b` is a neighbour that the light at `a` toggles.
    pub open spec fn toggles(&self, a: Position, b: Position) -> bool {
        ||| a == b
        ||| self.pushes(a, b, Direction::Up)
        ||| self.pushes(a, b, Direction::Down)
        ||| self.pushes(a, b, Direction::Left)
        ||| self.pushes(a, b, Direction::Right)
    }

    /// `matrix` and `locations` state the puzzle as a linear system: one
    /// variable and one row for each light, in the order of
    /// `light_positions`. Row `i` holds `On` in the column of each light
    /// that a press of light `i` toggles, light `i` itself among them, and
    /// its constant is `On` exactly if light `i` is unlit.
    pub open spec fn is_system(&self, matrix: Matrix, locations: Map<usize, Position>) -> bool {
        let at = self.light_positions();
        &&& matrix.wf()
        &&& matrix.rows == at.len()
        &&& matrix.cols == at.len() + 1
        &&& forall|i: int, j: int|
            #![trigger matrix@[i][j]]
            0 <= i < at.len() && 0 <= j < at.len() ==> matrix@[i][j] == if self.toggles(at[i], at[j]) {
                Bit::On
            } else {
                Bit::Off
            }
        &&& forall|i: int|
            0 <= i < at.len() ==> (#[trigger] matrix@[i])[at.len() as int] == self.light_at(
                at[i],
            ).unwrap().starting_value.xor(Bit::On)
        &&& forall|k: usize| #[trigger] locations.contains_key(k) <==> k < at.len()
        &&& forall|k: usize| k < at.len() ==> #[trigger] locations[k] == at[k as int]
    }

    /// `order` lists positions on the board, and `index_of` gives for each
    /// place on the board the index in `order` of its position, if it is
    /// listed.
    spec fn indexed(&self, order: Seq<Position>, index_of: Seq<Option<usize>>, upto: int) -> bool {
        &&& index_of.len() == upto
        &&& forall|j: int|
            0 <= j < order.len() ==> {
                &&& (#[trigger] order[j]).in_bounds(&self.lights())
                &&& self.place_of(order[j]) < upto
                &&& index_of[self.place_of(order[j])] == Some(j as usize)
            }
        &&& forall|c: int|
            0 <= c < upto ==> (#[trigger] index_of[c] matches Some(j) ==> j < order.len()
                && order[j as int] == self.position_of(c))
    }

    /// Marks in `row` the variable of the neighbour in direction `dir` of
    /// the light at `from`, if the light toggles that neighbour.
    fn mark_neighbour(
        &self,
        row: &mut Vec<Bit>,
        from: Position,
        cell: Cell,
        dir: Direction,
        order: &Vec<Position>,
        index_of: &Vec<Option<usize>>,
    )
        requires
            self.wf(),
            self.indexed(order@, index_of@, self.lights().cells().len() as int),
            from.in_bounds(&self.lights()),
            self.light_at(from) == Some(cell),
            old(row)@.len() == order@.len(),
        ensures
            final(row)@.len() == old(row)@.len(),
            forall|j: int|
                0 <= j < order@.len() ==> (#[trigger] final(row)@[j] == Bit::On <==> old(row)@[j]
                    == Bit::On || self.pushes(from, order@[j], dir)),
    {
        let width = self.grid.get_width();
        proof {
            self.grid.lemma_dimensions_fit();
            assert(index_of.len() == index_of@.len());
            assert(order.len() == order@.len());
        }
        match from.step_in_bounds(&self.grid, dir) {
            Some(adjacent) => {
                proof {
                    lemma_cell_index(
                        self.lights().spec_width() as int,
                        self.lights().spec_height() as int,
                        adjacent.row as int,
                        adjacent.col as int,
                    );
                }
                match index_of[adjacent.row * width + adjacent.col] {
                    Some(adjacent_index) => {
                        if cell.affects(dir) {
                            row[adjacent_index] = Bit::On;
                        }
                        proof {
                            assert(order@[adjacent_index as int] == adjacent);
                            assert forall|j: int| 0 <= j < order@.len() implies (
                            #[trigger] row@[j] == Bit::On <==> old(row)@[j] == Bit::On
                                || self.pushes(from, order@[j], dir)) by {
                                if order@[j] == adjacent {
                                    assert(index_of@[self.place_of(order@[j])] == Some(j as usize));
                                }
                            }
                        }
                    },
                    None => {
                        proof {
                            assert forall|j: int| 0 <= j < order@.len() implies !self.pushes(
                                from,
                                #[trigger] order@[j],
                                dir,
                            ) by {
                                if order@[j] == adjacent {
                                    assert(index_of@[self.place_of(order@[j])] == Some(j as usize));
                                }
                            }
                        }
                    },
                }
            },
            None => {},
        }
    }

    /// States the puzzle as a linear system over GF(2): the augmented
    /// matrix, and the position of the light that each variable stands for.
    /// A board without a light has no system.
    pub fn to_matrix(&self) -> (made: Result<(Matrix, HashMap<usize, Position>), ShapeError>)
        requires
            self.wf(),
            self.lights().cells().len() < usize::MAX,
        ensures
            self.light_positions().len() == 0 ==> made == Err::<
                (Matrix, HashMap<usize, Position>),
                ShapeError,
            >(ShapeError::Empty),
            self.light_positions().len() > 0 ==> (made matches Ok(system) && self.is_system(
                system.0,
                system.1@,
            )),
    {
        let width = self.grid.get_width();
        let height = self.grid.get_height();
        let ghost total = self.lights().cells().len() as int;
        let mut indexed_locations: HashMap<usize, Position> = HashMap::new();
        let mut order: Vec<Position> = Vec::new();
        let mut indexed_values: Vec<Cell> = Vec::new();
        let mut index_of: Vec<Option<usize>> = Vec::new();
        let mut count: usize = 0;
        let mut row: usize = 0;
        while row < height
            invariant
                self.wf(),
                width == self.lights().spec_width(),
                height == self.lights().spec_height(),
                total == width * height,
                total < usize::MAX,
                row <= height,
                count == order@.len(),
                count == indexed_values@.len(),
                count <= row * width,
                order@ == self.lights_before((row * width) as nat),
                self.indexed(order@, index_of@, row * width),
                forall|j: int|
                    0 <= j < count ==> self.light_at(#[trigger] order@[j]) == Some(
                        indexed_values@[j],
                    ),
                forall|k: usize| #[trigger] indexed_locations@.contains_key(k) <==> k < count,
                forall|k: usize| k < count ==> #[trigger] indexed_locations@[k] == order@[k as int],
            decreases height - row,
        {
            let mut col: usize = 0;
            while col < width
                invariant
                    self.wf(),
                    width == self.lights().spec_width(),
                    height == self.lights().spec_height(),
                    total == width * height,
                    total < usize::MAX,
                    row < height,
                    col <= width,
                    count == order@.len(),
                    count == indexed_values@.len(),
                    count <= row * width + col,
                    order@ == self.lights_before((row * width + col) as nat),
                    self.indexed(order@, index_of@, row * width + col),
                    forall|j: int|
                        0 <= j < count ==> self.light_at(#[trigger] order@[j]) == Some(
                            indexed_values@[j],
                        ),
                    forall|k: usize| #[trigger] indexed_locations@.contains_key(k) <==> k < count,
                    forall|k: usize|
                        k < count ==> #[trigger] indexed_locations@[k] == order@[k as int],
                decreases width - col,
            {
                let pos = Position::new(row, col);
                let ghost place = row * width + col;
                let ghost earlier = order@;
                let ghost earlier_index = index_of@;
                proof {
                    lemma_cell_index(width as int, height as int, row as int, col as int);
                    assert(self.position_of(place) == pos);
                    assert(self.lights().cell(row as int, col as int) == self.lights().cells()[place]);
                }
                match self.grid.get(pos) {
                    Some(b) => {
                        indexed_locations.insert(count, pos);
                        order.push(pos);
                        indexed_values.push(*b);
                        index_of.push(Some(count));
                        count += 1;
                        proof {
                            assert forall|j: int| 0 <= j < order@.len() implies {
                                &&& (#[trigger] order@[j]).in_bounds(&self.lights())
                                &&& self.place_of(order@[j]) < place + 1
                                &&& index_of@[self.place_of(order@[j])] == Some(j as usize)
                            } by {
                                if j < earlier.len() {
                                    assert(order@[j] == earlier[j]);
                                    assert(earlier_index[self.place_of(earlier[j])] == Some(
                                        j as usize,
                                    ));
                                }
                            }
                            assert forall|c: int| 0 <= c < place + 1 implies (
                            #[trigger] index_of@[c] matches Some(j) ==> j < order@.len()
                                && order@[j as int] == self.position_of(c)) by {
                                if c < place {
                                    assert(index_of@[c] == earlier_index[c]);
                                    if let Some(j) = earlier_index[c] {
                                        assert(order@[j as int] == earlier[j as int]);
                                    }
                                }
                            }
                        }
                    },
                    None => {
                        index_of.push(None);
                        proof {
                            assert forall|j: int| 0 <= j < order@.len() implies {
                                &&& (#[trigger] order@[j]).in_bounds(&self.lights())
                                &&& self.place_of(order@[j]) < place + 1
                                &&& index_of@[self.place_of(order@[j])] == Some(j as usize)
                            } by {
                                assert(earlier_index[self.place_of(earlier[j])] == Some(j as usize));
                            }
                            assert forall|c: int| 0 <= c < place + 1 implies (
                            #[trigger] index_of@[c] matches Some(j) ==> j < order@.len()
                                && order@[j as int] == self.position_of(c)) by {
                                if c < place {
                                    assert(index_of@[c] == earlier_index[c]);
                                }
                            }
                        }
                    },
                }
                col += 1;
            }
            assert(row * width + width == (row + 1) * width) by (nonlinear_arith);
            row += 1;
        }
        assert(height * width == width * height) by (nonlinear_arith);
        assert(order@ == self.light_positions());
        let mut matrix_data: Vec<Vec<Bit>> = Vec::new();
        let mut var: usize = 0;
        while var < count
            invariant
                var <= count,
                matrix_data@.len() == var,
                forall|i: int| 0 <= i < var ==> (#[trigger] matrix_data@[i])@.len() == count,
                forall|i: int, j: int|
                    #![trigger matrix_data@[i]@[j]]
                    0 <= i < var && 0 <= j < count ==> matrix_data@[i]@[j] == Bit::Off,
            decreases count - var,
        {
            matrix_data.push(zero_row(count));
            var += 1;
        }
        let mut var: usize = 0;
        while var < count
            invariant
                self.wf(),
                var <= count,
                count == order@.len(),
                count == indexed_values@.len(),
                self.indexed(order@, index_of@, total),
                total == self.lights().cells().len(),
                forall|j: int|
                    0 <= j < count ==> self.light_at(#[trigger] order@[j]) == Some(
                        indexed_values@[j],
                    ),
                matrix_data@.len() == count,
                forall|i: int| 0 <= i < count ==> (#[trigger] matrix_data@[i])@.len() == count,
                forall|i: int, j: int|
                    #![trigger matrix_data@[i]@[j]]
                    var <= i < count && 0 <= j < count ==> matrix_data@[i]@[j] == Bit::Off,
                forall|i: int, j: int|
                    #![trigger matrix_data@[i]@[j]]
                    0 <= i < var && 0 <= j < count ==> matrix_data@[i]@[j] == if self.toggles(
                        order@[i],
                        order@[j],
                    ) {
                        Bit::On
                    } else {
                        Bit::Off
                    },
            decreases count - var,
        {
            let ghost before = matrix_data@;
            let this_pos = order[var];
            let this_cell = indexed_values[var];
            matrix_data[var][var] = Bit::On;
            let ghost diagonal = matrix_data@[var as int]@;
            self.mark_neighbour(
                &mut matrix_data[var],
                this_pos,
                this_cell,
                Direction::Up,
                &order,
                &index_of,
            );
            let ghost up = matrix_data@[var as int]@;
            self.mark_neighbour(
                &mut matrix_data[var],
                this_pos,
                this_cell,
                Direction::Down,
                &order,
                &index_of,
            );
            let ghost down = matrix_data@[var as int]@;
            self.mark_neighbour(
                &mut matrix_data[var],
                this_pos,
                this_cell,
                Direction::Left,
                &order,
                &index_of,
            );
            let ghost left = matrix_data@[var as int]@;
            self.mark_neighbour(
                &mut matrix_data[var],
                this_pos,
                this_cell,
                Direction::Right,
                &order,
                &index_of,
            );
            proof {
                let done = matrix_data@[var as int]@;
                assert forall|i: int| 0 <= i < count && i != var implies #[trigger] matrix_data@[i]
                    == before[i] by {}
                assert forall|j: int| 0 <= j < count implies #[trigger] done[j] == if self.toggles(
                    order@[var as int],
                    order@[j],
                ) {
                    Bit::On
                } else {
                    Bit::Off
                } by {
                    assert(before[var as int]@[j] == Bit::Off);
                    assert(diagonal[j] == Bit::On <==> j == var);
                    assert(up[j] == Bit::On <==> diagonal[j] == Bit::On || self.pushes(
                        this_pos,
                        order@[j],
                        Direction::Up,
                    ));
                    assert(down[j] == Bit::On <==> up[j] == Bit::On || self.pushes(
                        this_pos,
                        order@[j],
                        Direction::Down,
                    ));
                    assert(left[j] == Bit::On <==> down[j] == Bit::On || self.pushes(
                        this_pos,
                        order@[j],
                        Direction::Left,
                    ));
                    assert(done[j] == Bit::On <==> left[j] == Bit::On || self.pushes(
                        this_pos,
                        order@[j],
                        Direction::Right,
                    ));
                    if order@[j] == this_pos {
                        assert(index_of@[self.place_of(order@[j])] == Some(j as usize));
                        assert(index_of@[self.place_of(order@[var as int])] == Some(var));
                    }
                }
            }
            var += 1;
        }
        let ghost coefficients = matrix_data@;
        let mut constant_row: Vec<Bit> = Vec::new();
        let mut i: usize = 0;
        while i < count
            invariant
                i <= count,
                count == order@.len(),
                count == indexed_values@.len(),
                constant_row@.len() == i,
                forall|j: int|
                    0 <= j < count ==> self.light_at(#[trigger] order@[j]) == Some(
                        indexed_values@[j],
                    ),
                forall|j: int|
                    0 <= j < i ==> #[trigger] constant_row@[j] == self.light_at(
                        order@[j],
                    ).unwrap().starting_value.xor(Bit::On),
            decreases count - i,
        {
            constant_row.push(indexed_values[i].starting_value + Bit::On);
            i += 1;
        }
        let mut almost_matrix = match Matrix::new(matrix_data, count, count) {
            Ok(matrix) => matrix,
            Err(fault) => {
                return Err(fault);
            },
        };
        match almost_matrix.augment_column(constant_row.as_slice()) {
            Ok(()) => {},
            Err(fault) => {
                return Err(fault);
            },
        }
        proof {
            let m = almost_matrix@;
            assert forall|i: int, j: int|
                #![trigger m[i][j]]
                0 <= i < count && 0 <= j < count implies m[i][j] == if self.toggles(
                order@[i],
                order@[j],
            ) {
                Bit::On
            } else {
                Bit::Off
            } by {
                assert(m[i] == coefficients[i]@.push(constant_row@[i]));
                assert(coefficients[i]@[j] == if self.toggles(order@[i], order@[j]) {
                    Bit::On
                } else {
                    Bit::Off
                });
            }
            assert forall|i: int| 0 <= i < count implies (#[trigger] m[i])[count as int]
                == self.light_at(order@[i]).unwrap().starting_value.xor(Bit::On) by {
                assert(m[i] == coefficients[i]@.push(constant_row@[i]));
                assert(coefficients[i]@.len() == count);
            }
        }
        Ok((almost_matrix, indexed_locations))
    }
}

/// What a position of the board shows before any bit is assigned: the
/// starting value of its light, if it holds one.
pub open spec fn starting_bit(cell: Option<Cell>) -> Option<Bit> {
    match cell {
        Some(c) => Some(c.starting_value),
        None => None,
    }
}

impl BoardDescription {
    /// After the first `upto` of `pairs` were put on the board, each place
    /// shows the bit of a variable among them whose position it is, or else
    /// what it showed at first.
    spec fn shows(
        &self,
        pairs: Seq<(usize, Position)>,
        upto: int,
        a: Map<usize, Bit>,
        initial: Seq<Option<Bit>>,
        cells: Seq<Option<Bit>>,
    ) -> bool {
        forall|p: int|
            0 <= p < initial.len() ==> if exists|k: int|
                0 <= k < upto && self.place_of((#[trigger] pairs[k]).1) == p {
                exists|k: int|
                    0 <= k < upto && self.place_of((#[trigger] pairs[k]).1) == p && cells[p] == Some(
                        a[pairs[k].0],
                    )
            } else {
                #[trigger] cells[p] == initial[p]
            }
    }

    /// `assigned` shows the bits of `assignment` on this board: it has the
    /// shape of the board, a position that `locations` gives for a variable
    /// shows the bit of such a variable, and every other position shows the
    /// starting value of its light.
    pub open spec fn is_shown(
        &self,
        assignment: Map<usize, Bit>,
        locations: Map<usize, Position>,
        assigned: BoardAssignment,
    ) -> bool {
        &&& assigned.bits().wf()
        &&& assigned.bits().spec_width() == self.lights().spec_width()
        &&& assigned.bits().spec_height() == self.lights().spec_height()
        &&& forall|p: int|
            0 <= p < self.lights().cells().len() ==> {
                let shown = #[trigger] assigned.bits().cells()[p];
                if exists|i: usize|
                    locations.contains_key(i) && self.place_of(#[trigger] locations[i]) == p {
                    exists|i: usize|
                        locations.contains_key(i) && self.place_of(#[trigger] locations[i]) == p
                            && shown == Some(assignment[i])
                } else {
                    shown == starting_bit(self.lights().cells()[p])
                }
            }
    }

    /// Puts the bits of `assignment` on the board: the position that
    /// `indexed_locations` gives for a variable gets the bit of that
    /// variable, and every other position shows the starting value of its
    /// light. Where two variables have the same position, the bit of one of
    /// them is shown.
    pub fn assign_assignment(
        &self,
        assignment: Assignment,
        indexed_locations: &HashMap<usize, Position>,
    ) -> (assigned: BoardAssignment)
        requires
            self.wf(),
            forall|i: usize| #[trigger]
                indexed_locations@.contains_key(i) ==> assignment@.contains_key(i)
                    && indexed_locations@[i].in_bounds(&self.lights()),
        ensures
            self.is_shown(assignment@, indexed_locations@, assigned),
    {
        let start = |oc: &Option<Cell>| -> (bit: Option<Bit>)
            ensures
                bit == starting_bit(*oc),
            {
                match oc {
                    Some(c) => Some(c.starting_value),
                    None => None,
                }
            };
        let mut new_grid = self.grid.map(start);
        let ghost initial = new_grid.cells();
        let ghost entries = indexed_locations.iter().remaining();
        let ghost pairs = Seq::new(entries.len(), |k: int| (*entries[k].0, *entries[k].1));
        proof {
            vstd::std_specs::hash::axiom_spec_hash_map_iter(indexed_locations);
        }
        for entry in it: indexed_locations.iter()
            invariant
                self.wf(),
                new_grid.wf(),
                new_grid.spec_width() == self.lights().spec_width(),
                new_grid.spec_height() == self.lights().spec_height(),
                new_grid.cells().len() == self.lights().cells().len(),
                initial.len() == self.lights().cells().len(),
                it.seq() == entries,
                pairs.len() == entries.len(),
                forall|k: int|
                    0 <= k < entries.len() ==> (#[trigger] pairs[k]) == (
                        *entries[k].0,
                        *entries[k].1,
                    ),
                forall|k: int|
                    0 <= k < pairs.len() ==> indexed_locations@.contains_key((#[trigger] pairs[k]).0)
                        && indexed_locations@[pairs[k].0] == pairs[k].1,
                forall|i: usize| #[trigger]
                    indexed_locations@.contains_key(i) ==> assignment@.contains_key(i)
                        && indexed_locations@[i].in_bounds(&self.lights()),
                self.shows(pairs, it.index(), assignment@, initial, new_grid.cells()),
        {
            let ghost k0 = it.index();
            let ghost before = new_grid.cells();
            let (i, loc) = entry;
            assert(pairs[k0] == (*i, *loc));
            assert(indexed_locations@.contains_key(*i));
            match assignment.0.get(i) {
                Some(bit) => {
                    new_grid.set(*loc, Some(*bit));
                },
                None => {},
            }
            proof {
                let q = self.place_of(*loc);
                let cells = new_grid.cells();
                lemma_cell_index(
                    self.lights().spec_width() as int,
                    self.lights().spec_height() as int,
                    loc.row as int,
                    loc.col as int,
                );
                assert forall|p: int| 0 <= p < initial.len() implies if exists|k: int|
                    0 <= k < k0 + 1 && self.place_of((#[trigger] pairs[k]).1) == p {
                    exists|k: int|
                        0 <= k < k0 + 1 && self.place_of((#[trigger] pairs[k]).1) == p && cells[p]
                            == Some(assignment@[pairs[k].0])
                } else {
                    #[trigger] cells[p] == initial[p]
                } by {
                    if p == q {
                        assert(self.place_of(pairs[k0].1) == p);
                    } else {
                        assert(cells[p] == before[p]);
                        if exists|k: int|
                            0 <= k < k0 && self.place_of((#[trigger] pairs[k]).1) == p {
                            let k = choose|k: int|
                                0 <= k < k0 && self.place_of((#[trigger] pairs[k]).1) == p
                                    && before[p] == Some(assignment@[pairs[k].0]);
                            assert(self.place_of(pairs[k].1) == p);
                        }
                    }
                }
            }
        }
        proof {
            let cells = new_grid.cells();
            assert forall|p: int| 0 <= p < self.lights().cells().len() implies {
                let shown = #[trigger] cells[p];
                if exists|i: usize|
                    indexed_locations@.contains_key(i) && self.place_of(
                        #[trigger] indexed_locations@[i],
                    ) == p {
                    exists|i: usize|
                        indexed_locations@.contains_key(i) && self.place_of(
                            #[trigger] indexed_locations@[i],
                        ) == p && shown == Some(assignment@[i])
                } else {
                    shown == starting_bit(self.lights().cells()[p])
                }
            } by {
                if exists|i: usize|
                    indexed_locations@.contains_key(i) && self.place_of(
                        #[trigger] indexed_locations@[i],
                    ) == p {
                    let i = choose|i: usize|
                        indexed_locations@.contains_key(i) && self.place_of(
                            #[trigger] indexed_locations@[i],
                        ) == p;
                    assert(entries.contains((&i, &indexed_locations@[i])));
                    let k = choose|k: int|
                        0 <= k < entries.len() && entries[k] == (&i, &indexed_locations@[i]);
                    assert(self.place_of(pairs[k].1) == p);
                    let k2 = choose|k2: int|
                        0 <= k2 < pairs.len() && self.place_of((#[trigger] pairs[k2]).1) == p
                            && cells[p] == Some(assignment@[pairs[k2].0]);
                    assert(self.place_of(indexed_locations@[pairs[k2].0]) == p);
                } else {
                    if exists|k: int|
                        0 <= k < pairs.len() && self.place_of((#[trigger] pairs[k]).1) == p {
                        let k = choose|k: int|
                            0 <= k < pairs.len() && self.place_of((#[trigger] pairs[k]).1) == p;
                        assert(self.place_of(indexed_locations@[pairs[k].0]) == p);
                    }
                }
            }
        }
        BoardAssignment { grid: new_grid }
    }
}

/// The characters that a line of a board is made of: `0` for an unlit
/// light, `1` for a lit one, a space for a position without a light.
pub open spec fn is_cell_char(c: char) -> bool {
    c == '0' || c == '1' || c == ' '
}

/// What a character of a board stands for.
pub open spec fn bit_of(c: char) -> Option<Bit> {
    if c == '0' {
        Some(Bit::Off)
    } else if c == '1' {
        Some(Bit::On)
    } else {
        None
    }
}

/// The position that a character of a board describes: a light that
/// toggles all its neighbours, or nothing.
pub open spec fn cell_of(c: char) -> Option<Cell> {
    match bit_of(c) {
        Some(b) => Some(
            Cell {
                affects_up: true,
                affects_down: true,
                affects_left: true,
                affects_right: true,
                starting_value: b,
            },
        ),
        None => None,
    }
}

/// The end of the line that starts at `from`: the first index at or after
/// `from` whose character is not one of a board's, or the length of `s`.
pub open spec fn line_end(s: Seq<char>, from: int) -> int
    decreases s.len() - from,
{
    if from >= s.len() {
        s.len() as int
    } else if is_cell_char(s[from]) {
        line_end(s, from + 1)
    } else {
        from
    }
}

/// Whether another line follows the line that ends at `end`: a line feed
/// and at least one character of a board.
pub open spec fn line_follows(s: Seq<char>, end: int) -> bool {
    0 <= end && end + 1 < s.len() && s[end] == '\n' && is_cell_char(s[end + 1])
}

/// The start of the last of the lines that begin at `from`, each
/// separated from the next by one line feed.
pub open spec fn last_line_start(s: Seq<char>, from: int) -> int
    decreases s.len() - from,
{
    if 0 <= from && line_follows(s, line_end(s, from)) && line_end(s, from) >= from {
        last_line_start(s, line_end(s, from) + 1)
    } else {
        from
    }
}

/// The starts of the lines that begin at `from`.
pub open spec fn line_starts(s: Seq<char>, from: int) -> Seq<int>
    decreases s.len() - from,
{
    if 0 <= from && line_follows(s, line_end(s, from)) && line_end(s, from) >= from {
        seq![from] + line_starts(s, line_end(s, from) + 1)
    } else {
        seq![from]
    }
}

/// Whether `s` is the text of a board: one or more lines, none of them
/// empty, separated by single line feeds, and at most one line feed at the
/// end.
pub open spec fn is_board_text(s: Seq<char>) -> bool {
    let end = line_end(s, last_line_start(s, 0));
    &&& s.len() > 0
    &&& is_cell_char(s[0])
    &&& end == s.len() || (end + 1 == s.len() && s[end] == '\n')
}

/// The line of a board that starts at `from`, as cells.
pub open spec fn line_cells(s: Seq<char>, from: int) -> Seq<Option<Cell>> {
    Seq::new((line_end(s, from) - from) as nat, |c: int| cell_of(s[from + c]))
}

/// The line of a board that starts at `from`, as bits.
pub open spec fn line_bits(s: Seq<char>, from: int) -> Seq<Option<Bit>> {
    Seq::new((line_end(s, from) - from) as nat, |c: int| bit_of(s[from + c]))
}

/// The end of a line lies between its start and the end of the text, every
/// character of the line is one of a board's, and the character after it is
/// not.
pub proof fn lemma_line_end(s: Seq<char>, from: int)
    requires
        0 <= from <= s.len(),
    ensures
        from <= line_end(s, from) <= s.len(),
        forall|k: int| from <= k < line_end(s, from) ==> is_cell_char(s[k]),
        line_end(s, from) < s.len() ==> !is_cell_char(s[line_end(s, from)]),
    decreases s.len() - from,
{
    if from < s.len() && is_cell_char(s[from]) {
        lemma_line_end(s, from + 1);
    }
}

/// Parses one character of a board.
pub fn parse_bit<'a>(input: &'a str) -> (parsed: Result<
    (&'a str, Option<Bit>),
    nom::Err<nom::error::Error<&'a str>>,
>)
    ensures
        match parsed {
            Ok((rest, bit)) => input@.len() > 0 && is_cell_char(input@[0]) && rest@
                == input@.skip(1) && bit == bit_of(input@[0]),
            Err(_) => input@.len() == 0 || !is_cell_char(input@[0]),
        },
{
    proof {
        reveal_strlit("01 ");
    }
    let list = "01 ";
    assert(forall|c: char| list@.contains(c) <==> is_cell_char(c)) by {
        assert(list@[0] == '0' && list@[1] == '1' && list@[2] == ' ');
    }
    match one_of(list, input) {
        Ok((rest, next)) => {
            let bit = if next == '0' {
                Some(Bit::Off)
            } else if next == '1' {
                Some(Bit::On)
            } else {
                None
            };
            Ok((rest, bit))
        },
        Err(fault) => Err(fault),
    }
}

/// Parses one character of a board as a position: a light that toggles
/// all its neighbours, or nothing.
pub fn parse_basic_cell<'a>(input: &'a str) -> (parsed: Result<
    (&'a str, Option<Cell>),
    nom::Err<nom::error::Error<&'a str>>,
>)
    ensures
        match parsed {
            Ok((rest, cell)) => input@.len() > 0 && is_cell_char(input@[0]) && rest@
                == input@.skip(1) && cell == cell_of(input@[0]),
            Err(_) => input@.len() == 0 || !is_cell_char(input@[0]),
        },
{
    match parse_bit(input) {
        Ok((rest, ob)) => {
            let cell = match ob {
                Some(b) => Some(Cell::new_basic(b)),
                None => None,
            };
            Ok((rest, cell))
        },
        Err(fault) => Err(fault),
    }
}

/// Parses a line of a board, which has at least one character, as bits.
pub fn parse_bit_line<'a>(input: &'a str) -> (parsed: Result<
    (&'a str, Vec<Option<Bit>>),
    nom::Err<nom::error::Error<&'a str>>,
>)
    ensures
        match parsed {
            Ok((rest, bits)) => line_end(input@, 0) > 0 && rest@ == input@.skip(
                line_end(input@, 0),
            ) && bits@ == line_bits(input@, 0),
            Err(_) => line_end(input@, 0) == 0,
        },
{
    let mut bits: Vec<Option<Bit>> = Vec::new();
    let mut remaining = match parse_bit(input) {
        Ok((rest, bit)) => {
            bits.push(bit);
            rest
        },
        Err(fault) => {
            return Err(fault);
        },
    };
    let ghost mut done: int = 1;
    loop
        invariant
            1 <= done <= input@.len(),
            remaining@ == input@.skip(done),
            bits@.len() == done,
            forall|k: int| 0 <= k < done ==> is_cell_char(#[trigger] input@[k]),
            forall|k: int| 0 <= k < done ==> #[trigger] bits@[k] == bit_of(input@[k]),
        ensures
            done == line_end(input@, 0),
            remaining@ == input@.skip(done),
            bits@ == line_bits(input@, 0),
        decreases input@.len() - done,
    {
        match parse_bit(remaining) {
            Ok((rest, bit)) => {
                let ghost earlier = bits@;
                bits.push(bit);
                proof {
                    assert(remaining@.len() > 0);
                    assert(remaining@[0] == input@[done]);
                    assert(rest@ =~= input@.skip(done + 1));
                    assert forall|k: int| 0 <= k < done + 1 implies #[trigger] bits@[k] == bit_of(
                        input@[k],
                    ) by {
                        if k < done {
                            assert(bits@[k] == earlier[k]);
                        }
                    }
                    done = done + 1;
                }
                remaining = rest;
            },
            Err(_) => {
                proof {
                    if done < input@.len() {
                        assert(remaining@[0] == input@[done]);
                    }
                    lemma_line_end(input@, 0);
                    let end = line_end(input@, 0);
                    if end < done {
                        assert(is_cell_char(input@[end]));
                    }
                    if end > done {
                        assert(is_cell_char(input@[done]));
                    }
                    assert(bits@ =~= line_bits(input@, 0));
                }
                break ;
            },
        }
    }
    Ok((remaining, bits))
}

/// Parses a line of a board, which has at least one character, as
/// positions.
pub fn parse_basic_cell_line<'a>(input: &'a str) -> (parsed: Result<
    (&'a str, Vec<Option<Cell>>),
    nom::Err<nom::error::Error<&'a str>>,
>)
    ensures
        match parsed {
            Ok((rest, cells)) => line_end(input@, 0) > 0 && rest@ == input@.skip(
                line_end(input@, 0),
            ) && cells@ == line_cells(input@, 0),
            Err(_) => line_end(input@, 0) == 0,
        },
{
    let mut cells: Vec<Option<Cell>> = Vec::new();
    let mut remaining = match parse_basic_cell(input) {
        Ok((rest, cell)) => {
            cells.push(cell);
            rest
        },
        Err(fault) => {
            return Err(fault);
        },
    };
    let ghost mut done: int = 1;
    loop
        invariant
            1 <= done <= input@.len(),
            remaining@ == input@.skip(done),
            cells@.len() == done,
            forall|k: int| 0 <= k < done ==> is_cell_char(#[trigger] input@[k]),
            forall|k: int| 0 <= k < done ==> #[trigger] cells@[k] == cell_of(input@[k]),
        ensures
            done == line_end(input@, 0),
            remaining@ == input@.skip(done),
            cells@ == line_cells(input@, 0),
        decreases input@.len() - done,
    {
        match parse_basic_cell(remaining) {
            Ok((rest, cell)) => {
                let ghost earlier = cells@;
                cells.push(cell);
                proof {
                    assert(remaining@.len() > 0);
                    assert(remaining@[0] == input@[done]);
                    assert(rest@ =~= input@.skip(done + 1));
                    assert forall|k: int| 0 <= k < done + 1 implies #[trigger] cells@[k] == cell_of(
                        input@[k],
                    ) by {
                        if k < done {
                            assert(cells@[k] == earlier[k]);
                        }
                    }
                    done = done + 1;
                }
                remaining = rest;
            },
            Err(_) => {
                proof {
                    if done < input@.len() {
                        assert(remaining@[0] == input@[done]);
                    }
                    lemma_line_end(input@, 0);
                    let end = line_end(input@, 0);
                    if end < done {
                        assert(is_cell_char(input@[end]));
                    }
                    if end > done {
                        assert(is_cell_char(input@[done]));
                    }
                    assert(cells@ =~= line_cells(input@, 0));
                }
                break ;
            },
        }
    }
    Ok((remaining, cells))
}

/// The line that starts at `from + k` of `s` is the line that starts at
/// `from` of `s` without its first `k` characters.
pub proof fn lemma_line_end_skip(s: Seq<char>, k: int, from: int)
    requires
        0 <= k <= s.len(),
        0 <= from,
    ensures
        line_end(s.skip(k), from) == if from + k <= s.len() {
            line_end(s, from + k) - k
        } else {
            s.len() - k
        },
    decreases s.len() - k - from,
{
    if from < s.skip(k).len() {
        assert(s.skip(k)[from] == s[from + k]);
        if is_cell_char(s[from + k]) {
            lemma_line_end_skip(s, k, from + 1);
        }
    }
}

impl BoardDescription {
    /// The board is the one that the text `s` describes: it has a row for
    /// each line of `s`, it is as wide as the longest line, and a position
    /// holds what the character of its line and column stands for, or
    /// nothing where the line is shorter.
    pub open spec fn shows_text(&self, s: Seq<char>) -> bool {
        let starts = line_starts(s, 0);
        &&& self.lights().spec_height() == starts.len()
        &&& forall|r: int|
            0 <= r < starts.len() ==> line_end(s, #[trigger] starts[r]) - starts[r]
                <= self.lights().spec_width()
        &&& exists|r: int|
            0 <= r < starts.len() && line_end(s, #[trigger] starts[r]) - starts[r]
                == self.lights().spec_width()
        &&& forall|r: int, c: int|
            #![trigger self.lights().cell(r, c)]
            0 <= r < starts.len() && 0 <= c < self.lights().spec_width() ==> self.lights().cell(
                r,
                c,
            ) == if c < line_end(s, starts[r]) - starts[r] {
                cell_of(s[starts[r] + c])
            } else {
                None
            }
    }
}

/// Parses the text of a board: one or more lines of the characters `0`,
/// `1` and space, separated by single line feeds, with at most one line
/// feed at the end. Each light toggles all its neighbours.
pub fn parse_board<'a>(input: &'a str) -> (parsed: Result<
    (&'a str, BoardDescription),
    nom::Err<nom::error::Error<&'a str>>,
>)
    ensures
        match parsed {
            Ok((rest, board)) => is_board_text(input@) && rest@.len() == 0 && board.wf()
                && board.shows_text(input@),
            Err(_) => !is_board_text(input@),
        },
{
    let ghost s = input@;
    let mut lines: Vec<Vec<Option<Cell>>> = Vec::new();
    proof {
        lemma_line_end(s, 0);
    }
    let mut remaining = match parse_basic_cell_line(input) {
        Ok((rest, line)) => {
            lines.push(line);
            rest
        },
        Err(fault) => {
            return Err(fault);
        },
    };
    let ghost mut start: int = 0;
    let ghost mut starts: Seq<int> = seq![0int];
    loop
        invariant
            s == input@,
            s.len() > 0,
            is_cell_char(s[0]),
            0 <= start < line_end(s, start) <= s.len(),
            remaining@ == s.skip(line_end(s, start)),
            starts.len() == lines@.len(),
            starts.len() >= 1,
            starts.last() == start,
            line_starts(s, 0) == starts.drop_last() + line_starts(s, start),
            last_line_start(s, 0) == last_line_start(s, start),
            forall|r: int| 0 <= r < starts.len() ==> 0 <= #[trigger] starts[r] <= s.len(),
            forall|r: int| 0 <= r < lines@.len() ==> (#[trigger] lines@[r])@ == line_cells(s, starts[r]),
        ensures
            !line_follows(s, line_end(s, start)),
        decreases s.len() - start,
    {
        let ghost end = line_end(s, start);
        match newline(remaining) {
            Ok((after_separator, _)) => {
                proof {
                    assert(remaining@[0] == s[end]);
                    assert(after_separator@ =~= s.skip(end + 1));
                    lemma_line_end_skip(s, end + 1, 0);
                    lemma_line_end(s, end + 1);
                }
                match parse_basic_cell_line(after_separator) {
                    Ok((rest, line)) => {
                        let ghost earlier = lines@;
                        lines.push(line);
                        proof {
                            let next = end + 1;
                            assert(after_separator@[0] == s[next]);
                            assert(line_follows(s, end));
                            assert(rest@ =~= s.skip(line_end(s, next)));
                            assert(line.view() =~= line_cells(s, next)) by {
                                assert forall|c: int| 0 <= c < line_end(s, next) - next implies s.skip(
                                    next,
                                )[c] == s[next + c] by {}
                            }
                            let longer = starts.push(next);
                            assert(longer.drop_last() =~= starts);
                            assert(starts =~= starts.drop_last() + seq![start]);
                            assert(line_starts(s, start) == seq![start] + line_starts(s, next));
                            assert(line_starts(s, 0) =~= longer.drop_last() + line_starts(s, next));
                            assert forall|r: int| 0 <= r < lines@.len() implies (
                            #[trigger] lines@[r])@ == line_cells(s, longer[r]) by {
                                if r < earlier.len() {
                                    assert(lines@[r] == earlier[r]);
                                }
                            }
                            starts = longer;
                            start = next;
                        }
                        remaining = rest;
                    },
                    Err(_) => {
                        proof {
                            if end + 1 < s.len() {
                                assert(after_separator@[0] == s[end + 1]);
                            }
                        }
                        break ;
                    },
                }
            },
            Err(_) => {
                proof {
                    if end < s.len() {
                        assert(remaining@[0] == s[end]);
                    }
                }
                break ;
            },
        }
    }
    let ghost end = line_end(s, start);
    proof {
        assert(last_line_start(s, start) == start);
        assert(line_starts(s, start) == seq![start]);
        assert(line_starts(s, 0) =~= starts);
    }
    match eof(remaining) {
        Ok(_) => {},
        Err(_) => {
            match newline(remaining) {
                Ok((after_separator, _)) => {
                    proof {
                        assert(remaining@[0] == s[end]);
                        assert(after_separator@ =~= s.skip(end + 1));
                    }
                    match eof(after_separator) {
                        Ok((rest, _)) => {
                            remaining = rest;
                        },
                        Err(fault) => {
                            return Err(fault);
                        },
                    }
                },
                Err(fault) => {
                    proof {
                        assert(remaining@[0] == s[end]);
                    }
                    return Err(fault);
                },
            }
        },
    }
    let ghost rows = lines@;
    proof {
        lemma_line_end(s, starts[0]);
        assert(rows[0]@.len() >= 1);
    }
    match Grid::new_partial_lines(lines, None) {
        Some(grid) => {
            let board = BoardDescription { grid };
            proof {
                assert forall|r: int| 0 <= r < starts.len() implies line_end(s, #[trigger] starts[r])
                    - starts[r] <= board.lights().spec_width() by {
                    lemma_line_end(s, starts[r]);
                    assert(rows[r]@.len() <= board.lights().spec_width());
                }
                let widest = choose|r: int|
                    0 <= r < rows.len() && (#[trigger] rows[r])@.len() == grid.spec_width();
                lemma_line_end(s, starts[widest]);
                assert(line_end(s, starts[widest]) - starts[widest] == board.lights().spec_width());
                assert forall|r: int, c: int|
                    #![trigger board.lights().cell(r, c)]
                    0 <= r < starts.len() && 0 <= c < board.lights().spec_width() implies board.lights().cell(
                    r,
                    c,
                ) == if c < line_end(s, starts[r]) - starts[r] {
                    cell_of(s[starts[r] + c])
                } else {
                    None
                } by {
                    lemma_line_end(s, starts[r]);
                    assert(rows[r]@ == line_cells(s, starts[r]));
                    if c >= rows[r]@.len() {
                        assert(cloned(None::<Cell>, grid.cell(r, c)));
                    }
                }
            }
            Ok((remaining, board))
        },
        None => vstd::pervasive::unreached(),
    }
}

/// Checks whether `src` can be a line of a board: whether it consists of
/// the characters `0`, `1` and space.
pub fn is_valid_line(src: &str) -> (valid: bool)
    ensures
        valid == forall|i: int| 0 <= i < src@.len() ==> is_cell_char(src@[i]),
{
    for c in it: src.chars()
        invariant
            it.seq() == src@,
            forall|i: int| 0 <= i < it.index() ==> is_cell_char(src@[i]),
    {
        if !(c == '0' || c == '1' || c == ' ') {
            assert(!is_cell_char(src@[it.index()]));
            return false;
        }
    }
    true
}

/// The text of `true` or of `false`.
pub open spec fn bool_text(b: bool) -> Seq<char> {
    if b {
        "true"@
    } else {
        "false"@
    }
}

/// The first line of the text of a board: its width, its height, and a
/// count of its lights.
pub open spec fn header_text(width: nat, height: nat, count: nat) -> Seq<char> {
    "W: "@ + decimal_digits(width) + " H: "@ + decimal_digits(height) + " C: "@ + decimal_digits(
        count,
    ) + seq!['\n']
}

/// The character that shows a position of a board of bits.
pub open spec fn bit_char(bit: Option<Bit>) -> char {
    match bit {
        Some(b) => b.digit(),
        None => ' ',
    }
}

/// The text of the first `upto` cells of a grid of bits that is `width`
/// wide: the character of each cell, and a line feed at the end of each
/// row.
pub open spec fn cells_text(cells: Seq<Option<Bit>>, width: nat, upto: nat) -> Seq<char>
    decreases upto,
{
    if upto == 0 || width == 0 {
        Seq::empty()
    } else {
        cells_text(cells, width, (upto - 1) as nat) + seq![bit_char(cells[upto - 1])] + if upto
            % width == 0 {
            seq!['\n']
        } else {
            Seq::empty()
        }
    }
}

/// Renders a grid of bits as text, row by row.
fn push_cells(out: &mut String, grid: &Grid<Option<Bit>>)
    requires
        grid.wf(),
    ensures
        final(out)@ == old(out)@ + cells_text(grid.cells(), grid.spec_width(), grid.cells().len()),
{
    let width = grid.get_width();
    let height = grid.get_height();
    let ghost cells = grid.cells();
    let ghost head = out@;
    let mut row: usize = 0;
    while row < height
        invariant
            grid.wf(),
            cells == grid.cells(),
            width == grid.spec_width(),
            height == grid.spec_height(),
            row <= height,
            out@ == head + cells_text(cells, width as nat, (row * width) as nat),
        decreases height - row,
    {
        let mut col: usize = 0;
        while col < width
            invariant
                grid.wf(),
                cells == grid.cells(),
                width == grid.spec_width(),
                height == grid.spec_height(),
                row < height,
                col <= width,
                out@ == head + cells_text(cells, width as nat, (row * width + col) as nat),
            decreases width - col,
        {
            proof {
                lemma_cell_index(width as int, height as int, row as int, col as int);
                assert((row * width + col + 1) % (width as int) == 0 <==> col + 1 == width) by {
                    if col + 1 < width {
                        lemma_cell_index(width as int, height as int, row as int, col + 1);
                    } else {
                        assert(row * width + width == (row + 1) * width) by (nonlinear_arith);
                        vstd::arithmetic::div_mod::lemma_fundamental_div_mod_converse(
                            (row + 1) * width,
                            width as int,
                            row + 1,
                            0,
                        );
                    }
                }
            }
            let ghost before = out@;
            match grid.get(Position::new(row, col)) {
                Some(b) => {
                    out.append(b.digit_text());
                },
                None => {
                    out.append(" ");
                },
            }
            proof {
                reveal_strlit(" ");
                assert(out@ =~= before + seq![bit_char(cells[row * width + col])]);
            }
            if col + 1 == width {
                out.append("\n");
                proof {
                    reveal_strlit("\n");
                }
            }
            proof {
                assert(out@ =~= head + cells_text(cells, width as nat, (row * width + col + 1) as nat));
            }
            col += 1;
        }
        assert(row * width + width == (row + 1) * width) by (nonlinear_arith);
        row += 1;
    }
    assert(height * width == width * height) by (nonlinear_arith);
}

impl Cell {
    /// The text of the light: which neighbours it toggles, and its starting
    /// value.
    pub open spec fn text(self) -> Seq<char> {
        "U:"@ + bool_text(self.affects_up) + " D:"@ + bool_text(self.affects_down) + " L:"@
            + bool_text(self.affects_left) + " R:"@ + bool_text(self.affects_right) + " V:"@ + seq![
            self.starting_value.digit(),
            '\n',
        ]
    }

    /// Renders the light as text.
    pub fn to_string(&self) -> (text: String)
        ensures
            text@ == self.text(),
    {
        let mut out = String::new();
        out.append("U:");
        out.append(bool_word(self.affects_up));
        out.append(" D:");
        out.append(bool_word(self.affects_down));
        out.append(" L:");
        out.append(bool_word(self.affects_left));
        out.append(" R:");
        out.append(bool_word(self.affects_right));
        out.append(" V:");
        out.append(self.starting_value.digit_text());
        out.append("\n");
        proof {
            reveal_strlit("\n");
            assert(out@ =~= self.text());
        }
        out
    }
}

/// The word for a truth value.
fn bool_word(b: bool) -> (word: &'static str)
    ensures
        word@ == bool_text(b),
{
    if b {
        "true"
    } else {
        "false"
    }
}

impl BoardAssignment {
    /// The text of the board: a line with its width, its height and the
    /// number of lights whose bit is `On`, then a line for each row with the
    /// bit of each light, and a space where there is none.
    pub open spec fn text(&self) -> Seq<char> {
        header_text(
            self.bits().spec_width(),
            self.bits().spec_height(),
            count_true(self.bits().cells().map_values(|bit: Option<Bit>| is_on(bit))),
        ) + cells_text(self.bits().cells(), self.bits().spec_width(), self.bits().cells().len())
    }

    /// Renders the board as text.
    pub fn to_string(&self) -> (text: String)
        requires
            self.bits().wf(),
        ensures
            text@ == self.text(),
    {
        let mut out = String::new();
        out.append("W: ");
        push_decimal(&mut out, self.grid.get_width());
        out.append(" H: ");
        push_decimal(&mut out, self.grid.get_height());
        out.append(" C: ");
        push_decimal(&mut out, self.count_ones());
        out.append("\n");
        proof {
            reveal_strlit("\n");
        }
        push_cells(&mut out, &self.grid);
        assert(out@ =~= self.text());
        out
    }
}

impl BoardDescription {
    /// The text of the board: a line with its width, its height and the
    /// number of lit lights, then a line for each row with the starting
    /// value of each light, and a space where there is none.
    pub open spec fn text(&self) -> Seq<char> {
        header_text(
            self.lights().spec_width(),
            self.lights().spec_height(),
            count_true(self.lights().cells().map_values(|cell: Option<Cell>| is_lit(cell))),
        ) + cells_text(
            self.lights().cells().map_values(|cell: Option<Cell>| starting_bit(cell)),
            self.lights().spec_width(),
            self.lights().cells().len(),
        )
    }

    /// Renders the board as text.
    pub fn to_string(&self) -> (text: String)
        requires
            self.wf(),
        ensures
            text@ == self.text(),
    {
        let mut out = String::new();
        out.append("W: ");
        push_decimal(&mut out, self.grid.get_width());
        out.append(" H: ");
        push_decimal(&mut out, self.grid.get_height());
        out.append(" C: ");
        push_decimal(&mut out, self.count_ones());
        out.append("\n");
        proof {
            reveal_strlit("\n");
        }
        let start = |oc: &Option<Cell>| -> (bit: Option<Bit>)
            ensures
                bit == starting_bit(*oc),
            {
                match oc {
                    Some(c) => Some(c.starting_value),
                    None => None,
                }
            };
        let shown = self.grid.map(start);
        proof {
            assert(shown.cells() =~= self.lights().cells().map_values(
                |cell: Option<Cell>| starting_bit(cell),
            ));
        }
        push_cells(&mut out, &shown);
        assert(out@ =~= self.text());
        out
    }
}

/// The characters that modify a light: `H` for one that toggles its
/// horizontal neighbours only, `V` for one that toggles its vertical
/// neighbours only, `O` for one that is left as it is.
pub open spec fn is_modifier(ch: char) -> bool {
    ch == 'H' || ch == 'V' || ch == 'O'
}

/// What the character `ch` makes of a light.
pub open spec fn modified(cell: Cell, ch: char) -> Cell {
    if ch == 'H' {
        Cell {
            affects_up: false,
            affects_down: false,
            affects_left: cell.affects_left,
            affects_right: cell.affects_right,
            starting_value: cell.starting_value,
        }
    } else if ch == 'V' {
        Cell {
            affects_up: cell.affects_up,
            affects_down: cell.affects_down,
            affects_left: false,
            affects_right: false,
            starting_value: cell.starting_value,
        }
    } else {
        cell
    }
}

/// What the character `ch` makes of a position.
pub open spec fn modified_position(cell: Option<Cell>, ch: char) -> Option<Cell> {
    match cell {
        Some(c) => Some(modified(c, ch)),
        None => None,
    }
}

impl BoardDescription {
    /// Row `row` of the board `before` became that row of `self` by the
    /// modifiers in the first `stop` characters of `line`, and nothing else
    /// changed.
    pub open spec fn modified_upto(
        &self,
        before: &BoardDescription,
        row: int,
        line: Seq<char>,
        stop: int,
    ) -> bool {
        &&& self.lights().spec_width() == before.lights().spec_width()
        &&& self.lights().spec_height() == before.lights().spec_height()
        &&& self.lights().cells().len() == before.lights().cells().len()
        &&& forall|r: int, c: int|
            #![trigger self.lights().cell(r, c)]
            0 <= r < self.lights().spec_height() && 0 <= c < self.lights().spec_width()
                ==> self.lights().cell(r, c) == if r == row && c < stop {
                modified_position(before.lights().cell(r, c), line[c])
            } else {
                before.lights().cell(r, c)
            }
    }

    /// Applies a line of modifiers to row `row`: the character in place
    /// `c` of `line` modifies the light in column `c`. Characters that are
    /// no modifiers, and those beyond the width of the board, are passed
    /// over. A modifier for a position without a light is an error: the
    /// function stops there and returns `false`.
    pub fn apply_modifiers(&mut self, row: usize, line: &str) -> (applied: bool)
        requires
            old(self).wf(),
            row < old(self).lights().spec_height(),
        ensures
            final(self).wf(),
            exists|stop: int|
                {
                    &&& 0 <= stop <= line@.len()
                    &&& stop <= old(self).lights().spec_width()
                    &&& #[trigger] final(self).modified_upto(old(self), row as int, line@, stop)
                    &&& forall|c: int|
                        0 <= c < stop && is_modifier(line@[c]) ==> old(self).lights().cell(
                            row as int,
                            c,
                        ) is Some
                    &&& applied ==> stop == line@.len() || stop == old(self).lights().spec_width()
                    &&& !applied ==> stop < line@.len() && stop < old(self).lights().spec_width()
                        && is_modifier(line@[stop]) && old(self).lights().cell(row as int, stop)
                        is None
                },
    {
        let width = self.grid.get_width();
        let ghost height = self.lights().spec_height() as int;
        let ghost before = *self;
        let mut col: usize = 0;
        for ch in it: line.chars()
            invariant
                it.seq() == line@,
                before == *old(self),
                before.wf(),
                self.wf(),
                width == before.lights().spec_width(),
                height == before.lights().spec_height(),
                row < height,
                col == if it.index() < width {
                    it.index()
                } else {
                    width as int
                },
                self.modified_upto(&before, row as int, line@, col as int),
                forall|c: int|
                    0 <= c < col && is_modifier(line@[c]) ==> before.lights().cell(row as int, c)
                        is Some,
        {
            if col < width {
                let pos = Position::new(row, col);
                let ghost earlier = *self;
                proof {
                    lemma_cell_index(width as int, height, row as int, col as int);
                }
                if ch == 'H' || ch == 'V' || ch == 'O' {
                    match self.cell_at(pos) {
                        Some(cell) => {
                            let changed = if ch == 'H' {
                                Cell::new(
                                    false,
                                    false,
                                    cell.affects_left,
                                    cell.affects_right,
                                    cell.starting_value,
                                )
                            } else if ch == 'V' {
                                Cell::new(
                                    cell.affects_up,
                                    cell.affects_down,
                                    false,
                                    false,
                                    cell.starting_value,
                                )
                            } else {
                                cell
                            };
                            self.set_cell(pos, Some(changed));
                        },
                        None => {
                            return false;
                        },
                    }
                }
                proof {
                    assert forall|r: int, c: int|
                        #![trigger self.lights().cell(r, c)]
                        0 <= r < height && 0 <= c < width implies self.lights().cell(r, c) == if r
                        == row && c < col + 1 {
                        modified_position(before.lights().cell(r, c), line@[c])
                    } else {
                        before.lights().cell(r, c)
                    } by {
                        lemma_cell_index(width as int, height, r, c);
                        assert(earlier.lights().cell(r, c) == if r == row && c < col {
                            modified_position(before.lights().cell(r, c), line@[c])
                        } else {
                            before.lights().cell(r, c)
                        });
                        if r != row || c != col {
                            assert(r * width + c != row * width + col) by {
                                if r * width + c == row * width + col {
                                    lemma_cell_index(width as int, height, row as int, col as int);
                                }
                            }
                        }
                    }
                }
                col += 1;
            }
        }
        true
    }
}

} // verus!
