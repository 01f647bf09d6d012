//! Rectangular grids and the positions of their cells.

use std::ops::Range;
use vstd::prelude::*;

verus! {

/// A rectangular grid of `V`s, stored row by row.
#[derive(Clone, Debug, PartialEq, Eq)]
pub struct Grid<V> {
    data: Vec<V>,
    width: usize,
    height: usize,
}

/// The position of a cell: its row and its column, counted from zero.
#[derive(Clone, Copy, Debug, PartialEq, Eq, Hash, Structural)]
pub struct Position {
    pub row: usize,
    pub col: usize,
}

/// One of the four orthogonal directions.
#[derive(Clone, Copy, Debug, PartialEq, Eq, Structural)]
pub enum Direction {
    Up,
    Down,
    Left,
    Right,
}

impl Direction {
    /// The opposite direction.
    pub open spec fn opposite(self) -> Direction {
        match self {
            Direction::Up => Direction::Down,
            Direction::Down => Direction::Up,
            Direction::Left => Direction::Right,
            Direction::Right => Direction::Left,
        }
    }

    /// Computes the opposite direction.
    pub fn op(self) -> (turned: Direction)
        ensures
            turned == self.opposite(),
    {
        match self {
            Direction::Up => Direction::Down,
            Direction::Down => Direction::Up,
            Direction::Left => Direction::Right,
            Direction::Right => Direction::Left,
        }
    }
}

/// The number of `true` entries of `flags`.
pub open spec fn count_true(flags: Seq<bool>) -> nat
    decreases flags.len(),
{
    if flags.len() == 0 {
        0
    } else {
        count_true(flags.drop_last()) + if flags.last() {
            1nat
        } else {
            0nat
        }
    }
}

/// The positions of a grid of `width` columns and `height` rows, row by row.
pub open spec fn row_major(width: nat, height: nat) -> Seq<Position> {
    Seq::new(
        width * height,
        |k: int| Position { row: (k / width as int) as usize, col: (k % width as int) as usize },
    )
}

impl Position {
    /// The position in row `row` and column `col`.
    pub fn new(row: usize, col: usize) -> (pos: Position)
        ensures
            pos == (Position { row, col }),
    {
        Position { row, col }
    }

    /// The position lies inside a grid of the width and height of `g`.
    pub open spec fn in_bounds<V>(self, g: &Grid<V>) -> bool {
        self.col < g.spec_width() && self.row < g.spec_height()
    }

    /// The position next to `self` in direction `dir`, unless `self` lies
    /// on the edge of `g` in that direction.
    pub open spec fn step<V>(self, g: &Grid<V>, dir: Direction) -> Option<Position> {
        match dir {
            Direction::Up => if self.row == 0 {
                None
            } else {
                Some(Position { row: (self.row - 1) as usize, col: self.col })
            },
            Direction::Down => if self.row == g.spec_height() - 1 {
                None
            } else {
                Some(Position { row: (self.row + 1) as usize, col: self.col })
            },
            Direction::Left => if self.col == 0 {
                None
            } else {
                Some(Position { row: self.row, col: (self.col - 1) as usize })
            },
            Direction::Right => if self.col == g.spec_width() - 1 {
                None
            } else {
                Some(Position { row: self.row, col: (self.col + 1) as usize })
            },
        }
    }

    /// Lists the positions of a grid of `width` columns and `height` rows,
    /// row by row.
    pub fn iter_row_major(width: usize, height: usize) -> (all: Vec<Position>)
        ensures
            all@ == row_major(width as nat, height as nat),
    {
        let mut all: Vec<Position> = Vec::new();
        let mut row: usize = 0;
        while row < height
            invariant
                row <= height,
                all@.len() == row * width,
                forall|k: int|
                    0 <= k < all@.len() ==> #[trigger] all@[k] == row_major(
                        width as nat,
                        height as nat,
                    )[k],
            decreases height - row,
        {
            let mut col: usize = 0;
            while col < width
                invariant
                    row < height,
                    col <= width,
                    all@.len() == row * width + col,
                    forall|k: int|
                        0 <= k < all@.len() ==> #[trigger] all@[k] == row_major(
                            width as nat,
                            height as nat,
                        )[k],
                decreases width - col,
            {
                proof {
                    lemma_cell_index(width as int, height as int, row as int, col as int);
                }
                all.push(Position { row, col });
                col += 1;
            }
            assert(row * width + width == (row + 1) * width) by (nonlinear_arith);
            row += 1;
        }
        assert(height * width == width * height) by (nonlinear_arith);
        assert(all@ =~= row_major(width as nat, height as nat));
        all
    }

    /// Whether the position lies inside `g`.
    pub fn is_in_bounds_of<V>(self, g: &Grid<V>) -> (inside: bool)
        ensures
            inside == self.in_bounds(g),
    {
        self.col < g.width && self.row < g.height
    }

    /// Computes the position next to `self` in direction `dir`, or `None`
    /// if `self` lies on the edge of `g` in that direction.
    pub fn step_in_bounds<V>(self, g: &Grid<V>, dir: Direction) -> (next: Option<Position>)
        requires
            g.wf(),
            dir == Direction::Down && self.row != g.spec_height() - 1 ==> self.row < usize::MAX,
            dir == Direction::Right && self.col != g.spec_width() - 1 ==> self.col < usize::MAX,
        ensures
            next == self.step(g, dir),
            self.in_bounds(g) ==> (next matches Some(p) ==> p.in_bounds(g)),
    {
        match dir {
            Direction::Up => {
                if self.row == 0 {
                    None
                } else {
                    Some(Position { row: self.row - 1, col: self.col })
                }
            },
            Direction::Down => {
                if self.row == g.height - 1 {
                    None
                } else {
                    Some(Position { row: self.row + 1, col: self.col })
                }
            },
            Direction::Left => {
                if self.col == 0 {
                    None
                } else {
                    Some(Position { row: self.row, col: self.col - 1 })
                }
            },
            Direction::Right => {
                if self.col == g.width - 1 {
                    None
                } else {
                    Some(Position { row: self.row, col: self.col + 1 })
                }
            },
        }
    }
}

/// In a grid stored row by row, the cell in row `row` and column `col` has
/// index `row * width + col`, from which row and column can be read back.
pub proof fn lemma_cell_index(width: int, height: int, row: int, col: int)
    requires
        0 <= row < height,
        0 <= col < width,
    ensures
        0 <= row * width + col < width * height,
        0 <= row * width <= row * width + col,
        (row * width + col) / width == row,
        (row * width + col) % width == col,
{
    assert(0 <= row * width <= (height - 1) * width) by (nonlinear_arith)
        requires
            0 <= row <= height - 1,
            0 < width,
    ;
    assert((height - 1) * width + width == width * height) by (nonlinear_arith);
    vstd::arithmetic::div_mod::lemma_fundamental_div_mod_converse(row * width + col, width, row, col);
}

impl<V> Grid<V> {
    /// The number of columns.
    pub closed spec fn spec_width(&self) -> nat {
        self.width as nat
    }

    /// The number of rows.
    pub closed spec fn spec_height(&self) -> nat {
        self.height as nat
    }

    /// The cells, row by row.
    pub closed spec fn cells(&self) -> Seq<V> {
        self.data@
    }

    /// The cell in row `row` and column `col`.
    pub open spec fn cell(&self, row: int, col: int) -> V {
        self.cells()[row * self.spec_width() + col]
    }

    /// The grid has at least one cell, and as many cells as its width and
    /// height say.
    pub open spec fn wf(&self) -> bool {
        &&& self.spec_width() >= 1
        &&& self.spec_height() >= 1
        &&& self.cells().len() == self.spec_width() * self.spec_height()
    }

    /// The width and the height of a grid are machine integers.
    pub proof fn lemma_dimensions_fit(&self)
        ensures
            self.spec_width() <= usize::MAX,
            self.spec_height() <= usize::MAX,
            self.cells().len() <= usize::MAX,
    {
        assert(self.data.len() == self.data@.len());
    }

    /// The number of columns.
    pub fn get_width(&self) -> (width: usize)
        ensures
            width == self.spec_width(),
    {
        self.width
    }

    /// The number of rows.
    pub fn get_height(&self) -> (height: usize)
        ensures
            height == self.spec_height(),
    {
        self.height
    }

    /// The number of rows.
    pub fn get_rows(&self) -> (rows: usize)
        ensures
            rows == self.spec_height(),
    {
        self.height
    }

    /// The number of columns.
    pub fn get_cols(&self) -> (cols: usize)
        ensures
            cols == self.spec_width(),
    {
        self.width
    }

    /// The indices of the rows.
    pub fn rows_iter(&self) -> (rows: Range<usize>)
        ensures
            rows.start == 0,
            rows.end == self.spec_height(),
    {
        0..self.height
    }

    /// The indices of the columns.
    pub fn cols_iter(&self) -> (cols: Range<usize>)
        ensures
            cols.start == 0,
            cols.end == self.spec_width(),
    {
        0..self.width
    }

    /// The cell at `pos`, which must lie inside the grid.
    pub fn get(&self, pos: Position) -> (value: &V)
        requires
            self.wf(),
            pos.in_bounds(self),
        ensures
            *value == self.cell(pos.row as int, pos.col as int),
    {
        proof {
            lemma_cell_index(
                self.width as int,
                self.height as int,
                pos.row as int,
                pos.col as int,
            );
            assert(self.data.len() == self.data@.len());
        }
        &self.data[pos.row * self.width + pos.col]
    }

    /// Puts `value` into the cell at `pos`, which must lie inside the grid.
    pub fn set(&mut self, pos: Position, value: V)
        requires
            old(self).wf(),
            pos.in_bounds(old(self)),
        ensures
            final(self).wf(),
            final(self).spec_width() == old(self).spec_width(),
            final(self).spec_height() == old(self).spec_height(),
            final(self).cells() == old(self).cells().update(
                pos.row * old(self).spec_width() + pos.col,
                value,
            ),
    {
        proof {
            lemma_cell_index(
                self.width as int,
                self.height as int,
                pos.row as int,
                pos.col as int,
            );
            assert(self.data.len() == self.data@.len());
        }
        let index = pos.row * self.width + pos.col;
        self.data[index] = value;
    }
}

/// Joins rows of `width` entries each into one vector, row by row.
fn flatten<V>(lines: Vec<Vec<V>>, width: usize) -> (data: Vec<V>)
    requires
        forall|r: int| 0 <= r < lines@.len() ==> (#[trigger] lines@[r])@.len() == width,
    ensures
        data@.len() == lines@.len() * width,
        forall|r: int, c: int|
            #![trigger lines@[r]@[c]]
            0 <= r < lines@.len() && 0 <= c < width ==> data@[r * width + c] == lines@[r]@[c],
{
    let ghost rows = lines@;
    let mut lines = lines;
    let mut data: Vec<V> = Vec::new();
    let mut i: usize = 0;
    while i < lines.len()
        invariant
            i <= rows.len(),
            lines@.len() == rows.len(),
            forall|r: int| 0 <= r < rows.len() ==> (#[trigger] rows[r])@.len() == width,
            forall|r: int| i <= r < rows.len() ==> #[trigger] lines@[r] == rows[r],
            data@.len() == i * width,
            forall|r: int, c: int|
                #![trigger rows[r]@[c]]
                0 <= r < i && 0 <= c < width ==> data@[r * width + c] == rows[r]@[c],
        decreases rows.len() - i,
    {
        let ghost before = data@;
        assert(lines@[i as int] == rows[i as int]);
        data.append(&mut lines[i]);
        proof {
            assert(data@ == before + rows[i as int]@);
            assert(i * width + width == (i + 1) * width) by (nonlinear_arith);
            assert forall|r: int, c: int|
                #![trigger rows[r]@[c]]
                0 <= r < i + 1 && 0 <= c < width implies data@[r * width + c] == rows[r]@[c] by {
                if r < i {
                    lemma_cell_index(width as int, i as int, r, c);
                    assert(i * width == width * i) by (nonlinear_arith);
                    assert(data@[r * width + c] == before[r * width + c]);
                } else {
                    assert(data@[i * width + c] == rows[i as int]@[c]);
                }
            }
        }
        i += 1;
    }
    data
}

impl<V> Grid<V> {
    /// Makes a grid from rows that may differ in length. The grid is as wide
    /// as the longest row and as high as there are rows; shorter rows are
    /// filled up with clones of `empty`. There is no grid without a cell.
    pub fn new_partial_lines(lines: Vec<Vec<V>>, empty: V) -> (made: Option<Grid<V>>) where
        V: Clone,

        ensures
            made is Some <==> exists|r: int| 0 <= r < lines@.len() && (#[trigger] lines@[r])@.len() >= 1,
            made matches Some(g) ==> {
                &&& g.wf()
                &&& g.spec_height() == lines@.len()
                &&& forall|r: int| 0 <= r < lines@.len() ==> (#[trigger] lines@[r])@.len() <= g.spec_width()
                &&& exists|r: int| 0 <= r < lines@.len() && (#[trigger] lines@[r])@.len() == g.spec_width()
                &&& forall|r: int, c: int|
                    #![trigger g.cell(r, c)]
                    0 <= r < lines@.len() && 0 <= c < g.spec_width() ==> if c < lines@[r]@.len() {
                        g.cell(r, c) == lines@[r]@[c]
                    } else {
                        cloned(empty, g.cell(r, c))
                    }
            },
    {
        let ghost rows = lines@;
        let mut lines = lines;
        let height = lines.len();
        if height == 0 {
            return None;
        }
        let mut width = lines[0].len();
        let mut i: usize = 0;
        while i < lines.len()
            invariant
                i <= lines@.len(),
                lines@ == rows,
                rows.len() >= 1,
                forall|r: int| 0 <= r < i ==> (#[trigger] rows[r])@.len() <= width,
                exists|r: int| 0 <= r < rows.len() && (#[trigger] rows[r])@.len() == width,
            decreases lines@.len() - i,
        {
            if width < lines[i].len() {
                width = lines[i].len();
            }
            i += 1;
        }
        if width == 0 {
            return None;
        }
        let mut i: usize = 0;
        while i < lines.len()
            invariant
                i <= rows.len(),
                lines@.len() == rows.len(),
                forall|r: int| 0 <= r < rows.len() ==> (#[trigger] rows[r])@.len() <= width,
                forall|r: int| i <= r < rows.len() ==> #[trigger] lines@[r] == rows[r],
                forall|r: int| 0 <= r < i ==> (#[trigger] lines@[r])@.len() == width,
                forall|r: int, c: int|
                    #![trigger lines@[r]@[c]]
                    0 <= r < i && 0 <= c < width ==> if c < rows[r]@.len() {
                        lines@[r]@[c] == rows[r]@[c]
                    } else {
                        cloned(empty, lines@[r]@[c])
                    },
            decreases rows.len() - i,
        {
            assert(lines@[i as int] == rows[i as int]);
            let ghost outer = lines@;
            while lines[i].len() < width
                invariant
                    i < rows.len(),
                    lines@.len() == rows.len(),
                    rows[i as int]@.len() <= lines@[i as int]@.len() <= width,
                    forall|r: int| 0 <= r < rows.len() && r != i ==> #[trigger] lines@[r] == outer[r],
                    forall|c: int|
                        #![trigger lines@[i as int]@[c]]
                        0 <= c < lines@[i as int]@.len() ==> if c < rows[i as int]@.len() {
                            lines@[i as int]@[c] == rows[i as int]@[c]
                        } else {
                            cloned(empty, lines@[i as int]@[c])
                        },
                decreases width - lines@[i as int]@.len(),
            {
                let filler = empty.clone();
                lines[i].push(filler);
            }
            i += 1;
        }
        let ghost filled = lines@;
        let data = flatten(lines, width);
        let g = Grid { data, width, height };
        proof {
            assert(height * width == width * height) by (nonlinear_arith);
            assert forall|r: int, c: int|
                #![trigger g.cell(r, c)]
                0 <= r < rows.len() && 0 <= c < g.spec_width() implies if c < rows[r]@.len() {
                    g.cell(r, c) == rows[r]@[c]
                } else {
                    cloned(empty, g.cell(r, c))
                } by {
                assert(g.cell(r, c) == filled[r]@[c]);
            }
        }
        Some(g)
    }

    /// Makes a grid of `width` columns and `height` rows from its rows,
    /// which must be `height` rows of `width` entries each. There is no grid
    /// without a cell.
    pub fn new_full_lines(lines: Vec<Vec<V>>, width: usize, height: usize) -> (made: Option<
        Grid<V>,
    >)
        ensures
            made is Some <==> width >= 1 && height >= 1 && lines@.len() == height && forall|
                r: int,
            | 0 <= r < lines@.len() ==> (#[trigger] lines@[r])@.len() == width,
            made matches Some(g) ==> {
                &&& g.wf()
                &&& g.spec_width() == width
                &&& g.spec_height() == height
                &&& forall|r: int, c: int|
                    #![trigger g.cell(r, c)]
                    0 <= r < height && 0 <= c < width ==> g.cell(r, c) == lines@[r]@[c]
            },
    {
        if width == 0 || height == 0 {
            return None;
        }
        if lines.len() != height {
            return None;
        }
        let mut i: usize = 0;
        while i < lines.len()
            invariant
                i <= lines@.len(),
                forall|r: int| 0 <= r < i ==> (#[trigger] lines@[r])@.len() == width,
            decreases lines@.len() - i,
        {
            if lines[i].len() != width {
                return None;
            }
            i += 1;
        }
        let data = flatten(lines, width);
        proof {
            assert(height * width == width * height) by (nonlinear_arith);
        }
        Some(Grid { data, width, height })
    }

    /// Counts the cells for which `p` holds.
    pub fn count(&self, p: impl Fn(&V) -> bool) -> (n: usize)
        requires
            forall|i: int| 0 <= i < self.cells().len() ==> call_requires(p, (&self.cells()[i],)),
        ensures
            exists|flags: Seq<bool>|
                {
                    &&& flags.len() == self.cells().len()
                    &&& forall|i: int|
                        0 <= i < flags.len() ==> call_ensures(
                            p,
                            (&self.cells()[i],),
                            #[trigger] flags[i],
                        )
                    &&& n == count_true(flags)
                },
    {
        let mut n: usize = 0;
        let ghost mut flags: Seq<bool> = Seq::empty();
        let mut i: usize = 0;
        while i < self.data.len()
            invariant
                i <= self.data@.len(),
                forall|k: int| 0 <= k < self.cells().len() ==> call_requires(p, (&self.cells()[k],)),
                self.cells() == self.data@,
                flags.len() == i,
                forall|k: int|
                    0 <= k < flags.len() ==> call_ensures(p, (&self.cells()[k],), #[trigger] flags[k]),
                n == count_true(flags),
                n <= i,
            decreases self.data@.len() - i,
        {
            let holds = p(&self.data[i]);
            proof {
                let ghost longer = flags.push(holds);
                assert(longer.drop_last() =~= flags);
                flags = longer;
            }
            if holds {
                n += 1;
            }
            i += 1;
        }
        n
    }

    /// Makes the grid whose cells are those of `self` with `f` applied.
    pub fn map<W>(&self, f: impl Fn(&V) -> W) -> (mapped: Grid<W>)
        requires
            forall|i: int| 0 <= i < self.cells().len() ==> call_requires(f, (&self.cells()[i],)),
        ensures
            mapped.spec_width() == self.spec_width(),
            mapped.spec_height() == self.spec_height(),
            mapped.cells().len() == self.cells().len(),
            forall|i: int|
                0 <= i < self.cells().len() ==> call_ensures(
                    f,
                    (&self.cells()[i],),
                    #[trigger] mapped.cells()[i],
                ),
    {
        let mut data: Vec<W> = Vec::new();
        let mut i: usize = 0;
        while i < self.data.len()
            invariant
                i <= self.data@.len(),
                forall|k: int| 0 <= k < self.cells().len() ==> call_requires(f, (&self.cells()[k],)),
                self.cells() == self.data@,
                data@.len() == i,
                forall|k: int|
                    0 <= k < i ==> call_ensures(f, (&self.cells()[k],), #[trigger] data@[k]),
            decreases self.data@.len() - i,
        {
            data.push(f(&self.data[i]));
            i += 1;
        }
        Grid { data, width: self.width, height: self.height }
    }
}

} // verus!
