//! Grids: the cell graph, the ways to build it, and what a picture of it
//! shows.

use vstd::prelude::*;
use vstd::string::StringExecFns;
use crate::grid::cell::Cell;
use crate::grid::grid_base::GridBase;
use crate::grid::mask::Mask;
use crate::rng::RngWrapper;

pub mod mask;
pub mod cell;
pub mod grid_base;
pub mod link;
pub mod passages;
pub mod metric;
pub mod tree;
pub mod masked_grid;
pub mod picture;

verus! {

/// What a picture of a grid shows for a cell. The grid asks once for each
/// cell.
pub trait CellFormatter {
    /// The label that the formatter gives a cell. A formatter that says no
    /// more of its labels leaves this as it is: some text that the formatter
    /// and the cell decide.
    open spec fn contents_spec(&self, cell: &Cell) -> Seq<char> {
        vstd::pervasive::arbitrary::<spec_fn(&Self, &Cell) -> Seq<char>>()(self, cell)
    }

    /// The colour that the formatter gives a cell. A formatter that says no
    /// more of its colours leaves this as it is: some text that the formatter
    /// and the cell decide.
    open spec fn color_spec(&self, cell: &Cell) -> Seq<char> {
        vstd::pervasive::arbitrary::<spec_fn(&Self, &Cell) -> Seq<char>>()(self, cell)
    }

    /// The label of a cell.
    fn contents_of(&self, cell: &Cell) -> (s: String)
        ensures
            s@ == self.contents_spec(cell),
    ;

    /// The colour behind a cell, as a style sheet writes it; empty for none.
    fn background_color(&self, cell: &Cell) -> (s: String)
        ensures
            s@ == self.color_spec(cell),
    ;
}

/// A rectangular grid that is built in two steps: first every cell is made,
/// then every cell is wired to its neighbours.
#[derive(Debug)]
pub struct Grid {
    pub grid: GridBase,
}

impl Grid {
    /// A cell stands at every coordinate, and the cells are numbered row
    /// after row.
    pub open spec fn is_full(&self) -> bool {
        self.grid.is_full()
    }

    /// In a full grid a cell's index is its row-major position.
    pub proof fn lemma_full_index(&self, i: int)
        requires
            self.grid.shape_ok(),
            self.is_full(),
            0 <= i < self.grid.cells@.len(),
        ensures
            i == self.grid.cells@[i].row * self.grid.columns + self.grid.cells@[i].column,
    {
        let c = self.grid.cells@[i];
        assert(self.grid.lookup(c.row as int, c.column as int) == Some(
            (c.row * self.grid.columns + c.column) as usize,
        ));
    }

    /// In a full and wired grid every cell can be walked to from the first.
    pub proof fn lemma_full_walk(&self, i: int)
        requires
            self.grid.shape_ok(),
            self.grid.configured(),
            self.is_full(),
            0 <= i < self.grid.cells@.len(),
        ensures
            self.grid.walkable(0, i),
        decreases i,
    {
        let c = self.grid.cells@[i];
        let columns = self.grid.columns as int;
        self.lemma_full_index(i);
        assert(self.grid.cell_configured(i));
        if c.column > 0 {
            crate::grid::mask::lemma_position(
                c.row as int,
                c.column - 1,
                self.grid.rows as int,
                columns,
            );
            assert(self.grid.lookup(c.row as int, c.column - 1) == Some(
                (c.row * columns + c.column - 1) as usize,
            ));
            assert(c.west == Some((i - 1) as usize));
            self.lemma_full_walk(i - 1);
            self.grid.lemma_adjacent(i, i - 1);
            self.grid.lemma_walk_step(0, i - 1, i);
        } else if c.row > 0 {
            crate::grid::mask::lemma_position(c.row - 1, 0, self.grid.rows as int, columns);
            assert(self.grid.lookup(c.row - 1, 0) == Some(((c.row - 1) * columns + 0) as usize));
            assert((c.row - 1) * columns == c.row * columns - columns) by (nonlinear_arith);
            assert(c.north == Some((i - columns) as usize));
            self.lemma_full_walk(i - columns);
            self.grid.lemma_adjacent(i, i - columns);
            self.grid.lemma_walk_step(0, i - columns, i);
        } else {
            assert(c.row * columns == 0) by (nonlinear_arith)
                requires
                    c.row == 0,
            ;
            self.grid.lemma_walk_self(0);
        }
    }

    /// The cells of a full and wired grid form one region.
    pub proof fn lemma_full_one_region(&self)
        requires
            self.grid.shape_ok(),
            self.grid.configured(),
            self.is_full(),
        ensures
            self.grid.one_region(),
    {
        assert forall|a: int, b: int|
            0 <= a < self.grid.cells@.len() && 0 <= b < self.grid.cells@.len() implies #[trigger] self.grid.walkable(
            a,
            b,
        ) by {
            self.lemma_full_walk(a);
            self.lemma_full_walk(b);
            self.grid.lemma_walk_symmetric(0, a);
            self.grid.lemma_walk_transitive(a, 0, b);
        }
    }

    /// A lattice of the given size that holds no cell yet.
    pub fn new(rows: usize, columns: usize) -> (g: Grid)
        requires
            rows * columns <= usize::MAX,
        ensures
            g.grid.rows == rows,
            g.grid.columns == columns,
            g.grid.cells@.len() == 0,
            g.grid.wf(),
    {
        Grid { grid: GridBase::new(rows, columns) }
    }

    /// Makes a bare cell for every coordinate.
    pub fn prepare_grid(&mut self)
        requires
            old(self).grid.shape_ok(),
        ensures
            final(self).grid.rows == old(self).grid.rows,
            final(self).grid.columns == old(self).grid.columns,
            final(self).grid.shape_ok(),
            final(self).is_full(),
            forall|i: int|
                0 <= i < final(self).grid.cells@.len() ==> (#[trigger] final(self).grid.cells@[i]).bare(),
    {
        proof {
            assert(self.grid.slots@.len() == self.grid.slots.len());
        }
        let mask = Mask::new(self.grid.rows, self.grid.columns);
        self.grid.prepare_grid(&mask);
        proof {
            let rows = self.grid.rows as int;
            let columns = self.grid.columns as int;
            assert forall|row: int, col: int|
                0 <= row < rows && 0 <= col < columns implies #[trigger] self.grid.lookup(row, col)
                == Some((row * columns + col) as usize) by {
                crate::grid::mask::lemma_position(row, col, rows, columns);
                crate::grid::mask::lemma_count_all_true(mask.bits@, row * columns + col);
                assert(self.grid.slots@[row * columns + col] == Some(
                    crate::grid::mask::count_true(mask.bits@.take(row * columns + col)) as usize,
                ));
            }
        }
    }

    /// Wires every cell to the cells around it.
    pub fn configure_cells(&mut self)
        requires
            old(self).grid.shape_ok(),
        ensures
            final(self).grid.shape_ok(),
            final(self).grid.configured(),
            final(self).grid.rows == old(self).grid.rows,
            final(self).grid.columns == old(self).grid.columns,
            final(self).grid.slots@ == old(self).grid.slots@,
            final(self).grid.cells@.len() == old(self).grid.cells@.len(),
            final(self).grid.same_links(&old(self).grid),
            old(self).is_full() ==> final(self).is_full() && final(self).grid.one_region(),
            old(self).grid.unlinked() ==> final(self).grid.wf() && final(self).grid.unlinked(),
    {
        self.grid.configure_cells_i();
        proof {
            if old(self).is_full() {
                assert forall|row: int, col: int|
                    0 <= row < self.grid.rows && 0 <= col < self.grid.columns implies #[trigger] self.grid.lookup(
                    row,
                    col,
                ) == Some((row * self.grid.columns + col) as usize) by {
                    assert(old(self).grid.lookup(row, col) == Some(
                        (row * self.grid.columns + col) as usize,
                    ));
                }
                self.lemma_full_one_region();
            }
            assert forall|row: int, col: int| self.grid.lookup(row, col) == old(self).grid.lookup(
                row,
                col,
            ) by {}
            if old(self).grid.unlinked() {
                assert forall|i: int| 0 <= i < self.grid.cells@.len() implies (
                #[trigger] self.grid.links_of(i)).len() == 0 by {
                    assert(old(self).grid.links_of(i).len() == 0);
                    assert(self.grid.cells@[i].links@ == old(self).grid.cells@[i].links@);
                }
            }
            assert forall|i: int| 0 <= i < self.grid.cells@.len() implies #[trigger] self.grid.links_of(
                i,
            ) == old(self).grid.links_of(i) by {
                assert(self.grid.cells@[i].links@ == old(self).grid.cells@[i].links@);
            }
        }
    }

    /// The number of cells.
    pub fn size(&self) -> (n: usize)
        ensures
            n == self.grid.cells@.len(),
            self.is_full() ==> n == self.grid.rows * self.grid.columns,
    {
        self.grid.size()
    }

    /// The cell at a coordinate; nothing outside the lattice.
    pub fn get_cell(&self, row: usize, column: usize) -> (cell: Option<&Cell>)
        requires
            self.grid.shape_ok(),
        ensures
            cell is Some <==> self.grid.lookup(row as int, column as int) is Some,
            cell matches Some(c) ==> *c == self.grid.cells@[self.grid.lookup(
                row as int,
                column as int,
            )->Some_0 as int] && c.row == row && c.column == column,
            self.is_full() ==> (cell is Some <==> row < self.grid.rows && column
                < self.grid.columns),
    {
        self.grid.get_cell(row, column)
    }

    /// The cells, row after row.
    pub fn each_cell(&self) -> (cells: &Vec<Cell>)
        requires
            self.grid.shape_ok(),
        ensures
            cells@ == self.grid.cells@,
    {
        self.grid.each_cell()
    }

    /// The cell at a row and a column that the generator picks, in that
    /// order; nothing where the lattice has no row or no column, or where the
    /// coordinate is a hole.
    pub fn random_cell<R: RngWrapper>(&self, rng: &mut R) -> (cell: Option<&Cell>)
        requires
            self.grid.shape_ok(),
        ensures
            cell matches Some(c) ==> self.grid.lookup(c.row as int, c.column as int) is Some && *c
                == self.grid.cells@[self.grid.lookup(c.row as int, c.column as int)->Some_0 as int],
            self.grid.rows == 0 || self.grid.columns == 0 ==> cell is None,
            self.is_full() && self.grid.rows > 0 && self.grid.columns > 0 ==> cell is Some,
    {
        if self.grid.rows == 0 || self.grid.columns == 0 {
            return None;
        }
        let row: usize = rng.gen_range(0, self.grid.rows);
        let column: usize = rng.gen_range(0, self.grid.columns);
        self.grid.get_cell(row, column)
    }

    /// The picture of the grid in text, each cell with the label that the
    /// formatter gives it.
    pub fn to_string<F: CellFormatter>(&self, contents: &F) -> (s: String)
        requires
            self.grid.shape_ok(),
        ensures
            s@ == self.grid.picture(self.grid.labels_by(contents)),
    {
        self.grid.labelled(contents)
    }
}

/// A rectangular grid without holes, ready for carving. As a formatter it
/// shows every cell blank and without colour.
#[derive(Debug)]
pub struct StandardGrid {
    pub grid: GridBase,
}

impl StandardGrid {
    /// A grid of the given size: every cell made and wired, no passage open.
    pub fn new(rows: usize, columns: usize) -> (g: StandardGrid)
        requires
            rows * columns <= usize::MAX,
        ensures
            g.grid.rows == rows,
            g.grid.columns == columns,
            g.grid.wf(),
            g.grid.unlinked(),
            g.grid.cells@.len() == rows * columns,
            forall|row: int, col: int|
                0 <= row < rows && 0 <= col < columns ==> #[trigger] g.grid.lookup(row, col) == Some(
                    (row * columns + col) as usize,
                ),
            g.grid.one_region(),
            g.grid.is_full(),
    {
        let mut g = Grid::new(rows, columns);
        g.prepare_grid();
        proof {
            assert forall|i: int| 0 <= i < g.grid.cells@.len() implies (#[trigger] g.grid.links_of(
                i,
            )).len() == 0 by {
                assert(g.grid.cells@[i].bare());
            }
        }
        g.configure_cells();
        StandardGrid { grid: g.grid }
    }

    /// The picture of the grid in text, each cell with the label that the
    /// formatter gives it.
    pub fn to_string<F: CellFormatter>(&self, contents: &F) -> (s: String)
        requires
            self.grid.shape_ok(),
        ensures
            s@ == self.grid.picture(self.grid.labels_by(contents)),
    {
        self.grid.labelled(contents)
    }
}

impl CellFormatter for StandardGrid {
    /// A blank.
    open spec fn contents_spec(&self, cell: &Cell) -> Seq<char> {
        " "@
    }

    /// No colour.
    open spec fn color_spec(&self, cell: &Cell) -> Seq<char> {
        ""@
    }

    fn contents_of(&self, _cell: &Cell) -> (s: String) {
        String::from_str(" ")
    }

    fn background_color(&self, _cell: &Cell) -> (s: String) {
        String::from_str("")
    }
}

} // verus!
