//! Grids with holes.

use vstd::prelude::*;
use crate::grid::CellFormatter;
use crate::grid::cell::Cell;
use crate::grid::grid_base::GridBase;
use crate::grid::mask::Mask;
use crate::rng::RngWrapper;

verus! {

/// A grid that has a cell at the active coordinates of a mask, and a hole at
/// each other coordinate.
#[derive(Debug)]
pub struct MaskedGrid {
    pub mask: Mask,
    pub grid: GridBase,
}

impl MaskedGrid {
    /// The grid has a cell exactly where the mask is active, numbered by the
    /// count of active coordinates before it.
    pub open spec fn follows_mask(&self) -> bool {
        &&& self.mask.wf()
        &&& self.mask.rows == self.grid.rows
        &&& self.mask.columns == self.grid.columns
        &&& self.grid.shape_ok()
        &&& self.grid.cells@.len() == self.mask.count_spec()
        &&& forall|p: int|
            0 <= p < self.mask.bits@.len() ==> #[trigger] self.grid.slots@[p] == (if self.mask.bits@[p] {
                Some(crate::grid::mask::count_true(self.mask.bits@.take(p)) as usize)
            } else {
                None
            })
    }

    /// The mask and the grid agree, and the grid is sound.
    pub open spec fn wf(&self) -> bool {
        &&& self.follows_mask()
        &&& self.grid.wf()
    }

    /// A grid for the mask: every cell made and wired, no passage open.
    pub fn new(mask: Mask) -> (g: MaskedGrid)
        requires
            mask.wf(),
        ensures
            g.wf(),
            g.mask == mask,
            g.grid.unlinked(),
            g.grid.rows == mask.rows,
            g.grid.columns == mask.columns,
            g.grid.cells@.len() == mask.count_spec(),
            forall|row: int, col: int|
                #[trigger] g.grid.lookup(row, col) is Some <==> mask.active(row, col),
    {
        proof {
            assert(mask.bits@.len() == mask.bits.len());
        }
        let grid = GridBase::new(mask.rows, mask.columns);
        let mut g = MaskedGrid { mask, grid };
        g.prepare_grid();
        proof {
            assert forall|i: int| 0 <= i < g.grid.cells@.len() implies (#[trigger] g.grid.links_of(
                i,
            )).len() == 0 by {
                assert(g.grid.cells@[i].bare());
            }
        }
        let ghost prepared = g.grid;
        g.grid.configure_cells_i();
        proof {
            assert forall|i: int| 0 <= i < g.grid.cells@.len() implies (#[trigger] g.grid.links_of(
                i,
            )).len() == 0 by {
                assert(prepared.links_of(i).len() == 0);
                assert(g.grid.cells@[i].links@ == prepared.cells@[i].links@);
            }
            g.lemma_holes();
        }
        g
    }

    /// Makes a bare cell for every active coordinate of the mask, in place of
    /// what the grid held.
    pub fn prepare_grid(&mut self)
        requires
            old(self).mask.wf(),
            old(self).mask.rows == old(self).grid.rows,
            old(self).mask.columns == old(self).grid.columns,
        ensures
            final(self).mask == old(self).mask,
            final(self).follows_mask(),
            forall|i: int|
                0 <= i < final(self).grid.cells@.len() ==> (#[trigger] final(self).grid.cells@[i]).bare(),
    {
        self.grid.prepare_grid(&self.mask);
    }

    /// A cell stands exactly at the active coordinates.
    pub proof fn lemma_holes(&self)
        requires
            self.follows_mask(),
        ensures
            forall|row: int, col: int|
                #[trigger] self.grid.lookup(row, col) is Some <==> self.mask.active(row, col),
    {
        assert forall|row: int, col: int| #[trigger]
            self.grid.lookup(row, col) is Some <==> self.mask.active(row, col) by {
            if 0 <= row < self.grid.rows && 0 <= col < self.grid.columns {
                crate::grid::mask::lemma_position(
                    row,
                    col,
                    self.grid.rows as int,
                    self.grid.columns as int,
                );
                let p = row * self.grid.columns + col;
                assert(self.grid.slots@[p] is Some <==> self.mask.bits@[p]);
            }
        }
    }

    /// Two wired grids for masks with the same active coordinates have the
    /// same structure.
    pub proof fn lemma_same_mask(&self, other: &MaskedGrid)
        requires
            self.wf(),
            other.wf(),
            self.mask.rows == other.mask.rows,
            self.mask.columns == other.mask.columns,
            self.mask.bits@ == other.mask.bits@,
        ensures
            self.grid.same_structure(&other.grid),
    {
        assert(self.grid.slots@ =~= other.grid.slots@);
        self.grid.lemma_same_slots(&other.grid);
    }

    /// The cell at the active coordinate that the generator's choice selects;
    /// nothing where the mask has no active coordinate.
    pub fn random_cell<R: RngWrapper>(&self, rng: &mut R) -> (cell: Option<&Cell>)
        requires
            self.follows_mask(),
        ensures
            cell is None <==> self.mask.count_spec() == 0,
            cell matches Some(c) ==> self.mask.active(c.row as int, c.column as int)
                && self.grid.lookup(c.row as int, c.column as int) is Some && *c
                == self.grid.cells@[self.grid.lookup(c.row as int, c.column as int)->Some_0 as int],
    {
        proof {
            self.lemma_holes();
        }
        match self.mask.rand_location(rng) {
            Ok((row, column)) => self.grid.get_cell(row, column),
            Err(_) => None,
        }
    }

    /// The cells, in row-major order of their coordinates.
    pub fn each_cell(&self) -> (cells: &Vec<Cell>)
        requires
            self.grid.shape_ok(),
        ensures
            cells@ == self.grid.cells@,
    {
        self.grid.each_cell()
    }

    /// The number of rows of the lattice.
    pub fn rows(&self) -> (n: usize)
        ensures
            n == self.grid.rows,
    {
        self.grid.rows
    }

    /// The number of columns of the lattice.
    pub fn columns(&self) -> (n: usize)
        ensures
            n == self.grid.columns,
    {
        self.grid.columns
    }

    /// The lattice row by row, with nothing at the holes.
    pub fn cells(&self) -> (m: Vec<Vec<Option<Cell>>>)
        requires
            self.grid.shape_ok(),
        ensures
            m@.len() == self.grid.rows,
            forall|r: int| 0 <= r < m@.len() ==> (#[trigger] m@[r])@.len() == self.grid.columns,
            forall|r: int, c: int|
                0 <= r < self.grid.rows && 0 <= c < self.grid.columns ==> self.grid.shows(
                    #[trigger] m@[r]@[c],
                    r,
                    c,
                ),
    {
        self.grid.cells()
    }

    /// The cell at a coordinate; nothing for a masked coordinate or one
    /// outside the lattice.
    pub fn get_cell(&self, row: usize, column: usize) -> (cell: Option<&Cell>)
        requires
            self.follows_mask(),
        ensures
            cell is Some <==> self.mask.active(row as int, column as int),
            cell matches Some(c) ==> *c == self.grid.cells@[self.grid.lookup(
                row as int,
                column as int,
            )->Some_0 as int] && c.row == row && c.column == column,
    {
        proof {
            self.lemma_holes();
        }
        self.grid.get_cell(row, column)
    }

    /// The picture of the grid in text with every cell blank and every hole
    /// left out. The formatter is not asked.
    pub fn to_string<F: CellFormatter>(&self, contents: &F) -> (s: String)
        requires
            self.grid.shape_ok(),
        ensures
            s@ == self.grid.picture(crate::grid::picture::blanks(self.grid.cells@.len())),
    {
        self.grid.to_string(contents)
    }

    /// The number of cells, which is the number of active coordinates.
    pub fn size(&self) -> (n: usize)
        requires
            self.follows_mask(),
        ensures
            n == self.mask.count_spec(),
            n == self.grid.cells@.len(),
    {
        self.mask.count()
    }
}

} // verus!
