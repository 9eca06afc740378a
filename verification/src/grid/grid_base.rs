//! The cell graph: cells in an arena, found by coordinate or by index.

use vstd::prelude::*;
use crate::grid::cell::Cell;
use crate::grid::mask::Mask;
use crate::rng::RngWrapper;

verus! {

/// The row-major position of a cell's coordinate in a lattice that is
/// `columns` wide.
pub open spec fn position(cell: Cell, columns: int) -> int {
    cell.row * columns + cell.column
}

/// The arena and the coordinate table agree: each cell knows its own index
/// and lies inside the lattice, the table entry at its coordinate names it,
/// each table entry names a cell at that coordinate, and the cells stand in
/// the arena in row-major order.
pub open spec fn arena_ok(
    cells: Seq<Cell>,
    slots: Seq<Option<usize>>,
    rows: int,
    columns: int,
) -> bool {
    &&& forall|i: int|
        0 <= i < cells.len() ==> {
            &&& (#[trigger] cells[i]).index == i
            &&& cells[i].row < rows
            &&& cells[i].column < columns
            &&& 0 <= position(cells[i], columns) < slots.len()
            &&& slots[position(cells[i], columns)] == Some(i as usize)
        }
    &&& forall|p: int|
        0 <= p < slots.len() ==> ((#[trigger] slots[p]) matches Some(i) ==> i < cells.len()
            && position(cells[i as int], columns) == p)
    &&& forall|i: int, j: int|
        0 <= i < j < cells.len() ==> position(#[trigger] cells[i], columns) < position(
            #[trigger] cells[j],
            columns,
        )
}

/// The cell graph: an arena of cells, and for each coordinate of the lattice
/// the index of the cell that stands there, if one does.
#[derive(Debug)]
pub struct GridBase {
    pub rows: usize,
    pub columns: usize,
    /// The cells, in row-major order of their coordinates.
    pub cells: Vec<Cell>,
    /// One entry per coordinate, row after row; `None` marks a hole.
    pub slots: Vec<Option<usize>>,
}

impl GridBase {
    /// The index of the cell at a coordinate; `None` for a hole and for a
    /// coordinate outside the lattice.
    pub open spec fn lookup(&self, row: int, col: int) -> Option<usize> {
        if 0 <= row < self.rows && 0 <= col < self.columns {
            self.slots@[row * self.columns + col]
        } else {
            None
        }
    }

    /// The links of cell `i`.
    pub open spec fn links_of(&self, i: int) -> Seq<usize> {
        self.cells@[i].links@
    }

    /// Whether a passage leads from cell `a` to cell `b`.
    pub open spec fn linked(&self, a: int, b: int) -> bool {
        &&& 0 <= a < self.cells@.len()
        &&& 0 <= b < self.cells@.len()
        &&& self.links_of(a).contains(b as usize)
    }

    /// Whether cell `b` is next to cell `a`.
    pub open spec fn adjacent(&self, a: int, b: int) -> bool {
        &&& 0 <= a < self.cells@.len()
        &&& 0 <= b < self.cells@.len()
        &&& self.cells@[a].is_neighbor(b as usize)
    }

    /// The arena and the coordinate table agree, and the table covers the
    /// lattice.
    pub open spec fn shape_ok(&self) -> bool {
        &&& self.slots@.len() == self.rows * self.columns
        &&& self.cells@.len() <= usize::MAX
        &&& arena_ok(self.cells@, self.slots@, self.rows as int, self.columns as int)
    }

    /// Cell `i` names as its neighbours the cells at the four coordinates
    /// around it.
    pub open spec fn cell_configured(&self, i: int) -> bool {
        let c = self.cells@[i];
        &&& c.north == self.lookup(c.row - 1, c.column as int)
        &&& c.south == self.lookup(c.row + 1, c.column as int)
        &&& c.east == self.lookup(c.row as int, c.column + 1)
        &&& c.west == self.lookup(c.row as int, c.column - 1)
    }

    /// Every cell names its neighbours.
    pub open spec fn configured(&self) -> bool {
        forall|i: int| 0 <= i < self.cells@.len() ==> #[trigger] self.cell_configured(i)
    }

    /// The links of cell `i` name each cell once, only neighbours, and each
    /// of them links back.
    pub open spec fn cell_links_ok(&self, i: int) -> bool {
        let links = self.links_of(i);
        &&& links.no_duplicates()
        &&& forall|k: int|
            0 <= k < links.len() ==> {
                &&& self.adjacent(i, (#[trigger] links[k]) as int)
                &&& self.linked(links[k] as int, i)
            }
    }

    /// Links join neighbours only, and go both ways.
    pub open spec fn links_ok(&self) -> bool {
        forall|i: int| 0 <= i < self.cells@.len() ==> #[trigger] self.cell_links_ok(i)
    }

    /// The grid is built, wired, and its links are sound.
    pub open spec fn wf(&self) -> bool {
        &&& self.shape_ok()
        &&& self.configured()
        &&& self.links_ok()
    }

    /// No cell has a link.
    pub open spec fn unlinked(&self) -> bool {
        forall|i: int| 0 <= i < self.cells@.len() ==> (#[trigger] self.links_of(i)).len() == 0
    }

    /// The two grids have the same lattice, the same cells at the same
    /// coordinates and the same neighbours; only links may differ.
    pub open spec fn same_structure(&self, other: &GridBase) -> bool {
        &&& self.rows == other.rows
        &&& self.columns == other.columns
        &&& self.slots@ == other.slots@
        &&& self.cells@.len() == other.cells@.len()
        &&& forall|i: int|
            0 <= i < self.cells@.len() ==> (#[trigger] self.cells@[i]).same_place(&other.cells@[i])
    }

    /// The two grids have the same links.
    pub open spec fn same_links(&self, other: &GridBase) -> bool {
        &&& self.cells@.len() == other.cells@.len()
        &&& forall|i: int|
            0 <= i < self.cells@.len() ==> #[trigger] self.links_of(i) == other.links_of(i)
    }

    /// A lattice in which every coordinate is a hole.
    pub fn new(rows: usize, columns: usize) -> (grid: GridBase)
        requires
            rows * columns <= usize::MAX,
        ensures
            grid.rows == rows,
            grid.columns == columns,
            grid.cells@.len() == 0,
            grid.wf(),
            forall|row: int, col: int| grid.lookup(row, col) is None,
    {
        let total: usize = rows * columns;
        let mut slots: Vec<Option<usize>> = Vec::new();
        while slots.len() < total
            invariant
                slots@.len() <= total,
                forall|p: int| 0 <= p < slots@.len() ==> slots@[p] is None,
            decreases total - slots@.len(),
        {
            slots.push(None);
        }
        let grid = GridBase { rows, columns, cells: Vec::new(), slots };
        proof {
            assert forall|row: int, col: int| grid.lookup(row, col) is None by {
                if 0 <= row < rows && 0 <= col < columns {
                    crate::grid::mask::lemma_position(row, col, rows as int, columns as int);
                }
            }
        }
        grid
    }

    /// The number of cells.
    pub fn size(&self) -> (n: usize)
        ensures
            n == self.cells@.len(),
    {
        self.cells.len()
    }

    /// Fills the grid from a mask of its size: one bare cell for each active
    /// coordinate, numbered in row-major order, and a hole for each other
    /// coordinate. What the grid held before is dropped.
    pub fn prepare_grid(&mut self, mask: &Mask)
        requires
            mask.wf(),
            mask.rows == old(self).rows,
            mask.columns == old(self).columns,
        ensures
            final(self).rows == old(self).rows,
            final(self).columns == old(self).columns,
            final(self).shape_ok(),
            final(self).cells@.len() == mask.count_spec(),
            forall|i: int| 0 <= i < final(self).cells@.len() ==> (#[trigger] final(self).cells@[i]).bare(),
            forall|p: int|
                0 <= p < mask.bits@.len() ==> #[trigger] final(self).slots@[p] == (if mask.bits@[p] {
                    Some(crate::grid::mask::count_true(mask.bits@.take(p)) as usize)
                } else {
                    None
                }),
    {
        let rows: usize = self.rows;
        let columns: usize = self.columns;
        let total: usize = mask.bits.len();
        let mut cells: Vec<Cell> = Vec::new();
        let mut slots: Vec<Option<usize>> = Vec::new();
        let mut p: usize = 0;
        while p < total
            invariant
                mask.wf(),
                mask.rows == rows,
                mask.columns == columns,
                total == mask.bits@.len(),
                p <= total,
                slots@.len() == p,
                cells@.len() == crate::grid::mask::count_true(mask.bits@.take(p as int)),
                arena_ok(cells@, slots@, rows as int, columns as int),
                forall|i: int| 0 <= i < cells@.len() ==> (#[trigger] cells@[i]).bare(),
                forall|q: int|
                    0 <= q < p ==> #[trigger] slots@[q] == (if mask.bits@[q] {
                        Some(crate::grid::mask::count_true(mask.bits@.take(q)) as usize)
                    } else {
                        None
                    }),
            decreases total - p,
        {
            proof {
                crate::grid::mask::lemma_count_true_step(mask.bits@, p as int);
                crate::grid::mask::lemma_count_true_prefix(mask.bits@, p as int);
                crate::grid::mask::lemma_coordinates(p as int, rows as int, columns as int);
            }
            if mask.bits[p] {
                let index: usize = cells.len();
                let cell = Cell::new(p / columns, p % columns, index);
                let ghost old_cells = cells@;
                let ghost old_slots = slots@;
                cells.push(cell);
                slots.push(Some(index));
                proof {
                    assert(position(cell, columns as int) == p);
                    assert forall|i: int| 0 <= i < cells@.len() implies {
                        &&& (#[trigger] cells@[i]).index == i
                        &&& cells@[i].row < rows
                        &&& cells@[i].column < columns
                        &&& 0 <= position(cells@[i], columns as int) < slots@.len()
                        &&& slots@[position(cells@[i], columns as int)] == Some(i as usize)
                    } by {
                        if i < old_cells.len() {
                            assert(cells@[i] == old_cells[i]);
                        }
                    }
                    assert forall|q: int| 0 <= q < slots@.len() implies ((#[trigger] slots@[q]) matches Some(i)
                        ==> i < cells@.len() && position(cells@[i as int], columns as int) == q) by {
                        if q < old_slots.len() {
                            assert(slots@[q] == old_slots[q]);
                            if let Some(i) = old_slots[q] {
                                assert(cells@[i as int] == old_cells[i as int]);
                            }
                        }
                    }
                    assert forall|i: int, j: int| 0 <= i < j < cells@.len() implies position(
                        #[trigger] cells@[i],
                        columns as int,
                    ) < position(#[trigger] cells@[j], columns as int) by {
                        assert(cells@[i] == old_cells[i]);
                        if j < old_cells.len() {
                            assert(cells@[j] == old_cells[j]);
                        }
                    }
                }
            } else {
                let ghost old_slots = slots@;
                slots.push(None);
                proof {
                    assert forall|q: int| 0 <= q < slots@.len() implies ((#[trigger] slots@[q]) matches Some(i)
                        ==> i < cells@.len() && position(cells@[i as int], columns as int) == q) by {
                        if q < old_slots.len() {
                            assert(slots@[q] == old_slots[q]);
                        }
                    }
                }
            }
            p = p + 1;
        }
        proof {
            assert(mask.bits@.take(p as int) =~= mask.bits@);
        }
        proof {
            assert(cells@.len() == cells.len());
        }
        self.cells = cells;
        self.slots = slots;
    }

    /// The index of the cell at a coordinate, if a cell stands there.
    pub fn index_at(&self, row: usize, col: usize) -> (at: Option<usize>)
        requires
            self.shape_ok(),
        ensures
            at == self.lookup(row as int, col as int),
            at matches Some(i) ==> i < self.cells@.len() && self.cells@[i as int].row == row
                && self.cells@[i as int].column == col,
    {
        if row >= self.rows || col >= self.columns {
            return None;
        }
        proof {
            crate::grid::mask::lemma_position(
                row as int,
                col as int,
                self.rows as int,
                self.columns as int,
            );
            assert(self.slots@.len() == self.slots.len());
        }
        let at = self.slots[row * self.columns + col];
        proof {
            if let Some(i) = at {
                let c = self.cells@[i as int];
                crate::grid::mask::lemma_position(
                    c.row as int,
                    c.column as int,
                    self.rows as int,
                    self.columns as int,
                );
            }
        }
        at
    }

    /// The cell at a coordinate; nothing for a hole or for a coordinate
    /// outside the lattice.
    pub fn get_cell(&self, row: usize, column: usize) -> (cell: Option<&Cell>)
        requires
            self.shape_ok(),
        ensures
            cell is Some <==> self.lookup(row as int, column as int) is Some,
            cell matches Some(c) ==> *c == self.cells@[self.lookup(row as int, column as int)->Some_0 as int]
                && c.row == row && c.column == column,
    {
        match self.index_at(row, column) {
            Some(i) => Some(&self.cells[i]),
            None => None,
        }
    }

    /// The cell with the given index.
    pub fn get_cell_at_index(&self, index: usize) -> (cell: &Cell)
        requires
            index < self.cells@.len(),
        ensures
            *cell == self.cells@[index as int],
    {
        &self.cells[index]
    }

    /// Wires every cell to the cells at the four coordinates around it. A
    /// direction that leads to a hole or out of the lattice stays empty.
    /// Links are left as they are.
    pub fn configure_cells_i(&mut self)
        requires
            old(self).shape_ok(),
        ensures
            final(self).shape_ok(),
            final(self).configured(),
            final(self).rows == old(self).rows,
            final(self).columns == old(self).columns,
            final(self).slots@ == old(self).slots@,
            final(self).cells@.len() == old(self).cells@.len(),
            forall|i: int|
                0 <= i < final(self).cells@.len() ==> {
                    &&& (#[trigger] final(self).cells@[i]).row == old(self).cells@[i].row
                    &&& final(self).cells@[i].column == old(self).cells@[i].column
                    &&& final(self).cells@[i].index == old(self).cells@[i].index
                    &&& final(self).cells@[i].links@ == old(self).cells@[i].links@
                },
            old(self).unlinked() ==> final(self).wf(),
    {
        let mut i: usize = 0;
        while i < self.cells.len()
            invariant
                self.shape_ok(),
                self.rows == old(self).rows,
                self.columns == old(self).columns,
                self.slots@ == old(self).slots@,
                self.cells@.len() == old(self).cells@.len(),
                i <= self.cells@.len(),
                forall|k: int|
                    0 <= k < self.cells@.len() ==> {
                        &&& (#[trigger] self.cells@[k]).row == old(self).cells@[k].row
                        &&& self.cells@[k].column == old(self).cells@[k].column
                        &&& self.cells@[k].index == old(self).cells@[k].index
                        &&& self.cells@[k].links@ == old(self).cells@[k].links@
                    },
                forall|k: int| 0 <= k < i ==> #[trigger] self.cell_configured(k),
            decreases self.cells@.len() - i,
        {
            let row: usize = self.cells[i].row;
            let column: usize = self.cells[i].column;
            let north = if row > 0 {
                self.index_at(row - 1, column)
            } else {
                None
            };
            let south = self.index_at(row + 1, column);
            let east = self.index_at(row, column + 1);
            let west = if column > 0 {
                self.index_at(row, column - 1)
            } else {
                None
            };
            let ghost before = *self;
            self.cells[i].north = north;
            self.cells[i].south = south;
            self.cells[i].east = east;
            self.cells[i].west = west;
            proof {
                assert forall|k: int| 0 <= k < self.cells@.len() implies {
                    &&& (#[trigger] self.cells@[k]).row == before.cells@[k].row
                    &&& self.cells@[k].column == before.cells@[k].column
                    &&& self.cells@[k].index == before.cells@[k].index
                    &&& self.cells@[k].links@ == before.cells@[k].links@
                } by {}
                assert forall|k: int| 0 <= k < i + 1 implies #[trigger] self.cell_configured(k) by {
                    if k < i {
                        assert(before.cell_configured(k));
                        assert(self.cells@[k] == before.cells@[k]);
                    }
                }
                assert(arena_ok(self.cells@, self.slots@, self.rows as int, self.columns as int)) by {
                    assert forall|a: int, b: int| 0 <= a < b < self.cells@.len() implies position(
                        #[trigger] self.cells@[a],
                        self.columns as int,
                    ) < position(#[trigger] self.cells@[b], self.columns as int) by {
                        assert(position(self.cells@[a], self.columns as int) == position(
                            before.cells@[a],
                            self.columns as int,
                        ));
                        assert(position(self.cells@[b], self.columns as int) == position(
                            before.cells@[b],
                            self.columns as int,
                        ));
                    }
                    assert forall|p: int| 0 <= p < self.slots@.len() implies ((
                    #[trigger] self.slots@[p]) matches Some(c) ==> c < self.cells@.len() && position(
                        self.cells@[c as int],
                        self.columns as int,
                    ) == p) by {
                        if let Some(c) = self.slots@[p] {
                            assert(position(self.cells@[c as int], self.columns as int) == position(
                                before.cells@[c as int],
                                self.columns as int,
                            ));
                        }
                    }
                    assert forall|a: int| 0 <= a < self.cells@.len() implies {
                        &&& (#[trigger] self.cells@[a]).index == a
                        &&& self.cells@[a].row < self.rows
                        &&& self.cells@[a].column < self.columns
                        &&& 0 <= position(self.cells@[a], self.columns as int) < self.slots@.len()
                        &&& self.slots@[position(self.cells@[a], self.columns as int)] == Some(
                            a as usize,
                        )
                    } by {
                        assert(position(self.cells@[a], self.columns as int) == position(
                            before.cells@[a],
                            self.columns as int,
                        ));
                    }
                }
            }
            i = i + 1;
        }
        proof {
            if old(self).unlinked() {
                assert forall|k: int| 0 <= k < self.cells@.len() implies #[trigger] self.cell_links_ok(
                    k,
                ) by {
                    assert(old(self).links_of(k).len() == 0);
                    assert(self.links_of(k) == old(self).links_of(k));
                }
            }
        }
    }

    /// The cell that the table names for a coordinate stands at that
    /// coordinate.
    pub proof fn lemma_lookup_cell(&self, row: int, col: int)
        requires
            self.shape_ok(),
            self.lookup(row, col) is Some,
        ensures
            0 <= row < self.rows,
            0 <= col < self.columns,
            self.lookup(row, col)->Some_0 < self.cells@.len(),
            self.cells@[self.lookup(row, col)->Some_0 as int].row == row,
            self.cells@[self.lookup(row, col)->Some_0 as int].column == col,
    {
        let i = self.lookup(row, col)->Some_0;
        crate::grid::mask::lemma_position(row, col, self.rows as int, self.columns as int);
        assert(self.slots@[row * self.columns + col] == Some(i));
        let c = self.cells@[i as int];
        crate::grid::mask::lemma_position(
            c.row as int,
            c.column as int,
            self.rows as int,
            self.columns as int,
        );
    }

    /// The table names each cell at the cell's own coordinate.
    pub proof fn lemma_cell_lookup(&self, i: int)
        requires
            self.shape_ok(),
            0 <= i < self.cells@.len(),
        ensures
            self.lookup(self.cells@[i].row as int, self.cells@[i].column as int) == Some(i as usize),
    {
    }

    /// Neighbours are two different cells, and each is a neighbour of the
    /// other.
    pub proof fn lemma_adjacent(&self, a: int, b: int)
        requires
            self.shape_ok(),
            self.configured(),
            self.adjacent(a, b),
        ensures
            a != b,
            self.adjacent(b, a),
    {
        let ca = self.cells@[a];
        let cb = self.cells@[b];
        assert(self.cell_configured(a));
        assert(self.cell_configured(b));
        self.lemma_cell_lookup(a);
        if ca.north == Some(b as usize) {
            self.lemma_lookup_cell(ca.row - 1, ca.column as int);
            assert(cb.south == Some(a as usize));
        } else if ca.south == Some(b as usize) {
            self.lemma_lookup_cell(ca.row + 1, ca.column as int);
            assert(cb.north == Some(a as usize));
        } else if ca.east == Some(b as usize) {
            self.lemma_lookup_cell(ca.row as int, ca.column + 1);
            assert(cb.west == Some(a as usize));
        } else {
            self.lemma_lookup_cell(ca.row as int, ca.column - 1);
            assert(cb.east == Some(a as usize));
        }
    }

    /// A grid that differs from a built and wired grid in its links only is
    /// built and wired too.
    pub proof fn lemma_same_structure(&self, other: &GridBase)
        requires
            other.shape_ok(),
            other.configured(),
            self.same_structure(other),
        ensures
            self.shape_ok(),
            self.configured(),
            forall|a: int, b: int| self.adjacent(a, b) == other.adjacent(a, b),
    {
        let columns = self.columns as int;
        assert forall|i: int| 0 <= i < self.cells@.len() implies position(
            #[trigger] self.cells@[i],
            columns,
        ) == position(other.cells@[i], columns) by {
            assert(self.cells@[i].same_place(&other.cells@[i]));
        }
        assert forall|i: int| 0 <= i < self.cells@.len() implies {
            &&& (#[trigger] self.cells@[i]).index == i
            &&& self.cells@[i].row < self.rows
            &&& self.cells@[i].column < self.columns
            &&& 0 <= position(self.cells@[i], columns) < self.slots@.len()
            &&& self.slots@[position(self.cells@[i], columns)] == Some(i as usize)
        } by {
            assert(self.cells@[i].same_place(&other.cells@[i]));
        }
        assert forall|i: int, j: int| 0 <= i < j < self.cells@.len() implies position(
            #[trigger] self.cells@[i],
            columns,
        ) < position(#[trigger] self.cells@[j], columns) by {
            assert(position(other.cells@[i], columns) < position(other.cells@[j], columns));
        }
        assert forall|p: int| 0 <= p < self.slots@.len() implies ((
        #[trigger] self.slots@[p]) matches Some(c) ==> c < self.cells@.len() && position(
            self.cells@[c as int],
            columns,
        ) == p) by {
            assert(other.slots@[p] == self.slots@[p]);
        }
        assert forall|i: int| 0 <= i < self.cells@.len() implies #[trigger] self.cell_configured(
            i,
        ) by {
            assert(other.cell_configured(i));
            assert(self.cells@[i].same_place(&other.cells@[i]));
        }
        assert forall|a: int, b: int| self.adjacent(a, b) == other.adjacent(a, b) by {
            if 0 <= a < self.cells@.len() {
                assert(self.cells@[a].same_place(&other.cells@[a]));
            }
        }
    }

    /// The neighbours of cell `i`: north, south, east, west, leaving out the
    /// directions without a cell. What is no cell of the grid has none.
    pub open spec fn neighbors_of(&self, i: int) -> Seq<usize> {
        if 0 <= i < self.cells@.len() {
            crate::grid::cell::ICell::neighbors_spec(&self.cells@[i])
        } else {
            Seq::empty()
        }
    }

    /// What a wired cell names as a neighbour is a cell of the grid next to
    /// it, and the other way round.
    pub proof fn lemma_neighbors(&self, a: int, b: usize)
        requires
            self.shape_ok(),
            self.configured(),
            0 <= a < self.cells@.len(),
        ensures
            self.neighbors_of(a).contains(b) <==> self.adjacent(a, b as int),
            self.cells@[a].is_neighbor(b) ==> b < self.cells@.len(),
    {
        crate::grid::cell::lemma_neighbors_are_directions(&self.cells@[a], b);
        let c = self.cells@[a];
        assert(self.cell_configured(a));
        if c.north == Some(b) {
            self.lemma_lookup_cell(c.row - 1, c.column as int);
        } else if c.south == Some(b) {
            self.lemma_lookup_cell(c.row + 1, c.column as int);
        } else if c.east == Some(b) {
            self.lemma_lookup_cell(c.row as int, c.column + 1);
        } else if c.west == Some(b) {
            self.lemma_lookup_cell(c.row as int, c.column - 1);
        }
    }

    /// The cells, in row-major order of their coordinates.
    pub fn each_cell(&self) -> (cells: &Vec<Cell>)
        requires
            self.shape_ok(),
        ensures
            cells@ == self.cells@,
            forall|i: int, j: int|
                0 <= i < j < cells@.len() ==> position(#[trigger] cells@[i], self.columns as int)
                    < position(#[trigger] cells@[j], self.columns as int),
    {
        &self.cells
    }

    /// A cell that the generator picks; nothing where the grid has no cell.
    pub fn random_cell<R: RngWrapper>(&self, rng: &mut R) -> (cell: Option<&Cell>)
        ensures
            cell is None <==> self.cells@.len() == 0,
            cell matches Some(c) ==> exists|i: int|
                0 <= i < self.cells@.len() && *c == #[trigger] self.cells@[i],
    {
        let size: usize = self.cells.len();
        if size == 0 {
            return None;
        }
        let index: usize = rng.gen_range(0, size);
        Some(&self.cells[index])
    }

    /// The neighbours of the cell at a coordinate: north, south, east, west,
    /// leaving out the directions without a cell. Nothing for a hole.
    pub fn neighbors(&self, row: usize, column: usize) -> (v: Vec<usize>)
        requires
            self.shape_ok(),
        ensures
            v@ == (match self.lookup(row as int, column as int) {
                Some(i) => self.neighbors_of(i as int),
                None => Seq::<usize>::empty(),
            }),
    {
        match self.index_at(row, column) {
            Some(i) => crate::grid::cell::ICell::neighbors(&self.cells[i]),
            None => Vec::new(),
        }
    }

    /// The cells that have a passage to cell `index`, lowest index first.
    pub fn get_cell_links(&self, index: usize) -> (v: Vec<usize>)
        ensures
            forall|k: int| 0 <= k < v@.len() ==> self.linked((#[trigger] v@[k]) as int, index as int),
            forall|c: int| self.linked(c, index as int) ==> v@.contains(c as usize),
            forall|i: int, j: int| 0 <= i < j < v@.len() ==> v@[i] < v@[j],
    {
        let mut v: Vec<usize> = Vec::new();
        if index >= self.cells.len() {
            return v;
        }
        let mut c: usize = 0;
        while c < self.cells.len()
            invariant
                index < self.cells@.len(),
                c <= self.cells@.len(),
                forall|k: int|
                    0 <= k < v@.len() ==> (#[trigger] v@[k]) < c && self.linked(
                        v@[k] as int,
                        index as int,
                    ),
                forall|x: int| 0 <= x < c && self.linked(x, index as int) ==> v@.contains(x as usize),
                forall|i: int, j: int| 0 <= i < j < v@.len() ==> v@[i] < v@[j],
            decreases self.cells@.len() - c,
        {
            if self.cells[c].is_linked(index) {
                let ghost before = v@;
                v.push(c);
                proof {
                    assert(v@[before.len() as int] == c);
                    assert forall|x: int|
                        0 <= x < c + 1 && self.linked(x, index as int) implies v@.contains(
                        x as usize,
                    ) by {
                        if x < c {
                            let k = choose|k: int| 0 <= k < before.len() && before[k] == x as usize;
                            assert(v@[k] == x as usize);
                        }
                    }
                }
            }
            c = c + 1;
        }
        v
    }

    /// The lattice row by row: for each coordinate a copy of the cell that
    /// stands there, or nothing for a hole.
    pub fn cells_h(&self) -> (m: Vec<Vec<Option<Cell>>>)
        requires
            self.shape_ok(),
        ensures
            m@.len() == self.rows,
            forall|r: int| 0 <= r < m@.len() ==> (#[trigger] m@[r])@.len() == self.columns,
            forall|r: int, c: int|
                0 <= r < self.rows && 0 <= c < self.columns ==> self.shows(
                    #[trigger] m@[r]@[c],
                    r,
                    c,
                ),
    {
        let mut m: Vec<Vec<Option<Cell>>> = Vec::new();
        let mut r: usize = 0;
        while r < self.rows
            invariant
                self.shape_ok(),
                r <= self.rows,
                m@.len() == r,
                forall|i: int| 0 <= i < m@.len() ==> (#[trigger] m@[i])@.len() == self.columns,
                forall|i: int, c: int|
                    0 <= i < r && 0 <= c < self.columns ==> self.shows(#[trigger] m@[i]@[c], i, c),
            decreases self.rows - r,
        {
            let mut row: Vec<Option<Cell>> = Vec::new();
            let mut c: usize = 0;
            while c < self.columns
                invariant
                    self.shape_ok(),
                    r < self.rows,
                    c <= self.columns,
                    row@.len() == c,
                    forall|j: int| 0 <= j < c ==> self.shows(#[trigger] row@[j], r as int, j),
                decreases self.columns - c,
            {
                let entry: Option<Cell> = match self.index_at(r, c) {
                    Some(i) => Some(self.cells[i].clone()),
                    None => None,
                };
                row.push(entry);
                c = c + 1;
            }
            m.push(row);
            r = r + 1;
        }
        m
    }

    /// The lattice row by row, as `cells_h` gives it.
    pub fn cells(&self) -> (m: Vec<Vec<Option<Cell>>>)
        requires
            self.shape_ok(),
        ensures
            m@.len() == self.rows,
            forall|r: int| 0 <= r < m@.len() ==> (#[trigger] m@[r])@.len() == self.columns,
            forall|r: int, c: int|
                0 <= r < self.rows && 0 <= c < self.columns ==> self.shows(
                    #[trigger] m@[r]@[c],
                    r,
                    c,
                ),
    {
        self.cells_h()
    }

    /// `entry` is what the grid holds at a coordinate: a copy of the cell
    /// there, or nothing for a hole.
    pub open spec fn shows(&self, entry: Option<Cell>, row: int, col: int) -> bool {
        match self.lookup(row, col) {
            Some(i) => entry is Some && entry->0.same_as(&self.cells@[i as int]),
            None => entry is None,
        }
    }
}

impl GridBase {
    /// A cell stands where the table names it, and nowhere else.
    pub proof fn lemma_cell_place(&self, i: int)
        requires
            self.shape_ok(),
            0 <= i < self.cells@.len(),
        ensures
            self.cells@[i].row == position(self.cells@[i], self.columns as int) / (
            self.columns as int),
            self.cells@[i].column == position(self.cells@[i], self.columns as int) % (
            self.columns as int),
            self.cells@[i].index == i,
    {
        let c = self.cells@[i];
        crate::grid::mask::lemma_position(
            c.row as int,
            c.column as int,
            self.rows as int,
            self.columns as int,
        );
    }

    /// Two built and wired grids of one size whose tables name the same
    /// cells at the same coordinates have the same structure.
    pub proof fn lemma_same_slots(&self, other: &GridBase)
        requires
            self.shape_ok(),
            self.configured(),
            other.shape_ok(),
            other.configured(),
            self.rows == other.rows,
            self.columns == other.columns,
            self.slots@ == other.slots@,
        ensures
            self.same_structure(other),
    {
        let columns = self.columns as int;
        if self.cells@.len() > other.cells@.len() {
            let i = other.cells@.len() as int;
            assert(self.slots@[position(self.cells@[i], columns)] == Some(i as usize));
            assert(other.slots@[position(self.cells@[i], columns)] == Some(i as usize));
        }
        if other.cells@.len() > self.cells@.len() {
            let i = self.cells@.len() as int;
            assert(other.slots@[position(other.cells@[i], columns)] == Some(i as usize));
            assert(self.slots@[position(other.cells@[i], columns)] == Some(i as usize));
        }
        assert forall|i: int| 0 <= i < self.cells@.len() implies (#[trigger] self.cells@[i]).same_place(
            &other.cells@[i],
        ) by {
            let p = position(self.cells@[i], columns);
            assert(self.slots@[p] == Some(i as usize));
            assert(other.slots@[p] == Some(i as usize));
            assert(position(other.cells@[i], columns) == p);
            self.lemma_cell_place(i);
            other.lemma_cell_place(i);
            assert(self.cell_configured(i));
            assert(other.cell_configured(i));
            let a = self.cells@[i];
            let b = other.cells@[i];
            assert(self.lookup(a.row - 1, a.column as int) == other.lookup(
                b.row - 1,
                b.column as int,
            ));
            assert(self.lookup(a.row + 1, a.column as int) == other.lookup(
                b.row + 1,
                b.column as int,
            ));
            assert(self.lookup(a.row as int, a.column + 1) == other.lookup(
                b.row as int,
                b.column + 1,
            ));
            assert(self.lookup(a.row as int, a.column - 1) == other.lookup(
                b.row as int,
                b.column - 1,
            ));
        }
    }

    /// A cell stands at every coordinate, and the cells are numbered row
    /// after row.
    pub open spec fn is_full(&self) -> bool {
        &&& self.cells@.len() == self.rows * self.columns
        &&& forall|row: int, col: int|
            0 <= row < self.rows && 0 <= col < self.columns ==> #[trigger] self.lookup(row, col)
                == Some((row * self.columns + col) as usize)
    }

    /// Two built and wired grids without holes of one size have the same
    /// structure.
    pub proof fn lemma_same_full(&self, other: &GridBase)
        requires
            self.shape_ok(),
            self.configured(),
            self.is_full(),
            other.shape_ok(),
            other.configured(),
            other.is_full(),
            self.rows == other.rows,
            self.columns == other.columns,
        ensures
            self.same_structure(other),
    {
        assert(self.slots@ =~= other.slots@) by {
            assert forall|p: int| 0 <= p < self.slots@.len() implies self.slots@[p]
                == other.slots@[p] by {
                crate::grid::mask::lemma_coordinates(p, self.rows as int, self.columns as int);
                let row = p / (self.columns as int);
                let col = p % (self.columns as int);
                assert(self.lookup(row, col) == Some((row * self.columns + col) as usize));
                assert(other.lookup(row, col) == Some((row * self.columns + col) as usize));
            }
        }
        self.lemma_same_slots(other);
    }
}

} // verus!
