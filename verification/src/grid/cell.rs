//! One cell of a grid.

use vstd::prelude::*;

verus! {

/// The index that a direction holds, as a sequence of none or one.
pub open spec fn direction_seq(direction: Option<usize>) -> Seq<usize> {
    match direction {
        Some(i) => seq![i],
        None => Seq::empty(),
    }
}

/// What every kind of cell can tell about itself. Other cells are named by
/// their index in the grid that owns them.
pub trait ICell {
    spec fn row_spec(&self) -> usize;

    spec fn column_spec(&self) -> usize;

    spec fn index_spec(&self) -> usize;

    spec fn neighbors_spec(&self) -> Seq<usize>;

    spec fn links_spec(&self) -> Seq<usize>;

    fn row(&self) -> (r: usize)
        ensures
            r == self.row_spec(),
    ;

    fn column(&self) -> (c: usize)
        ensures
            c == self.column_spec(),
    ;

    fn index(&self) -> (i: usize)
        ensures
            i == self.index_spec(),
    ;

    /// The cells next to this one.
    fn neighbors(&self) -> (v: Vec<usize>)
        ensures
            v@ == self.neighbors_spec(),
    ;

    /// The cells that a passage joins to this one.
    fn links(&self) -> (v: Vec<usize>)
        ensures
            v@ == self.links_spec(),
    ;
}

/// One cell of a rectangular lattice.
#[derive(Debug)]
pub struct Cell {
    pub row: usize,
    pub column: usize,
    /// The place of the cell in its grid's arena.
    pub index: usize,
    /// The cells that a passage joins to this one, oldest passage first.
    pub links: Vec<usize>,
    pub north: Option<usize>,
    pub south: Option<usize>,
    pub east: Option<usize>,
    pub west: Option<usize>,
}

impl Clone for Cell {
    fn clone(&self) -> (c: Cell)
        ensures
            c.same_as(self),
    {
        let mut links: Vec<usize> = Vec::new();
        let mut k: usize = 0;
        while k < self.links.len()
            invariant
                k <= self.links@.len(),
                links@ == self.links@.take(k as int),
            decreases self.links@.len() - k,
        {
            links.push(self.links[k]);
            proof {
                assert(self.links@.take(k as int).push(self.links@[k as int]) =~= self.links@.take(
                    k + 1,
                ));
            }
            k = k + 1;
        }
        proof {
            assert(self.links@.take(k as int) =~= self.links@);
        }
        Cell {
            row: self.row,
            column: self.column,
            index: self.index,
            links,
            north: self.north,
            south: self.south,
            east: self.east,
            west: self.west,
        }
    }
}

impl ICell for Cell {
    open spec fn row_spec(&self) -> usize {
        self.row
    }

    open spec fn column_spec(&self) -> usize {
        self.column
    }

    open spec fn index_spec(&self) -> usize {
        self.index
    }

    /// North, south, east, west, leaving out the directions without a cell.
    open spec fn neighbors_spec(&self) -> Seq<usize> {
        direction_seq(self.north) + direction_seq(self.south) + direction_seq(self.east)
            + direction_seq(self.west)
    }

    open spec fn links_spec(&self) -> Seq<usize> {
        self.links@
    }

    fn row(&self) -> (r: usize) {
        self.row
    }

    fn column(&self) -> (c: usize) {
        self.column
    }

    fn index(&self) -> (i: usize) {
        self.index
    }

    fn neighbors(&self) -> (v: Vec<usize>) {
        let mut v: Vec<usize> = Vec::new();
        if let Some(north) = self.north {
            v.push(north);
        }
        assert(v@ =~= direction_seq(self.north));
        if let Some(south) = self.south {
            v.push(south);
        }
        assert(v@ =~= direction_seq(self.north) + direction_seq(self.south));
        if let Some(east) = self.east {
            v.push(east);
        }
        assert(v@ =~= direction_seq(self.north) + direction_seq(self.south) + direction_seq(
            self.east,
        ));
        if let Some(west) = self.west {
            v.push(west);
        }
        assert(v@ =~= self.neighbors_spec());
        v
    }

    fn links(&self) -> (v: Vec<usize>) {
        let c = self.clone();
        c.links
    }
}

impl Cell {
    /// The two cells hold the same coordinates, index, neighbours and links.
    pub open spec fn same_as(&self, other: &Cell) -> bool {
        &&& self.same_place(other)
        &&& self.links@ == other.links@
    }

    /// The two cells hold the same coordinates, index and neighbours.
    pub open spec fn same_place(&self, other: &Cell) -> bool {
        &&& self.row == other.row
        &&& self.column == other.column
        &&& self.index == other.index
        &&& self.north == other.north
        &&& self.south == other.south
        &&& self.east == other.east
        &&& self.west == other.west
    }

    /// The cell names no neighbour and has no link.
    pub open spec fn bare(&self) -> bool {
        &&& self.links@.len() == 0
        &&& self.north is None
        &&& self.south is None
        &&& self.east is None
        &&& self.west is None
    }

    /// Whether `other` is the cell to the north, south, east or west.
    pub open spec fn is_neighbor(&self, other: usize) -> bool {
        ||| self.north == Some(other)
        ||| self.south == Some(other)
        ||| self.east == Some(other)
        ||| self.west == Some(other)
    }

    /// Whether a passage joins this cell to `other`.
    pub open spec fn linked_to(&self, other: usize) -> bool {
        self.links@.contains(other)
    }

    /// A cell without neighbours and without links.
    pub fn new(row: usize, column: usize, index: usize) -> (c: Cell)
        ensures
            c.row == row,
            c.column == column,
            c.index == index,
            c.links@ == Seq::<usize>::empty(),
            c.north is None,
            c.south is None,
            c.east is None,
            c.west is None,
    {
        Cell {
            row,
            column,
            index,
            links: Vec::new(),
            north: None,
            south: None,
            east: None,
            west: None,
        }
    }

    /// Whether a passage joins this cell to `other`.
    pub fn is_linked(&self, other: usize) -> (b: bool)
        ensures
            b == self.linked_to(other),
    {
        self.index_of_other(other).is_some()
    }

    /// The first place of `other` among the links, if it is there.
    pub fn index_of_other(&self, other: usize) -> (at: Option<usize>)
        ensures
            at is None <==> !self.linked_to(other),
            at matches Some(k) ==> k < self.links@.len() && self.links@[k as int] == other
                && forall|j: int| 0 <= j < k ==> self.links@[j] != other,
    {
        let mut k: usize = 0;
        while k < self.links.len()
            invariant
                k <= self.links@.len(),
                forall|j: int| 0 <= j < k ==> self.links@[j] != other,
            decreases self.links@.len() - k,
        {
            if self.links[k] == other {
                return Some(k);
            }
            k = k + 1;
        }
        None
    }

    /// Whether a passage leads north.
    pub open spec fn north_open(&self) -> bool {
        self.north is Some && self.linked_to(self.north->0)
    }

    /// Whether a passage leads south.
    pub open spec fn south_open(&self) -> bool {
        self.south is Some && self.linked_to(self.south->0)
    }

    /// Whether a passage leads east.
    pub open spec fn east_open(&self) -> bool {
        self.east is Some && self.linked_to(self.east->0)
    }

    /// Whether a passage leads west.
    pub open spec fn west_open(&self) -> bool {
        self.west is Some && self.linked_to(self.west->0)
    }

    /// Whether a passage leads north: where not, a wall stands there.
    pub fn is_open_north(&self) -> (b: bool)
        ensures
            b == self.north_open(),
    {
        match self.north {
            Some(north) => self.is_linked(north),
            None => false,
        }
    }

    /// Whether a passage leads south: where not, a wall stands there.
    pub fn is_open_south(&self) -> (b: bool)
        ensures
            b == self.south_open(),
    {
        match self.south {
            Some(south) => self.is_linked(south),
            None => false,
        }
    }

    /// Whether a passage leads east: where not, a wall stands there.
    pub fn is_open_east(&self) -> (b: bool)
        ensures
            b == self.east_open(),
    {
        match self.east {
            Some(east) => self.is_linked(east),
            None => false,
        }
    }

    /// Whether a passage leads west: where not, a wall stands there.
    pub fn is_open_west(&self) -> (b: bool)
        ensures
            b == self.west_open(),
    {
        match self.west {
            Some(west) => self.is_linked(west),
            None => false,
        }
    }

    /// Whether `other` is the cell to the north, south, east or west.
    pub fn has_neighbor(&self, other: usize) -> (b: bool)
        ensures
            b == self.is_neighbor(other),
    {
        self.north == Some(other) || self.south == Some(other) || self.east == Some(other)
            || self.west == Some(other)
    }
}

/// The neighbours of a cell are exactly the cells that one of its four
/// directions holds.
pub proof fn lemma_neighbors_are_directions(cell: &Cell, other: usize)
    ensures
        cell.neighbors_spec().contains(other) <==> cell.is_neighbor(other),
{
    let n = direction_seq(cell.north);
    let s = direction_seq(cell.south);
    let e = direction_seq(cell.east);
    let w = direction_seq(cell.west);
    let all = cell.neighbors_spec();
    if cell.is_neighbor(other) {
        if cell.north == Some(other) {
            assert(all[0] == other);
        } else if cell.south == Some(other) {
            assert(all[n.len() as int] == other);
        } else if cell.east == Some(other) {
            assert(all[(n.len() + s.len()) as int] == other);
        } else {
            assert(all[(n.len() + s.len() + e.len()) as int] == other);
        }
    }
    if all.contains(other) {
        let k = choose|k: int| 0 <= k < all.len() && all[k] == other;
        assert(all[k] == other);
    }
}

} // verus!
