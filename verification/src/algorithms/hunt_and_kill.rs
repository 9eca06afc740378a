//! The hunt-and-kill algorithm.

use vstd::prelude::*;
use crate::algorithms::{MazeAlgorithm, carve};
use crate::error::MazeError;
use crate::grid::grid_base::GridBase;
use crate::rng::RngWrapper;

verus! {

/// The walk that never goes back: it goes on to a neighbour without links as
/// long as there is one, and then hunts through the grid for a carved cell
/// that still has such a neighbour.
#[derive(Debug)]
pub struct HuntAndKill;

impl HuntAndKill {
    /// In `table`, cell `c` is the root or has a link, and has a neighbour
    /// without links.
    pub open spec fn open_end(grid: &GridBase, table: Seq<Seq<usize>>, root: int, c: int) -> bool {
        &&& 0 <= c < table.len()
        &&& (c == root || table[c].len() > 0)
        &&& grid.free_neighbors(table, c).len() > 0
    }

    /// Cell `c` is carved and has a neighbour without links.
    pub open spec fn is_open_end(grid: &GridBase, root: int, c: int) -> bool {
        Self::open_end(grid, grid.link_table(), root, c)
    }

    /// Cell `c` is the first open end, in the order of the arena.
    pub open spec fn first_open_end(
        grid: &GridBase,
        table: Seq<Seq<usize>>,
        root: int,
        c: int,
    ) -> bool {
        &&& Self::open_end(grid, table, root, c)
        &&& forall|d: int| 0 <= d < c ==> !Self::open_end(grid, table, root, d)
    }

    /// The cell from which the next passage starts: `current` while it has a
    /// neighbour without links, else the first open end, if there is one.
    pub open spec fn source_of(
        grid: &GridBase,
        table: Seq<Seq<usize>>,
        root: int,
        current: int,
    ) -> Option<int> {
        if grid.free_neighbors(table, current).len() > 0 {
            Some(current)
        } else if exists|c: int| Self::first_open_end(grid, table, root, c) {
            Some(choose|c: int| Self::first_open_end(grid, table, root, c))
        } else {
            None
        }
    }

    /// The links and the place of the walk after the given draws. The first
    /// draw names the cell where the walk starts. Each later one names a
    /// neighbour without links of the cell from which the next passage
    /// starts: a passage is opened to it and the walk goes there.
    pub open spec fn walk_after(grid: &GridBase, draws: Seq<usize>) -> (Seq<Seq<usize>>, int)
        decreases draws.len(),
    {
        if draws.len() == 0 {
            (grid.link_table(), 0)
        } else if draws.len() == 1 {
            (grid.link_table(), draws[0] as int)
        } else {
            let (table, current) = Self::walk_after(grid, draws.drop_last());
            match Self::source_of(grid, table, draws[0] as int, current) {
                Some(from) => {
                    let next = grid.free_neighbors(table, from)[draws.last() as int];
                    (crate::grid::passages::opened(table, from, next as int), next as int)
                },
                None => (table, current),
            }
        }
    }

    /// Grids with the same structure and the same links are walked alike.
    pub proof fn lemma_walk_same(first: &GridBase, second: &GridBase, draws: Seq<usize>)
        requires
            first.same_structure(second),
            first.same_links(second),
        ensures
            Self::walk_after(first, draws) == Self::walk_after(second, draws),
        decreases draws.len(),
    {
        first.lemma_same_links_table(second);
        if draws.len() >= 2 {
            Self::lemma_walk_same(first, second, draws.drop_last());
            let (table, current) = Self::walk_after(first, draws.drop_last());
            Self::lemma_source_same(first, second, table, draws[0] as int, current);
            match Self::source_of(first, table, draws[0] as int, current) {
                Some(from) => {
                    first.lemma_same_neighbors(second, from);
                },
                None => {},
            }
        }
    }

    /// Grids with the same structure start the next passage from the same
    /// cell.
    pub proof fn lemma_source_same(
        grid: &GridBase,
        pre: &GridBase,
        table: Seq<Seq<usize>>,
        root: int,
        current: int,
    )
        requires
            grid.same_structure(pre),
        ensures
            Self::source_of(grid, table, root, current) == Self::source_of(pre, table, root, current),
    {
        assert forall|c: int| Self::open_end(grid, table, root, c) == Self::open_end(
            pre,
            table,
            root,
            c,
        ) by {
            if 0 <= c < table.len() {
                grid.lemma_same_neighbors(pre, c);
            }
        }
        grid.lemma_same_neighbors(pre, current);
        assert forall|c: int| Self::first_open_end(grid, table, root, c) == Self::first_open_end(
            pre,
            table,
            root,
            c,
        ) by {}
        if exists|c: int| Self::first_open_end(grid, table, root, c) {
            let c1 = choose|c: int| Self::first_open_end(grid, table, root, c);
            let c2 = choose|c: int| Self::first_open_end(pre, table, root, c);
            assert(Self::first_open_end(pre, table, root, c1));
            assert(c1 == c2);
        }
    }

    /// The first cell, in the order of the arena, that is carved and has a
    /// neighbour without links.
    pub fn hunt(grid: &GridBase, root: usize) -> (found: Option<usize>)
        requires
            grid.wf(),
            root < grid.cells@.len(),
        ensures
            found matches Some(c) ==> c < grid.cells@.len() && Self::is_open_end(
                grid,
                root as int,
                c as int,
            ) && forall|d: int| 0 <= d < c ==> !Self::is_open_end(grid, root as int, d),
            found is None ==> forall|d: int|
                0 <= d < grid.cells@.len() ==> !Self::is_open_end(grid, root as int, d),
    {
        let mut c: usize = 0;
        while c < grid.cells.len()
            invariant
                grid.wf(),
                root < grid.cells@.len(),
                c <= grid.cells@.len(),
                forall|d: int| 0 <= d < c ==> !Self::is_open_end(grid, root as int, d),
            decreases grid.cells@.len() - c,
        {
            if (c == root || grid.cells[c].links.len() > 0) && grid.unvisited_neighbors(c).len()
                > 0 {
                return Some(c);
            }
            c = c + 1;
        }
        None
    }

    /// The cell from which the next passage starts: `current` while it has a
    /// neighbour without links, else the cell that the hunt finds, if any.
    pub fn source(grid: &GridBase, root: usize, current: usize) -> (from: Option<usize>)
        requires
            grid.wf(),
            root < grid.cells@.len(),
            current < grid.cells@.len(),
        ensures
            grid.unvisited_neighbors_of(current as int).len() > 0 ==> from == Some(current),
            from matches Some(c) ==> c < grid.cells@.len() && grid.unvisited_neighbors_of(
                c as int,
            ).len() > 0 && (c == current || (Self::is_open_end(grid, root as int, c as int)
                && forall|d: int| 0 <= d < c ==> !Self::is_open_end(grid, root as int, d))),
            from is None ==> forall|d: int|
                0 <= d < grid.cells@.len() ==> !Self::is_open_end(grid, root as int, d),
            Self::source_of(grid, grid.link_table(), root as int, current as int) == (match from {
                Some(c) => Some(c as int),
                None => None,
            }),
    {
        if grid.unvisited_neighbors(current).len() > 0 {
            Some(current)
        } else {
            let found = Self::hunt(grid, root);
            proof {
                let table = grid.link_table();
                match found {
                    Some(c) => {
                        assert forall|d: int| 0 <= d < c implies !Self::open_end(
                            grid,
                            table,
                            root as int,
                            d,
                        ) by {
                            assert(!Self::is_open_end(grid, root as int, d));
                        }
                        assert(Self::is_open_end(grid, root as int, c as int));
                        assert(Self::first_open_end(grid, table, root as int, c as int));
                        let first = choose|c: int| Self::first_open_end(grid, table, root as int, c);
                        assert(first == c);
                    },
                    None => {
                        assert forall|c: int| !Self::first_open_end(
                            grid,
                            table,
                            root as int,
                            c,
                        ) by {
                            if 0 <= c < grid.cells@.len() {
                                assert(!Self::is_open_end(grid, root as int, c));
                            }
                        }
                    },
                }
            }
            found
        }
    }
}

impl MazeAlgorithm for HuntAndKill {
    open spec fn links_after(&self, grid: &GridBase, draws: Seq<usize>) -> Seq<Seq<usize>> {
        Self::walk_after(grid, draws).0
    }

    proof fn lemma_same_grid(&self, first: &GridBase, second: &GridBase, draws: Seq<usize>) {
        Self::lemma_walk_same(first, second, draws);
    }

    /// The walk gives up where the cells do not form one region.
    open spec fn may_give_up(&self, grid: &GridBase, draws: Seq<usize>) -> bool {
        !grid.one_region()
    }

    /// The walk starts at a cell that the generator picks and ends when the
    /// hunt finds nothing. It reaches every cell exactly when the cells form
    /// one region; otherwise it says `Disconnected`.
    fn on<R: RngWrapper>(&self, grid: &mut GridBase, rng: &mut R) -> (r: Result<(), MazeError>)
        ensures
            old(grid).cells@.len() > 0 ==> (r is Ok <==> old(grid).one_region()),
    {
        let size: usize = grid.size();
        if size == 0 {
            proof {
                crate::algorithms::lemma_recorded_none(*rng);
                assert(grid.link_table() == self.links_after(old(grid), Seq::empty()));
            }
            return Err(MazeError::EmptyMask);
        }
        let start: usize = rng.gen_range(0, size);
        let mut current: usize = start;
        let mut carved: usize = 1;
        let ghost mut draws: Seq<usize> = seq![start];
        proof {
            crate::algorithms::lemma_recorded_none(*old(rng));
            crate::algorithms::lemma_recorded_more(
                *old(rng),
                *old(rng),
                *rng,
                Seq::empty(),
                start,
            );
            assert(Seq::<usize>::empty().push(start) =~= draws);
        }
        proof {
            grid.lemma_tree_start(start as int);
        }
        loop
            invariant
                grid.same_structure(old(grid)),
                grid.is_tree_from(start as int),
                size == grid.cells@.len(),
                carved == grid.carved(start as int).len(),
                carved <= size,
                current < size,
                grid.carved(start as int).contains(current as int),
                old(grid).wf(),
                draws.len() >= 1,
                draws[0] == start,
                crate::algorithms::recorded(*old(rng), *rng, draws),
                grid.link_table() == Self::walk_after(old(grid), draws).0,
                current == Self::walk_after(old(grid), draws).1,
            ensures
                grid.same_structure(old(grid)),
                grid.is_tree_from(start as int),
                size == grid.cells@.len(),
                carved == grid.carved(start as int).len(),
                forall|d: int| 0 <= d < size ==> !Self::is_open_end(grid, start as int, d),
                grid.link_table() == Self::walk_after(old(grid), draws).0,
                crate::algorithms::recorded(*old(rng), *rng, draws),
            decreases size - carved,
        {
            let from: usize = match Self::source(grid, start, current) {
                Some(c) => c,
                None => { break ; },
            };
            let count: usize = grid.unvisited_neighbors(from).len();
            let ghost rng_before = *rng;
            let choice: usize = rng.gen_range(0, count);
            let ghost before = *grid;
            let next: usize = carve(grid, from, choice);
            proof {
                grid.lemma_same_structure_chain(&before, old(grid));
                grid.lemma_tree_grows(&before, start as int, from as int, next as int);
                grid.lemma_carved_finite(start as int);
                before.lemma_adjacent(from as int, next as int);
                grid.lemma_link_added_table(&before, from as int, next as int);
                before.lemma_same_neighbors(old(grid), from as int);
                Self::lemma_source_same(
                    &before,
                    old(grid),
                    before.link_table(),
                    start as int,
                    current as int,
                );
                let longer = draws.push(choice);
                assert(longer.drop_last() =~= draws);
                crate::algorithms::lemma_recorded_more(*old(rng), rng_before, *rng, draws, choice);
                draws = longer;
            }
            carved = carved + 1;
            current = next;
        }
        proof {
            grid.lemma_same_structure(old(grid));
            grid.lemma_walks_kept(old(grid));
            if carved == size {
                grid.lemma_tree_complete(start as int);
                grid.lemma_perfect_one_region();
            } else if grid.one_region() {
                assert forall|a: int, b: int|
                    grid.carved(start as int).contains(a) && grid.adjacent(
                        a,
                        b,
                    ) implies grid.carved(start as int).contains(b) by {
                    assert(!Self::is_open_end(grid, start as int, a));
                    grid.lemma_no_unvisited_neighbors(a);
                }
                assert forall|c: int| 0 <= c < size implies grid.carved(start as int).contains(
                    c,
                ) by {
                    grid.lemma_closed_region(grid.carved(start as int), start as int, c);
                }
                grid.lemma_carved_all(start as int);
            }
        }
        proof {
            assert(grid.link_table() == self.links_after(old(grid), draws));
        }
        if carved == size {
            Ok(())
        } else {
            Err(MazeError::Disconnected)
        }
    }
}

} // verus!
