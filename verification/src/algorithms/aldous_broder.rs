//! The Aldous-Broder algorithm.

use vstd::prelude::*;
use crate::algorithms::{MazeAlgorithm, STEP_LIMIT};
use crate::error::MazeError;
use crate::grid::cell::ICell;
use crate::grid::grid_base::GridBase;
use crate::grid::link::link;
use crate::rng::RngWrapper;

verus! {

/// The unbiased random walk: it wanders from neighbour to neighbour and
/// opens a passage whenever it steps onto a cell that has none.
#[derive(Debug)]
pub struct AldousBroder;

impl AldousBroder {
    /// Where the walk stands after the given draws: the first names the cell
    /// where it starts, each later one a neighbour of the cell before.
    pub open spec fn position_after(grid: &GridBase, draws: Seq<usize>) -> int
        decreases draws.len(),
    {
        if draws.len() == 0 {
            0
        } else if draws.len() == 1 {
            draws[0] as int
        } else {
            grid.neighbors_of(Self::position_after(grid, draws.drop_last()))[draws.last() as int] as int
        }
    }

    /// The links after the given draws: each step onto a cell without links
    /// opens a passage to it from the cell before.
    pub open spec fn walk_links(grid: &GridBase, draws: Seq<usize>) -> Seq<Seq<usize>>
        decreases draws.len(),
    {
        if draws.len() <= 1 {
            grid.link_table()
        } else {
            let before = Self::walk_links(grid, draws.drop_last());
            let from = Self::position_after(grid, draws.drop_last());
            let to = Self::position_after(grid, draws);
            if before[to].len() == 0 {
                crate::grid::passages::opened(before, from, to)
            } else {
                before
            }
        }
    }

    /// Grids with the same structure and the same links are walked alike.
    pub proof fn lemma_walk_same(first: &GridBase, second: &GridBase, draws: Seq<usize>)
        requires
            first.same_structure(second),
            first.same_links(second),
        ensures
            Self::position_after(first, draws) == Self::position_after(second, draws),
            Self::walk_links(first, draws) == Self::walk_links(second, draws),
        decreases draws.len(),
    {
        first.lemma_same_links_table(second);
        if draws.len() >= 2 {
            Self::lemma_walk_same(first, second, draws.drop_last());
            first.lemma_same_neighbors(second, Self::position_after(first, draws.drop_last()));
        }
    }

    /// The walk has asked for as many draws as it may.
    pub open spec fn is_spent(draws: Seq<usize>) -> bool {
        draws.len() == STEP_LIMIT + 1
    }

    /// The walk stands on a cell without neighbours.
    pub open spec fn is_stuck(grid: &GridBase, draws: Seq<usize>) -> bool {
        &&& draws.len() >= 1
        &&& grid.neighbors_of(Self::position_after(grid, draws)).len() == 0
    }

    /// One step of the walk: from `current` to its neighbour number `choice`.
    /// A passage is opened to the neighbour if it had no link yet. Returns
    /// the neighbour, and whether a passage was opened.
    pub fn step(grid: &mut GridBase, current: usize, choice: usize) -> (to: (usize, bool))
        requires
            old(grid).wf(),
            current < old(grid).cells@.len(),
            choice < old(grid).neighbors_of(current as int).len(),
        ensures
            to.0 == old(grid).neighbors_of(current as int)[choice as int],
            to.1 == (old(grid).links_of(to.0 as int).len() == 0),
            old(grid).adjacent(current as int, to.0 as int),
            final(grid).wf(),
            final(grid).same_structure(old(grid)),
            to.1 ==> final(grid).link_added(old(grid), current as int, to.0 as int),
            !to.1 ==> final(grid).same_links(old(grid)),
    {
        let neighbors = grid.cells[current].neighbors();
        let next: usize = neighbors[choice];
        proof {
            assert(grid.neighbors_of(current as int).contains(next));
            grid.lemma_neighbors(current as int, next);
            grid.lemma_adjacent(current as int, next as int);
        }
        if grid.cells[next].links.len() == 0 {
            proof {
                if grid.linked(current as int, next as int) {
                    grid.lemma_linked_symmetric(current as int, next as int);
                }
            }
            let opened = link(grid, current, next);
            assert(opened is Ok);
            (next, true)
        } else {
            (next, false)
        }
    }

}

impl MazeAlgorithm for AldousBroder {
    open spec fn links_after(&self, grid: &GridBase, draws: Seq<usize>) -> Seq<Seq<usize>> {
        Self::walk_links(grid, draws)
    }

    proof fn lemma_same_grid(&self, first: &GridBase, second: &GridBase, draws: Seq<usize>) {
        Self::lemma_walk_same(first, second, draws);
    }

    /// The walk may give up when it has asked for as many draws as it may, or
    /// stands on a cell without neighbours; then the cells do not form one
    /// region.
    open spec fn may_give_up(&self, grid: &GridBase, draws: Seq<usize>) -> bool {
        Self::is_spent(draws) || (Self::is_stuck(grid, draws) && !grid.one_region())
    }

    /// The walk starts at a cell that the generator picks and goes on until
    /// every cell has been stepped on. It is given up with `Disconnected`
    /// only when it stands on a cell without neighbours while cells are left,
    /// which cannot happen where the cells form one region, or when it has
    /// made `STEP_LIMIT` steps. A grid without cells is refused
    /// with `EmptyMask`. Whatever the outcome, the passages opened so far form
    /// a tree.
    fn on<R: RngWrapper>(&self, grid: &mut GridBase, rng: &mut R) -> (r: Result<(), MazeError>) {
        let size: usize = grid.size();
        if size == 0 {
            proof {
                crate::algorithms::lemma_recorded_none(*rng);
                assert(grid.link_table() == self.links_after(old(grid), Seq::empty()));
            }
            return Err(MazeError::EmptyMask);
        }
        let start: usize = rng.gen_range(0, size);
        let mut current: usize = start;
        let mut unvisited: usize = size - 1;
        let mut steps_left: u64 = STEP_LIMIT;
        let ghost mut draws: Seq<usize> = seq![start];
        proof {
            crate::algorithms::lemma_recorded_none(*old(rng));
            crate::algorithms::lemma_recorded_more(
                *old(rng),
                *old(rng),
                *rng,
                Seq::empty(),
                start,
            );
            assert(Seq::<usize>::empty().push(start) =~= draws);
        }
        proof {
            grid.lemma_tree_start(start as int);
        }
        while unvisited > 0
            invariant
                grid.same_structure(old(grid)),
                grid.is_tree_from(start as int),
                size == grid.cells@.len(),
                current < size,
                grid.carved(start as int).contains(current as int),
                grid.carved(start as int).len() + unvisited == size,
                old(grid).wf(),
                draws.len() >= 1,
                draws.len() + steps_left == STEP_LIMIT + 1,
                crate::algorithms::recorded(*old(rng), *rng, draws),
                current == Self::position_after(old(grid), draws),
                grid.link_table() == Self::walk_links(old(grid), draws),
            decreases steps_left,
        {
            if steps_left == 0 {
                proof {
                    assert(grid.link_table() == self.links_after(old(grid), draws));
                    assert(Self::is_spent(draws));
                }
                return Err(MazeError::Disconnected);
            }
            let count: usize = grid.cells[current].neighbors().len();
            if count == 0 {
                proof {
                    assert(grid.link_table() == self.links_after(old(grid), draws));
                    grid.lemma_same_neighbors(old(grid), current as int);
                    assert(Self::is_stuck(old(grid), draws));
                    old(grid).lemma_lonely_cell(current as int);
                }
                return Err(MazeError::Disconnected);
            }
            steps_left = steps_left - 1;
            let ghost rng_before = *rng;
            let choice: usize = rng.gen_range(0, count);
            let ghost before = *grid;
            let (next, opened) = Self::step(grid, current, choice);
            proof {
                before.lemma_adjacent(current as int, next as int);
                if opened {
                    grid.lemma_tree_grows(&before, start as int, current as int, next as int);
                    grid.lemma_link_added_table(&before, current as int, next as int);
                } else {
                    grid.lemma_same_links_tree(&before, start as int);
                    grid.lemma_same_links_table(&before);
                }
                grid.lemma_same_structure_chain(&before, old(grid));
                before.lemma_same_neighbors(old(grid), current as int);
                let longer = draws.push(choice);
                assert(longer.drop_last() =~= draws);
                assert(before.link_table()[next as int] == before.links_of(next as int));
                crate::algorithms::lemma_recorded_more(*old(rng), rng_before, *rng, draws, choice);
                draws = longer;
            }
            if opened {
                unvisited = unvisited - 1;
            }
            current = next;
        }
        proof {
            grid.lemma_tree_complete(start as int);
            assert(grid.link_table() == self.links_after(old(grid), draws));
        }
        Ok(())
    }
}

} // verus!
