//! The algorithms that carve a maze, and what they have in common.

use vstd::prelude::*;
use crate::error::MazeError;
use crate::grid::grid_base::GridBase;
use crate::grid::link::link;
use crate::rng::RngWrapper;

pub mod aldous_broder;
pub mod recursive_backtracker;
pub mod hunt_and_kill;
pub mod wilson;

verus! {

/// How many draws after the first a random walk may ask for before it is
/// given up.
pub const STEP_LIMIT: u64 = 0xffff_ffff_ffff_ffff;

/// A way of carving a perfect maze into a grid.
pub trait MazeAlgorithm {
    /// The links that the algorithm has opened in `grid` once the generator
    /// has given it `draws`, one value after the other.
    spec fn links_after(&self, grid: &GridBase, draws: Seq<usize>) -> Seq<Seq<usize>>;

    /// Whether the algorithm may give up on `grid` once the generator has
    /// given it `draws`.
    spec fn may_give_up(&self, grid: &GridBase, draws: Seq<usize>) -> bool;

    /// Two grids with the same structure and the same links are carved
    /// alike by the same draws.
    proof fn lemma_same_grid(&self, first: &GridBase, second: &GridBase, draws: Seq<usize>)
        requires
            first.same_structure(second),
            first.same_links(second),
        ensures
            self.links_after(first, draws) == self.links_after(second, draws),
    ;

    /// Carves a maze into a grid without links, with choices drawn from
    /// `rng`.
    ///
    /// Only links change. A grid without cells is refused with `EmptyMask`;
    /// an algorithm that could not reach every cell says `Disconnected`, and
    /// only where it may give up. In that case too the passages opened form a
    /// tree. On success the grid is a perfect maze. The links are those that
    /// the values drawn lead to; where the generator keeps a record, the
    /// values drawn are what the record has gained.
    fn on<R: RngWrapper>(&self, grid: &mut GridBase, rng: &mut R) -> (r: Result<(), MazeError>)
        requires
            old(grid).wf(),
            old(grid).unlinked(),
        ensures
            final(grid).wf(),
            final(grid).same_structure(old(grid)),
            old(grid).cells@.len() == 0 <==> r == Err::<(), MazeError>(MazeError::EmptyMask),
            r is Err ==> r == Err::<(), MazeError>(MazeError::EmptyMask) || r == Err::<
                (),
                MazeError,
            >(MazeError::Disconnected),
            r is Ok ==> final(grid).is_perfect_maze(),
            old(grid).cells@.len() > 0 ==> exists|root: int| final(grid).is_tree_from(root),
            old(grid).cells@.len() == 1 ==> r is Ok,
            exists|draws: Seq<usize>|
                {
                    &&& final(grid).link_table() == #[trigger] self.links_after(old(grid), draws)
                    &&& recorded(*old(rng), *final(rng), draws)
                    &&& r == Err::<(), MazeError>(MazeError::Disconnected) ==> self.may_give_up(
                        old(grid),
                        draws,
                    )
                },
    ;
}

/// Since it stood as `before`, the generator has handed out `draws` and now
/// stands as `after`. This says nothing of a generator that keeps no record.
pub open spec fn recorded<R: RngWrapper>(before: R, after: R, draws: Seq<usize>) -> bool {
    before.keeps_record() ==> after.keeps_record() && after.drawn() == before.drawn() + draws
}

/// A generator has handed out nothing since it stood as it stands.
pub proof fn lemma_recorded_none<R: RngWrapper>(first: R)
    ensures
        recorded(first, first, Seq::empty()),
{
    assert(first.drawn() + Seq::<usize>::empty() =~= first.drawn());
}

/// One more value handed out is one more value drawn.
pub proof fn lemma_recorded_more<R: RngWrapper>(
    first: R,
    before: R,
    after: R,
    draws: Seq<usize>,
    value: usize,
)
    requires
        recorded(first, before, draws),
        before.keeps_record() ==> after.keeps_record() && after.drawn() == before.drawn().push(
            value,
        ),
    ensures
        recorded(first, after, draws.push(value)),
{
    assert((first.drawn() + draws).push(value) =~= first.drawn() + draws.push(value));
}

/// Two runs of an algorithm on grids with the same structure and the same
/// links, with generators that keep a record and have handed out the same
/// values, open the same passages, in the same order.
pub proof fn lemma_same_record_same_maze<A: MazeAlgorithm, R: RngWrapper>(
    algorithm: &A,
    first_grid: &GridBase,
    second_grid: &GridBase,
    first: &GridBase,
    second: &GridBase,
    first_draws: Seq<usize>,
    second_draws: Seq<usize>,
    first_before: R,
    first_after: R,
    second_before: R,
    second_after: R,
)
    requires
        first_grid.same_structure(second_grid),
        first_grid.same_links(second_grid),
        first.link_table() == algorithm.links_after(first_grid, first_draws),
        second.link_table() == algorithm.links_after(second_grid, second_draws),
        first_before.keeps_record(),
        second_before.keeps_record(),
        recorded(first_before, first_after, first_draws),
        recorded(second_before, second_after, second_draws),
        first_before.drawn() == second_before.drawn(),
        first_after.drawn() == second_after.drawn(),
    ensures
        first_draws == second_draws,
        first.same_links(second),
{
    let start = first_before.drawn();
    assert((start + first_draws).skip(start.len() as int) =~= first_draws);
    assert((start + second_draws).skip(start.len() as int) =~= second_draws);
    algorithm.lemma_same_grid(first_grid, second_grid, first_draws);
    lemma_same_draws_same_maze(algorithm, second_grid, first, second, first_draws);
}

/// Two runs of an algorithm on one grid that are given the same values open
/// the same passages, in the same order.
pub proof fn lemma_same_draws_same_maze<A: MazeAlgorithm>(
    algorithm: &A,
    grid: &GridBase,
    first: &GridBase,
    second: &GridBase,
    draws: Seq<usize>,
)
    requires
        first.link_table() == algorithm.links_after(grid, draws),
        second.link_table() == algorithm.links_after(grid, draws),
    ensures
        first.same_links(second),
{
    assert(first.cells@.len() == first.link_table().len());
    assert(second.cells@.len() == second.link_table().len());
    assert forall|i: int| 0 <= i < first.cells@.len() implies #[trigger] first.links_of(i)
        == second.links_of(i) by {
        assert(first.link_table()[i] == first.links_of(i));
        assert(second.link_table()[i] == second.links_of(i));
    }
}

/// Opens a passage from cell `from` to number `choice` of its neighbours
/// without links, and returns that neighbour.
pub fn carve(grid: &mut GridBase, from: usize, choice: usize) -> (next: usize)
    requires
        old(grid).wf(),
        from < old(grid).cells@.len(),
        choice < old(grid).unvisited_neighbors_of(from as int).len(),
    ensures
        final(grid).wf(),
        final(grid).same_structure(old(grid)),
        next == old(grid).unvisited_neighbors_of(from as int)[choice as int],
        old(grid).adjacent(from as int, next as int),
        old(grid).links_of(next as int).len() == 0,
        final(grid).link_added(old(grid), from as int, next as int),
{
    let candidates = grid.unvisited_neighbors(from);
    let next: usize = candidates[choice];
    proof {
        if grid.linked(from as int, next as int) {
            grid.lemma_linked_symmetric(from as int, next as int);
        }
    }
    let opened = link(grid, from, next);
    assert(opened is Ok);
    next
}

} // verus!
