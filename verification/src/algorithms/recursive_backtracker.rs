//! The recursive backtracker.

use vstd::prelude::*;
use crate::algorithms::{MazeAlgorithm, carve};
use crate::error::MazeError;
use crate::grid::grid_base::GridBase;
use crate::rng::RngWrapper;

verus! {

/// The depth-first walk: it goes on to a neighbour without links as long as
/// there is one, and goes back along its own trail when there is none.
#[derive(Debug)]
pub struct RecursiveBacktracker;

impl RecursiveBacktracker {
    /// The trail without the cells at its top that have no neighbour without
    /// links.
    pub open spec fn backtracked(grid: &GridBase, table: Seq<Seq<usize>>, trail: Seq<usize>) -> Seq<
        usize,
    >
        decreases trail.len(),
    {
        if trail.len() == 0 {
            trail
        } else if grid.free_neighbors(table, trail.last() as int).len() == 0 {
            Self::backtracked(grid, table, trail.drop_last())
        } else {
            trail
        }
    }

    /// The links and the trail after the given draws. The first draw names
    /// the cell where the walk starts. Each later one names a neighbour
    /// without links of the cell on top of the trail: a passage is opened to
    /// it and it goes on top. After each draw the trail is taken back to a
    /// cell that has such a neighbour.
    pub open spec fn walk_after(grid: &GridBase, draws: Seq<usize>) -> (Seq<Seq<usize>>, Seq<usize>)
        decreases draws.len(),
    {
        if draws.len() == 0 {
            (grid.link_table(), Seq::empty())
        } else if draws.len() == 1 {
            (grid.link_table(), Self::backtracked(grid, grid.link_table(), seq![draws[0]]))
        } else {
            let (table, trail) = Self::walk_after(grid, draws.drop_last());
            if trail.len() == 0 {
                (table, trail)
            } else {
                let top = trail.last();
                let next = grid.free_neighbors(table, top as int)[draws.last() as int];
                let carved = crate::grid::passages::opened(table, top as int, next as int);
                (carved, Self::backtracked(grid, carved, trail.push(next)))
            }
        }
    }

    /// Grids with the same structure take a trail back alike.
    pub proof fn lemma_backtracked_same(
        first: &GridBase,
        second: &GridBase,
        table: Seq<Seq<usize>>,
        trail: Seq<usize>,
    )
        requires
            first.same_structure(second),
        ensures
            Self::backtracked(first, table, trail) == Self::backtracked(second, table, trail),
        decreases trail.len(),
    {
        if trail.len() > 0 {
            first.lemma_same_neighbors(second, trail.last() as int);
            Self::lemma_backtracked_same(first, second, table, trail.drop_last());
        }
    }

    /// Grids with the same structure and the same links are walked alike.
    pub proof fn lemma_walk_same(first: &GridBase, second: &GridBase, draws: Seq<usize>)
        requires
            first.same_structure(second),
            first.same_links(second),
        ensures
            Self::walk_after(first, draws) == Self::walk_after(second, draws),
        decreases draws.len(),
    {
        first.lemma_same_links_table(second);
        if draws.len() == 1 {
            Self::lemma_backtracked_same(first, second, first.link_table(), seq![draws[0]]);
        } else if draws.len() >= 2 {
            Self::lemma_walk_same(first, second, draws.drop_last());
            let (table, trail) = Self::walk_after(first, draws.drop_last());
            if trail.len() > 0 {
                let top = trail.last();
                first.lemma_same_neighbors(second, top as int);
                let next = first.free_neighbors(table, top as int)[draws.last() as int];
                let carved = crate::grid::passages::opened(table, top as int, next as int);
                Self::lemma_backtracked_same(first, second, carved, trail.push(next));
            }
        }
    }

    /// Every cell of the trail is carved, and every carved cell is on the
    /// trail or has carved neighbours only.
    pub open spec fn trail_ok(grid: &GridBase, root: int, trail: Seq<usize>) -> bool {
        &&& forall|k: int|
            0 <= k < trail.len() ==> grid.carved(root).contains((#[trigger] trail[k]) as int)
        &&& forall|a: int, b: int|
            grid.carved(root).contains(a) && grid.adjacent(a, b) ==> trail.contains(a as usize)
                || grid.carved(root).contains(b)
    }

    /// One step of the walk, from the cell on top of the trail.
    ///
    /// Where that cell has neighbours without links, a passage is opened to
    /// number `choice` of them, which goes on top of the trail. Where it has
    /// none, the cell leaves the trail. Returns whether a passage was opened.
    pub fn step(grid: &mut GridBase, trail: &mut Vec<usize>, choice: usize) -> (opened: bool)
        requires
            old(grid).wf(),
            old(trail)@.len() > 0,
            old(trail)@.last() < old(grid).cells@.len(),
            choice < old(grid).unvisited_neighbors_of(old(trail)@.last() as int).len()
                || old(grid).unvisited_neighbors_of(old(trail)@.last() as int).len() == 0,
        ensures
            final(grid).wf(),
            final(grid).same_structure(old(grid)),
            opened == (old(grid).unvisited_neighbors_of(old(trail)@.last() as int).len() > 0),
            opened ==> {
                let top = old(trail)@.last();
                let next = old(grid).unvisited_neighbors_of(top as int)[choice as int];
                &&& final(trail)@ == old(trail)@.push(next)
                &&& old(grid).adjacent(top as int, next as int)
                &&& old(grid).links_of(next as int).len() == 0
                &&& final(grid).link_added(old(grid), top as int, next as int)
            },
            !opened ==> final(trail)@ == old(trail)@.drop_last() && final(grid).same_links(
                old(grid),
            ),
    {
        let top: usize = trail[trail.len() - 1];
        if grid.unvisited_neighbors(top).len() == 0 {
            trail.pop();
            false
        } else {
            let next: usize = carve(grid, top, choice);
            trail.push(next);
            true
        }
    }
}

impl MazeAlgorithm for RecursiveBacktracker {
    open spec fn links_after(&self, grid: &GridBase, draws: Seq<usize>) -> Seq<Seq<usize>> {
        Self::walk_after(grid, draws).0
    }

    proof fn lemma_same_grid(&self, first: &GridBase, second: &GridBase, draws: Seq<usize>) {
        Self::lemma_walk_same(first, second, draws);
    }

    /// The walk gives up where the cells do not form one region.
    open spec fn may_give_up(&self, grid: &GridBase, draws: Seq<usize>) -> bool {
        !grid.one_region()
    }

    /// The walk starts at a cell that the generator picks and ends when the
    /// trail is empty. It reaches every cell exactly when the cells form one
    /// region; otherwise it says `Disconnected`.
    fn on<R: RngWrapper>(&self, grid: &mut GridBase, rng: &mut R) -> (r: Result<(), MazeError>)
        ensures
            old(grid).cells@.len() > 0 ==> (r is Ok <==> old(grid).one_region()),
    {
        let size: usize = grid.size();
        if size == 0 {
            proof {
                crate::algorithms::lemma_recorded_none(*rng);
                assert(grid.link_table() == self.links_after(old(grid), Seq::empty()));
            }
            return Err(MazeError::EmptyMask);
        }
        let start: usize = rng.gen_range(0, size);
        let mut trail: Vec<usize> = Vec::new();
        trail.push(start);
        let mut carved: usize = 1;
        let ghost mut draws: Seq<usize> = seq![start];
        proof {
            crate::algorithms::lemma_recorded_none(*old(rng));
            crate::algorithms::lemma_recorded_more(
                *old(rng),
                *old(rng),
                *rng,
                Seq::empty(),
                start,
            );
            assert(Seq::<usize>::empty().push(start) =~= draws);
        }
        proof {
            assert(trail@ =~= seq![start]);
            grid.lemma_tree_start(start as int);
            assert(trail@[0] == start);
            assert forall|a: int, b: int|
                grid.carved(start as int).contains(a) && grid.adjacent(a, b) implies trail@.contains(
                a as usize,
            ) || grid.carved(start as int).contains(b) by {
                assert(a == start);
            }
        }
        while trail.len() > 0
            invariant
                grid.same_structure(old(grid)),
                grid.is_tree_from(start as int),
                size == grid.cells@.len(),
                carved == grid.carved(start as int).len(),
                carved <= size,
                Self::trail_ok(grid, start as int, trail@),
                old(grid).wf(),
                draws.len() >= 1,
                crate::algorithms::recorded(*old(rng), *rng, draws),
                grid.link_table() == Self::walk_after(old(grid), draws).0,
                Self::backtracked(old(grid), grid.link_table(), trail@) == Self::walk_after(
                    old(grid),
                    draws,
                ).1,
            decreases 2 * (size - carved) + trail@.len(),
        {
            let ghost before = *grid;
            let ghost trail_before = trail@;
            let top: usize = trail[trail.len() - 1];
            proof {
                assert(grid.carved(start as int).contains(trail@[trail@.len() - 1] as int));
            }
            let count: usize = grid.unvisited_neighbors(top).len();
            let ghost rng_before = *rng;
            let choice: usize = if count > 0 {
                rng.gen_range(0, count)
            } else {
                0
            };
            let opened = Self::step(grid, &mut trail, choice);
            proof {
                grid.lemma_same_structure_chain(&before, old(grid));
                grid.lemma_same_structure(&before);
                before.lemma_same_neighbors(old(grid), top as int);
                if opened {
                    let next = trail@.last();
                    before.lemma_adjacent(top as int, next as int);
                    grid.lemma_link_added_table(&before, top as int, next as int);
                    let longer = draws.push(choice);
                    assert(longer.drop_last() =~= draws);
                    crate::algorithms::lemma_recorded_more(
                        *old(rng),
                        rng_before,
                        *rng,
                        draws,
                        choice,
                    );
                    assert(trail_before.drop_last().push(top) =~= trail_before);
                    assert(Self::backtracked(old(grid), before.link_table(), trail_before)
                        == trail_before);
                    draws = longer;
                    grid.lemma_tree_grows(&before, start as int, top as int, next as int);
                    grid.lemma_carved_finite(start as int);
                    assert forall|k: int| 0 <= k < trail@.len() implies grid.carved(
                        start as int,
                    ).contains((#[trigger] trail@[k]) as int) by {
                        if k < trail_before.len() {
                            assert(trail@[k] == trail_before[k]);
                            assert(before.carved(start as int).contains(trail_before[k] as int));
                        }
                    }
                    assert forall|a: int, b: int|
                        grid.carved(start as int).contains(a) && grid.adjacent(
                            a,
                            b,
                        ) implies trail@.contains(a as usize) || grid.carved(start as int).contains(
                        b,
                    ) by {
                        if a == next {
                            assert(trail@[trail@.len() - 1] == next);
                        } else {
                            assert(before.carved(start as int).contains(a));
                            assert(before.adjacent(a, b));
                            if trail_before.contains(a as usize) {
                                let k = choose|k: int|
                                    0 <= k < trail_before.len() && trail_before[k] == a as usize;
                                assert(trail@[k] == a as usize);
                            }
                        }
                    }
                } else {
                    grid.lemma_same_links_tree(&before, start as int);
                    grid.lemma_same_links_table(&before);
                    assert forall|k: int| 0 <= k < trail@.len() implies grid.carved(
                        start as int,
                    ).contains((#[trigger] trail@[k]) as int) by {
                        assert(trail@[k] == trail_before[k]);
                    }
                    assert forall|a: int, b: int|
                        grid.carved(start as int).contains(a) && grid.adjacent(
                            a,
                            b,
                        ) implies trail@.contains(a as usize) || grid.carved(start as int).contains(
                        b,
                    ) by {
                        assert(before.adjacent(a, b));
                        if a == top {
                            assert(before.links_of(b).len() > 0);
                        } else if trail_before.contains(a as usize) {
                            let k = choose|k: int|
                                0 <= k < trail_before.len() && trail_before[k] == a as usize;
                            assert(k < trail_before.len() - 1);
                            assert(trail@[k] == a as usize);
                        }
                    }
                }
            }
            if opened {
                carved = carved + 1;
            }
        }
        proof {
            grid.lemma_same_structure(old(grid));
            grid.lemma_walks_kept(old(grid));
            if carved == size {
                grid.lemma_tree_complete(start as int);
                grid.lemma_perfect_one_region();
            } else if grid.one_region() {
                assert forall|c: int| 0 <= c < size implies grid.carved(start as int).contains(
                    c,
                ) by {
                    grid.lemma_closed_region(grid.carved(start as int), start as int, c);
                }
                grid.lemma_carved_all(start as int);
            }
        }
        proof {
            assert(grid.link_table() == self.links_after(old(grid), draws));
        }
        if carved == size {
            Ok(())
        } else {
            Err(MazeError::Disconnected)
        }
    }
}

} // verus!
