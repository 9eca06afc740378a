//! Wilson's algorithm.

use vstd::prelude::*;
use crate::algorithms::{MazeAlgorithm, STEP_LIMIT};
use crate::error::MazeError;
use crate::grid::cell::ICell;
use crate::grid::grid_base::GridBase;
use crate::grid::link::link;
use crate::grid::mask::nth_true;
use crate::rng::RngWrapper;

verus! {

/// The loop-erased random walk: from a cell outside the tree it wanders until
/// it meets the tree, forgets every loop it made on the way, and joins what
/// is left of its path to the tree.
#[derive(Debug)]
pub struct Wilson;

impl Wilson {
    /// The path after a step onto `cell`: cut back to the first visit of
    /// `cell` where the path has been there, one cell longer where not.
    pub open spec fn erase_loop(path: Seq<usize>, cell: usize) -> Seq<usize> {
        match path.index_of_first(cell) {
            Some(at) => path.take(at + 1),
            None => path.push(cell),
        }
    }

    /// For each cell of `table`, whether the tree does not hold it yet: it is
    /// not the root and has no link.
    pub open spec fn outside_of(table: Seq<Seq<usize>>, root: int) -> Seq<bool> {
        Seq::new(table.len(), |c: int| c != root && table[c].len() == 0)
    }

    /// The place of the true entry of `marks` that has `k` true entries
    /// before it.
    pub open spec fn nth_marked(marks: Seq<bool>, k: int) -> int {
        choose|p: int|
            0 <= p < marks.len() && marks[p] && crate::grid::mask::count_true(marks.take(p)) == k
    }

    /// The table of links after the last `done` steps of `path` have been
    /// joined to the tree, from the end of the path backwards.
    pub open spec fn attached_upto(table: Seq<Seq<usize>>, path: Seq<usize>, done: int) -> Seq<
        Seq<usize>,
    >
        decreases done,
    {
        if done <= 0 {
            table
        } else {
            let at = path.len() - done;
            crate::grid::passages::opened(
                Self::attached_upto(table, path, done - 1),
                path[at] as int,
                path[at - 1] as int,
            )
        }
    }

    /// The links and the path of the walk in hand after the given draws. The
    /// first draw names the root of the tree. While no walk is in hand, a
    /// draw names a cell outside the tree, by its place among them, where the
    /// next walk starts. While a walk is in hand, a draw names a neighbour of
    /// its last cell: the walk steps there and its loop is erased; a step
    /// into the tree joins the path to the tree and ends the walk.
    pub open spec fn walk_after(grid: &GridBase, draws: Seq<usize>) -> (Seq<Seq<usize>>, Seq<usize>)
        decreases draws.len(),
    {
        if draws.len() <= 1 {
            (grid.link_table(), Seq::empty())
        } else {
            let (table, path) = Self::walk_after(grid, draws.drop_last());
            let outside = Self::outside_of(table, draws[0] as int);
            if path.len() == 0 {
                (table, seq![Self::nth_marked(outside, draws.last() as int) as usize])
            } else {
                let next = grid.neighbors_of(path.last() as int)[draws.last() as int];
                let longer = Self::erase_loop(path, next);
                if outside[next as int] {
                    (table, longer)
                } else {
                    (Self::attached_upto(table, longer, longer.len() - 1), Seq::empty())
                }
            }
        }
    }

    /// Grids with the same structure and the same links are walked alike.
    pub proof fn lemma_walk_same(first: &GridBase, second: &GridBase, draws: Seq<usize>)
        requires
            first.same_structure(second),
            first.same_links(second),
        ensures
            Self::walk_after(first, draws) == Self::walk_after(second, draws),
        decreases draws.len(),
    {
        first.lemma_same_links_table(second);
        if draws.len() >= 2 {
            Self::lemma_walk_same(first, second, draws.drop_last());
            let (table, path) = Self::walk_after(first, draws.drop_last());
            if path.len() > 0 {
                first.lemma_same_neighbors(second, path.last() as int);
            }
        }
    }

    /// The walks have asked for as many draws as they may.
    pub open spec fn is_spent(draws: Seq<usize>) -> bool {
        draws.len() == STEP_LIMIT + 1
    }

    /// The walk in hand stands on a cell without neighbours.
    pub open spec fn is_stuck(grid: &GridBase, draws: Seq<usize>) -> bool {
        let path = Self::walk_after(grid, draws).1;
        &&& path.len() > 0
        &&& grid.neighbors_of(path.last() as int).len() == 0
    }

    /// Only one true entry has a given number of true entries before it.
    pub proof fn lemma_nth_marked(marks: Seq<bool>, k: int, p: int)
        requires
            0 <= p < marks.len(),
            marks[p],
            crate::grid::mask::count_true(marks.take(p)) == k,
        ensures
            Self::nth_marked(marks, k) == p,
    {
        let q = Self::nth_marked(marks, k);
        if q < p {
            crate::grid::mask::lemma_count_true_step(marks, q);
            crate::grid::mask::lemma_count_true_prefix(marks.take(p), q + 1);
            assert(marks.take(p).take(q + 1) =~= marks.take(q + 1));
        } else if q > p {
            crate::grid::mask::lemma_count_true_step(marks, p);
            crate::grid::mask::lemma_count_true_prefix(marks.take(q), p + 1);
            assert(marks.take(q).take(p + 1) =~= marks.take(p + 1));
        }
    }

    /// The cells of `path` differ from one another, each is next to the one
    /// after it, and all but the last are outside the tree.
    pub open spec fn path_ok(grid: &GridBase, outside: Seq<bool>, path: Seq<usize>) -> bool {
        &&& path.len() > 0
        &&& path.no_duplicates()
        &&& forall|k: int| 0 <= k < path.len() ==> (#[trigger] path[k]) < grid.cells@.len()
        &&& forall|k: int| 0 <= k < path.len() - 1 ==> outside[(#[trigger] path[k]) as int]
        &&& forall|k: int|
            0 <= k < path.len() - 1 ==> grid.adjacent((#[trigger] path[k]) as int, path[k + 1] as int)
    }

    /// `outside` marks exactly the cells that the tree does not hold.
    pub open spec fn marks_ok(grid: &GridBase, root: int, outside: Seq<bool>) -> bool {
        &&& outside.len() == grid.cells@.len()
        &&& forall|c: int|
            0 <= c < outside.len() ==> #[trigger] outside[c] == !grid.carved(root).contains(c)
    }

    /// Marks that are sound are those that the table of links gives.
    pub proof fn lemma_marks(grid: &GridBase, root: int, outside: Seq<bool>)
        requires
            Self::marks_ok(grid, root, outside),
        ensures
            outside == Self::outside_of(grid.link_table(), root),
    {
        assert(outside =~= Self::outside_of(grid.link_table(), root));
    }

    /// A step from the last cell of a sound path to a neighbour leaves a
    /// sound path that ends at the neighbour.
    pub proof fn lemma_step_path(grid: &GridBase, outside: Seq<bool>, path: Seq<usize>, next: usize)
        requires
            grid.wf(),
            Self::path_ok(grid, outside, path),
            outside[path.last() as int],
            grid.adjacent(path.last() as int, next as int),
        ensures
            Self::path_ok(grid, outside, Self::erase_loop(path, next)),
            Self::erase_loop(path, next).last() == next,
            Self::erase_loop(path, next)[0] == path[0],
    {
        let longer = Self::erase_loop(path, next);
        path.index_of_first_ensures(next);
        match path.index_of_first(next) {
            Some(at) => {
                assert(longer == path.take(at + 1));
                assert forall|k: int| 0 <= k < longer.len() - 1 implies grid.adjacent(
                    (#[trigger] longer[k]) as int,
                    longer[k + 1] as int,
                ) by {
                    assert(grid.adjacent(path[k] as int, path[k + 1] as int));
                }
                assert forall|k: int| 0 <= k < longer.len() - 1 implies outside[(
                #[trigger] longer[k]) as int] by {
                    assert(outside[path[k] as int]);
                }
            },
            None => {
                assert(longer == path.push(next));
                assert forall|i: int, j: int|
                    0 <= i < longer.len() && 0 <= j < longer.len() && i != j implies longer[i]
                    != longer[j] by {
                    if i < path.len() && j < path.len() {
                    } else if i < path.len() {
                        assert(path.contains(path[i]));
                    } else {
                        assert(path.contains(path[j]));
                    }
                }
                assert forall|k: int| 0 <= k < longer.len() - 1 implies grid.adjacent(
                    (#[trigger] longer[k]) as int,
                    longer[k + 1] as int,
                ) by {
                    if k < path.len() - 1 {
                        assert(grid.adjacent(path[k] as int, path[k + 1] as int));
                    }
                }
                assert forall|k: int| 0 <= k < longer.len() - 1 implies outside[(
                #[trigger] longer[k]) as int] by {
                    if k < path.len() - 1 {
                        assert(outside[path[k] as int]);
                    }
                }
            },
        }
    }

    /// One more draw while a walk is in hand takes the walk one step on.
    pub proof fn lemma_step_draws(
        first: &GridBase,
        grid: &GridBase,
        root: int,
        outside: Seq<bool>,
        draws: Seq<usize>,
        path: Seq<usize>,
        choice: usize,
    )
        requires
            grid.same_structure(first),
            Self::marks_ok(grid, root, outside),
            draws.len() >= 2,
            draws[0] == root,
            path.len() > 0,
            path.last() < grid.cells@.len(),
            Self::walk_after(first, draws) == (grid.link_table(), path),
        ensures
            ({
                let next = grid.neighbors_of(path.last() as int)[choice as int];
                let longer = Self::erase_loop(path, next);
                Self::walk_after(first, draws.push(choice)) == (if outside[next as int] {
                    (grid.link_table(), longer)
                } else {
                    (
                        Self::attached_upto(grid.link_table(), longer, longer.len() - 1),
                        Seq::<usize>::empty(),
                    )
                })
            }),
    {
        Self::lemma_marks(grid, root, outside);
        grid.lemma_same_neighbors(first, path.last() as int);
        let more = draws.push(choice);
        assert(more.drop_last() =~= draws);
        assert(more[0] == draws[0]);
    }

    /// Takes the walk one step on, onto `cell`, and erases the loop that the
    /// step may have closed.
    pub fn extend_path(path: &mut Vec<usize>, cell: usize)
        ensures
            final(path)@ == Self::erase_loop(old(path)@, cell),
    {
        let mut k: usize = 0;
        while k < path.len()
            invariant
                k <= path@.len(),
                path@ == old(path)@,
                forall|j: int| 0 <= j < k ==> path@[j] != cell,
            decreases path@.len() - k,
        {
            if path[k] == cell {
                proof {
                    path@.index_of_first_ensures(cell);
                    assert(path@.contains(cell));
                    assert(path@.index_of_first(cell) == Some(k as int));
                }
                path.truncate(k + 1);
                proof {
                    assert(path@ =~= old(path)@.take(k + 1));
                }
                return ;
            }
            k = k + 1;
        }
        proof {
            path@.index_of_first_ensures(cell);
        }
        path.push(cell);
    }

    /// Joins a path that ends in the tree to the tree, cell by cell from the
    /// tree outwards, and marks its cells as inside. `root` is the root of
    /// the tree.
    #[allow(unused_variables)]
    pub fn attach_path(
        grid: &mut GridBase,
        outside: &mut Vec<bool>,
        path: &Vec<usize>,
        root: usize,
    )
        requires
            old(grid).is_tree_from(root as int),
            Self::marks_ok(old(grid), root as int, old(outside)@),
            Self::path_ok(old(grid), old(outside)@, path@),
            !old(outside)@[path@.last() as int],
        ensures
            final(grid).is_tree_from(root as int),
            final(grid).same_structure(old(grid)),
            Self::marks_ok(final(grid), root as int, final(outside)@),
            final(grid).carved(root as int).len() == old(grid).carved(root as int).len() + path@.len() - 1,
            crate::grid::mask::count_true(final(outside)@) + path@.len() - 1
                == crate::grid::mask::count_true(old(outside)@),
            final(grid).link_table() == Self::attached_upto(
                old(grid).link_table(),
                path@,
                path@.len() - 1,
            ),
    {
        let mut k: usize = path.len() - 1;
        proof {
            grid.lemma_same_structure(old(grid));
        }
        while k > 0
            invariant
                old(grid).wf(),
                grid.is_tree_from(root as int),
                grid.same_structure(old(grid)),
                Self::marks_ok(grid, root as int, outside@),
                Self::path_ok(old(grid), old(outside)@, path@),
                k < path@.len(),
                forall|j: int| 0 <= j < k ==> outside@[(#[trigger] path@[j]) as int],
                !outside@[path@[k as int] as int],
                grid.carved(root as int).len() + k == old(grid).carved(root as int).len() + path@.len() - 1,
                crate::grid::mask::count_true(outside@) + path@.len() - 1
                    == crate::grid::mask::count_true(old(outside)@) + k,
                grid.link_table() == Self::attached_upto(
                    old(grid).link_table(),
                    path@,
                    path@.len() - 1 - k,
                ),
            decreases k,
        {
            let inner: usize = path[k];
            let outer: usize = path[k - 1];
            let ghost before = *grid;
            let ghost marks_before = outside@;
            proof {
                assert(old(grid).adjacent(path@[k - 1] as int, path@[k - 1 + 1] as int));
                old(grid).lemma_adjacent(outer as int, inner as int);
                grid.lemma_same_structure(old(grid));
                assert(grid.adjacent(inner as int, outer as int));
                assert(outside@[path@[k - 1] as int]);
                assert(!grid.carved(root as int).contains(outer as int));
                assert(grid.links_of(outer as int).len() == 0);
                if grid.linked(inner as int, outer as int) {
                    grid.lemma_linked_symmetric(inner as int, outer as int);
                }
            }
            let opened = link(grid, inner, outer);
            assert(opened is Ok);
            outside[outer] = false;
            proof {
                grid.lemma_same_structure_chain(&before, old(grid));
                grid.lemma_tree_grows(&before, root as int, inner as int, outer as int);
                grid.lemma_link_added_table(&before, inner as int, outer as int);
                crate::grid::mask::lemma_count_true_update(marks_before, outer as int, false);
                assert forall|c: int| 0 <= c < outside@.len() implies #[trigger] outside@[c]
                    == !grid.carved(root as int).contains(c) by {
                    if c != outer {
                        assert(marks_before[c] == !before.carved(root as int).contains(c));
                    }
                }
                assert forall|j: int| 0 <= j < k - 1 implies outside@[(#[trigger] path@[j]) as int] by {
                    assert(path@[j] != path@[k - 1]);
                    assert(marks_before[path@[j] as int]);
                }
            }
            k = k - 1;
        }
    }
}

impl MazeAlgorithm for Wilson {
    open spec fn links_after(&self, grid: &GridBase, draws: Seq<usize>) -> Seq<Seq<usize>> {
        Self::walk_after(grid, draws).0
    }

    proof fn lemma_same_grid(&self, first: &GridBase, second: &GridBase, draws: Seq<usize>) {
        Self::lemma_walk_same(first, second, draws);
    }

    /// The run may give up when it has asked for as many draws as it may, or
    /// when the walk in hand stands on a cell without neighbours; then the
    /// cells do not form one region.
    open spec fn may_give_up(&self, grid: &GridBase, draws: Seq<usize>) -> bool {
        Self::is_spent(draws) || (Self::is_stuck(grid, draws) && !grid.one_region())
    }

    /// The tree starts as one cell that the generator picks. Each walk starts
    /// at a cell outside the tree that the generator picks. The run is given
    /// up with `Disconnected` only when a walk stands on a cell without
    /// neighbours, which cannot happen where the cells form one region, or
    /// when the walks together have asked for `STEP_LIMIT` draws, starts and
    /// steps counted alike.
    fn on<R: RngWrapper>(&self, grid: &mut GridBase, rng: &mut R) -> (r: Result<(), MazeError>) {
        let size: usize = grid.size();
        if size == 0 {
            proof {
                crate::algorithms::lemma_recorded_none(*rng);
                assert(grid.link_table() == self.links_after(old(grid), Seq::empty()));
            }
            return Err(MazeError::EmptyMask);
        }
        let root: usize = rng.gen_range(0, size);
        let ghost mut draws: Seq<usize> = seq![root];
        proof {
            crate::algorithms::lemma_recorded_none(*old(rng));
            crate::algorithms::lemma_recorded_more(
                *old(rng),
                *old(rng),
                *rng,
                Seq::empty(),
                root,
            );
            assert(Seq::<usize>::empty().push(root) =~= draws);
        }
        let mut outside: Vec<bool> = Vec::new();
        while outside.len() < size
            invariant
                outside@.len() <= size,
                forall|c: int| 0 <= c < outside@.len() ==> outside@[c],
                crate::grid::mask::count_true(outside@) == outside@.len(),
            decreases size - outside@.len(),
        {
            proof {
                assert(outside@.push(true).drop_last() =~= outside@);
            }
            outside.push(true);
        }
        proof {
            crate::grid::mask::lemma_count_true_update(outside@, root as int, false);
        }
        outside[root] = false;
        let mut remaining: usize = size - 1;
        let mut steps_left: u64 = STEP_LIMIT;
        proof {
            grid.lemma_tree_start(root as int);
        }
        while remaining > 0
            invariant
                grid.same_structure(old(grid)),
                grid.is_tree_from(root as int),
                size == grid.cells@.len(),
                Self::marks_ok(grid, root as int, outside@),
                remaining == crate::grid::mask::count_true(outside@),
                remaining < size,
                grid.carved(root as int).len() + remaining == size,
                old(grid).wf(),
                draws.len() >= 1,
                draws[0] == root,
                draws.len() + steps_left == STEP_LIMIT + 1,
                crate::algorithms::recorded(*old(rng), *rng, draws),
                Self::walk_after(old(grid), draws) == (grid.link_table(), Seq::<usize>::empty()),
            decreases remaining,
        {
            if steps_left == 0 {
                proof {
                    assert(grid.link_table() == self.links_after(old(grid), draws));
                    assert(Self::is_spent(draws));
                }
                return Err(MazeError::Disconnected);
            }
            steps_left = steps_left - 1;
            let ghost rng_before = *rng;
            let pick: usize = rng.gen_range(0, remaining);
            let first: usize = nth_true(&outside, pick);
            proof {
                crate::algorithms::lemma_recorded_more(*old(rng), rng_before, *rng, draws, pick);
                Self::lemma_marks(grid, root as int, outside@);
                Self::lemma_nth_marked(outside@, pick as int, first as int);
                let longer = draws.push(pick);
                assert(longer.drop_last() =~= draws);
                draws = longer;
            }
            let mut cell: usize = first;
            let mut path: Vec<usize> = Vec::new();
            path.push(first);
            assert(path@[0] == first);
            while outside[cell]
                invariant
                    grid.same_structure(old(grid)),
                    grid.is_tree_from(root as int),
                    size == grid.cells@.len(),
                    size == old(grid).cells@.len(),
                    size >= 2,
                    outside@.len() == size,
                    Self::path_ok(grid, outside@, path@),
                    path@.last() == cell,
                    path@[0] == first,
                    outside@[first as int],
                    old(grid).wf(),
                    Self::marks_ok(grid, root as int, outside@),
                    draws.len() >= 2,
                    draws[0] == root,
                    draws.len() + steps_left == STEP_LIMIT + 1,
                    crate::algorithms::recorded(*old(rng), *rng, draws),
                    outside@[cell as int] ==> Self::walk_after(old(grid), draws) == (
                        grid.link_table(),
                        path@,
                    ),
                    !outside@[cell as int] ==> Self::walk_after(old(grid), draws) == (
                        Self::attached_upto(grid.link_table(), path@, path@.len() - 1),
                        Seq::<usize>::empty(),
                    ),
                decreases steps_left,
            {
                if steps_left == 0 {
                    proof {
                        assert(grid.link_table() == self.links_after(old(grid), draws));
                        assert(Self::is_spent(draws));
                    }
                    return Err(MazeError::Disconnected);
                }
                let neighbors = grid.cells[cell].neighbors();
                if neighbors.len() == 0 {
                    proof {
                        assert(grid.link_table() == self.links_after(old(grid), draws));
                        grid.lemma_same_neighbors(old(grid), cell as int);
                        assert(Self::is_stuck(old(grid), draws));
                        old(grid).lemma_lonely_cell(cell as int);
                    }
                    return Err(MazeError::Disconnected);
                }
                steps_left = steps_left - 1;
                let ghost rng_before = *rng;
                let choice: usize = rng.gen_range(0, neighbors.len());
                let next: usize = neighbors[choice];
                let ghost path_before = path@;
                Self::extend_path(&mut path, next);
                proof {
                    assert(grid.neighbors_of(cell as int).contains(next));
                    grid.lemma_neighbors(cell as int, next);
                    Self::lemma_step_path(grid, outside@, path_before, next);
                    Self::lemma_step_draws(
                        old(grid),
                        grid,
                        root as int,
                        outside@,
                        draws,
                        path_before,
                        choice,
                    );
                    crate::algorithms::lemma_recorded_more(
                        *old(rng),
                        rng_before,
                        *rng,
                        draws,
                        choice,
                    );
                    draws = draws.push(choice);
                }
                cell = next;
            }
            let ghost before = *grid;
            Self::attach_path(grid, &mut outside, &path, root);
            proof {
                grid.lemma_same_structure_chain(&before, old(grid));
                assert(path@.len() >= 2);
            }
            remaining = remaining - (path.len() - 1);
        }
        proof {
            grid.lemma_tree_complete(root as int);
            assert(grid.link_table() == self.links_after(old(grid), draws));
        }
        Ok(())
    }
}

} // verus!
