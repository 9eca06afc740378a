//! Distances from a cell, shortest paths and the longest path.

use vstd::prelude::*;
use vstd::string::StringExecFns;
use crate::error::MazeError;
use crate::grid::CellFormatter;
use crate::grid::cell::Cell;
use crate::grid::grid_base::GridBase;

verus! {

impl GridBase {
    /// Some chain of exactly `steps` passages leads from `a` to `b`.
    pub open spec fn has_route(&self, a: int, b: int, steps: int) -> bool {
        exists|path: Seq<int>| #[trigger] self.joins(path, a, b) && path.len() == steps + 1
    }

    /// The shortest chain of passages from `a` to `b` has `d` passages.
    pub open spec fn is_distance(&self, a: int, b: int, d: int) -> bool {
        &&& self.has_route(a, b, d)
        &&& forall|steps: int| steps < d ==> !#[trigger] self.has_route(a, b, steps)
    }
}

/// For each entry, whether it is `None`.
pub open spec fn missing(dist: Seq<Option<usize>>) -> Seq<bool> {
    Seq::new(dist.len(), |c: int| dist[c] is None)
}

/// Cell `b` has a distance, at most one more than that of `a`.
pub open spec fn close(dist: Seq<Option<usize>>, a: int, b: int) -> bool {
    &&& dist[b] is Some
    &&& dist[b]->0 <= dist[a]->0 + 1
}

/// Both cells have a distance, and the one is one step farther than the
/// other.
pub open spec fn one_apart(dist: Seq<Option<usize>>, a: int, b: int) -> bool {
    &&& dist[a] is Some
    &&& dist[b] is Some
    &&& (dist[a]->0 == dist[b]->0 + 1 || dist[b]->0 == dist[a]->0 + 1)
}

/// Some cell linked to `c` has a distance one less than that of `c`.
pub open spec fn has_parent(grid: &GridBase, dist: Seq<Option<usize>>, c: int) -> bool {
    &&& dist[c]->0 >= 1
    &&& exists|p: int| #[trigger] grid.linked(p, c) && dist[p] == Some((dist[c]->0 - 1) as usize)
}

/// The distances agree along the passages: the root has distance 0, every
/// other cell with a distance is linked to a cell with one less, and a
/// passage from a cell with a distance leads to a cell with a distance at
/// most one more.
pub open spec fn labels(grid: &GridBase, root: int, dist: Seq<Option<usize>>) -> bool {
    &&& dist.len() == grid.cells@.len()
    &&& 0 <= root < dist.len()
    &&& dist[root] == Some(0usize)
    &&& forall|c: int|
        0 <= c < dist.len() && c != root && dist[c] is Some ==> #[trigger] has_parent(grid, dist, c)
    &&& forall|a: int, b: int| #[trigger] grid.linked(a, b) && dist[a] is Some ==> close(dist, a, b)
}

/// A cell with a distance `d` can be reached from the root in `d` steps.
pub proof fn lemma_labels_route(grid: &GridBase, root: int, dist: Seq<Option<usize>>, c: int)
    requires
        labels(grid, root, dist),
        0 <= c < dist.len(),
        dist[c] is Some,
    ensures
        grid.has_route(root, c, dist[c]->0 as int),
    decreases dist[c]->0,
{
    if c == root {
        assert(grid.joins(seq![root], root, root));
    } else {
        assert(has_parent(grid, dist, c));
        let p = choose|p: int| #[trigger] grid.linked(p, c) && dist[p] == Some((dist[c]->0 - 1) as usize);
        lemma_labels_route(grid, root, dist, p);
        let path = choose|path: Seq<int>| #[trigger] grid.joins(path, root, p) && path.len() == dist[p]->0 + 1;
        let longer = path.push(c);
        assert forall|k: int| 0 <= k < longer.len() - 1 implies grid.linked(
            #[trigger] longer[k],
            longer[k + 1],
        ) by {
            if k < path.len() - 1 {
                assert(grid.linked(path[k], path[k + 1]));
            }
        }
        assert(grid.joins(longer, root, c));
    }
}

/// The cell that a path from the root reaches after `k` steps has a distance
/// of at most `k`.
pub proof fn lemma_labels_bound(
    grid: &GridBase,
    root: int,
    dist: Seq<Option<usize>>,
    path: Seq<int>,
    k: int,
)
    requires
        labels(grid, root, dist),
        grid.is_path(path),
        path[0] == root,
        0 <= k < path.len(),
    ensures
        0 <= path[k] < dist.len(),
        dist[path[k]] is Some,
        dist[path[k]]->0 <= k,
    decreases k,
{
    if k > 0 {
        lemma_labels_bound(grid, root, dist, path, k - 1);
        assert(grid.linked(path[k - 1], path[k - 1 + 1]));
        assert(close(dist, path[k - 1], path[k]));
    }
}

/// Distances that agree along the passages are the lengths of the shortest
/// paths from the root, and the cells without a distance cannot be reached.
pub proof fn lemma_labels_shortest(grid: &GridBase, root: int, dist: Seq<Option<usize>>)
    requires
        labels(grid, root, dist),
    ensures
        forall|c: int|
            0 <= c < dist.len() && (#[trigger] dist[c]) is Some ==> grid.is_distance(
                root,
                c,
                dist[c]->0 as int,
            ),
        forall|c: int| 0 <= c < dist.len() && (#[trigger] dist[c]) is None ==> !grid.reachable(root, c),
{
    assert forall|c: int| 0 <= c < dist.len() && (#[trigger] dist[c]) is Some implies grid.is_distance(
        root,
        c,
        dist[c]->0 as int,
    ) by {
        lemma_labels_route(grid, root, dist, c);
        assert forall|steps: int| steps < dist[c]->0 implies !#[trigger] grid.has_route(
            root,
            c,
            steps,
        ) by {
            if grid.has_route(root, c, steps) {
                let path = choose|path: Seq<int>| #[trigger] grid.joins(path, root, c) && path.len() == steps + 1;
                lemma_labels_bound(grid, root, dist, path, steps);
            }
        }
    }
    assert forall|c: int| 0 <= c < dist.len() && (#[trigger] dist[c]) is None implies !grid.reachable(
        root,
        c,
    ) by {
        if grid.reachable(root, c) {
            let path = choose|path: Seq<int>| #[trigger] grid.joins(path, root, c);
            lemma_labels_bound(grid, root, dist, path, path.len() - 1);
        }
    }
}

/// The state of the search after `head` cells of `order` have been handled
/// in full, and `done` links of the next.
pub open spec fn scan_ok(
    grid: &GridBase,
    root: int,
    dist: Seq<Option<usize>>,
    order: Seq<usize>,
    head: int,
    done: int,
) -> bool {
    &&& dist.len() == grid.cells@.len()
    &&& 0 <= root < dist.len()
    &&& order.len() >= 1
    &&& order[0] == root
    &&& dist[root] == Some(0usize)
    &&& 0 <= head <= order.len()
    &&& forall|k: int|
        0 <= k < order.len() ==> (#[trigger] order[k]) < dist.len() && dist[order[k] as int] is Some
            && dist[order[k] as int]->0 <= k
    &&& forall|c: int| 0 <= c < dist.len() && (#[trigger] dist[c]) is Some ==> order.contains(c as usize)
    &&& forall|i: int, j: int|
        0 <= i <= j < order.len() ==> dist[(#[trigger] order[i]) as int]->0 <= dist[(
        #[trigger] order[j]) as int]->0
    &&& head < order.len() ==> dist[order.last() as int]->0 <= dist[order[head] as int]->0 + 1
    &&& forall|k: int, b: int|
        0 <= k < head && #[trigger] grid.linked(order[k] as int, b) ==> close(dist, order[k] as int, b)
    &&& head < order.len() ==> forall|i: int|
        0 <= i < done ==> close(
            dist,
            order[head] as int,
            (#[trigger] grid.links_of(order[head] as int)[i]) as int,
        )
    &&& forall|c: int|
        0 <= c < dist.len() && c != root && dist[c] is Some ==> #[trigger] has_parent(grid, dist, c)
    &&& crate::grid::mask::count_true(missing(dist)) + order.len() == dist.len()
}

/// Giving the next linked cell, which had no distance, one more than the
/// cell in hand, and putting it at the end of the order, keeps the search
/// sound.
pub proof fn lemma_scan_grows(
    grid: &GridBase,
    root: int,
    dist: Seq<Option<usize>>,
    order: Seq<usize>,
    head: int,
    done: int,
)
    requires
        grid.wf(),
        scan_ok(grid, root, dist, order, head, done),
        head < order.len(),
        0 <= done < grid.links_of(order[head] as int).len(),
        dist[grid.links_of(order[head] as int)[done] as int] is None,
        dist[order[head] as int]->0 + 1 <= usize::MAX,
    ensures
        ({
            let cell = order[head];
            let next = grid.links_of(cell as int)[done];
            let d = dist[cell as int]->0;
            scan_ok(
                grid,
                root,
                dist.update(next as int, Some((d + 1) as usize)),
                order.push(next),
                head,
                done + 1,
            )
        }),
{
    let cell = order[head];
    let next = grid.links_of(cell as int)[done];
    let d = dist[cell as int]->0;
    let dist2 = dist.update(next as int, Some((d + 1) as usize));
    let order2 = order.push(next);
    assert(grid.cell_links_ok(cell as int));
    assert(grid.adjacent(cell as int, grid.links_of(cell as int)[done] as int));
    assert(grid.linked(cell as int, next as int));
    assert(next != root);
    assert forall|k: int| 0 <= k < order2.len() implies (#[trigger] order2[k]) < dist2.len()
        && dist2[order2[k] as int] is Some && dist2[order2[k] as int]->0 <= k by {
        if k < order.len() {
            assert(order2[k] == order[k]);
        }
    }
    assert forall|c: int| 0 <= c < dist2.len() && (#[trigger] dist2[c]) is Some implies order2.contains(
        c as usize,
    ) by {
        if c == next {
            assert(order2[order.len() as int] == next);
        } else {
            assert(dist[c] is Some);
            let k = choose|k: int| 0 <= k < order.len() && order[k] == c as usize;
            assert(order2[k] == c as usize);
        }
    }
    assert forall|i: int, j: int| 0 <= i <= j < order2.len() implies dist2[(
    #[trigger] order2[i]) as int]->0 <= dist2[(#[trigger] order2[j]) as int]->0 by {
        if j < order.len() {
            assert(order2[i] == order[i]);
            assert(order2[j] == order[j]);
        } else if i < order.len() {
            assert(order2[i] == order[i]);
            assert(dist[order[i] as int]->0 <= dist[order[order.len() - 1] as int]->0);
        }
    }
    assert forall|k: int, b: int|
        0 <= k < head && #[trigger] grid.linked(order2[k] as int, b) implies close(
        dist2,
        order2[k] as int,
        b,
    ) by {
        assert(order2[k] == order[k]);
        assert(grid.linked(order[k] as int, b));
        assert(close(dist, order[k] as int, b));
    }
    assert forall|i: int| 0 <= i < done + 1 implies close(
        dist2,
        order2[head] as int,
        (#[trigger] grid.links_of(order2[head] as int)[i]) as int,
    ) by {
        if i < done {
            assert(close(dist, order[head] as int, grid.links_of(order[head] as int)[i] as int));
        }
    }
    assert forall|c: int|
        0 <= c < dist2.len() && c != root && dist2[c] is Some implies #[trigger] has_parent(
        grid,
        dist2,
        c,
    ) by {
        if c == next {
            assert(grid.linked(cell as int, c) && dist2[cell as int] == Some(
                (dist2[c]->0 - 1) as usize,
            ));
        } else {
            assert(has_parent(grid, dist, c));
            let p = choose|p: int|
                #[trigger] grid.linked(p, c) && dist[p] == Some((dist[c]->0 - 1) as usize);
            assert(grid.linked(p, c) && dist2[p] == Some((dist2[c]->0 - 1) as usize));
        }
    }
    crate::grid::mask::lemma_count_true_update(missing(dist), next as int, false);
    assert(missing(dist2) =~= missing(dist).update(next as int, false));
}

/// The distances of the cells of a grid from one of them, along the passages.
#[derive(Debug)]
pub struct DistanceGrid {
    /// The cell from which the distances are counted.
    pub root: usize,
    /// The distance of each cell, by its index; `None` where no chain of
    /// passages leads there.
    pub distances: Vec<Option<usize>>,
    /// The largest distance.
    pub max_distance: usize,
}

impl DistanceGrid {
    /// The distances are those of `grid` from the root, and the largest of
    /// them is known.
    pub open spec fn describes(&self, grid: &GridBase) -> bool {
        &&& grid.wf()
        &&& labels(grid, self.root as int, self.distances@)
        &&& exists|c: int|
            0 <= c < self.distances@.len() && #[trigger] self.distances@[c] == Some(
                self.max_distance,
            )
        &&& forall|c: int|
            0 <= c < self.distances@.len() && (#[trigger] self.distances@[c]) is Some
                ==> self.distances@[c]->0 <= self.max_distance
    }

    /// Counts, breadth first, the passages from `root` to every cell that
    /// can be reached. In a perfect maze the two ends of every passage are
    /// one step apart.
    pub fn new(grid: &GridBase, root: usize) -> (d: DistanceGrid)
        requires
            grid.wf(),
            root < grid.cells@.len(),
        ensures
            d.root == root,
            d.describes(grid),
            forall|c: int|
                0 <= c < grid.cells@.len() && (#[trigger] d.distances@[c]) is Some ==> grid.is_distance(
                    root as int,
                    c,
                    d.distances@[c]->0 as int,
                ),
            forall|c: int|
                0 <= c < grid.cells@.len() && (#[trigger] d.distances@[c]) is None ==> !grid.reachable(
                    root as int,
                    c,
                ),
            grid.is_perfect_maze() ==> forall|a: int, b: int| #[trigger]
                grid.linked(a, b) ==> one_apart(d.distances@, a, b),
    {
        let n: usize = grid.cells.len();
        let mut distances: Vec<Option<usize>> = Vec::new();
        while distances.len() < n
            invariant
                distances@.len() <= n,
                forall|c: int| 0 <= c < distances@.len() ==> distances@[c] is None,
                crate::grid::mask::count_true(missing(distances@)) == distances@.len(),
            decreases n - distances@.len(),
        {
            proof {
                assert(missing(distances@.push(None)).drop_last() =~= missing(distances@));
            }
            distances.push(None);
        }
        proof {
            crate::grid::mask::lemma_count_true_update(missing(distances@), root as int, false);
            assert(missing(distances@.update(root as int, Some(0usize))) =~= missing(
                distances@,
            ).update(root as int, false));
        }
        distances[root] = Some(0);
        let mut order: Vec<usize> = Vec::new();
        order.push(root);
        let mut head: usize = 0;
        proof {
            assert(order@[0] == root);
            assert forall|c: int| 0 <= c < distances@.len() && (#[trigger] distances@[c]) is Some implies order@.contains(
                c as usize,
            ) by {
                assert(c == root);
            }
        }
        while head < order.len()
            invariant
                grid.wf(),
                n == grid.cells@.len(),
                scan_ok(grid, root as int, distances@, order@, head as int, 0),
            decreases n - head,
        {
            let cell: usize = order[head];
            proof {
                assert(distances@[order@[head as int] as int] is Some);
            }
            let d: usize = match distances[cell] {
                Some(d) => d,
                None => 0,
            };
            let count: usize = grid.cells[cell].links.len();
            let mut j: usize = 0;
            while j < count
                invariant
                    grid.wf(),
                    n == grid.cells@.len(),
                    scan_ok(grid, root as int, distances@, order@, head as int, j as int),
                    head < order@.len(),
                    cell == order@[head as int],
                    distances@[cell as int] == Some(d),
                    count == grid.links_of(cell as int).len(),
                    j <= count,
                decreases count - j,
            {
                let next: usize = grid.cells[cell].links[j];
                proof {
                    assert(grid.cell_links_ok(cell as int));
                    assert(grid.adjacent(cell as int, grid.links_of(cell as int)[j as int] as int));
                    assert(grid.linked(cell as int, next as int));
                    assert(order@.len() == order.len());
                }
                if distances[next].is_none() {
                    let ghost dist_before = distances@;
                    let ghost order_before = order@;
                    distances[next] = Some(d + 1);
                    order.push(next);
                    proof {
                        lemma_scan_grows(
                            grid,
                            root as int,
                            dist_before,
                            order_before,
                            head as int,
                            j as int,
                        );
                    }
                } else {
                    proof {
                        assert(order@.contains(next));
                        let k = choose|k: int| 0 <= k < order@.len() && order@[k] == next;
                        assert(distances@[order@[k] as int]->0 <= distances@[order@[order@.len()
                            - 1] as int]->0);
                    }
                }
                j = j + 1;
            }
            proof {
                assert forall|k: int, b: int|
                    0 <= k < head + 1 && #[trigger] grid.linked(order@[k] as int, b) implies close(
                    distances@,
                    order@[k] as int,
                    b,
                ) by {
                    if k == head {
                        let i = choose|i: int|
                            0 <= i < grid.links_of(cell as int).len() && grid.links_of(cell as int)[i]
                                == b as usize;
                        assert(close(distances@, cell as int, grid.links_of(cell as int)[i] as int));
                    }
                }
            }
            head = head + 1;
        }
        proof {
            assert forall|a: int, b: int| #[trigger] grid.linked(a, b) && distances@[a] is Some implies close(
                distances@,
                a,
                b,
            ) by {
                assert(order@.contains(a as usize));
                let k = choose|k: int| 0 <= k < order@.len() && order@[k] == a as usize;
                assert(grid.linked(order@[k] as int, b));
            }
            lemma_labels_shortest(grid, root as int, distances@);
        }
        let last: usize = order[order.len() - 1];
        let max_distance: usize = match distances[last] {
            Some(d) => d,
            None => 0,
        };
        proof {
            assert forall|c: int|
                0 <= c < distances@.len() && (#[trigger] distances@[c]) is Some implies distances@[c]->0
                <= max_distance by {
                assert(order@.contains(c as usize));
                let k = choose|k: int| 0 <= k < order@.len() && order@[k] == c as usize;
                assert(distances@[order@[k] as int]->0 <= distances@[order@[order@.len() - 1] as int]->0);
            }
            assert(distances@[last as int] == Some(max_distance));
            if grid.is_perfect_maze() {
                assert forall|a: int, b: int| #[trigger] grid.linked(a, b) implies one_apart(
                    distances@,
                    a,
                    b,
                ) by {
                    assert(grid.reachable(root as int, a));
                    assert(grid.reachable(root as int, b));
                    assert(distances@[a] is Some);
                    assert(distances@[b] is Some);
                    grid.lemma_dist(root as int, a, distances@[a]->0 as int);
                    grid.lemma_dist(root as int, b, distances@[b]->0 as int);
                    grid.lemma_perfect_levels(root as int, a, b);
                }
            }
        }
        DistanceGrid { root, distances, max_distance }
    }
}

/// The cells of a path, as numbers.
pub open spec fn as_cells(path: Seq<usize>) -> Seq<int> {
    Seq::new(path.len(), |k: int| path[k] as int)
}

/// Among the links of `from`, `to` is the first whose distance is one less
/// than that of `from`.
pub open spec fn is_step_down(
    grid: &GridBase,
    dist: Seq<Option<usize>>,
    from: int,
    to: int,
) -> bool {
    exists|i: int|
        0 <= i < grid.links_of(from).len() && to == #[trigger] grid.links_of(from)[i] && dist[to]
            == Some((dist[from]->0 - 1) as usize) && forall|j: int|
            0 <= j < i ==> dist[(#[trigger] grid.links_of(from)[j]) as int] != Some(
                (dist[from]->0 - 1) as usize,
            )
}

/// Among the links of `from`, `to` is the first that is one step nearer to
/// `root` than `from` is.
pub open spec fn is_first_nearer(grid: &GridBase, root: int, from: int, to: int) -> bool {
    exists|i: int|
        0 <= i < grid.links_of(from).len() && to == #[trigger] grid.links_of(from)[i] && grid.dist(
            root,
            to,
        ) == grid.dist(root, from) - 1 && forall|j: int|
            0 <= j < i ==> grid.dist(root, (#[trigger] grid.links_of(from)[j]) as int) != grid.dist(
                root,
                from,
            ) - 1
}

/// A step down by the distances of a search is a step to the first link that
/// is nearer to the root.
pub proof fn lemma_step_down_nearer(grid: &GridBase, distances: &DistanceGrid, from: int, to: int)
    requires
        distances.describes(grid),
        0 <= from < grid.cells@.len(),
        distances.distances@[from] is Some,
        distances.distances@[from]->0 >= 1,
        is_step_down(grid, distances.distances@, from, to),
    ensures
        is_first_nearer(grid, distances.root as int, from, to),
{
    let root = distances.root as int;
    let dist = distances.distances@;
    lemma_labels_shortest(grid, root, dist);
    let i = choose|i: int|
        0 <= i < grid.links_of(from).len() && to == #[trigger] grid.links_of(from)[i] && dist[to]
            == Some((dist[from]->0 - 1) as usize) && forall|j: int|
            0 <= j < i ==> dist[(#[trigger] grid.links_of(from)[j]) as int] != Some(
                (dist[from]->0 - 1) as usize,
            );
    assert(grid.cell_links_ok(from));
    grid.lemma_dist(root, from, dist[from]->0 as int);
    assert(grid.adjacent(from, grid.links_of(from)[i] as int));
    grid.lemma_dist(root, to, dist[to]->0 as int);
    assert forall|j: int| 0 <= j < i implies grid.dist(
        root,
        (#[trigger] grid.links_of(from)[j]) as int,
    ) != grid.dist(root, from) - 1 by {
        let other = grid.links_of(from)[j] as int;
        assert(grid.adjacent(from, grid.links_of(from)[j] as int));
        assert(grid.linked(from, other));
        assert(close(dist, from, other));
        grid.lemma_dist(root, other, dist[other]->0 as int);
    }
    assert(to == grid.links_of(from)[i] && grid.dist(root, to) == grid.dist(root, from) - 1);
}

/// Cell `c` is as far from `from` as any cell is, and the first such cell in
/// the order of the arena.
pub open spec fn is_farthest(grid: &GridBase, from: int, c: int) -> bool {
    exists|d: int|
        #[trigger] grid.is_distance(from, c, d) && forall|x: int, e: int|
            #[trigger] grid.is_distance(from, x, e) ==> e <= d && (x < c ==> e < d)
}

impl GridBase {
    /// Two cells have one distance only.
    pub proof fn lemma_distance_unique(&self, a: int, b: int, d: int, e: int)
        requires
            self.is_distance(a, b, d),
            self.is_distance(a, b, e),
        ensures
            d == e,
    {
        if d < e {
            assert(self.has_route(a, b, d));
        } else if e < d {
            assert(self.has_route(a, b, e));
        }
    }

    /// A cell at some distance can be reached, and is a cell of the grid.
    pub proof fn lemma_distance_reachable(&self, a: int, b: int, d: int)
        requires
            self.is_distance(a, b, d),
        ensures
            self.reachable(a, b),
            0 <= b < self.cells@.len(),
            0 <= a < self.cells@.len(),
    {
        let path = choose|path: Seq<int>| #[trigger] self.joins(path, a, b) && path.len() == d + 1;
        self.lemma_path_cells(path, path.len() - 1);
    }
}

impl DistanceGrid {
    /// The distance of a cell, if it has one.
    pub fn distance(&self, cell: usize) -> (d: Option<usize>)
        ensures
            d == (if cell < self.distances@.len() {
                self.distances@[cell as int]
            } else {
                None
            }),
    {
        if cell < self.distances.len() {
            self.distances[cell]
        } else {
            None
        }
    }

    /// The cell with the largest distance, and that distance; of several such
    /// cells the one with the lowest index. Nothing where no cell has a
    /// distance.
    pub fn farthest(&self) -> (far: Option<(usize, usize)>)
        ensures
            far is None ==> forall|c: int|
                0 <= c < self.distances@.len() ==> (#[trigger] self.distances@[c]) is None,
            far matches Some((cell, d)) ==> {
                &&& cell < self.distances@.len()
                &&& self.distances@[cell as int] == Some(d)
                &&& forall|c: int|
                    0 <= c < self.distances@.len() && (#[trigger] self.distances@[c]) is Some
                        ==> self.distances@[c]->0 <= d
                &&& forall|c: int|
                    0 <= c < cell && (#[trigger] self.distances@[c]) is Some
                        ==> self.distances@[c]->0 < d
            },
    {
        let mut far: Option<(usize, usize)> = None;
        let mut c: usize = 0;
        while c < self.distances.len()
            invariant
                c <= self.distances@.len(),
                far is None ==> forall|x: int| 0 <= x < c ==> (#[trigger] self.distances@[x]) is None,
                far matches Some((cell, d)) ==> {
                    &&& cell < c
                    &&& self.distances@[cell as int] == Some(d)
                    &&& forall|x: int|
                        0 <= x < c && (#[trigger] self.distances@[x]) is Some
                            ==> self.distances@[x]->0 <= d
                    &&& forall|x: int|
                        0 <= x < cell && (#[trigger] self.distances@[x]) is Some
                            ==> self.distances@[x]->0 < d
                },
            decreases self.distances@.len() - c,
        {
            if let Some(here) = self.distances[c] {
                match far {
                    None => {
                        far = Some((c, here));
                    },
                    Some((_, best)) => {
                        if here > best {
                            far = Some((c, here));
                        }
                    },
                }
            }
            c = c + 1;
        }
        far
    }

    /// The first link of `cell` that is one step nearer to the root.
    pub fn step_down(&self, grid: &GridBase, cell: usize) -> (to: usize)
        requires
            self.describes(grid),
            cell < grid.cells@.len(),
            self.distances@[cell as int] is Some,
            self.distances@[cell as int]->0 >= 1,
        ensures
            to < grid.cells@.len(),
            is_step_down(grid, self.distances@, cell as int, to as int),
            self.distances@[to as int] == Some((self.distances@[cell as int]->0 - 1) as usize),
            grid.linked(cell as int, to as int),
            grid.linked(to as int, cell as int),
    {
        let want: usize = match self.distances[cell] {
            Some(d) => d - 1,
            None => 0,
        };
        let mut j: usize = 0;
        while j < grid.cells[cell].links.len()
            invariant
                self.describes(grid),
                cell < grid.cells@.len(),
                self.distances@[cell as int] is Some,
                self.distances@[cell as int]->0 == want + 1,
                j <= grid.links_of(cell as int).len(),
                forall|i: int|
                    0 <= i < j ==> self.distances@[(#[trigger] grid.links_of(cell as int)[i]) as int]
                        != Some(want),
            decreases grid.links_of(cell as int).len() - j,
        {
            let to: usize = grid.cells[cell].links[j];
            proof {
                assert(grid.cell_links_ok(cell as int));
                assert(grid.adjacent(cell as int, grid.links_of(cell as int)[j as int] as int));
                assert(grid.linked(grid.links_of(cell as int)[j as int] as int, cell as int));
                assert(grid.linked(cell as int, to as int));
            }
            if self.distances[to] == Some(want) {
                return to;
            }
            j = j + 1;
        }
        proof {
            // some link leads nearer to the root, so the search cannot fail
            assert(cell != self.root);
            assert(has_parent(grid, self.distances@, cell as int));
            let p = choose|p: int|
                #[trigger] grid.linked(p, cell as int) && self.distances@[p] == Some(
                    (self.distances@[cell as int]->0 - 1) as usize,
                );
            grid.lemma_linked_symmetric(p, cell as int);
            let i = choose|i: int|
                0 <= i < grid.links_of(cell as int).len() && grid.links_of(cell as int)[i]
                    == p as usize;
            assert(self.distances@[grid.links_of(cell as int)[i] as int] != Some(want));
            assert(false);
        }
        cell
    }

    /// The shortest path from the root to `target`, root first. From the
    /// target backwards, each cell is followed by the first of its links that
    /// is one step nearer to the root.
    pub fn path_to(&self, grid: &GridBase, target: usize) -> (r: Result<Vec<usize>, MazeError>)
        requires
            self.describes(grid),
            target < grid.cells@.len(),
        ensures
            r is Err <==> self.distances@[target as int] is None,
            r is Err ==> r == Err::<Vec<usize>, MazeError>(MazeError::NoPath),
            r matches Ok(path) ==> {
                &&& path@.len() == self.distances@[target as int]->0 + 1
                &&& grid.joins(as_cells(path@), self.root as int, target as int)
                &&& forall|k: int|
                    0 <= k < path@.len() ==> self.distances@[(#[trigger] path@[k]) as int] == Some(
                        k as usize,
                    )
                &&& forall|k: int|
                    0 <= k < path@.len() - 1 ==> is_step_down(
                        grid,
                        self.distances@,
                        path@[k + 1] as int,
                        (#[trigger] path@[k]) as int,
                    )
            },
    {
        let d: usize = match self.distances[target] {
            Some(d) => d,
            None => { return Err(MazeError::NoPath); },
        };
        let mut path: Vec<usize> = Vec::new();
        while path.len() <= d
            invariant
                path@.len() <= d + 1,
                forall|k: int| 0 <= k < path@.len() ==> path@[k] == target,
            decreases d + 1 - path@.len(),
        {
            path.push(target);
        }
        let mut at: usize = d;
        let mut cell: usize = target;
        while at > 0
            invariant
                self.describes(grid),
                path@.len() == d + 1,
                at <= d,
                cell < grid.cells@.len(),
                path@[at as int] == cell,
                path@[d as int] == target,
                forall|k: int|
                    at <= k < path@.len() ==> (#[trigger] path@[k]) < grid.cells@.len()
                        && self.distances@[path@[k] as int] == Some(k as usize),
                forall|k: int|
                    at <= k < path@.len() - 1 ==> is_step_down(
                        grid,
                        self.distances@,
                        path@[k + 1] as int,
                        (#[trigger] path@[k]) as int,
                    ) && grid.linked(path@[k] as int, path@[k + 1] as int),
            decreases at,
        {
            let to: usize = self.step_down(grid, cell);
            at = at - 1;
            path[at] = to;
            cell = to;
        }
        proof {
            let cells = as_cells(path@);
            assert(self.distances@[path@[0] as int] == Some(0usize));
            if path@[0] != self.root {
                assert(has_parent(grid, self.distances@, path@[0] as int));
            }
            assert forall|k: int| 0 <= k < cells.len() - 1 implies grid.linked(
                #[trigger] cells[k],
                cells[k + 1],
            ) by {
                assert(grid.linked(path@[k] as int, path@[k + 1] as int));
            }
            assert(grid.joins(cells, self.root as int, target as int));
        }
        Ok(path)
    }
}

/// The shortest path from `root` to `target` along the passages, root first.
/// From the target backwards, each cell is followed by the first of its links
/// that is one step nearer to the root.
///
/// An index that names no cell is refused with `OutOfBounds`. Where no chain
/// of passages joins the two cells the answer is `NoPath`.
pub fn shortest_path(grid: &GridBase, root: usize, target: usize) -> (r: Result<
    Vec<usize>,
    MazeError,
>)
    requires
        grid.wf(),
    ensures
        r == Err::<Vec<usize>, MazeError>(MazeError::OutOfBounds) <==> (root >= grid.cells@.len()
            || target >= grid.cells@.len()),
        r == Err::<Vec<usize>, MazeError>(MazeError::NoPath) <==> (root < grid.cells@.len()
            && target < grid.cells@.len() && !grid.reachable(root as int, target as int)),
        r is Err ==> r == Err::<Vec<usize>, MazeError>(MazeError::OutOfBounds) || r == Err::<
            Vec<usize>,
            MazeError,
        >(MazeError::NoPath),
        r matches Ok(path) ==> {
            &&& grid.joins(as_cells(path@), root as int, target as int)
            &&& grid.is_distance(root as int, target as int, path@.len() - 1)
            &&& forall|k: int|
                0 <= k < path@.len() ==> grid.is_distance(root as int, (#[trigger] path@[k]) as int, k)
            &&& forall|k: int|
                0 <= k < path@.len() - 1 ==> is_first_nearer(
                    grid,
                    root as int,
                    path@[k + 1] as int,
                    (#[trigger] path@[k]) as int,
                )
        },
{
    if root >= grid.cells.len() || target >= grid.cells.len() {
        return Err(MazeError::OutOfBounds);
    }
    let distances = DistanceGrid::new(grid, root);
    proof {
        if distances.distances@[target as int] is Some {
            grid.lemma_distance_reachable(
                root as int,
                target as int,
                distances.distances@[target as int]->0 as int,
            );
        }
    }
    let r = distances.path_to(grid, target);
    proof {
        if r is Ok {
            let path = r->Ok_0;
            let cells = as_cells(path@);
            assert forall|k: int| 0 <= k < path@.len() implies grid.is_distance(
                root as int,
                (#[trigger] path@[k]) as int,
                k,
            ) by {
                grid.lemma_path_cells(cells, k);
                assert(cells[k] == path@[k]);
            }
            assert forall|k: int| 0 <= k < path@.len() - 1 implies is_first_nearer(
                grid,
                root as int,
                path@[k + 1] as int,
                (#[trigger] path@[k]) as int,
            ) by {
                grid.lemma_path_cells(cells, k + 1);
                assert(cells[k + 1] == path@[k + 1]);
                assert(distances.distances@[path@[k + 1] as int] == Some((k + 1) as usize));
                lemma_step_down_nearer(grid, &distances, path@[k + 1] as int, path@[k] as int);
            }
        }
    }
    r
}

/// A longest path of the maze, found by searching twice: from the first cell
/// to the cell farthest from it, and from there to the cell farthest from
/// that one. The path leads from the one to the other. In a perfect maze no
/// two cells are farther apart, and the first cell lies on the path exactly
/// when its distances to the two ends add up to the length of the path.
///
/// A grid without cells is refused with `EmptyMask`.
pub fn longest_path(grid: &GridBase) -> (r: Result<Vec<usize>, MazeError>)
    requires
        grid.wf(),
    ensures
        r is Err <==> grid.cells@.len() == 0,
        r is Err ==> r == Err::<Vec<usize>, MazeError>(MazeError::EmptyMask),
        r matches Ok(path) ==> exists|a: int, b: int|
            #![trigger is_farthest(grid, a, b)]
            {
                &&& is_farthest(grid, 0, a)
                &&& is_farthest(grid, a, b)
                &&& grid.joins(as_cells(path@), a, b)
                &&& grid.is_distance(a, b, path@.len() - 1)
            },
        r matches Ok(path) ==> (grid.is_perfect_maze() ==> forall|u: int, v: int|
            0 <= u < grid.cells@.len() && 0 <= v < grid.cells@.len() ==> #[trigger] grid.dist(u, v)
                <= path@.len() - 1),
        r matches Ok(path) ==> (grid.is_perfect_maze() ==> {
            let far = grid.dist(0, path@[0] as int);
            let back = grid.dist(0, path@.last() as int);
            &&& path@.len() - 1 - back <= far <= path@.len() - 1
            &&& far == path@.len() - 1 - back <==> path@.contains(0usize)
        }),
{
    if grid.cells.len() == 0 {
        return Err(MazeError::EmptyMask);
    }
    let first = DistanceGrid::new(grid, 0);
    let a: usize = match first.farthest() {
        Some((cell, _)) => cell,
        None => 0,
    };
    proof {
        lemma_farthest(grid, &first, a as int);
    }
    let second = DistanceGrid::new(grid, a);
    let b: usize = match second.farthest() {
        Some((cell, _)) => cell,
        None => a,
    };
    proof {
        lemma_farthest(grid, &second, b as int);
    }
    let r = second.path_to(grid, b);
    proof {
        assert(r is Ok);
        assert(is_farthest(grid, a as int, b as int));
        if grid.is_perfect_maze() {
            lemma_labels_shortest(grid, 0, first.distances@);
            lemma_labels_shortest(grid, a as int, second.distances@);
            assert forall|x: int| 0 <= x < grid.cells@.len() implies grid.dist(0, x) <= grid.dist(
                0,
                a as int,
            ) by {
                assert(grid.reachable(0, x));
                assert(first.distances@[x] is Some);
                grid.lemma_dist(0, x, first.distances@[x]->0 as int);
                grid.lemma_dist(0, a as int, first.distances@[a as int]->0 as int);
            }
            assert forall|x: int| 0 <= x < grid.cells@.len() implies grid.dist(a as int, x)
                <= grid.dist(a as int, b as int) by {
                assert(grid.reachable(a as int, x));
                assert(second.distances@[x] is Some);
                grid.lemma_dist(a as int, x, second.distances@[x]->0 as int);
                grid.lemma_dist(a as int, b as int, second.distances@[b as int]->0 as int);
            }
            grid.lemma_dist(a as int, b as int, r->Ok_0@.len() - 1);
            assert forall|u: int, v: int|
                0 <= u < grid.cells@.len() && 0 <= v < grid.cells@.len() implies #[trigger] grid.dist(
                u,
                v,
            ) <= r->Ok_0@.len() - 1 by {
                grid.lemma_twice_farthest(0, a as int, b as int, u, v);
            }
            let path = r->Ok_0;
            let cells = as_cells(path@);
            assert(grid.dist(0, a as int) <= path@.len() - 1);
            assert(cells[0] == a && cells.last() == b);
            grid.lemma_on_shortest_path(0, cells);
            if path@.contains(0usize) {
                let k = choose|k: int| 0 <= k < path@.len() && path@[k] == 0usize;
                assert(cells[k] == 0);
            }
            if cells.contains(0) {
                let k = choose|k: int| 0 <= k < cells.len() && cells[k] == 0;
                assert(path@[k] == 0usize);
            }
        }
    }
    r
}

/// The cell that holds the largest distance, lowest index first, is the
/// farthest cell.
pub proof fn lemma_farthest(grid: &GridBase, distances: &DistanceGrid, c: int)
    requires
        distances.describes(grid),
        0 <= c < distances.distances@.len(),
        distances.distances@[c] is Some,
        forall|x: int|
            0 <= x < distances.distances@.len() && (#[trigger] distances.distances@[x]) is Some
                ==> distances.distances@[x]->0 <= distances.distances@[c]->0,
        forall|x: int|
            0 <= x < c && (#[trigger] distances.distances@[x]) is Some ==> distances.distances@[x]->0
                < distances.distances@[c]->0,
    ensures
        is_farthest(grid, distances.root as int, c),
{
    let root = distances.root as int;
    let dist = distances.distances@;
    let d = dist[c]->0 as int;
    lemma_labels_shortest(grid, root, dist);
    assert forall|x: int, e: int| #[trigger] grid.is_distance(root, x, e) implies e <= d && (x < c
        ==> e < d) by {
        grid.lemma_distance_reachable(root, x, e);
        assert(dist[x] is Some);
        grid.lemma_distance_unique(root, x, e, dist[x]->0 as int);
    }
    assert(grid.is_distance(root, c, d));
}

impl DistanceGrid {
    /// The distance that the formatter shows for a cell: the one filed under
    /// the cell's index, if it is there and no larger than the largest.
    pub open spec fn shown(&self, cell: &Cell) -> Option<usize> {
        if cell.index < self.distances@.len() && self.distances@[cell.index as int] is Some
            && self.distances@[cell.index as int]->0 <= self.max_distance {
            self.distances@[cell.index as int]
        } else {
            None
        }
    }
}

impl CellFormatter for DistanceGrid {
    /// The label of a cell: its distance in decimal notation, or a blank for
    /// a cell without a distance.
    open spec fn contents_spec(&self, cell: &Cell) -> Seq<char> {
        match self.shown(cell) {
            Some(d) => crate::text::digits(d as nat),
            None => " "@,
        }
    }

    /// The colour of a cell: a green that is white at the root and darkest
    /// at the largest distance; no colour for a cell without a distance.
    open spec fn color_spec(&self, cell: &Cell) -> Seq<char> {
        match self.shown(cell) {
            Some(d) => {
                let dark = crate::text::shade(d as nat, self.max_distance as nat, 255);
                let bright = 128 + crate::text::shade(d as nat, self.max_distance as nat, 127);
                crate::text::color_text(dark, bright as nat, dark)
            },
            None => ""@,
        }
    }

    fn contents_of(&self, cell: &Cell) -> (s: String) {
        match self.distance(cell.index) {
            Some(d) => {
                if d <= self.max_distance {
                    crate::text::decimal(d)
                } else {
                    String::from_str(" ")
                }
            },
            None => String::from_str(" "),
        }
    }

    fn background_color(&self, cell: &Cell) -> (s: String) {
        match self.distance(cell.index) {
            Some(d) => {
                if d <= self.max_distance {
                    let dark: usize = crate::text::shade_of(d, self.max_distance, 255);
                    let bright: usize = 128 + crate::text::shade_of(d, self.max_distance, 127);
                    crate::text::color(dark, bright, dark)
                } else {
                    String::from_str("")
                }
            },
            None => String::from_str(""),
        }
    }
}

} // verus!
