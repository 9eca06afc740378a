//! Paths through passages, and what makes the passages a tree.

use vstd::prelude::*;
use crate::grid::grid_base::GridBase;

verus! {

/// The sum of a sequence of counts.
pub open spec fn sum(counts: Seq<nat>) -> nat
    decreases counts.len(),
{
    if counts.len() == 0 {
        0
    } else {
        sum(counts.drop_last()) + counts.last()
    }
}

/// Changing one count changes the sum by as much.
pub proof fn lemma_sum_update(counts: Seq<nat>, i: int, v: nat)
    requires
        0 <= i < counts.len(),
    ensures
        sum(counts.update(i, v)) + counts[i] == sum(counts) + v,
    decreases counts.len(),
{
    let updated = counts.update(i, v);
    if i == counts.len() - 1 {
        assert(updated.drop_last() =~= counts.drop_last());
    } else {
        assert(updated.drop_last() =~= counts.drop_last().update(i, v));
        lemma_sum_update(counts.drop_last(), i, v);
    }
}

impl GridBase {
    /// For each cell, how many links it has.
    pub open spec fn link_counts(&self) -> Seq<nat> {
        Seq::new(self.cells@.len(), |i: int| self.links_of(i).len())
    }

    /// The number of links, counted at both of their ends.
    pub open spec fn link_total(&self) -> nat {
        sum(self.link_counts())
    }

    /// The cells of `path` are cells of the grid, and a passage leads from
    /// each to the next.
    pub open spec fn is_path(&self, path: Seq<int>) -> bool {
        &&& path.len() > 0
        &&& 0 <= path[0] < self.cells@.len()
        &&& forall|k: int| 0 <= k < path.len() - 1 ==> self.linked(#[trigger] path[k], path[k + 1])
    }

    /// `path` leads from `a` to `b` through passages.
    pub open spec fn joins(&self, path: Seq<int>, a: int, b: int) -> bool {
        &&& self.is_path(path)
        &&& path[0] == a
        &&& path.last() == b
    }

    /// Some chain of passages leads from `a` to `b`.
    pub open spec fn reachable(&self, a: int, b: int) -> bool {
        exists|path: Seq<int>| #[trigger] self.joins(path, a, b)
    }

    /// Every cell can be reached from every other through passages.
    pub open spec fn connected(&self) -> bool {
        forall|a: int, b: int|
            0 <= a < self.cells@.len() && 0 <= b < self.cells@.len() ==> #[trigger] self.reachable(
                a,
                b,
            )
    }

    /// The cells of `walk` are cells of the grid, and each is a neighbour of
    /// the next.
    pub open spec fn is_walk(&self, walk: Seq<int>) -> bool {
        &&& walk.len() > 0
        &&& 0 <= walk[0] < self.cells@.len()
        &&& forall|k: int|
            0 <= k < walk.len() - 1 ==> self.adjacent(#[trigger] walk[k], walk[k + 1])
    }

    /// Some walk from neighbour to neighbour leads from `a` to `b`.
    pub open spec fn walkable(&self, a: int, b: int) -> bool {
        exists|walk: Seq<int>|
            #[trigger] self.is_walk(walk) && walk[0] == a && walk.last() == b
    }

    /// The cells form one region: every cell can be walked to from every
    /// other, going from neighbour to neighbour.
    pub open spec fn one_region(&self) -> bool {
        forall|a: int, b: int|
            0 <= a < self.cells@.len() && 0 <= b < self.cells@.len() ==> #[trigger] self.walkable(
                a,
                b,
            )
    }

    /// The passages form a spanning tree of the cells: the grid is sound,
    /// every cell can be reached from every other, and there is one passage
    /// fewer than there are cells.
    pub open spec fn is_perfect_maze(&self) -> bool {
        &&& self.wf()
        &&& self.cells@.len() >= 1
        &&& self.connected()
        &&& self.link_total() == 2 * (self.cells@.len() - 1)
    }

    /// The root and the cells that have a link.
    pub open spec fn carved(&self, root: int) -> Set<int> {
        Set::new(
            |c: int| 0 <= c < self.cells@.len() && (c == root || self.links_of(c).len() > 0),
        )
    }

    /// The passages form a tree that holds the root and every cell that has
    /// a link: each such cell can be reached from the root, and there is one
    /// passage fewer than there are such cells.
    pub open spec fn is_tree_from(&self, root: int) -> bool {
        &&& self.wf()
        &&& 0 <= root < self.cells@.len()
        &&& self.links_of(root).len() == 0 ==> self.unlinked()
        &&& forall|c: int|
            0 <= c < self.cells@.len() && self.links_of(c).len() > 0 ==> #[trigger] self.reachable(
                root,
                c,
            )
        &&& self.link_total() + 2 == 2 * self.carved(root).len()
    }

    /// The set of carved cells is finite and lies within the grid.
    pub proof fn lemma_carved_finite(&self, root: int)
        ensures
            self.carved(root).finite(),
            self.carved(root).len() <= self.cells@.len(),
            self.carved(root).subset_of(vstd::set_lib::set_int_range(0, self.cells@.len() as int)),
    {
        let all = vstd::set_lib::set_int_range(0, self.cells@.len() as int);
        vstd::set_lib::lemma_int_range(0, self.cells@.len() as int);
        assert(self.carved(root).subset_of(all));
        vstd::set_lib::lemma_len_subset(self.carved(root), all);
    }

    /// A passage goes both ways.
    pub proof fn lemma_linked_symmetric(&self, a: int, b: int)
        requires
            self.wf(),
            self.linked(a, b),
        ensures
            self.linked(b, a),
    {
        assert(self.cell_links_ok(a));
        let k = choose|k: int| 0 <= k < self.links_of(a).len() && self.links_of(a)[k] == b as usize;
        assert(self.linked(self.links_of(a)[k] as int, a));
    }

    /// A passage joins neighbours.
    pub proof fn lemma_linked_adjacent(&self, a: int, b: int)
        requires
            self.wf(),
            self.linked(a, b),
        ensures
            self.adjacent(a, b),
    {
        assert(self.cell_links_ok(a));
        let k = choose|k: int| 0 <= k < self.links_of(a).len() && self.links_of(a)[k] == b as usize;
        assert(self.adjacent(a, self.links_of(a)[k] as int));
    }

    /// Every cell of a path is a cell of the grid.
    pub proof fn lemma_path_cells(&self, path: Seq<int>, k: int)
        requires
            self.is_path(path),
            0 <= k < path.len(),
        ensures
            0 <= path[k] < self.cells@.len(),
    {
        if k > 0 {
            assert(self.linked(path[k - 1], path[k - 1 + 1]));
        }
    }

    /// Every cell reaches itself.
    pub proof fn lemma_reachable_self(&self, a: int)
        requires
            0 <= a < self.cells@.len(),
        ensures
            self.reachable(a, a),
    {
        assert(self.joins(seq![a], a, a));
    }

    /// A path that ends where a passage starts can be taken one cell further.
    pub proof fn lemma_reachable_step(&self, a: int, b: int, c: int)
        requires
            self.reachable(a, b),
            self.linked(b, c),
        ensures
            self.reachable(a, c),
    {
        let path = choose|path: Seq<int>| #[trigger] self.joins(path, a, b);
        let longer = path.push(c);
        assert forall|k: int| 0 <= k < longer.len() - 1 implies self.linked(
            #[trigger] longer[k],
            longer[k + 1],
        ) by {
            if k < path.len() - 1 {
                assert(self.linked(path[k], path[k + 1]));
            }
        }
        assert(self.joins(longer, a, c));
    }

    /// A path can be walked backwards.
    pub proof fn lemma_reachable_symmetric(&self, a: int, b: int)
        requires
            self.wf(),
            self.reachable(a, b),
        ensures
            self.reachable(b, a),
    {
        let path = choose|path: Seq<int>| #[trigger] self.joins(path, a, b);
        let back = path.reverse();
        let n = path.len() as int;
        self.lemma_path_cells(path, n - 1);
        assert forall|k: int| 0 <= k < back.len() - 1 implies self.linked(
            #[trigger] back[k],
            back[k + 1],
        ) by {
            assert(back[k] == path[n - 1 - k]);
            assert(back[k + 1] == path[n - 2 - k]);
            assert(self.linked(path[n - 2 - k], path[n - 2 - k + 1]));
            self.lemma_linked_symmetric(path[n - 2 - k], path[n - 1 - k]);
        }
        assert(self.joins(back, b, a));
    }

    /// Two paths that meet make one.
    pub proof fn lemma_reachable_transitive(&self, a: int, b: int, c: int)
        requires
            self.reachable(a, b),
            self.reachable(b, c),
        ensures
            self.reachable(a, c),
    {
        let first = choose|path: Seq<int>| #[trigger] self.joins(path, a, b);
        let second = choose|path: Seq<int>| #[trigger] self.joins(path, b, c);
        let whole = first + second.drop_first();
        let n = first.len() as int;
        assert forall|k: int| 0 <= k < whole.len() - 1 implies self.linked(
            #[trigger] whole[k],
            whole[k + 1],
        ) by {
            if k < n - 1 {
                assert(self.linked(first[k], first[k + 1]));
            } else {
                assert(whole[k + 1] == second[k - n + 2]);
                assert(whole[k] == second[k - n + 1]);
                assert(self.linked(second[k - n + 1], second[k - n + 1 + 1]));
            }
        }
        assert(self.joins(whole, a, c));
    }

    /// A grid that keeps every passage of another keeps every path of it.
    pub proof fn lemma_reachable_kept(&self, pre: &GridBase, a: int, b: int)
        requires
            self.cells@.len() == pre.cells@.len(),
            forall|x: int, y: int| pre.linked(x, y) ==> self.linked(x, y),
            pre.reachable(a, b),
        ensures
            self.reachable(a, b),
    {
        let path = choose|path: Seq<int>| #[trigger] pre.joins(path, a, b);
        assert forall|k: int| 0 <= k < path.len() - 1 implies self.linked(
            #[trigger] path[k],
            path[k + 1],
        ) by {
            assert(pre.linked(path[k], path[k + 1]));
        }
        assert(self.joins(path, a, b));
    }

    /// A grid without links is a tree that holds its root alone.
    pub proof fn lemma_tree_start(&self, root: int)
        requires
            self.wf(),
            self.unlinked(),
            0 <= root < self.cells@.len(),
        ensures
            self.is_tree_from(root),
            self.carved(root) == set![root],
    {
        assert(self.carved(root) =~= set![root]) by {
            assert forall|c: int| self.carved(root).contains(c) implies c == root by {
                assert(self.links_of(c).len() == 0);
            }
        }
        self.lemma_unlinked_total(self.cells@.len() as int);
        assert(self.link_counts().take(self.cells@.len() as int) =~= self.link_counts());
    }

    /// Cells without links add nothing to the total.
    pub proof fn lemma_unlinked_total(&self, n: int)
        requires
            self.unlinked(),
            0 <= n <= self.cells@.len(),
        ensures
            sum(self.link_counts().take(n)) == 0,
        decreases n,
    {
        if n > 0 {
            self.lemma_unlinked_total(n - 1);
            assert(self.link_counts().take(n).drop_last() =~= self.link_counts().take(n - 1));
            assert(self.links_of(n - 1).len() == 0);
        }
    }

    /// A passage opened from a carved cell to a cell without links makes the
    /// tree one cell larger.
    pub proof fn lemma_tree_grows(&self, pre: &GridBase, root: int, a: int, b: int)
        requires
            pre.is_tree_from(root),
            pre.carved(root).contains(a),
            pre.adjacent(a, b),
            pre.links_of(b).len() == 0,
            self.link_added(pre, a, b),
        ensures
            self.is_tree_from(root),
            !pre.carved(root).contains(b),
            self.carved(root) == pre.carved(root).insert(b),
            self.carved(root).len() == pre.carved(root).len() + 1,
    {
        pre.lemma_adjacent(a, b);
        if pre.linked(a, b) {
            pre.lemma_linked_symmetric(a, b);
        }
        // the root is never the cell without links that a carved cell meets
        if b == root {
            assert(pre.unlinked());
            assert(pre.links_of(a).len() == 0);
        }
        self.lemma_link_added_wf(pre, a, b);
        assert(self.links_of(a).len() > 0);
        assert(self.links_of(b).len() > 0);
        assert(self.carved(root) =~= pre.carved(root).insert(b)) by {
            assert forall|c: int| self.carved(root).contains(c) <==> pre.carved(root).insert(
                b,
            ).contains(c) by {
                if 0 <= c < self.cells@.len() && c != a && c != b {
                    assert(self.links_of(c) == pre.links_of(c));
                }
            }
        }
        pre.lemma_carved_finite(root);
        // the root keeps a link, or never had to
        if self.links_of(root).len() == 0 {
            assert(root != a && root != b);
            assert(self.links_of(root) == pre.links_of(root));
            assert(pre.unlinked());
            assert(pre.links_of(a).len() == 0);
        }
        // reachability
        if a == root {
            pre.lemma_reachable_self(root);
        }
        assert(pre.reachable(root, a));
        self.lemma_reachable_kept(pre, root, a);
        self.lemma_reachable_step(root, a, b);
        assert forall|c: int|
            0 <= c < self.cells@.len() && self.links_of(c).len() > 0 implies #[trigger] self.reachable(
            root,
            c,
        ) by {
            if c == b {
            } else if c == a {
            } else {
                assert(self.links_of(c) == pre.links_of(c));
                self.lemma_reachable_kept(pre, root, c);
            }
        }
        // the total
        let before = pre.link_counts();
        let middle = before.update(a, before[a] + 1);
        let after = middle.update(b, middle[b] + 1);
        assert(self.link_counts() =~= after) by {
            assert forall|i: int| 0 <= i < after.len() implies self.link_counts()[i] == after[i] by {
                if i != a && i != b {
                    assert(self.links_of(i) == pre.links_of(i));
                }
            }
        }
        lemma_sum_update(before, a, before[a] + 1);
        lemma_sum_update(middle, b, middle[b] + 1);
    }

    /// A tree that holds every cell is a perfect maze.
    pub proof fn lemma_tree_complete(&self, root: int)
        requires
            self.is_tree_from(root),
            self.carved(root).len() == self.cells@.len(),
        ensures
            self.is_perfect_maze(),
            forall|c: int| 0 <= c < self.cells@.len() ==> self.carved(root).contains(c),
    {
        let n = self.cells@.len() as int;
        let all = vstd::set_lib::set_int_range(0, n);
        vstd::set_lib::lemma_int_range(0, n);
        self.lemma_carved_finite(root);
        vstd::set_lib::lemma_subset_equality(self.carved(root), all);
        assert forall|c: int| 0 <= c < n implies self.carved(root).contains(c) by {
            assert(all.contains(c));
        }
        assert forall|c: int| 0 <= c < n implies self.reachable(root, c) by {
            assert(self.carved(root).contains(c));
            if c == root {
                self.lemma_reachable_self(root);
            }
        }
        assert forall|a: int, b: int| 0 <= a < n && 0 <= b < n implies #[trigger] self.reachable(
            a,
            b,
        ) by {
            self.lemma_reachable_symmetric(root, a);
            self.lemma_reachable_transitive(a, root, b);
        }
    }

    /// A set of cells that holds every cell holds as many as the grid.
    pub proof fn lemma_carved_all(&self, root: int)
        requires
            forall|c: int| 0 <= c < self.cells@.len() ==> self.carved(root).contains(c),
        ensures
            self.carved(root).len() == self.cells@.len(),
    {
        let n = self.cells@.len() as int;
        vstd::set_lib::lemma_int_range(0, n);
        assert(self.carved(root) =~= vstd::set_lib::set_int_range(0, n));
    }

    /// In a grid of one region, a set of cells that holds a cell and with
    /// each cell its neighbours holds every cell.
    pub proof fn lemma_closed_region(&self, cells: Set<int>, root: int, c: int)
        requires
            self.one_region(),
            0 <= root < self.cells@.len(),
            0 <= c < self.cells@.len(),
            cells.contains(root),
            forall|a: int, b: int| cells.contains(a) && self.adjacent(a, b) ==> cells.contains(b),
        ensures
            cells.contains(c),
    {
        assert(self.walkable(root, c));
        let walk = choose|walk: Seq<int>|
            #[trigger] self.is_walk(walk) && walk[0] == root && walk.last() == c;
        self.lemma_closed_walk(cells, walk, walk.len() - 1);
    }

    /// A walk that starts inside a set closed under neighbours stays inside.
    pub proof fn lemma_closed_walk(&self, cells: Set<int>, walk: Seq<int>, k: int)
        requires
            self.is_walk(walk),
            0 <= k < walk.len(),
            cells.contains(walk[0]),
            forall|a: int, b: int| cells.contains(a) && self.adjacent(a, b) ==> cells.contains(b),
        ensures
            cells.contains(walk[k]),
        decreases k,
    {
        if k > 0 {
            self.lemma_closed_walk(cells, walk, k - 1);
            assert(self.adjacent(walk[k - 1], walk[k - 1 + 1]));
        }
    }

    /// A grid with the same cells and the same links as a tree is that tree.
    pub proof fn lemma_same_links_tree(&self, pre: &GridBase, root: int)
        requires
            pre.is_tree_from(root),
            self.wf(),
            self.same_structure(pre),
            self.same_links(pre),
        ensures
            self.is_tree_from(root),
            self.carved(root) == pre.carved(root),
    {
        assert(self.carved(root) =~= pre.carved(root)) by {
            assert forall|c: int| self.carved(root).contains(c) <==> pre.carved(root).contains(
                c,
            ) by {
                if 0 <= c < self.cells@.len() {
                    assert(self.links_of(c) == pre.links_of(c));
                }
            }
        }
        assert(self.link_counts() =~= pre.link_counts()) by {
            assert forall|i: int| 0 <= i < self.cells@.len() implies self.link_counts()[i]
                == pre.link_counts()[i] by {
                assert(self.links_of(i) == pre.links_of(i));
            }
        }
        assert forall|x: int, y: int| pre.linked(x, y) implies self.linked(x, y) by {
            assert(self.links_of(x) == pre.links_of(x));
        }
        assert forall|c: int|
            0 <= c < self.cells@.len() && self.links_of(c).len() > 0 implies #[trigger] self.reachable(
            root,
            c,
        ) by {
            assert(self.links_of(c) == pre.links_of(c));
            self.lemma_reachable_kept(pre, root, c);
        }
        if self.links_of(root).len() == 0 {
            assert(pre.links_of(root) == self.links_of(root));
            assert forall|i: int| 0 <= i < self.cells@.len() implies (#[trigger] self.links_of(
                i,
            )).len() == 0 by {
                assert(self.links_of(i) == pre.links_of(i));
            }
        }
    }

    /// Having the same structure carries over from grid to grid.
    pub proof fn lemma_same_structure_chain(&self, middle: &GridBase, first: &GridBase)
        requires
            self.same_structure(middle),
            middle.same_structure(first),
        ensures
            self.same_structure(first),
    {
        assert forall|i: int| 0 <= i < self.cells@.len() implies (#[trigger] self.cells@[i]).same_place(
            &first.cells@[i],
        ) by {
            assert(self.cells@[i].same_place(&middle.cells@[i]));
            assert(middle.cells@[i].same_place(&first.cells@[i]));
        }
    }

    /// The neighbours of cell `i` that have no link: north, south, east,
    /// west, leaving out what is not there.
    pub open spec fn unvisited_neighbors_of(&self, i: int) -> Seq<usize> {
        unlinked_among(self.link_table(), self.neighbors_of(i))
    }

    /// The neighbours of cell `i` that have no link in `table`.
    pub open spec fn free_neighbors(&self, table: Seq<Seq<usize>>, i: int) -> Seq<usize> {
        unlinked_among(table, self.neighbors_of(i))
    }

    /// The neighbours of a cell that have no link.
    pub fn unvisited_neighbors(&self, cell: usize) -> (v: Vec<usize>)
        requires
            self.wf(),
            cell < self.cells@.len(),
        ensures
            v@ == self.unvisited_neighbors_of(cell as int),
            forall|k: int|
                0 <= k < v@.len() ==> self.adjacent(cell as int, (#[trigger] v@[k]) as int)
                    && self.links_of(v@[k] as int).len() == 0,
            v@.len() == 0 ==> forall|b: int|
                self.adjacent(cell as int, b) ==> self.links_of(b).len() > 0,
    {
        let neighbors = crate::grid::cell::ICell::neighbors(&self.cells[cell]);
        let mut v: Vec<usize> = Vec::new();
        let mut k: usize = 0;
        while k < neighbors.len()
            invariant
                self.wf(),
                cell < self.cells@.len(),
                neighbors@ == self.neighbors_of(cell as int),
                k <= neighbors@.len(),
                v@ == unlinked_among(self.link_table(), neighbors@.take(k as int)),
            decreases neighbors@.len() - k,
        {
            let b: usize = neighbors[k];
            proof {
                assert(neighbors@.take(k + 1).drop_last() =~= neighbors@.take(k as int));
                assert(neighbors@.contains(b));
                self.lemma_neighbors(cell as int, b);
            }
            if self.cells[b].links.len() == 0 {
                v.push(b);
            }
            k = k + 1;
        }
        proof {
            assert(neighbors@.take(k as int) =~= neighbors@);
            assert forall|j: int| 0 <= j < v@.len() implies self.adjacent(
                cell as int,
                (#[trigger] v@[j]) as int,
            ) && self.links_of(v@[j] as int).len() == 0 by {
                assert(v@.contains(v@[j]));
                lemma_unlinked_among(self.link_table(), neighbors@, v@[j]);
                self.lemma_neighbors(cell as int, v@[j]);
            }
            if v@.len() == 0 {
                assert forall|b: int| self.adjacent(cell as int, b) implies self.links_of(b).len()
                    > 0 by {
                    self.lemma_neighbors(cell as int, b as usize);
                    lemma_unlinked_among(self.link_table(), neighbors@, b as usize);
                }
            }
        }
        v
    }

    /// The cells of a perfect maze form one region: passages join neighbours.
    pub proof fn lemma_perfect_one_region(&self)
        requires
            self.is_perfect_maze(),
        ensures
            self.one_region(),
    {
        assert forall|a: int, b: int|
            0 <= a < self.cells@.len() && 0 <= b < self.cells@.len() implies #[trigger] self.walkable(
            a,
            b,
        ) by {
            assert(self.reachable(a, b));
            let path = choose|path: Seq<int>| #[trigger] self.joins(path, a, b);
            assert forall|k: int| 0 <= k < path.len() - 1 implies self.adjacent(
                #[trigger] path[k],
                path[k + 1],
            ) by {
                self.lemma_linked_adjacent(path[k], path[k + 1]);
            }
            assert(self.is_walk(path));
        }
    }

    /// A cell without a neighbour without links has neighbours with links
    /// only.
    pub proof fn lemma_no_unvisited_neighbors(&self, cell: int)
        requires
            self.wf(),
            0 <= cell < self.cells@.len(),
            self.unvisited_neighbors_of(cell).len() == 0,
        ensures
            forall|b: int| self.adjacent(cell, b) ==> self.links_of(b).len() > 0,
    {
        assert forall|b: int| self.adjacent(cell, b) implies self.links_of(b).len() > 0 by {
            self.lemma_neighbors(cell, b as usize);
            lemma_unlinked_among(self.link_table(), self.neighbors_of(cell), b as usize);
        }
    }
}

/// Those of `cells` that have no link in `table`, in the same order.
pub open spec fn unlinked_among(table: Seq<Seq<usize>>, cells: Seq<usize>) -> Seq<usize>
    decreases cells.len(),
{
    if cells.len() == 0 {
        Seq::empty()
    } else {
        let rest = unlinked_among(table, cells.drop_last());
        if table[cells.last() as int].len() == 0 {
            rest.push(cells.last())
        } else {
            rest
        }
    }
}

/// `unlinked_among` keeps exactly the cells without links.
pub proof fn lemma_unlinked_among(table: Seq<Seq<usize>>, cells: Seq<usize>, x: usize)
    ensures
        unlinked_among(table, cells).contains(x) <==> cells.contains(x) && table[x as int].len() == 0,
        unlinked_among(table, cells).len() <= cells.len(),
    decreases cells.len(),
{
    if cells.len() > 0 {
        let front = cells.drop_last();
        lemma_unlinked_among(table, front, x);
        let rest = unlinked_among(table, front);
        let kept = unlinked_among(table, cells);
        if cells.contains(x) {
            let k = choose|k: int| 0 <= k < cells.len() && cells[k] == x;
            if k < front.len() {
                assert(front[k] == x);
            }
        }
        if front.contains(x) {
            let k = choose|k: int| 0 <= k < front.len() && front[k] == x;
            assert(cells[k] == x);
        }
        if table[cells.last() as int].len() == 0 {
            if rest.contains(x) {
                let k = choose|k: int| 0 <= k < rest.len() && rest[k] == x;
                assert(kept[k] == x);
            }
            if kept.contains(x) {
                let k = choose|k: int| 0 <= k < kept.len() && kept[k] == x;
                if k < rest.len() {
                    assert(rest[k] == x);
                }
            }
            assert(kept[rest.len() as int] == cells.last());
            assert(cells[cells.len() - 1] == cells.last());
        }
    }
}

/// A table of links with a passage added between `a` and `b`: each of the
/// two has the other as its newest link.
pub open spec fn opened(table: Seq<Seq<usize>>, a: int, b: int) -> Seq<Seq<usize>> {
    table.update(a, table[a].push(b as usize)).update(b, table[b].push(a as usize))
}

impl GridBase {
    /// The links of every cell, by the cell's index.
    pub open spec fn link_table(&self) -> Seq<Seq<usize>> {
        Seq::new(self.cells@.len(), |i: int| self.links_of(i))
    }

    /// Opening a passage in the grid opens it in the table of links.
    pub proof fn lemma_link_added_table(&self, pre: &GridBase, a: int, b: int)
        requires
            self.link_added(pre, a, b),
            0 <= a < pre.cells@.len(),
            0 <= b < pre.cells@.len(),
            a != b,
        ensures
            self.link_table() == opened(pre.link_table(), a, b),
    {
        assert(self.link_table() =~= opened(pre.link_table(), a, b));
    }

    /// Grids with the same links have the same table of links.
    pub proof fn lemma_same_links_table(&self, pre: &GridBase)
        requires
            self.same_links(pre),
        ensures
            self.link_table() == pre.link_table(),
    {
        assert(self.link_table() =~= pre.link_table());
    }

    /// Grids with the same structure name the same neighbours.
    pub proof fn lemma_same_neighbors(&self, pre: &GridBase, i: int)
        requires
            self.same_structure(pre),
        ensures
            self.neighbors_of(i) == pre.neighbors_of(i),
    {
        if 0 <= i < self.cells@.len() {
            assert(self.cells@[i].same_place(&pre.cells@[i]));
        }
    }

    /// Every cell can be walked to from itself.
    pub proof fn lemma_walk_self(&self, a: int)
        requires
            0 <= a < self.cells@.len(),
        ensures
            self.walkable(a, a),
    {
        assert(self.is_walk(seq![a]) && seq![a][0] == a && seq![a].last() == a);
    }

    /// A walk can be taken one neighbour further.
    pub proof fn lemma_walk_step(&self, a: int, b: int, c: int)
        requires
            self.walkable(a, b),
            self.adjacent(b, c),
        ensures
            self.walkable(a, c),
    {
        let walk = choose|walk: Seq<int>|
            #[trigger] self.is_walk(walk) && walk[0] == a && walk.last() == b;
        let longer = walk.push(c);
        assert forall|k: int| 0 <= k < longer.len() - 1 implies self.adjacent(
            #[trigger] longer[k],
            longer[k + 1],
        ) by {
            if k < walk.len() - 1 {
                assert(self.adjacent(walk[k], walk[k + 1]));
            }
        }
        assert(self.is_walk(longer) && longer[0] == a && longer.last() == c);
    }

    /// A walk can be walked backwards.
    pub proof fn lemma_walk_symmetric(&self, a: int, b: int)
        requires
            self.shape_ok(),
            self.configured(),
            self.walkable(a, b),
        ensures
            self.walkable(b, a),
    {
        let walk = choose|walk: Seq<int>|
            #[trigger] self.is_walk(walk) && walk[0] == a && walk.last() == b;
        let back = walk.reverse();
        let n = walk.len() as int;
        if n > 1 {
            assert(self.adjacent(walk[n - 2], walk[n - 2 + 1]));
        }
        assert forall|k: int| 0 <= k < back.len() - 1 implies self.adjacent(
            #[trigger] back[k],
            back[k + 1],
        ) by {
            assert(back[k] == walk[n - 1 - k]);
            assert(back[k + 1] == walk[n - 2 - k]);
            assert(self.adjacent(walk[n - 2 - k], walk[n - 2 - k + 1]));
            self.lemma_adjacent(walk[n - 2 - k], walk[n - 1 - k]);
        }
        assert(self.is_walk(back) && back[0] == b && back.last() == a);
    }

    /// Two walks that meet make one.
    pub proof fn lemma_walk_transitive(&self, a: int, b: int, c: int)
        requires
            self.walkable(a, b),
            self.walkable(b, c),
        ensures
            self.walkable(a, c),
    {
        let first = choose|walk: Seq<int>|
            #[trigger] self.is_walk(walk) && walk[0] == a && walk.last() == b;
        let second = choose|walk: Seq<int>|
            #[trigger] self.is_walk(walk) && walk[0] == b && walk.last() == c;
        let whole = first + second.drop_first();
        let n = first.len() as int;
        assert forall|k: int| 0 <= k < whole.len() - 1 implies self.adjacent(
            #[trigger] whole[k],
            whole[k + 1],
        ) by {
            if k < n - 1 {
                assert(self.adjacent(first[k], first[k + 1]));
            } else {
                assert(whole[k + 1] == second[k - n + 2]);
                assert(whole[k] == second[k - n + 1]);
                assert(self.adjacent(second[k - n + 1], second[k - n + 1 + 1]));
            }
        }
        assert(self.is_walk(whole) && whole[0] == a && whole.last() == c);
    }

    /// Grids with the same structure have the same walks, so both form one
    /// region or neither does.
    pub proof fn lemma_walks_kept(&self, pre: &GridBase)
        requires
            pre.shape_ok(),
            pre.configured(),
            self.same_structure(pre),
        ensures
            self.one_region() == pre.one_region(),
    {
        self.lemma_same_structure(pre);
        assert forall|a: int, b: int| self.walkable(a, b) == pre.walkable(a, b) by {
            if self.walkable(a, b) {
                let walk = choose|walk: Seq<int>|
                    #[trigger] self.is_walk(walk) && walk[0] == a && walk.last() == b;
                assert(pre.is_walk(walk));
            }
            if pre.walkable(a, b) {
                let walk = choose|walk: Seq<int>|
                    #[trigger] pre.is_walk(walk) && walk[0] == a && walk.last() == b;
                assert(self.is_walk(walk));
            }
        }
    }
}

impl GridBase {
    /// Where one of two or more cells has no neighbour, the cells do not
    /// form one region.
    pub proof fn lemma_lonely_cell(&self, c: int)
        requires
            self.shape_ok(),
            self.configured(),
            0 <= c < self.cells@.len(),
            self.cells@.len() >= 2,
            self.neighbors_of(c).len() == 0,
        ensures
            !self.one_region(),
    {
        if self.one_region() {
            let other = if c == 0 { 1int } else { 0int };
            assert(self.walkable(c, other));
            let walk = choose|walk: Seq<int>|
                #[trigger] self.is_walk(walk) && walk[0] == c && walk.last() == other;
            assert(self.adjacent(walk[0int], walk[0int + 1]));
            self.lemma_neighbors(c, walk[1] as usize);
            let k = choose|k: int|
                0 <= k < self.neighbors_of(c).len() && self.neighbors_of(c)[k] == walk[1] as usize;
        }
    }
}

} // verus!
