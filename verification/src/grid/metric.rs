//! Distances along passages, and why those of a perfect maze are the
//! distances of a tree.

use vstd::prelude::*;
use crate::grid::grid_base::GridBase;

verus! {

impl GridBase {
    /// The number of passages on the shortest way from `a` to `b`. It says
    /// nothing where no way leads from the one to the other.
    pub open spec fn dist(&self, a: int, b: int) -> int {
        crate::grid::tree::gap(self.link_table(), a, b)
    }

    /// The distances among all cells are those of a tree: each cell can be
    /// reached from each other, and no pairing of four cells has a larger sum
    /// of distances than both other pairings.
    pub open spec fn is_tree_like(&self) -> bool {
        crate::grid::tree::tree_like(
            self.link_table(),
            Set::new(|c: int| 0 <= c < self.cells@.len()),
        )
    }

    /// The table of links of a sound grid is sound.
    pub proof fn lemma_table_sound(&self)
        requires
            self.wf(),
        ensures
            crate::grid::tree::sound(self.link_table()),
    {
        let links = self.link_table();
        assert forall|a: int| 0 <= a < links.len() implies (#[trigger] links[a]).no_duplicates() by {
            assert(self.cell_links_ok(a));
        }
        assert forall|a: int, k: int| 0 <= a < links.len() && 0 <= k < links[a].len() implies (
        #[trigger] links[a][k]) < links.len() && links[a][k] != a by {
            assert(self.cell_links_ok(a));
            assert(self.adjacent(a, self.links_of(a)[k] as int));
            self.lemma_adjacent(a, links[a][k] as int);
        }
        assert forall|a: int, b: int| #[trigger]
            crate::grid::tree::tied(links, a, b) implies crate::grid::tree::tied(links, b, a) by {
            assert(self.linked(a, b));
            self.lemma_linked_symmetric(a, b);
        }
    }

    /// The paths of the grid are the chains of its table of links.
    pub proof fn lemma_table_paths(&self)
        ensures
            forall|a: int, b: int| self.linked(a, b) == crate::grid::tree::tied(
                self.link_table(),
                a,
                b,
            ),
            forall|path: Seq<int>| self.is_path(path) == crate::grid::tree::is_chain(
                self.link_table(),
                path,
            ),
            forall|a: int, b: int, steps: int| self.has_route(a, b, steps)
                == crate::grid::tree::chained(self.link_table(), a, b, steps),
            forall|a: int, b: int| self.reachable(a, b) == crate::grid::tree::reaches(
                self.link_table(),
                a,
                b,
            ),
            forall|a: int, b: int, d: int| self.is_distance(a, b, d) == crate::grid::tree::is_gap(
                self.link_table(),
                a,
                b,
                d,
            ),
    {
        let links = self.link_table();
        assert forall|a: int, b: int| self.linked(a, b) == crate::grid::tree::tied(links, a, b) by {
            if 0 <= a < links.len() {
                assert(links[a] == self.links_of(a));
            }
        }
        assert forall|path: Seq<int>| self.is_path(path) == crate::grid::tree::is_chain(
            links,
            path,
        ) by {
            if self.is_path(path) {
                assert forall|k: int| 0 <= k < path.len() - 1 implies crate::grid::tree::tied(
                    links,
                    #[trigger] path[k],
                    path[k + 1],
                ) by {
                    assert(self.linked(path[k], path[k + 1]));
                }
            }
            if crate::grid::tree::is_chain(links, path) {
                assert forall|k: int| 0 <= k < path.len() - 1 implies self.linked(
                    #[trigger] path[k],
                    path[k + 1],
                ) by {
                    assert(crate::grid::tree::tied(links, path[k], path[k + 1]));
                }
            }
        }
        assert forall|a: int, b: int, steps: int| self.has_route(a, b, steps)
            == crate::grid::tree::chained(links, a, b, steps) by {
            if self.has_route(a, b, steps) {
                let path = choose|path: Seq<int>|
                    #[trigger] self.joins(path, a, b) && path.len() == steps + 1;
                assert(crate::grid::tree::spans(links, path, a, b, steps));
            }
            if crate::grid::tree::chained(links, a, b, steps) {
                let path = choose|path: Seq<int>|
                    #[trigger] crate::grid::tree::spans(links, path, a, b, steps);
                assert(self.joins(path, a, b) && path.len() == steps + 1);
            }
        }
        assert forall|a: int, b: int| self.reachable(a, b) == crate::grid::tree::reaches(
            links,
            a,
            b,
        ) by {
            if self.reachable(a, b) {
                let path = choose|path: Seq<int>| #[trigger] self.joins(path, a, b);
                assert(self.joins(path, a, b) && path.len() == (path.len() - 1) + 1);
                assert(self.has_route(a, b, path.len() - 1));
                assert(crate::grid::tree::chained(links, a, b, path.len() - 1));
            }
            if crate::grid::tree::reaches(links, a, b) {
                let steps = choose|steps: int| #[trigger] crate::grid::tree::chained(links, a, b, steps);
                assert(self.has_route(a, b, steps));
                let path = choose|path: Seq<int>|
                    #[trigger] self.joins(path, a, b) && path.len() == steps + 1;
            }
        }
        assert forall|a: int, b: int, d: int| self.is_distance(a, b, d)
            == crate::grid::tree::is_gap(links, a, b, d) by {
            if self.is_distance(a, b, d) {
                assert forall|steps: int| steps < d implies !#[trigger] crate::grid::tree::chained(
                    links,
                    a,
                    b,
                    steps,
                ) by {
                    assert(!self.has_route(a, b, steps));
                }
            }
            if crate::grid::tree::is_gap(links, a, b, d) {
                assert forall|steps: int| steps < d implies !#[trigger] self.has_route(
                    a,
                    b,
                    steps,
                ) by {
                    assert(!crate::grid::tree::chained(links, a, b, steps));
                }
            }
        }
    }

    /// The distance between two cells is the one number that is their
    /// distance.
    pub proof fn lemma_dist(&self, a: int, b: int, d: int)
        requires
            self.is_distance(a, b, d),
        ensures
            self.dist(a, b) == d,
    {
        self.lemma_table_paths();
        crate::grid::tree::lemma_gap(self.link_table(), a, b, d);
    }

    /// Cells that can be reached from one another have a distance.
    pub proof fn lemma_dist_reachable(&self, a: int, b: int)
        requires
            self.reachable(a, b),
        ensures
            self.is_distance(a, b, self.dist(a, b)),
            0 <= self.dist(a, b),
    {
        self.lemma_table_paths();
        crate::grid::tree::lemma_gap_reaches(self.link_table(), a, b);
    }

    /// The passages of a perfect maze have grown from each of its cells.
    pub proof fn lemma_perfect_grown(&self, root: int)
        requires
            self.is_perfect_maze(),
            0 <= root < self.cells@.len(),
        ensures
            crate::grid::tree::grown_from(self.link_table(), root),
            crate::grid::tree::carved(self.link_table(), root) == Set::new(
                |c: int| 0 <= c < self.cells@.len(),
            ),
    {
        let links = self.link_table();
        let n = self.cells@.len() as int;
        let all = Set::new(|c: int| 0 <= c < self.cells@.len());
        self.lemma_table_sound();
        self.lemma_table_paths();
        assert forall|c: int| 0 <= c < n implies crate::grid::tree::carved(links, root).contains(c) by {
            if c != root {
                assert(self.reachable(root, c));
                crate::grid::tree::lemma_reached_has_link(links, root, c);
            }
        }
        assert(crate::grid::tree::carved(links, root) =~= all);
        assert(all =~= vstd::set_lib::set_int_range(0, n));
        vstd::set_lib::lemma_int_range(0, n);
        assert(crate::grid::tree::link_counts(links) =~= self.link_counts());
        assert forall|c: int| 0 <= c < links.len() && links[c].len() > 0 implies #[trigger] crate::grid::tree::reaches(
            links,
            root,
            c,
        ) by {
            assert(self.reachable(root, c));
        }
    }

    /// The distances of a perfect maze are those of a tree.
    pub proof fn lemma_perfect_tree_like(&self)
        requires
            self.is_perfect_maze(),
        ensures
            self.is_tree_like(),
    {
        self.lemma_perfect_grown(0);
        crate::grid::tree::lemma_grown_tree_like(self.link_table(), 0);
    }

    /// In a perfect maze the two ends of every passage are one step apart in
    /// their distance from any cell: no passage joins two cells that are
    /// equally far.
    pub proof fn lemma_perfect_levels(&self, root: int, a: int, b: int)
        requires
            self.is_perfect_maze(),
            0 <= root < self.cells@.len(),
            self.linked(a, b),
        ensures
            self.dist(root, a) == self.dist(root, b) + 1 || self.dist(root, b) == self.dist(
                root,
                a,
            ) + 1,
    {
        self.lemma_perfect_grown(root);
        self.lemma_table_paths();
        crate::grid::tree::lemma_grown_levels(self.link_table(), root);
        assert(crate::grid::tree::tied(self.link_table(), a, b));
    }

    /// In a perfect maze, a cell lies on the shortest path between two cells
    /// exactly when the way through it is no detour.
    pub proof fn lemma_on_shortest_path(&self, root: int, path: Seq<int>)
        requires
            self.is_perfect_maze(),
            0 <= root < self.cells@.len(),
            self.is_path(path),
            self.is_distance(path[0], path.last(), path.len() - 1),
        ensures
            self.dist(root, path[0]) + self.dist(root, path.last()) >= path.len() - 1,
            self.dist(root, path[0]) + self.dist(root, path.last()) == path.len() - 1
                <==> path.contains(root),
    {
        self.lemma_perfect_tree_like();
        self.lemma_table_sound();
        self.lemma_table_paths();
        let all = Set::new(|c: int| 0 <= c < self.cells@.len());
        assert forall|k: int| 0 <= k < path.len() implies all.contains(#[trigger] path[k]) by {
            self.lemma_path_cells(path, k);
        }
        assert(crate::grid::tree::is_chain(self.link_table(), path));
        crate::grid::tree::lemma_on_chain(self.link_table(), all, root, path);
    }

    /// In a perfect maze, searching twice finds a longest path: where `a` is
    /// as far from some cell as any cell is, and `b` as far from `a` as any
    /// cell is, no two cells are farther apart than `a` and `b`.
    pub proof fn lemma_twice_farthest(&self, from: int, a: int, b: int, u: int, v: int)
        requires
            self.is_perfect_maze(),
            0 <= from < self.cells@.len(),
            0 <= a < self.cells@.len(),
            0 <= b < self.cells@.len(),
            0 <= u < self.cells@.len(),
            0 <= v < self.cells@.len(),
            forall|x: int| 0 <= x < self.cells@.len() ==> self.dist(from, x) <= self.dist(from, a),
            forall|x: int| 0 <= x < self.cells@.len() ==> self.dist(a, x) <= self.dist(a, b),
        ensures
            self.dist(u, v) <= self.dist(a, b),
    {
        self.lemma_perfect_tree_like();
        let all = Set::new(|c: int| 0 <= c < self.cells@.len());
        assert(all.contains(from) && all.contains(a) && all.contains(u) && all.contains(v));
        assert(crate::grid::tree::four_point(self.link_table(), from, a, u, v));
        assert(self.dist(from, u) <= self.dist(from, a));
        assert(self.dist(from, v) <= self.dist(from, a));
        assert(self.dist(a, u) <= self.dist(a, b));
        assert(self.dist(a, v) <= self.dist(a, b));
    }
}

} // verus!
