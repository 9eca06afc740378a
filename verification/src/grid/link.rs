//! Opening and closing passages.

use vstd::prelude::*;
use crate::error::MazeError;
use crate::grid::grid_base::GridBase;

verus! {

impl GridBase {
    /// `self` is `pre` with a passage opened between `a` and `b`: each of the
    /// two has the other as its newest link, and nothing else differs.
    pub open spec fn link_added(&self, pre: &GridBase, a: int, b: int) -> bool {
        &&& self.same_structure(pre)
        &&& self.links_of(a) == pre.links_of(a).push(b as usize)
        &&& self.links_of(b) == pre.links_of(b).push(a as usize)
        &&& forall|i: int|
            0 <= i < self.cells@.len() && i != a && i != b ==> #[trigger] self.links_of(i)
                == pre.links_of(i)
    }

    /// `self` is `pre` with the passage between `a` and `b` closed: each of
    /// the two has lost the other from its links, and nothing else differs.
    pub open spec fn link_removed(&self, pre: &GridBase, a: int, b: int) -> bool {
        &&& self.same_structure(pre)
        &&& self.links_of(a) == pre.links_of(a).remove_value(b as usize)
        &&& self.links_of(b) == pre.links_of(b).remove_value(a as usize)
        &&& forall|i: int|
            0 <= i < self.cells@.len() && i != a && i != b ==> #[trigger] self.links_of(i)
                == pre.links_of(i)
    }

    /// Opening a passage between two neighbours that have none keeps the grid
    /// sound.
    pub proof fn lemma_link_added_wf(&self, pre: &GridBase, a: int, b: int)
        requires
            pre.wf(),
            pre.adjacent(a, b),
            !pre.linked(a, b),
            self.link_added(pre, a, b),
        ensures
            self.wf(),
            self.linked(a, b),
            self.linked(b, a),
            forall|x: int, y: int| pre.linked(x, y) ==> self.linked(x, y),
            forall|x: int, y: int|
                self.linked(x, y) ==> pre.linked(x, y) || (x == a && y == b) || (x == b && y == a),
    {
        self.lemma_same_structure(pre);
        pre.lemma_adjacent(a, b);
        assert(pre.cell_links_ok(a));
        assert(pre.cell_links_ok(b));
        let n = self.cells@.len() as int;
        // b does not link a either
        if pre.links_of(b).contains(a as usize) {
            let k = choose|k: int| 0 <= k < pre.links_of(b).len() && pre.links_of(b)[k] == a;
            assert(pre.linked(pre.links_of(b)[k] as int, b));
        }
        assert(self.links_of(a).last() == b);
        assert(self.links_of(b).last() == a);
        assert forall|x: int, y: int| pre.linked(x, y) implies self.linked(x, y) by {
            let k = choose|k: int|
                0 <= k < pre.links_of(x).len() && pre.links_of(x)[k] == y as usize;
            if x == a || x == b {
                assert(self.links_of(x)[k] == y as usize);
            } else {
                assert(self.links_of(x) == pre.links_of(x));
            }
        }
        assert forall|x: int, y: int| self.linked(x, y) implies pre.linked(x, y) || (x == a && y
            == b) || (x == b && y == a) by {
            let k = choose|k: int|
                0 <= k < self.links_of(x).len() && self.links_of(x)[k] == y as usize;
            if x == a || x == b {
                if k < pre.links_of(x).len() {
                    assert(pre.links_of(x)[k] == y as usize);
                }
            } else {
                assert(self.links_of(x) == pre.links_of(x));
            }
        }
        assert forall|i: int| 0 <= i < n implies #[trigger] self.cell_links_ok(i) by {
            assert(pre.cell_links_ok(i));
            let links = self.links_of(i);
            let before = pre.links_of(i);
            assert forall|k: int| 0 <= k < links.len() implies {
                &&& self.adjacent(i, (#[trigger] links[k]) as int)
                &&& self.linked(links[k] as int, i)
            } by {
                if k < before.len() {
                    assert(links[k] == before[k]);
                    assert(pre.adjacent(i, before[k] as int));
                    assert(pre.linked(before[k] as int, i));
                } else {
                    assert(i == a || i == b);
                }
            }
            if i == a || i == b {
                let other = if i == a { b } else { a };
                assert forall|k: int, j: int|
                    0 <= k < links.len() && 0 <= j < links.len() && k != j implies links[k]
                    != links[j] by {
                    if k < before.len() && j < before.len() {
                        assert(before[k] != before[j]);
                    } else if k < before.len() {
                        assert(before[k] == links[k]);
                        assert(before.contains(links[k]));
                    } else {
                        assert(before[j] == links[j]);
                        assert(before.contains(links[j]));
                    }
                }
            }
        }
    }

    /// Closing the passage between two cells keeps the grid sound.
    pub proof fn lemma_link_removed_wf(&self, pre: &GridBase, a: int, b: int)
        requires
            pre.wf(),
            pre.adjacent(a, b),
            self.link_removed(pre, a, b),
        ensures
            self.wf(),
            !self.linked(a, b),
            !self.linked(b, a),
            forall|x: int, y: int| self.linked(x, y) ==> pre.linked(x, y),
            forall|x: int, y: int|
                pre.linked(x, y) ==> self.linked(x, y) || (x == a && y == b) || (x == b && y == a),
    {
        self.lemma_same_structure(pre);
        pre.lemma_adjacent(a, b);
        let n = self.cells@.len() as int;
        assert(pre.cell_links_ok(a));
        assert(pre.cell_links_ok(b));
        lemma_remove_value(pre.links_of(a), b as usize);
        lemma_remove_value(pre.links_of(b), a as usize);
        assert forall|x: int, y: int| self.linked(x, y) implies pre.linked(x, y) by {
            if x != a && x != b {
                assert(self.links_of(x) == pre.links_of(x));
            }
        }
        assert forall|x: int, y: int| pre.linked(x, y) implies self.linked(x, y) || (x == a && y
            == b) || (x == b && y == a) by {
            if x != a && x != b {
                assert(self.links_of(x) == pre.links_of(x));
            } else if x == a && y != b {
                assert(pre.links_of(a).remove_value(b as usize).contains(y as usize));
            } else if x == b && y != a {
                assert(pre.links_of(b).remove_value(a as usize).contains(y as usize));
            }
        }
        assert forall|i: int| 0 <= i < n implies #[trigger] self.cell_links_ok(i) by {
            assert(pre.cell_links_ok(i));
            let links = self.links_of(i);
            let before = pre.links_of(i);
            if i == a {
                lemma_remove_value(before, b as usize);
            } else if i == b {
                lemma_remove_value(before, a as usize);
            }
            assert forall|k: int| 0 <= k < links.len() implies {
                &&& self.adjacent(i, (#[trigger] links[k]) as int)
                &&& self.linked(links[k] as int, i)
            } by {
                assert(before.contains(links[k]));
                let j = choose|j: int| 0 <= j < before.len() && before[j] == links[k];
                assert(pre.adjacent(i, before[j] as int));
                assert(pre.linked(before[j] as int, i));
                assert(self.linked(i, links[k] as int));
            }
        }
    }
}

/// Taking a value out of a sequence without duplicates leaves a sequence
/// without duplicates that holds exactly the other values.
pub proof fn lemma_remove_value(s: Seq<usize>, x: usize)
    requires
        s.no_duplicates(),
    ensures
        s.remove_value(x).no_duplicates(),
        !s.remove_value(x).contains(x),
        forall|y: usize| y != x ==> (s.remove_value(x).contains(y) <==> s.contains(y)),
        forall|y: usize| s.remove_value(x).contains(y) ==> s.contains(y),
        s.contains(x) ==> s.remove_value(x).len() == s.len() - 1,
        !s.contains(x) ==> s.remove_value(x) == s,
{
    s.index_of_first_ensures(x);
    match s.index_of_first(x) {
        Some(i) => {
            let r = s.remove(i);
            s.remove_ensures(i);
            assert forall|k: int, j: int| 0 <= k < r.len() && 0 <= j < r.len() && k != j implies r[k]
                != r[j] by {
                let kk = if k < i { k } else { k + 1 };
                let jj = if j < i { j } else { j + 1 };
                assert(r[k] == s[kk]);
                assert(r[j] == s[jj]);
            }
            if r.contains(x) {
                let k = choose|k: int| 0 <= k < r.len() && r[k] == x;
                let kk = if k < i { k } else { k + 1 };
                assert(r[k] == s[kk]);
            }
            assert forall|y: usize| r.contains(y) implies s.contains(y) by {
                let k = choose|k: int| 0 <= k < r.len() && r[k] == y;
                let kk = if k < i { k } else { k + 1 };
                assert(r[k] == s[kk]);
            }
            assert forall|y: usize| y != x && s.contains(y) implies r.contains(y) by {
                let k = choose|k: int| 0 <= k < s.len() && s[k] == y;
                let kk = if k < i { k } else { k - 1 };
                assert(r[kk] == s[k]);
            }
        },
        None => {},
    }
}

/// Adds `to` to the links of `from`, and nothing to those of `to`.
fn link_one_way(grid: &mut GridBase, from: usize, to: usize)
    requires
        from < old(grid).cells@.len(),
    ensures
        final(grid).same_structure(old(grid)),
        final(grid).links_of(from as int) == old(grid).links_of(from as int).push(to),
        forall|i: int|
            0 <= i < final(grid).cells@.len() && i != from ==> #[trigger] final(grid).links_of(i)
                == old(grid).links_of(i),
{
    grid.cells[from].links.push(to);
}

/// Takes `to` out of the links of `from`, and nothing out of those of `to`.
fn unlink_one_way(grid: &mut GridBase, from: usize, to: usize)
    requires
        from < old(grid).cells@.len(),
    ensures
        final(grid).same_structure(old(grid)),
        final(grid).links_of(from as int) == old(grid).links_of(from as int).remove_value(to),
        forall|i: int|
            0 <= i < final(grid).cells@.len() && i != from ==> #[trigger] final(grid).links_of(i)
                == old(grid).links_of(i),
{
    let at = grid.cells[from].index_of_other(to);
    proof {
        old(grid).links_of(from as int).index_of_first_ensures(to);
    }
    if let Some(k) = at {
        grid.cells[from].links.remove(k);
    }
}

/// Whether a passage leads from cell `a` to cell `b`. Between two cells of a
/// sound grid it leads both ways or neither.
pub fn is_linked(grid: &GridBase, a: usize, b: usize) -> (linked: bool)
    ensures
        linked == grid.linked(a as int, b as int),
        grid.wf() ==> linked == grid.linked(b as int, a as int),
{
    proof {
        if grid.wf() {
            if grid.linked(a as int, b as int) {
                grid.lemma_linked_symmetric(a as int, b as int);
            }
            if grid.linked(b as int, a as int) {
                grid.lemma_linked_symmetric(b as int, a as int);
            }
        }
    }
    if a >= grid.cells.len() || b >= grid.cells.len() {
        return false;
    }
    grid.cells[a].is_linked(b)
}

/// Opens a passage between the cells `a` and `b`, in both directions.
///
/// An index that names no cell is refused with `OutOfBounds`, and two cells
/// that are not neighbours with `InvalidLink`; the grid then stays as it was.
/// Where the passage is open already nothing changes.
pub fn link(grid: &mut GridBase, a: usize, b: usize) -> (r: Result<(), MazeError>)
    requires
        old(grid).wf(),
    ensures
        final(grid).wf(),
        final(grid).same_structure(old(grid)),
        r == (if a >= old(grid).cells@.len() || b >= old(grid).cells@.len() {
            Err::<(), MazeError>(MazeError::OutOfBounds)
        } else if !old(grid).adjacent(a as int, b as int) {
            Err::<(), MazeError>(MazeError::InvalidLink)
        } else {
            Ok::<(), MazeError>(())
        }),
        r is Err || old(grid).linked(a as int, b as int) ==> final(grid).same_links(old(grid)),
        r is Ok && !old(grid).linked(a as int, b as int) ==> final(grid).link_added(
            old(grid),
            a as int,
            b as int,
        ),
        r is Ok ==> final(grid).linked(a as int, b as int) && final(grid).linked(b as int, a as int),
{
    if a >= grid.cells.len() || b >= grid.cells.len() {
        return Err(MazeError::OutOfBounds);
    }
    if !grid.cells[a].has_neighbor(b) {
        return Err(MazeError::InvalidLink);
    }
    proof {
        grid.lemma_adjacent(a as int, b as int);
    }
    if grid.cells[a].is_linked(b) {
        proof {
            assert(grid.cell_links_ok(a as int));
            let k = choose|k: int|
                0 <= k < grid.links_of(a as int).len() && grid.links_of(a as int)[k] == b;
            assert(grid.linked(grid.links_of(a as int)[k] as int, a as int));
        }
        return Ok(());
    }
    link_one_way(grid, a, b);
    link_one_way(grid, b, a);
    proof {
        assert(grid.link_added(old(grid), a as int, b as int)) by {
            assert forall|i: int| 0 <= i < grid.cells@.len() implies (#[trigger] grid.cells@[i]).same_place(
                &old(grid).cells@[i],
            ) by {}
        }
        grid.lemma_link_added_wf(old(grid), a as int, b as int);
    }
    Ok(())
}

/// Closes the passage between the cells `a` and `b`, in both directions.
///
/// An index that names no cell is refused with `OutOfBounds`, and two cells
/// that are not neighbours with `InvalidLink`; the grid then stays as it was.
/// Where no passage is open nothing changes.
pub fn unlink(grid: &mut GridBase, a: usize, b: usize) -> (r: Result<(), MazeError>)
    requires
        old(grid).wf(),
    ensures
        final(grid).wf(),
        final(grid).same_structure(old(grid)),
        r == (if a >= old(grid).cells@.len() || b >= old(grid).cells@.len() {
            Err::<(), MazeError>(MazeError::OutOfBounds)
        } else if !old(grid).adjacent(a as int, b as int) {
            Err::<(), MazeError>(MazeError::InvalidLink)
        } else {
            Ok::<(), MazeError>(())
        }),
        r is Err ==> final(grid).same_links(old(grid)),
        r is Ok ==> final(grid).link_removed(old(grid), a as int, b as int),
        r is Ok ==> !final(grid).linked(a as int, b as int) && !final(grid).linked(
            b as int,
            a as int,
        ),
{
    if a >= grid.cells.len() || b >= grid.cells.len() {
        return Err(MazeError::OutOfBounds);
    }
    if !grid.cells[a].has_neighbor(b) {
        return Err(MazeError::InvalidLink);
    }
    proof {
        grid.lemma_adjacent(a as int, b as int);
    }
    unlink_one_way(grid, a, b);
    unlink_one_way(grid, b, a);
    proof {
        assert(grid.link_removed(old(grid), a as int, b as int)) by {
            assert forall|i: int| 0 <= i < grid.cells@.len() implies (#[trigger] grid.cells@[i]).same_place(
                &old(grid).cells@[i],
            ) by {}
        }
        grid.lemma_link_removed_wf(old(grid), a as int, b as int);
    }
    Ok(())
}

/// Opening a passage that was closed and closing it again gives back the
/// grid as it was: the same links in the same order, the same neighbours,
/// and no passage between the two cells.
pub proof fn lemma_link_unlink_round_trip(
    start: &GridBase,
    opened: &GridBase,
    closed: &GridBase,
    a: int,
    b: int,
)
    requires
        start.wf(),
        start.adjacent(a, b),
        !start.linked(a, b),
        opened.link_added(start, a, b),
        closed.link_removed(opened, a, b),
    ensures
        !closed.linked(a, b),
        !closed.linked(b, a),
        closed.same_structure(start),
        closed.same_links(start),
        closed.wf(),
{
    opened.lemma_link_added_wf(start, a, b);
    opened.lemma_same_structure(start);
    closed.lemma_link_removed_wf(opened, a, b);
    start.lemma_adjacent(a, b);
    assert(start.cell_links_ok(a));
    assert(start.cell_links_ok(b));
    if start.links_of(b).contains(a as usize) {
        let k = choose|k: int| 0 <= k < start.links_of(b).len() && start.links_of(b)[k] == a;
        assert(start.linked(start.links_of(b)[k] as int, b));
    }
    lemma_push_remove_value(start.links_of(a), b as usize);
    lemma_push_remove_value(start.links_of(b), a as usize);
    assert forall|i: int| 0 <= i < closed.cells@.len() implies #[trigger] closed.links_of(i)
        == start.links_of(i) by {
        if i != a && i != b {
            assert(closed.links_of(i) == opened.links_of(i));
            assert(opened.links_of(i) == start.links_of(i));
        }
    }
    assert forall|i: int| 0 <= i < closed.cells@.len() implies (#[trigger] closed.cells@[i]).same_place(
        &start.cells@[i],
    ) by {
        assert(closed.cells@[i].same_place(&opened.cells@[i]));
        assert(opened.cells@[i].same_place(&start.cells@[i]));
    }
}

/// A value pushed onto a sequence that did not hold it is the one that
/// `remove_value` takes out again.
pub proof fn lemma_push_remove_value(s: Seq<usize>, x: usize)
    requires
        !s.contains(x),
    ensures
        s.push(x).remove_value(x) == s,
{
    let t = s.push(x);
    t.index_of_first_ensures(x);
    assert(t[s.len() as int] == x);
    match t.index_of_first(x) {
        Some(i) => {
            if i < s.len() {
                assert(s[i] == x);
            }
            assert(t.remove(i) =~= s);
        },
        None => {},
    }
}

} // verus!
