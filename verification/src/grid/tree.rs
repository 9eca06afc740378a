//! Trees of passages, told by the table of links alone.

use vstd::prelude::*;

verus! {

/// Whether the table has a link from `a` to `b`.
pub open spec fn tied(links: Seq<Seq<usize>>, a: int, b: int) -> bool {
    &&& 0 <= a < links.len()
    &&& 0 <= b < links.len()
    &&& links[a].contains(b as usize)
}

/// The table names cells of its own, none twice for one cell, no cell for
/// itself, and each link goes both ways.
pub open spec fn sound(links: Seq<Seq<usize>>) -> bool {
    &&& links.len() <= usize::MAX
    &&& forall|a: int| 0 <= a < links.len() ==> (#[trigger] links[a]).no_duplicates()
    &&& forall|a: int, k: int|
        0 <= a < links.len() && 0 <= k < links[a].len() ==> (#[trigger] links[a][k]) < links.len()
            && links[a][k] != a
    &&& forall|a: int, b: int| #[trigger] tied(links, a, b) ==> tied(links, b, a)
}

/// A link leads from each cell of `path` to the next.
pub open spec fn is_chain(links: Seq<Seq<usize>>, path: Seq<int>) -> bool {
    &&& path.len() > 0
    &&& 0 <= path[0] < links.len()
    &&& forall|k: int| 0 <= k < path.len() - 1 ==> tied(links, #[trigger] path[k], path[k + 1])
}

/// `path` is a chain of `steps` links from `a` to `b`.
pub open spec fn spans(links: Seq<Seq<usize>>, path: Seq<int>, a: int, b: int, steps: int) -> bool {
    &&& is_chain(links, path)
    &&& path[0] == a
    &&& path.last() == b
    &&& path.len() == steps + 1
}

/// Some chain of `steps` links leads from `a` to `b`.
pub open spec fn chained(links: Seq<Seq<usize>>, a: int, b: int, steps: int) -> bool {
    exists|path: Seq<int>| #[trigger] spans(links, path, a, b, steps)
}

/// Some chain of links leads from `a` to `b`.
pub open spec fn reaches(links: Seq<Seq<usize>>, a: int, b: int) -> bool {
    exists|steps: int| #[trigger] chained(links, a, b, steps)
}

/// The shortest chain from `a` to `b` has `d` links.
pub open spec fn is_gap(links: Seq<Seq<usize>>, a: int, b: int, d: int) -> bool {
    &&& chained(links, a, b, d)
    &&& forall|steps: int| steps < d ==> !#[trigger] chained(links, a, b, steps)
}

/// The number of links of the shortest chain from `a` to `b`. It says nothing
/// where no chain leads from the one to the other.
pub open spec fn gap(links: Seq<Seq<usize>>, a: int, b: int) -> int {
    choose|d: int| is_gap(links, a, b, d)
}

/// Of the three ways of pairing four cells, the pairing of `w` with `x` and
/// `y` with `z` has no larger sum of distances than both others.
pub open spec fn four_point(links: Seq<Seq<usize>>, w: int, x: int, y: int, z: int) -> bool {
    ||| gap(links, w, x) + gap(links, y, z) <= gap(links, w, y) + gap(links, x, z)
    ||| gap(links, w, x) + gap(links, y, z) <= gap(links, w, z) + gap(links, x, y)
}

/// The distances among `cells` are those of a tree: each cell can be reached
/// from each other, and no pairing of four cells has a larger sum of
/// distances than both other pairings.
pub open spec fn tree_like(links: Seq<Seq<usize>>, cells: Set<int>) -> bool {
    &&& forall|a: int, b: int|
        cells.contains(a) && cells.contains(b) ==> #[trigger] reaches(links, a, b)
    &&& forall|w: int, x: int, y: int, z: int|
        cells.contains(w) && cells.contains(x) && cells.contains(y) && cells.contains(z)
            ==> #[trigger] four_point(links, w, x, y, z)
}

/// Every cell of a chain is a cell of the table.
pub proof fn lemma_chain_cells(links: Seq<Seq<usize>>, path: Seq<int>, k: int)
    requires
        is_chain(links, path),
        0 <= k < path.len(),
    ensures
        0 <= path[k] < links.len(),
{
    if k > 0 {
        assert(tied(links, path[k - 1], path[k - 1 + 1]));
    }
}

/// A chain has no fewer than no links, and its ends are cells.
pub proof fn lemma_chained(links: Seq<Seq<usize>>, a: int, b: int, steps: int)
    requires
        chained(links, a, b, steps),
    ensures
        0 <= steps,
        0 <= a < links.len(),
        0 <= b < links.len(),
        reaches(links, a, b),
{
    let path = choose|path: Seq<int>| #[trigger] spans(links, path, a, b, steps);
    lemma_chain_cells(links, path, path.len() - 1);
}

/// The distance between two cells is the one number that is their gap.
pub proof fn lemma_gap(links: Seq<Seq<usize>>, a: int, b: int, d: int)
    requires
        is_gap(links, a, b, d),
    ensures
        gap(links, a, b) == d,
{
    let e = gap(links, a, b);
    if d < e {
        assert(chained(links, a, b, d));
    } else if e < d {
        assert(chained(links, a, b, e));
    }
}

/// Where some chain of `steps` links leads from `a` to `b`, the two have a
/// gap, and it is no larger.
pub proof fn lemma_gap_exists(links: Seq<Seq<usize>>, a: int, b: int, steps: int)
    requires
        chained(links, a, b, steps),
    ensures
        is_gap(links, a, b, gap(links, a, b)),
        0 <= gap(links, a, b) <= steps,
    decreases steps,
{
    lemma_chained(links, a, b, steps);
    if exists|s: int| s < steps && chained(links, a, b, s) {
        let s = choose|s: int| s < steps && chained(links, a, b, s);
        lemma_chained(links, a, b, s);
        lemma_gap_exists(links, a, b, s);
    } else {
        assert(is_gap(links, a, b, steps));
        lemma_gap(links, a, b, steps);
    }
}

/// Cells that reach one another have a gap.
pub proof fn lemma_gap_reaches(links: Seq<Seq<usize>>, a: int, b: int)
    requires
        reaches(links, a, b),
    ensures
        is_gap(links, a, b, gap(links, a, b)),
        0 <= gap(links, a, b),
        0 <= a < links.len(),
        0 <= b < links.len(),
{
    let steps = choose|steps: int| #[trigger] chained(links, a, b, steps);
    lemma_gap_exists(links, a, b, steps);
    lemma_chained(links, a, b, steps);
}

/// A cell is at distance 0 from itself.
pub proof fn lemma_gap_self(links: Seq<Seq<usize>>, a: int)
    requires
        0 <= a < links.len(),
    ensures
        gap(links, a, a) == 0,
        reaches(links, a, a),
{
    assert(spans(links, seq![a], a, a, 0));
    lemma_gap_exists(links, a, a, 0);
    assert(chained(links, a, a, 0));
}

/// A chain one way round is a chain of the same length the other way round.
pub proof fn lemma_chained_symmetric(links: Seq<Seq<usize>>, a: int, b: int, steps: int)
    requires
        sound(links),
        chained(links, a, b, steps),
    ensures
        chained(links, b, a, steps),
{
    let path = choose|path: Seq<int>| #[trigger] spans(links, path, a, b, steps);
    let back = path.reverse();
    let n = path.len() as int;
    lemma_chain_cells(links, path, n - 1);
    assert forall|k: int| 0 <= k < back.len() - 1 implies tied(links, #[trigger] back[k], back[k + 1]) by {
        assert(back[k] == path[n - 1 - k]);
        assert(back[k + 1] == path[n - 2 - k]);
        assert(tied(links, path[n - 2 - k], path[n - 2 - k + 1]));
    }
    assert(spans(links, back, b, a, steps));
}

/// The gap is the same in both directions.
pub proof fn lemma_gap_symmetric(links: Seq<Seq<usize>>, a: int, b: int)
    requires
        sound(links),
        reaches(links, a, b),
    ensures
        gap(links, a, b) == gap(links, b, a),
        reaches(links, b, a),
{
    lemma_gap_reaches(links, a, b);
    lemma_chained_symmetric(links, a, b, gap(links, a, b));
    assert(reaches(links, b, a));
    lemma_gap_reaches(links, b, a);
    lemma_chained_symmetric(links, b, a, gap(links, b, a));
}

/// Two chains that meet make one, as long as both together.
pub proof fn lemma_chained_joined(
    links: Seq<Seq<usize>>,
    a: int,
    b: int,
    c: int,
    first: int,
    second: int,
)
    requires
        chained(links, a, b, first),
        chained(links, b, c, second),
    ensures
        chained(links, a, c, first + second),
{
    let p = choose|path: Seq<int>| #[trigger] spans(links, path, a, b, first);
    let q = choose|path: Seq<int>| #[trigger] spans(links, path, b, c, second);
    let whole = p + q.drop_first();
    let n = p.len() as int;
    assert forall|k: int| 0 <= k < whole.len() - 1 implies tied(
        links,
        #[trigger] whole[k],
        whole[k + 1],
    ) by {
        if k < n - 1 {
            assert(tied(links, p[k], p[k + 1]));
        } else {
            assert(whole[k + 1] == q[k - n + 2]);
            assert(whole[k] == q[k - n + 1]);
            assert(tied(links, q[k - n + 1], q[k - n + 1 + 1]));
        }
    }
    assert(spans(links, whole, a, c, first + second));
}

/// The way through a third cell is no shorter than the shortest way.
pub proof fn lemma_gap_triangle(links: Seq<Seq<usize>>, a: int, b: int, c: int)
    requires
        reaches(links, a, b),
        reaches(links, b, c),
    ensures
        gap(links, a, c) <= gap(links, a, b) + gap(links, b, c),
        reaches(links, a, c),
{
    lemma_gap_reaches(links, a, b);
    lemma_gap_reaches(links, b, c);
    lemma_chained_joined(links, a, b, c, gap(links, a, b), gap(links, b, c));
    lemma_gap_exists(links, a, c, gap(links, a, b) + gap(links, b, c));
    assert(reaches(links, a, c));
}

/// What gaps among cells that reach one another always obey.
pub proof fn lemma_gap_pair(links: Seq<Seq<usize>>, a: int, p: int, q: int)
    requires
        sound(links),
        reaches(links, p, q),
        reaches(links, p, a),
        reaches(links, a, q),
    ensures
        gap(links, p, q) <= gap(links, p, a) + gap(links, a, q),
        gap(links, p, q) == gap(links, q, p),
        gap(links, p, a) == gap(links, a, p),
        gap(links, a, q) == gap(links, q, a),
        gap(links, p, p) == 0,
        gap(links, q, q) == 0,
        0 <= gap(links, p, q),
{
    lemma_gap_triangle(links, p, a, q);
    lemma_gap_symmetric(links, p, q);
    lemma_gap_symmetric(links, p, a);
    lemma_gap_symmetric(links, a, q);
    lemma_gap_reaches(links, p, q);
    lemma_gap_self(links, p);
    lemma_gap_self(links, q);
}

/// `more` is the sound table `fewer` with one link more, between `a` and
/// `b`, where `b` has no link in `fewer`.
pub open spec fn leaf_added(more: Seq<Seq<usize>>, fewer: Seq<Seq<usize>>, a: int, b: int) -> bool {
    &&& sound(fewer)
    &&& sound(more)
    &&& more.len() == fewer.len()
    &&& 0 <= a < more.len()
    &&& 0 <= b < more.len()
    &&& a != b
    &&& fewer[b].len() == 0
    &&& forall|u: int, v: int|
        #[trigger] tied(more, u, v) <==> tied(fewer, u, v) || (u == a && v == b) || (u == b && v
            == a)
}

/// The new cell has one link only.
pub proof fn lemma_leaf_links(more: Seq<Seq<usize>>, fewer: Seq<Seq<usize>>, a: int, b: int)
    requires
        leaf_added(more, fewer, a, b),
    ensures
        forall|u: int| tied(more, u, b) ==> u == a,
        forall|u: int| tied(more, b, u) ==> u == a,
        forall|u: int, v: int| tied(more, u, v) && u != b && v != b ==> tied(fewer, u, v),
{
    assert forall|u: int| tied(more, b, u) implies u == a by {
        if u != a {
            assert(tied(fewer, b, u));
            let k = choose|k: int| 0 <= k < fewer[b].len() && fewer[b][k] == u as usize;
        }
    }
    assert forall|u: int| tied(more, u, b) implies u == a by {
        assert(tied(more, b, u));
    }
}

/// A chain that comes back to a cell after two steps can do without them.
pub proof fn lemma_chain_cut(links: Seq<Seq<usize>>, path: Seq<int>, k: int)
    requires
        is_chain(links, path),
        0 < k < path.len() - 1,
        path[k - 1] == path[k + 1],
    ensures
        is_chain(links, path.take(k) + path.skip(k + 2)),
        (path.take(k) + path.skip(k + 2)).len() == path.len() - 2,
        (path.take(k) + path.skip(k + 2))[0] == path[0],
        (path.take(k) + path.skip(k + 2)).last() == path.last(),
{
    let short = path.take(k) + path.skip(k + 2);
    assert(short.len() == path.len() - 2);
    assert forall|j: int| 0 <= j < short.len() - 1 implies tied(
        links,
        #[trigger] short[j],
        short[j + 1],
    ) by {
        if j < k - 1 {
            assert(short[j] == path[j]);
            assert(short[j + 1] == path[j + 1]);
            assert(tied(links, path[j], path[j + 1]));
        } else if j == k - 1 {
            assert(short[j] == path[k - 1]);
            assert(short[j + 1] == path[k + 2]);
            assert(tied(links, path[k + 1], path[k + 1 + 1]));
        } else {
            assert(short[j] == path[j + 2]);
            assert(short[j + 1] == path[j + 3]);
            assert(tied(links, path[j + 2], path[j + 2 + 1]));
        }
    }
    assert(short[0] == path[0]);
    if k + 2 < path.len() {
        assert(short.last() == path[path.len() - 1]);
    } else {
        assert(short.last() == path[k - 1]);
    }
}

/// A chain between two old cells through the table with the new cell is no
/// shorter than some chain through the old table.
pub proof fn lemma_leaf_detour(
    more: Seq<Seq<usize>>,
    fewer: Seq<Seq<usize>>,
    a: int,
    b: int,
    path: Seq<int>,
)
    requires
        leaf_added(more, fewer, a, b),
        is_chain(more, path),
        path[0] != b,
        path.last() != b,
    ensures
        exists|steps: int|
            0 <= steps < path.len() && #[trigger] chained(fewer, path[0], path.last(), steps),
    decreases path.len(),
{
    lemma_leaf_links(more, fewer, a, b);
    if exists|k: int| 0 <= k < path.len() && path[k] == b {
        let k = choose|k: int| 0 <= k < path.len() && path[k] == b;
        assert(tied(more, path[k - 1], path[k - 1 + 1]));
        assert(tied(more, path[k], path[k + 1]));
        assert(path[k - 1] == a);
        assert(path[k + 1] == a);
        let short = path.take(k) + path.skip(k + 2);
        lemma_chain_cut(more, path, k);
        lemma_leaf_detour(more, fewer, a, b, short);
        let steps = choose|steps: int|
            0 <= steps < short.len() && #[trigger] chained(fewer, short[0], short.last(), steps);
        assert(chained(fewer, path[0], path.last(), steps));
    } else {
        assert forall|j: int| 0 <= j < path.len() - 1 implies tied(
            fewer,
            #[trigger] path[j],
            path[j + 1],
        ) by {
            assert(tied(more, path[j], path[j + 1]));
            lemma_chain_cells(more, path, j);
            lemma_chain_cells(more, path, j + 1);
        }
        assert(spans(fewer, path, path[0], path.last(), path.len() - 1));
        assert(chained(fewer, path[0], path.last(), path.len() - 1));
    }
}

/// A chain through the old table is a chain through the table with the new
/// cell.
pub proof fn lemma_leaf_chain_kept(
    more: Seq<Seq<usize>>,
    fewer: Seq<Seq<usize>>,
    a: int,
    b: int,
    x: int,
    y: int,
    steps: int,
)
    requires
        leaf_added(more, fewer, a, b),
        chained(fewer, x, y, steps),
    ensures
        chained(more, x, y, steps),
{
    let path = choose|path: Seq<int>| #[trigger] spans(fewer, path, x, y, steps);
    assert forall|k: int| 0 <= k < path.len() - 1 implies tied(more, #[trigger] path[k], path[k + 1]) by {
        assert(tied(fewer, path[k], path[k + 1]));
    }
    assert(spans(more, path, x, y, steps));
}

/// The new cell changes no gap between old cells.
pub proof fn lemma_leaf_gap_kept(
    more: Seq<Seq<usize>>,
    fewer: Seq<Seq<usize>>,
    a: int,
    b: int,
    x: int,
    y: int,
)
    requires
        leaf_added(more, fewer, a, b),
        reaches(fewer, x, y),
        x != b,
        y != b,
    ensures
        gap(more, x, y) == gap(fewer, x, y),
        reaches(more, x, y),
{
    lemma_gap_reaches(fewer, x, y);
    let d = gap(fewer, x, y);
    lemma_leaf_chain_kept(more, fewer, a, b, x, y, d);
    assert forall|steps: int| steps < d implies !#[trigger] chained(more, x, y, steps) by {
        if chained(more, x, y, steps) {
            let path = choose|path: Seq<int>| #[trigger] spans(more, path, x, y, steps);
            lemma_leaf_detour(more, fewer, a, b, path);
        }
    }
    assert(is_gap(more, x, y, d));
    lemma_gap(more, x, y, d);
    assert(reaches(more, x, y));
}

/// The new cell is one link farther from every old cell than the cell that
/// it hangs on.
pub proof fn lemma_leaf_gap_new(
    more: Seq<Seq<usize>>,
    fewer: Seq<Seq<usize>>,
    a: int,
    b: int,
    y: int,
)
    requires
        leaf_added(more, fewer, a, b),
        reaches(fewer, a, y),
        y != b,
    ensures
        gap(more, b, y) == gap(fewer, a, y) + 1,
        gap(more, y, b) == gap(fewer, a, y) + 1,
        reaches(more, b, y),
        reaches(more, y, b),
{
    lemma_leaf_links(more, fewer, a, b);
    lemma_gap_reaches(fewer, a, y);
    let d = gap(fewer, a, y);
    lemma_leaf_chain_kept(more, fewer, a, b, a, y, d);
    assert(tied(more, b, a));
    assert(spans(more, seq![b, a], b, a, 1));
    lemma_chained_joined(more, b, a, y, 1, d);
    assert forall|steps: int| steps < d + 1 implies !#[trigger] chained(more, b, y, steps) by {
        if chained(more, b, y, steps) {
            let path = choose|path: Seq<int>| #[trigger] spans(more, path, b, y, steps);
            assert(tied(more, path[0int], path[0int + 1]));
            let rest = path.skip(1);
            assert forall|k: int| 0 <= k < rest.len() - 1 implies tied(
                more,
                #[trigger] rest[k],
                rest[k + 1],
            ) by {
                assert(tied(more, path[k + 1], path[k + 1 + 1]));
            }
            assert(is_chain(more, rest));
            assert(rest[0] == a);
            assert(rest.last() == y);
            lemma_leaf_detour(more, fewer, a, b, rest);
        }
    }
    assert(is_gap(more, b, y, d + 1));
    lemma_gap(more, b, y, d + 1);
    assert(reaches(more, b, y));
    lemma_gap_symmetric(more, b, y);
}

/// The gap between two cells of the table with the new cell, told by the gaps
/// of the old table.
pub proof fn lemma_leaf_gap(
    more: Seq<Seq<usize>>,
    fewer: Seq<Seq<usize>>,
    a: int,
    b: int,
    cells: Set<int>,
    u: int,
    v: int,
)
    requires
        leaf_added(more, fewer, a, b),
        tree_like(fewer, cells),
        cells.contains(a),
        !cells.contains(b),
        cells.insert(b).contains(u),
        cells.insert(b).contains(v),
    ensures
        reaches(more, u, v),
        gap(more, u, v) == (if u == b && v == b {
            0
        } else {
            gap(fewer, if u == b { a } else { u }, if v == b { a } else { v }) + (if u == b {
                1int
            } else {
                0int
            }) + (if v == b {
                1int
            } else {
                0int
            })
        }),
{
    if u == b && v == b {
        lemma_gap_self(more, b);
    } else if u == b {
        assert(reaches(fewer, a, v));
        lemma_leaf_gap_new(more, fewer, a, b, v);
    } else if v == b {
        assert(reaches(fewer, a, u));
        assert(reaches(fewer, u, a));
        lemma_leaf_gap_new(more, fewer, a, b, u);
        lemma_gap_symmetric(fewer, u, a);
    } else {
        assert(reaches(fewer, u, v));
        lemma_leaf_gap_kept(more, fewer, a, b, u, v);
    }
}

/// A tree with a new cell hung on one of its cells is a tree.
pub proof fn lemma_tree_like_grows(
    more: Seq<Seq<usize>>,
    fewer: Seq<Seq<usize>>,
    a: int,
    b: int,
    cells: Set<int>,
)
    requires
        leaf_added(more, fewer, a, b),
        tree_like(fewer, cells),
        cells.contains(a),
        !cells.contains(b),
    ensures
        tree_like(more, cells.insert(b)),
{
    let grown = cells.insert(b);
    assert forall|u: int, v: int| grown.contains(u) && grown.contains(v) implies #[trigger] reaches(
        more,
        u,
        v,
    ) by {
        lemma_leaf_gap(more, fewer, a, b, cells, u, v);
    }
    assert forall|w: int, x: int, y: int, z: int|
        grown.contains(w) && grown.contains(x) && grown.contains(y) && grown.contains(
            z,
        ) implies #[trigger] four_point(more, w, x, y, z) by {
        let tw = if w == b { a } else { w };
        let tx = if x == b { a } else { x };
        let ty = if y == b { a } else { y };
        let tz = if z == b { a } else { z };
        lemma_leaf_gap(more, fewer, a, b, cells, w, x);
        lemma_leaf_gap(more, fewer, a, b, cells, y, z);
        lemma_leaf_gap(more, fewer, a, b, cells, w, y);
        lemma_leaf_gap(more, fewer, a, b, cells, x, z);
        lemma_leaf_gap(more, fewer, a, b, cells, w, z);
        lemma_leaf_gap(more, fewer, a, b, cells, x, y);
        assert(four_point(fewer, tw, tx, ty, tz));
        assert(reaches(fewer, tw, tx) && reaches(fewer, ty, tz) && reaches(fewer, tw, ty)
            && reaches(fewer, tx, tz) && reaches(fewer, tw, tz) && reaches(fewer, tx, ty));
        assert(reaches(fewer, tw, a) && reaches(fewer, tx, a) && reaches(fewer, ty, a) && reaches(
            fewer,
            tz,
            a,
        ));
        assert(reaches(fewer, a, tw) && reaches(fewer, a, tx) && reaches(fewer, a, ty) && reaches(
            fewer,
            a,
            tz,
        ));
        lemma_gap_pair(fewer, a, tw, tx);
        lemma_gap_pair(fewer, a, ty, tz);
        lemma_gap_pair(fewer, a, tw, ty);
        lemma_gap_pair(fewer, a, tx, tz);
        lemma_gap_pair(fewer, a, tw, tz);
        lemma_gap_pair(fewer, a, tx, ty);
    }
}

/// For each cell, how many links it has.
pub open spec fn link_counts(links: Seq<Seq<usize>>) -> Seq<nat> {
    Seq::new(links.len(), |i: int| links[i].len())
}

/// The number of links, counted at both of their ends.
pub open spec fn link_total(links: Seq<Seq<usize>>) -> nat {
    crate::grid::passages::sum(link_counts(links))
}

/// The root and the cells that have a link.
pub open spec fn carved(links: Seq<Seq<usize>>, root: int) -> Set<int> {
    Set::new(|c: int| 0 <= c < links.len() && (c == root || links[c].len() > 0))
}

/// The links have grown from the root: every cell with a link can be reached
/// from it, and there is one link fewer than there are such cells.
pub open spec fn grown_from(links: Seq<Seq<usize>>, root: int) -> bool {
    &&& sound(links)
    &&& 0 <= root < links.len()
    &&& forall|c: int|
        0 <= c < links.len() && links[c].len() > 0 ==> #[trigger] reaches(links, root, c)
    &&& link_total(links) + 2 == 2 * carved(links, root).len()
}

/// The table without the link between `a` and `b`, where that is the one link
/// of `b`.
pub open spec fn without_leaf(links: Seq<Seq<usize>>, a: int, b: int) -> Seq<Seq<usize>> {
    links.update(b, Seq::empty()).update(a, links[a].remove_value(b as usize))
}

/// The carved cells among the first `n`.
pub open spec fn carved_below(links: Seq<Seq<usize>>, root: int, n: int) -> Set<int> {
    Set::new(|c: int| 0 <= c < n && (c == root || links[c].len() > 0))
}

/// How many of the first `n` cells have a link and are not the root.
pub open spec fn busy(links: Seq<Seq<usize>>, root: int, n: int) -> int
    decreases n,
{
    if n <= 0 {
        0
    } else {
        busy(links, root, n - 1) + if n - 1 != root && links[n - 1].len() > 0 {
            1int
        } else {
            0int
        }
    }
}

/// The carved cells are the busy cells and the root.
pub proof fn lemma_carved_count(links: Seq<Seq<usize>>, root: int, n: int)
    requires
        0 <= n <= links.len(),
        0 <= root < links.len(),
    ensures
        carved_below(links, root, n).finite(),
        carved_below(links, root, n).len() == busy(links, root, n) + (if root < n {
            1int
        } else {
            0int
        }),
        busy(links, root, n) >= 0,
    decreases n,
{
    if n == 0 {
        assert(carved_below(links, root, n) =~= Set::empty());
    } else {
        lemma_carved_count(links, root, n - 1);
        let before = carved_below(links, root, n - 1);
        if n - 1 == root || links[n - 1].len() > 0 {
            assert(carved_below(links, root, n) =~= before.insert(n - 1));
        } else {
            assert(carved_below(links, root, n) =~= before);
        }
    }
}

/// Where every busy cell has two links or more, the links are twice the busy
/// cells and those of the root, or more.
pub proof fn lemma_busy_sum(links: Seq<Seq<usize>>, root: int, n: int)
    requires
        0 <= n <= links.len(),
        0 <= root < links.len(),
        forall|c: int|
            0 <= c < links.len() && c != root && (#[trigger] links[c]).len() > 0 ==> links[c].len()
                >= 2,
    ensures
        crate::grid::passages::sum(link_counts(links).take(n)) >= 2 * busy(links, root, n) + (if root
            < n {
            links[root].len() as int
        } else {
            0int
        }),
    decreases n,
{
    if n > 0 {
        lemma_busy_sum(links, root, n - 1);
        assert(link_counts(links).take(n).drop_last() =~= link_counts(links).take(n - 1));
        assert(link_counts(links).take(n).last() == links[n - 1].len());
    }
}

/// A cell that is reached from another has a link, and so has the other.
pub proof fn lemma_reached_has_link(links: Seq<Seq<usize>>, a: int, b: int)
    requires
        sound(links),
        reaches(links, a, b),
        a != b,
    ensures
        links[a].len() > 0,
        links[b].len() > 0,
{
    let steps = choose|steps: int| #[trigger] chained(links, a, b, steps);
    let path = choose|path: Seq<int>| #[trigger] spans(links, path, a, b, steps);
    assert(tied(links, path[0int], path[0int + 1]));
    assert(tied(links, path[path.len() - 2], path[path.len() - 2 + 1]));
    assert(tied(links, b, path[path.len() - 2]));
}

/// A tree of two cells or more has a cell with one link that is not the
/// root.
pub proof fn lemma_leaf_exists(links: Seq<Seq<usize>>, root: int)
    requires
        grown_from(links, root),
        carved(links, root).len() >= 2,
    ensures
        exists|b: int| 0 <= b < links.len() && b != root && (#[trigger] links[b]).len() == 1,
{
    let n = links.len() as int;
    lemma_carved_count(links, root, n);
    assert(carved_below(links, root, n) =~= carved(links, root));
    if !exists|b: int| 0 <= b < links.len() && b != root && (#[trigger] links[b]).len() == 1 {
        assert forall|c: int|
            0 <= c < links.len() && c != root && (#[trigger] links[c]).len() > 0 implies links[c].len()
            >= 2 by {}
        lemma_busy_sum(links, root, n);
        assert(link_counts(links).take(n) =~= link_counts(links));
        // some other cell is carved, so the root has a link too
        assert(busy(links, root, n) >= 1);
        lemma_busy_witness(links, root, n);
        let c = choose|c: int| 0 <= c < n && c != root && (#[trigger] links[c]).len() > 0;
        assert(reaches(links, root, c));
        lemma_reached_has_link(links, root, c);
    }
}

/// Where some cells are busy, one of them can be named.
pub proof fn lemma_busy_witness(links: Seq<Seq<usize>>, root: int, n: int)
    requires
        0 <= n <= links.len(),
        busy(links, root, n) >= 1,
    ensures
        exists|c: int| 0 <= c < n && c != root && (#[trigger] links[c]).len() > 0,
    decreases n,
{
    if n > 0 {
        if n - 1 != root && links[n - 1].len() > 0 {
            assert(links[n - 1].len() > 0);
        } else {
            lemma_busy_witness(links, root, n - 1);
            let c = choose|c: int| 0 <= c < n - 1 && c != root && (#[trigger] links[c]).len() > 0;
            assert(0 <= c < n && c != root && links[c].len() > 0);
        }
    }
}

/// What the table without a leaf has of the links of the table with it.
pub proof fn lemma_without_leaf(links: Seq<Seq<usize>>, a: int, b: int)
    requires
        sound(links),
        0 <= b < links.len(),
        links[b].len() == 1,
        a == links[b][0],
    ensures
        leaf_added(links, without_leaf(links, a, b), a, b),
        link_total(without_leaf(links, a, b)) + 2 == link_total(links),
{
    let fewer = without_leaf(links, a, b);
    assert(tied(links, b, a)) by {
        assert(links[b][0] == a as usize);
    }
    assert(tied(links, a, b));
    crate::grid::link::lemma_remove_value(links[a], b as usize);
    assert forall|u: int| tied(links, b, u) implies u == a by {
        let k = choose|k: int| 0 <= k < links[b].len() && links[b][k] == u as usize;
    }
    assert forall|u: int| tied(links, u, b) implies u == a by {
        assert(tied(links, b, u));
    }
    assert forall|u: int, v: int| #[trigger]
        tied(links, u, v) <==> tied(fewer, u, v) || (u == a && v == b) || (u == b && v == a) by {
        if 0 <= u < links.len() && 0 <= v < links.len() {
            if u == a {
                if v != b {
                    assert(fewer[a].contains(v as usize) <==> links[a].contains(v as usize));
                }
            } else if u == b {
            } else {
                assert(fewer[u] == links[u]);
            }
        }
    }
    assert forall|x: int| 0 <= x < fewer.len() implies (#[trigger] fewer[x]).no_duplicates() by {
        if x != a && x != b {
            assert(fewer[x] == links[x]);
            assert(links[x].no_duplicates());
        } else {
            assert(links[a].no_duplicates());
        }
    }
    assert forall|x: int, k: int| 0 <= x < fewer.len() && 0 <= k < fewer[x].len() implies (
    #[trigger] fewer[x][k]) < fewer.len() && fewer[x][k] != x by {
        assert(fewer[x].contains(fewer[x][k]));
        assert(tied(fewer, x, fewer[x][k] as int) || fewer[x][k] >= fewer.len());
        if x == a {
            assert(links[a].contains(fewer[x][k]));
        } else {
            assert(fewer[x] == links[x]);
        }
        let j = choose|j: int| 0 <= j < links[x].len() && links[x][j] == fewer[x][k];
        assert(links[x][j] < links.len() && links[x][j] != x);
    }
    assert forall|u: int, v: int| #[trigger] tied(fewer, u, v) implies tied(fewer, v, u) by {
        assert(tied(links, u, v));
        assert(tied(links, v, u));
    }
    let counts = link_counts(links);
    let middle = counts.update(b, 0nat);
    let after = middle.update(a, (counts[a] - 1) as nat);
    assert(link_counts(fewer) =~= after);
    crate::grid::passages::lemma_sum_update(counts, b, 0nat);
    crate::grid::passages::lemma_sum_update(middle, a, (counts[a] - 1) as nat);
}

/// The carved cells are finitely many.
pub proof fn lemma_carved_finite(links: Seq<Seq<usize>>, root: int)
    requires
        0 <= root < links.len(),
    ensures
        carved(links, root).finite(),
        carved(links, root).len() >= 1,
        carved(links, root).contains(root),
{
    lemma_carved_count(links, root, links.len() as int);
    assert(carved_below(links, root, links.len() as int) =~= carved(links, root));
}

/// A tree without one of its leaves is a tree, one cell smaller.
pub proof fn lemma_peel(links: Seq<Seq<usize>>, root: int, a: int, b: int)
    requires
        grown_from(links, root),
        0 <= b < links.len(),
        b != root,
        links[b].len() == 1,
        a == links[b][0],
    ensures
        leaf_added(links, without_leaf(links, a, b), a, b),
        grown_from(without_leaf(links, a, b), root),
        carved(without_leaf(links, a, b), root) == carved(links, root).remove(b),
        carved(links, root).contains(b),
        carved(without_leaf(links, a, b), root).contains(a),
        carved(without_leaf(links, a, b), root).len() + 1 == carved(links, root).len(),
{
    let fewer = without_leaf(links, a, b);
    lemma_without_leaf(links, a, b);
    lemma_carved_finite(links, root);
    assert forall|c: int| 0 <= c < fewer.len() && c != b && c != root && links[c].len()
        > 0 implies fewer[c].len() > 0 && #[trigger] reaches(fewer, root, c) by {
        assert(reaches(links, root, c));
        let steps = choose|steps: int| #[trigger] chained(links, root, c, steps);
        let path = choose|path: Seq<int>| #[trigger] spans(links, path, root, c, steps);
        lemma_leaf_detour(links, fewer, a, b, path);
        let fewer_steps = choose|fewer_steps: int|
            0 <= fewer_steps < path.len() && #[trigger] chained(
                fewer,
                path[0],
                path.last(),
                fewer_steps,
            );
        assert(reaches(fewer, root, c));
        lemma_reached_has_link(fewer, root, c);
    }
    assert(tied(links, b, a)) by {
        assert(links[b][0] == a as usize);
    }
    assert(links[a].len() > 0) by {
        assert(tied(links, a, b));
        let k = choose|k: int| 0 <= k < links[a].len() && links[a][k] == b as usize;
    }
    assert forall|c: int| 0 <= c < fewer.len() && fewer[c].len() > 0 implies #[trigger] reaches(
        fewer,
        root,
        c,
    ) by {
        if c == root {
            lemma_gap_self(fewer, root);
        } else if c == a {
        } else {
            assert(fewer[c] == links[c]);
        }
    }
    assert(carved(fewer, root) =~= carved(links, root).remove(b)) by {
        assert forall|c: int| carved(fewer, root).contains(c) <==> carved(links, root).remove(
            b,
        ).contains(c) by {
            if 0 <= c < links.len() && c != a && c != b {
                assert(fewer[c] == links[c]);
            }
            if c == a && a != root {
                assert(reaches(fewer, root, a));
                assert(fewer[a].len() > 0);
            }
            if c == a && fewer[a].len() > 0 {
                crate::grid::link::lemma_remove_value(links[a], b as usize);
            }
        }
    }
}

/// The distances among the cells of a tree that has grown from a root are
/// those of a tree.
pub proof fn lemma_grown_tree_like(links: Seq<Seq<usize>>, root: int)
    requires
        grown_from(links, root),
    ensures
        tree_like(links, carved(links, root)),
    decreases carved(links, root).len(),
{
    lemma_carved_finite(links, root);
    if carved(links, root).len() == 1 {
        assert forall|c: int| carved(links, root).contains(c) implies c == root by {
            if c != root {
                assert(carved(links, root).remove(c).contains(root));
                assert(carved(links, root).remove(c).len() == 0);
            }
        }
        lemma_gap_self(links, root);
    } else {
        lemma_leaf_exists(links, root);
        let b = choose|b: int| 0 <= b < links.len() && b != root && (#[trigger] links[b]).len() == 1;
        let a = links[b][0] as int;
        let fewer = without_leaf(links, a, b);
        lemma_peel(links, root, a, b);
        lemma_grown_tree_like(fewer, root);
        lemma_tree_like_grows(links, fewer, a, b, carved(fewer, root));
        assert(carved(fewer, root).insert(b) =~= carved(links, root));
    }
}

/// The two ends of every link are one step apart in their distance from
/// `root`.
pub open spec fn in_levels(links: Seq<Seq<usize>>, root: int) -> bool {
    forall|a: int, b: int| #[trigger]
        tied(links, a, b) ==> gap(links, root, a) == gap(links, root, b) + 1 || gap(links, root, b)
            == gap(links, root, a) + 1
}

/// In a tree that has grown from a root, the two ends of every link are one
/// step apart in their distance from the root: no link joins two cells that
/// are equally far.
pub proof fn lemma_grown_levels(links: Seq<Seq<usize>>, root: int)
    requires
        grown_from(links, root),
    ensures
        in_levels(links, root),
    decreases carved(links, root).len(),
{
    lemma_carved_finite(links, root);
    if carved(links, root).len() == 1 {
        assert forall|a: int, b: int| #[trigger] tied(links, a, b) implies gap(links, root, a)
            == gap(links, root, b) + 1 || gap(links, root, b) == gap(links, root, a) + 1 by {
            // a cell with a link is carved, and only the root is
            let k = choose|k: int| 0 <= k < links[a].len() && links[a][k] == b as usize;
            assert(carved(links, root).contains(a));
            assert(tied(links, b, a));
            let j = choose|j: int| 0 <= j < links[b].len() && links[b][j] == a as usize;
            assert(carved(links, root).contains(b));
            if a != root {
                assert(carved(links, root).remove(a).contains(root));
            }
            if b != root {
                assert(carved(links, root).remove(b).contains(root));
            }
            assert(links[a][k] != a);
        }
    } else {
        lemma_leaf_exists(links, root);
        let leaf = choose|b: int| 0 <= b < links.len() && b != root && (#[trigger] links[b]).len() == 1;
        let stem = links[leaf][0] as int;
        let fewer = without_leaf(links, stem, leaf);
        lemma_peel(links, root, stem, leaf);
        lemma_grown_levels(fewer, root);
        lemma_gap_self(fewer, root);
        assert(reaches(fewer, root, stem)) by {
            if stem != root {
                assert(fewer[stem].len() > 0);
            }
        }
        lemma_gap_symmetric(fewer, root, stem);
        lemma_leaf_gap_new(links, fewer, stem, leaf, root);
        lemma_leaf_gap_kept(links, fewer, stem, leaf, root, stem);
        assert forall|a: int, b: int| #[trigger] tied(links, a, b) implies gap(links, root, a)
            == gap(links, root, b) + 1 || gap(links, root, b) == gap(links, root, a) + 1 by {
            if (a == stem && b == leaf) || (a == leaf && b == stem) {
            } else {
                assert(tied(fewer, a, b));
                assert(tied(fewer, b, a));
                let k = choose|k: int| 0 <= k < fewer[a].len() && fewer[a][k] == b as usize;
                let j = choose|j: int| 0 <= j < fewer[b].len() && fewer[b][j] == a as usize;
                assert(reaches(fewer, root, a));
                assert(reaches(fewer, root, b));
                lemma_leaf_gap_kept(links, fewer, stem, leaf, root, a);
                lemma_leaf_gap_kept(links, fewer, stem, leaf, root, b);
            }
        }
    }
}

/// The parts of a shortest chain are shortest chains.
pub proof fn lemma_shortest_parts(links: Seq<Seq<usize>>, path: Seq<int>, k: int)
    requires
        is_chain(links, path),
        is_gap(links, path[0], path.last(), path.len() - 1),
        0 <= k < path.len(),
    ensures
        gap(links, path[0], path[k]) == k,
        gap(links, path[k], path.last()) == path.len() - 1 - k,
        reaches(links, path[0], path[k]),
        reaches(links, path[k], path.last()),
{
    let front = path.take(k + 1);
    let back = path.skip(k);
    let a = path[0];
    let b = path.last();
    let p = path[k];
    let whole = path.len() - 1;
    assert forall|j: int| 0 <= j < front.len() - 1 implies tied(links, #[trigger] front[j], front[j + 1]) by {
        assert(tied(links, path[j], path[j + 1]));
    }
    lemma_chain_cells(links, path, k);
    assert forall|j: int| 0 <= j < back.len() - 1 implies tied(links, #[trigger] back[j], back[j + 1]) by {
        assert(tied(links, path[j + k], path[j + k + 1]));
    }
    assert(spans(links, front, a, p, k));
    assert(spans(links, back, p, b, whole - k));
    lemma_gap_exists(links, a, p, k);
    lemma_gap_exists(links, p, b, whole - k);
    lemma_chained_joined(links, a, p, b, gap(links, a, p), gap(links, p, b));
    assert(chained(links, a, p, k));
    assert(chained(links, p, b, whole - k));
}

/// In a tree, a cell lies on the shortest chain between two cells exactly
/// when the way through it is no detour.
pub proof fn lemma_on_chain(links: Seq<Seq<usize>>, cells: Set<int>, root: int, path: Seq<int>)
    requires
        sound(links),
        tree_like(links, cells),
        cells.contains(root),
        forall|k: int| 0 <= k < path.len() ==> cells.contains(#[trigger] path[k]),
        is_chain(links, path),
        is_gap(links, path[0], path.last(), path.len() - 1),
    ensures
        gap(links, root, path[0]) + gap(links, root, path.last()) >= path.len() - 1,
        gap(links, root, path[0]) + gap(links, root, path.last()) == path.len() - 1
            <==> path.contains(root),
{
    let a = path[0];
    let b = path.last();
    let whole = path.len() - 1;
    assert(cells.contains(a) && cells.contains(b));
    assert(reaches(links, root, a) && reaches(links, root, b) && reaches(links, a, root) && reaches(
        links,
        a,
        b,
    ));
    lemma_gap_pair(links, root, a, b);
    lemma_gap(links, a, b, whole);
    lemma_gap_reaches(links, root, a);
    lemma_gap_reaches(links, root, b);
    if path.contains(root) {
        let k = choose|k: int| 0 <= k < path.len() && path[k] == root;
        lemma_shortest_parts(links, path, k);
    }
    if gap(links, root, a) + gap(links, root, b) == whole {
        let k = gap(links, root, a);
        let p = path[k];
        lemma_shortest_parts(links, path, k);
        assert(cells.contains(p));
        assert(four_point(links, a, b, root, p));
        assert(reaches(links, b, p) && reaches(links, p, b) && reaches(links, root, p) && reaches(
            links,
            b,
            root,
        ));
        lemma_gap_symmetric(links, p, b);
        lemma_gap_symmetric(links, root, b);
        lemma_gap_reaches(links, root, p);
        // going to the cell of the path that is as far from the start costs nothing
        assert(gap(links, root, p) == 0);
        let short = choose|short: Seq<int>| #[trigger] spans(links, short, root, p, 0);
        assert(short[0] == short.last());
        assert(path[k] == root);
    }
}

} // verus!
