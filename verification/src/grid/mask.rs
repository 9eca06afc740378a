//! Masks: which coordinates of a lattice take part in a grid.

use vstd::prelude::*;
use crate::error::MazeError;
use crate::rng::RngWrapper;

verus! {

/// How many entries of `bits` are true.
pub open spec fn count_true(bits: Seq<bool>) -> nat
    decreases bits.len(),
{
    if bits.len() == 0 {
        0
    } else {
        count_true(bits.drop_last()) + if bits.last() { 1nat } else { 0nat }
    }
}

/// A prefix holds no more true entries than the whole.
pub proof fn lemma_count_true_prefix(bits: Seq<bool>, n: int)
    requires
        0 <= n <= bits.len(),
    ensures
        count_true(bits.take(n)) <= count_true(bits),
        count_true(bits) <= bits.len(),
    decreases bits.len(),
{
    if bits.len() == 0 {
        assert(bits.take(n) =~= bits);
    } else if n == bits.len() {
        assert(bits.take(n) =~= bits);
        lemma_count_true_prefix(bits.drop_last(), n - 1);
    } else {
        assert(bits.drop_last().take(n) =~= bits.take(n));
        lemma_count_true_prefix(bits.drop_last(), n);
    }
}

/// Extending a prefix by one entry adds that entry to the count.
pub proof fn lemma_count_true_step(bits: Seq<bool>, n: int)
    requires
        0 <= n < bits.len(),
    ensures
        count_true(bits.take(n + 1)) == count_true(bits.take(n)) + if bits[n] { 1nat } else { 0nat },
{
    assert(bits.take(n + 1).drop_last() =~= bits.take(n));
}

/// Where every entry is true, a prefix holds as many true entries as it is
/// long.
pub proof fn lemma_count_all_true(bits: Seq<bool>, n: int)
    requires
        0 <= n <= bits.len(),
        forall|p: int| 0 <= p < bits.len() ==> bits[p],
    ensures
        count_true(bits.take(n)) == n,
    decreases n,
{
    if n > 0 {
        lemma_count_all_true(bits, n - 1);
        lemma_count_true_step(bits, n - 1);
    }
}

/// Changing one entry changes the count by as much.
pub proof fn lemma_count_true_update(bits: Seq<bool>, i: int, v: bool)
    requires
        0 <= i < bits.len(),
    ensures
        count_true(bits.update(i, v)) + (if bits[i] { 1nat } else { 0nat }) == count_true(bits) + (if v {
            1nat
        } else {
            0nat
        }),
    decreases bits.len(),
{
    let updated = bits.update(i, v);
    if i == bits.len() - 1 {
        assert(updated.drop_last() =~= bits.drop_last());
    } else {
        assert(updated.drop_last() =~= bits.drop_last().update(i, v));
        lemma_count_true_update(bits.drop_last(), i, v);
    }
}

/// The place of the true entry that has exactly `k` true entries before it.
pub fn nth_true(bits: &Vec<bool>, k: usize) -> (p: usize)
    requires
        k < count_true(bits@),
    ensures
        p < bits@.len(),
        bits@[p as int],
        count_true(bits@.take(p as int)) == k,
{
    let mut seen: usize = 0;
    let mut i: usize = 0;
    loop
        invariant
            i <= bits@.len(),
            seen == count_true(bits@.take(i as int)),
            seen <= k < count_true(bits@),
        decreases bits@.len() - i,
    {
        if i >= bits.len() {
            proof {
                assert(bits@.take(i as int) =~= bits@);
            }
            return 0;
        }
        proof {
            lemma_count_true_step(bits@, i as int);
        }
        if bits[i] {
            if seen == k {
                return i;
            }
            seen = seen + 1;
        }
        i = i + 1;
    }
}

/// A cell of a `rows` by `columns` lattice has a row-major position below
/// `rows * columns`, and the position gives the cell back.
pub proof fn lemma_position(row: int, col: int, rows: int, columns: int)
    requires
        0 <= row < rows,
        0 <= col < columns,
    ensures
        0 <= row * columns + col < rows * columns,
        (row * columns + col) / columns == row,
        (row * columns + col) % columns == col,
{
    assert(row * columns + col < rows * columns) by (nonlinear_arith)
        requires
            0 <= row < rows,
            0 <= col < columns,
    ;
    assert(0 <= row * columns) by (nonlinear_arith)
        requires
            0 <= row,
            0 < columns,
    ;
    vstd::arithmetic::div_mod::lemma_fundamental_div_mod_converse(
        row * columns + col,
        columns,
        row,
        col,
    );
}

/// A position below `rows * columns` is that of the cell in row
/// `p / columns` and column `p % columns`.
pub proof fn lemma_coordinates(p: int, rows: int, columns: int)
    requires
        0 <= p < rows * columns,
        0 <= rows,
        0 <= columns,
    ensures
        0 < columns,
        0 <= p / columns < rows,
        0 <= p % columns < columns,
        (p / columns) * columns + p % columns == p,
{
    assert(0 < columns) by (nonlinear_arith)
        requires
            0 <= p < rows * columns,
            0 <= rows,
            0 <= columns,
    ;
    vstd::arithmetic::div_mod::lemma_fundamental_div_mod(p, columns);
    vstd::arithmetic::div_mod::lemma_mod_bound(p, columns);
    let q = p / columns;
    assert(columns * q == q * columns) by (nonlinear_arith);
    assert(q >= 0) by (nonlinear_arith)
        requires
            q * columns + p % columns == p,
            0 <= p,
            0 <= p % columns < columns,
    ;
    assert(q < rows) by (nonlinear_arith)
        requires
            q * columns + p % columns == p,
            p < rows * columns,
            0 <= p % columns < columns,
            0 <= q,
    ;
}

/// Which coordinates of a `rows` by `columns` lattice take part in a grid.
#[derive(Debug)]
pub struct Mask {
    pub rows: usize,
    pub columns: usize,
    /// One entry per coordinate, row after row.
    pub bits: Vec<bool>,
}

impl Mask {
    /// There is one entry for each coordinate.
    pub open spec fn wf(&self) -> bool {
        self.bits@.len() == self.rows * self.columns
    }

    /// Whether the coordinate lies in the lattice and is switched on.
    pub open spec fn active(&self, row: int, col: int) -> bool {
        &&& 0 <= row < self.rows
        &&& 0 <= col < self.columns
        &&& self.bits@[row * self.columns + col]
    }

    /// The number of active coordinates.
    pub open spec fn count_spec(&self) -> nat {
        count_true(self.bits@)
    }

    /// A mask with every coordinate active.
    pub fn new(rows: usize, columns: usize) -> (mask: Mask)
        requires
            rows * columns <= usize::MAX,
        ensures
            mask.wf(),
            mask.rows == rows,
            mask.columns == columns,
            forall|p: int| 0 <= p < rows * columns ==> mask.bits@[p],
            mask.count_spec() == rows * columns,
    {
        let total: usize = rows * columns;
        let mut bits: Vec<bool> = Vec::new();
        while bits.len() < total
            invariant
                bits@.len() <= total,
                forall|p: int| 0 <= p < bits@.len() ==> bits@[p],
                count_true(bits@) == bits@.len(),
            decreases total - bits@.len(),
        {
            proof {
                assert(bits@.push(true).drop_last() =~= bits@);
            }
            bits.push(true);
        }
        Mask { rows, columns, bits }
    }

    /// Switches one coordinate on or off. A coordinate outside the lattice is
    /// refused and the mask stays as it was.
    pub fn set(&mut self, row: usize, col: usize, active: bool) -> (r: Result<(), MazeError>)
        requires
            old(self).wf(),
        ensures
            final(self).wf(),
            final(self).rows == old(self).rows,
            final(self).columns == old(self).columns,
            r is Err <==> (row >= old(self).rows || col >= old(self).columns),
            r is Err ==> r == Err::<(), MazeError>(MazeError::OutOfBounds) && *final(self) == *old(self),
            r is Ok ==> final(self).bits@ == old(self).bits@.update(
                row * old(self).columns + col,
                active,
            ),
    {
        if row >= self.rows || col >= self.columns {
            return Err(MazeError::OutOfBounds);
        }
        proof {
            lemma_position(row as int, col as int, self.rows as int, self.columns as int);
            assert(self.bits@.len() == self.bits.len());
        }
        let p: usize = row * self.columns + col;
        self.bits[p] = active;
        Ok(())
    }

    /// Whether the coordinate is active. Outside the lattice nothing is.
    pub fn get(&self, row: usize, col: usize) -> (b: bool)
        requires
            self.wf(),
        ensures
            b == self.active(row as int, col as int),
    {
        if row >= self.rows || col >= self.columns {
            return false;
        }
        proof {
            lemma_position(row as int, col as int, self.rows as int, self.columns as int);
            assert(self.bits@.len() == self.bits.len());
        }
        self.bits[row * self.columns + col]
    }

    /// The number of active coordinates.
    pub fn count(&self) -> (n: usize)
        ensures
            n == self.count_spec(),
    {
        let mut n: usize = 0;
        let mut i: usize = 0;
        while i < self.bits.len()
            invariant
                i <= self.bits@.len(),
                n == count_true(self.bits@.take(i as int)),
                n <= i,
            decreases self.bits@.len() - i,
        {
            proof {
                lemma_count_true_step(self.bits@, i as int);
            }
            if self.bits[i] {
                n = n + 1;
            }
            i = i + 1;
        }
        proof {
            assert(self.bits@.take(i as int) =~= self.bits@);
        }
        n
    }

    /// The coordinate of the active entry that has exactly `k` active entries
    /// before it, counted row after row.
    pub fn nth_active(&self, k: usize) -> (at: (usize, usize))
        requires
            self.wf(),
            k < self.count_spec(),
        ensures
            self.active(at.0 as int, at.1 as int),
            count_true(self.bits@.take(at.0 * self.columns + at.1)) == k,
    {
        let p: usize = nth_true(&self.bits, k);
        proof {
            lemma_coordinates(p as int, self.rows as int, self.columns as int);
        }
        (p / self.columns, p % self.columns)
    }

    /// The active coordinate that the generator's choice among
    /// `0..count()` selects, or `EmptyMask` when no coordinate is active.
    pub fn rand_location<R: RngWrapper>(&self, rng: &mut R) -> (r: Result<(usize, usize), MazeError>)
        requires
            self.wf(),
        ensures
            r is Err <==> self.count_spec() == 0,
            r is Err ==> r == Err::<(usize, usize), MazeError>(MazeError::EmptyMask),
            r is Ok ==> self.active(r->Ok_0.0 as int, r->Ok_0.1 as int),
    {
        let n: usize = self.count();
        if n == 0 {
            return Err(MazeError::EmptyMask);
        }
        let k: usize = rng.gen_range(0, n);
        Ok(self.nth_active(k))
    }
}

/// Whether byte `i` of a text stands in a line: it is neither a line feed
/// nor a carriage return just before one.
pub open spec fn is_content(text: Seq<u8>, i: int) -> bool {
    &&& 0 <= i < text.len()
    &&& text[i] != 10
    &&& !(text[i] == 13 && i + 1 < text.len() && text[i + 1] == 10)
}

/// The number of line feeds among the first `n` bytes.
pub open spec fn newlines(text: Seq<u8>, n: int) -> int
    decreases n,
{
    if n <= 0 {
        0
    } else {
        newlines(text, n - 1) + if text[n - 1] == 10 {
            1int
        } else {
            0int
        }
    }
}

/// Where the line begins that holds byte `i`.
pub open spec fn line_start(text: Seq<u8>, i: int) -> int
    decreases i,
{
    if i <= 0 {
        0
    } else if text[i - 1] == 10 {
        i
    } else {
        line_start(text, i - 1)
    }
}

/// The number of lines: one for each line feed, and one more for what
/// follows the last.
pub open spec fn line_count(text: Seq<u8>) -> int {
    newlines(text, text.len() as int) + if text.len() > 0 && text.last() != 10 {
        1int
    } else {
        0int
    }
}

/// The length of the longest line among the first `n` bytes.
pub open spec fn width_upto(text: Seq<u8>, n: int) -> int
    decreases n,
{
    if n <= 0 {
        0
    } else {
        let before = width_upto(text, n - 1);
        if is_content(text, n - 1) && n - line_start(text, n - 1) > before {
            n - line_start(text, n - 1)
        } else {
            before
        }
    }
}

/// Whether one of the first `n` bytes is the marker at the given line and
/// column.
pub open spec fn marked_before(text: Seq<u8>, marker: u8, row: int, col: int, n: int) -> bool {
    exists|i: int|
        0 <= i < n && #[trigger] is_content(text, i) && text[i] == marker && newlines(text, i) == row
            && i - line_start(text, i) == col
}

/// Line feeds are counted upwards, lines grow to the right, and a byte
/// lies within its line.
pub proof fn lemma_text_grows(text: Seq<u8>, i: int, j: int)
    requires
        0 <= i <= j <= text.len(),
    ensures
        0 <= newlines(text, i) <= newlines(text, j) <= j,
        0 <= width_upto(text, i) <= width_upto(text, j) <= j,
        0 <= line_start(text, i) <= i,
    decreases j,
{
    if j > 0 {
        if i < j {
            lemma_text_grows(text, i, j - 1);
        } else {
            lemma_text_grows(text, i - 1, j - 1);
        }
        lemma_text_grows(text, j - 1, j - 1);
    }
}

/// A byte that stands in a line stands in one of the lines of the text, no
/// further to the right than the longest line reaches.
pub proof fn lemma_content_in_range(text: Seq<u8>, i: int)
    requires
        is_content(text, i),
    ensures
        0 <= newlines(text, i) < line_count(text),
        0 <= i - line_start(text, i) < width_upto(text, text.len() as int),
{
    let n = text.len() as int;
    lemma_text_grows(text, i, n);
    lemma_text_grows(text, i + 1, n);
    lemma_text_grows(text, i, i);
    if text.last() == 10 {
        lemma_text_grows(text, i, n - 1);
    }
}

impl Mask {
    /// Reads a mask from text: one line for each row, one byte for each
    /// column, as wide as the longest line. A line ends at a line feed or at
    /// a carriage return and a line feed. The byte `marker` switches a
    /// coordinate off; every other byte, and what a short line lacks, leaves
    /// it on.
    ///
    /// A text with more coordinates than can be counted is refused with
    /// `OutOfBounds`.
    pub fn from_text(text: &[u8], marker: u8) -> (r: Result<Mask, MazeError>)
        ensures
            r is Err <==> line_count(text@) * width_upto(text@, text@.len() as int) > usize::MAX,
            r is Err ==> r == Err::<Mask, MazeError>(MazeError::OutOfBounds),
            r matches Ok(mask) ==> {
                &&& mask.wf()
                &&& mask.rows == line_count(text@)
                &&& mask.columns == width_upto(text@, text@.len() as int)
                &&& forall|row: int, col: int|
                    0 <= row < mask.rows && 0 <= col < mask.columns ==> (#[trigger] mask.active(
                        row,
                        col,
                    ) <==> !marked_before(text@, marker, row, col, text@.len() as int))
            },
    {
        let length: usize = text.len();
        let mut rows: usize = 0;
        let mut start: usize = 0;
        let mut width: usize = 0;
        let mut i: usize = 0;
        while i < length
            invariant
                length == text@.len(),
                i <= length,
                rows == newlines(text@, i as int),
                start == line_start(text@, i as int),
                width == width_upto(text@, i as int),
            decreases length - i,
        {
            proof {
                lemma_text_grows(text@, i as int, i as int);
                lemma_text_grows(text@, i as int + 1, i as int + 1);
            }
            let byte: u8 = text[i];
            let content: bool = byte != 10 && !(byte == 13 && i + 1 < length && text[i + 1] == 10);
            if content && i + 1 - start > width {
                width = i + 1 - start;
            }
            if byte == 10 {
                rows = rows + 1;
                start = i + 1;
            }
            i = i + 1;
        }
        if length > 0 && text[length - 1] != 10 {
            proof {
                lemma_text_grows(text@, length as int - 1, length as int - 1);
            }
            rows = rows + 1;
        }
        if rows.checked_mul(width).is_none() {
            return Err(MazeError::OutOfBounds);
        }
        let mut mask = Mask::new(rows, width);
        let mut row: usize = 0;
        start = 0;
        i = 0;
        proof {
            assert forall|r: int, c: int| 0 <= r < rows && 0 <= c < width implies #[trigger] mask.active(
                r,
                c,
            ) by {
                lemma_position(r, c, rows as int, width as int);
            }
        }
        while i < length
            invariant
                length == text@.len(),
                i <= length,
                row == newlines(text@, i as int),
                start == line_start(text@, i as int),
                mask.wf(),
                mask.rows == rows,
                mask.columns == width,
                rows == line_count(text@),
                width == width_upto(text@, length as int),
                forall|r: int, c: int|
                    0 <= r < rows && 0 <= c < width ==> (#[trigger] mask.active(r, c)
                        <==> !marked_before(text@, marker, r, c, i as int)),
            decreases length - i,
        {
            proof {
                lemma_text_grows(text@, i as int, i as int);
                lemma_text_grows(text@, i as int + 1, i as int + 1);
            }
            let byte: u8 = text[i];
            let content: bool = byte != 10 && !(byte == 13 && i + 1 < length && text[i + 1] == 10);
            let ghost before = mask;
            if content && byte == marker {
                proof {
                    lemma_content_in_range(text@, i as int);
                }
                let column: usize = i - start;
                let switched = mask.set(row, column, false);
                proof {
                    assert(switched is Ok);
                    assert forall|r: int, c: int| 0 <= r < rows && 0 <= c < width implies (
                    #[trigger] mask.active(r, c) <==> !marked_before(
                        text@,
                        marker,
                        r,
                        c,
                        i as int + 1,
                    )) by {
                        lemma_position(r, c, rows as int, width as int);
                        lemma_position(row as int, column as int, rows as int, width as int);
                        if r == row && c == column {
                            assert(is_content(text@, i as int));
                        } else {
                            assert(mask.active(r, c) == before.active(r, c));
                            assert(marked_before(text@, marker, r, c, i as int + 1)
                                == marked_before(text@, marker, r, c, i as int)) by {
                                if marked_before(text@, marker, r, c, i as int + 1) {
                                    let j = choose|j: int|
                                        0 <= j < i + 1 && #[trigger] is_content(text@, j) && text@[j]
                                            == marker && newlines(text@, j) == r && j - line_start(
                                            text@,
                                            j,
                                        ) == c;
                                    assert(j != i);
                                }
                            }
                        }
                    }
                }
            } else {
                proof {
                    assert forall|r: int, c: int| 0 <= r < rows && 0 <= c < width implies (
                    #[trigger] mask.active(r, c) <==> !marked_before(
                        text@,
                        marker,
                        r,
                        c,
                        i as int + 1,
                    )) by {
                        if marked_before(text@, marker, r, c, i as int + 1) {
                            let j = choose|j: int|
                                0 <= j < i + 1 && #[trigger] is_content(text@, j) && text@[j] == marker
                                    && newlines(text@, j) == r && j - line_start(text@, j) == c;
                            assert(j != i);
                        }
                    }
                }
            }
            if byte == 10 {
                row = row + 1;
                start = i + 1;
            }
            i = i + 1;
        }
        Ok(mask)
    }
}

} // verus!
