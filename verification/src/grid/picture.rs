//! The picture of a grid in text.

use vstd::prelude::*;
use vstd::string::StringExecFns;
use crate::grid::cell::Cell;
use crate::grid::grid_base::GridBase;
use crate::grid::CellFormatter;

verus! {

/// The texts of a list of labels.
pub open spec fn texts(labels: Seq<String>) -> Seq<Seq<char>> {
    Seq::new(labels.len(), |i: int| labels[i]@)
}

/// As many blank labels as asked for.
pub open spec fn blanks(n: nat) -> Seq<Seq<char>> {
    Seq::new(n, |i: int| " "@)
}

impl Cell {
    /// The middle line of the cell: the label between blanks, then the wall
    /// to the east or the opening in it.
    pub open spec fn top_text(&self, label: Seq<char>) -> Seq<char> {
        " "@ + label + " "@ + (if self.east_open() {
            " "@
        } else {
            "|"@
        })
    }

    /// The lower line of the cell: the wall to the south or the opening in
    /// it, then a corner.
    pub open spec fn bottom_text(&self) -> Seq<char> {
        (if self.south_open() {
            "   "@
        } else {
            "---"@
        }) + "+"@
    }

    /// The middle line of the cell.
    pub fn top_piece(&self, label: &str) -> (s: String)
        ensures
            s@ == self.top_text(label@),
    {
        let open = self.is_open_east();
        let mut s = String::from_str(" ");
        s.append(label);
        s.append(" ");
        if open {
            s.append(" ");
        } else {
            s.append("|");
        }
        s
    }

    /// The lower line of the cell.
    pub fn bottom_piece(&self) -> (s: String)
        ensures
            s@ == self.bottom_text(),
    {
        let open = self.is_open_south();
        let mut s = if open {
            String::from_str("   ")
        } else {
            String::from_str("---")
        };
        s.append("+");
        s
    }
}

impl GridBase {
    /// Whether a cell stands at the coordinate.
    pub open spec fn is_cell(&self, row: int, col: int) -> bool {
        self.lookup(row, col) is Some
    }

    /// The part of the top border above column `col`.
    pub open spec fn header_text(&self, col: int) -> Seq<char> {
        if self.is_cell(0, col) {
            if col == self.columns - 1 {
                "+---"@ + "+"@
            } else {
                "+---"@
            }
        } else if col > 0 && self.is_cell(0, col - 1) {
            "+   "@
        } else {
            "    "@
        }
    }

    /// The top border above the first `upto` columns.
    pub open spec fn header_line(&self, upto: int) -> Seq<char>
        decreases upto,
    {
        if upto <= 0 {
            Seq::empty()
        } else {
            self.header_line(upto - 1) + self.header_text(upto - 1)
        }
    }

    /// What a hole shows in the middle line of its row.
    pub open spec fn hole_top_text(&self, row: int, col: int) -> Seq<char> {
        if col == self.columns - 1 || (col > 0 && !self.is_cell(row, col + 1)) {
            "    "@
        } else {
            "   |"@
        }
    }

    /// What a hole shows in the lower line of its row.
    pub open spec fn hole_bottom_text(&self, row: int, col: int) -> Seq<char> {
        if row == self.rows - 1 || !self.is_cell(row + 1, col) {
            if col < self.columns - 1 && (self.is_cell(row, col + 1) || self.is_cell(
                row + 1,
                col + 1,
            )) {
                "   +"@
            } else {
                "    "@
            }
        } else {
            "---+"@
        }
    }

    /// What a coordinate shows in the middle line of its row.
    pub open spec fn top_text(&self, labels: Seq<Seq<char>>, row: int, col: int) -> Seq<char> {
        match self.lookup(row, col) {
            Some(i) => self.cells@[i as int].top_text(labels[i as int]),
            None => self.hole_top_text(row, col),
        }
    }

    /// What a coordinate shows in the lower line of its row.
    pub open spec fn bottom_text(&self, row: int, col: int) -> Seq<char> {
        match self.lookup(row, col) {
            Some(i) => self.cells@[i as int].bottom_text(),
            None => self.hole_bottom_text(row, col),
        }
    }

    /// How the middle line of a row starts: with the west wall, or with a
    /// blank where the first coordinate is a hole.
    pub open spec fn top_start(&self, row: int) -> Seq<char> {
        if self.columns > 0 && !self.is_cell(row, 0) {
            " "@
        } else {
            "|"@
        }
    }

    /// How the lower line of a row starts: with a corner, or with a blank
    /// where the first coordinate is a hole and nothing is below it.
    pub open spec fn bottom_start(&self, row: int) -> Seq<char> {
        if self.columns > 0 && !self.is_cell(row, 0) && (row == self.rows - 1 || !self.is_cell(
            row + 1,
            0,
        )) {
            " "@
        } else {
            "+"@
        }
    }

    /// The middle line of a row, up to column `upto`.
    pub open spec fn top_line(&self, labels: Seq<Seq<char>>, row: int, upto: int) -> Seq<char>
        decreases upto,
    {
        if upto <= 0 {
            self.top_start(row)
        } else {
            self.top_line(labels, row, upto - 1) + self.top_text(labels, row, upto - 1)
        }
    }

    /// The lower line of a row, up to column `upto`.
    pub open spec fn bottom_line(&self, row: int, upto: int) -> Seq<char>
        decreases upto,
    {
        if upto <= 0 {
            self.bottom_start(row)
        } else {
            self.bottom_line(row, upto - 1) + self.bottom_text(row, upto - 1)
        }
    }

    /// The picture from its first line to the end of row `upto - 1`: a
    /// carriage return, the top border, and two lines for each row.
    pub open spec fn picture_upto(&self, labels: Seq<Seq<char>>, upto: int) -> Seq<char>
        decreases upto,
    {
        if upto <= 0 {
            "\r"@ + (if self.rows > 0 {
                self.header_line(self.columns as int) + "\r\n"@
            } else {
                Seq::empty()
            })
        } else {
            self.picture_upto(labels, upto - 1) + self.top_line(
                labels,
                upto - 1,
                self.columns as int,
            ) + "\r\n"@ + self.bottom_line(upto - 1, self.columns as int) + "\r\n"@
        }
    }

    /// The picture of the grid in text: walls as `|`, `-` and `+`, each cell
    /// three characters wide with its label in the middle.
    pub open spec fn picture(&self, labels: Seq<Seq<char>>) -> Seq<char> {
        self.picture_upto(labels, self.rows as int)
    }

    /// Whether a cell stands at the coordinate.
    pub fn has_cell(&self, row: usize, col: usize) -> (b: bool)
        requires
            self.shape_ok(),
        ensures
            b == self.is_cell(row as int, col as int),
    {
        self.index_at(row, col).is_some()
    }

    /// The part of the top border above a column.
    pub fn header_piece(&self, col: usize) -> (s: String)
        requires
            self.shape_ok(),
            col < self.columns,
        ensures
            s@ == self.header_text(col as int),
    {
        if self.has_cell(0, col) {
            let mut s = String::from_str("+---");
            if col == self.columns - 1 {
                s.append("+");
            }
            s
        } else if col > 0 && self.has_cell(0, col - 1) {
            String::from_str("+   ")
        } else {
            String::from_str("    ")
        }
    }

    /// What a hole shows in the middle line of its row.
    pub fn hole_top_piece(&self, row: usize, col: usize) -> (s: String)
        requires
            self.shape_ok(),
            row < self.rows,
            col < self.columns,
        ensures
            s@ == self.hole_top_text(row as int, col as int),
    {
        if col == self.columns - 1 || (col > 0 && !self.has_cell(row, col + 1)) {
            String::from_str("    ")
        } else {
            String::from_str("   |")
        }
    }

    /// What a hole shows in the lower line of its row.
    pub fn hole_bottom_piece(&self, row: usize, col: usize) -> (s: String)
        requires
            self.shape_ok(),
            row < self.rows,
            col < self.columns,
        ensures
            s@ == self.hole_bottom_text(row as int, col as int),
    {
        if row == self.rows - 1 || !self.has_cell(row + 1, col) {
            if col < self.columns - 1 && (self.has_cell(row, col + 1) || self.has_cell(
                row + 1,
                col + 1,
            )) {
                String::from_str("   +")
            } else {
                String::from_str("    ")
            }
        } else {
            String::from_str("---+")
        }
    }

    /// The picture of the grid in text, with one label for each cell.
    pub fn render(&self, labels: &Vec<String>) -> (s: String)
        requires
            self.shape_ok(),
            labels@.len() == self.cells@.len(),
        ensures
            s@ == self.picture(texts(labels@)),
    {
        let ghost shown = texts(labels@);
        let mut output = String::from_str("\r");
        if self.rows > 0 {
            let mut col: usize = 0;
            let mut header = String::new();
            while col < self.columns
                invariant
                    self.shape_ok(),
                    col <= self.columns,
                    header@ == self.header_line(col as int),
                decreases self.columns - col,
            {
                header.append(self.header_piece(col).as_str());
                col = col + 1;
            }
            header.append("\r\n");
            output.append(header.as_str());
        }
        let mut row: usize = 0;
        while row < self.rows
            invariant
                self.shape_ok(),
                labels@.len() == self.cells@.len(),
                shown == texts(labels@),
                row <= self.rows,
                output@ == self.picture_upto(shown, row as int),
            decreases self.rows - row,
        {
            let mut top = if self.columns > 0 && !self.has_cell(row, 0) {
                String::from_str(" ")
            } else {
                String::from_str("|")
            };
            let mut bottom = if self.columns > 0 && !self.has_cell(row, 0) && (row == self.rows - 1
                || !self.has_cell(row + 1, 0)) {
                String::from_str(" ")
            } else {
                String::from_str("+")
            };
            let mut col: usize = 0;
            while col < self.columns
                invariant
                    self.shape_ok(),
                    labels@.len() == self.cells@.len(),
                    shown == texts(labels@),
                    row < self.rows,
                    col <= self.columns,
                    top@ == self.top_line(shown, row as int, col as int),
                    bottom@ == self.bottom_line(row as int, col as int),
                decreases self.columns - col,
            {
                match self.index_at(row, col) {
                    Some(i) => {
                        top.append(self.cells[i].top_piece(labels[i].as_str()).as_str());
                        bottom.append(self.cells[i].bottom_piece().as_str());
                    },
                    None => {
                        top.append(self.hole_top_piece(row, col).as_str());
                        bottom.append(self.hole_bottom_piece(row, col).as_str());
                    },
                }
                col = col + 1;
            }
            output.append(top.as_str());
            output.append("\r\n");
            output.append(bottom.as_str());
            output.append("\r\n");
            row = row + 1;
        }
        output
    }

    /// The picture of the grid in text with every cell blank. The formatter
    /// is not asked.
    pub fn to_string<F: CellFormatter>(&self, _contents: &F) -> (s: String)
        requires
            self.shape_ok(),
        ensures
            s@ == self.picture(blanks(self.cells@.len())),
    {
        let mut labels: Vec<String> = Vec::new();
        while labels.len() < self.cells.len()
            invariant
                labels@.len() <= self.cells@.len(),
                forall|i: int| 0 <= i < labels@.len() ==> (#[trigger] labels@[i])@ == " "@,
            decreases self.cells@.len() - labels@.len(),
        {
            labels.push(String::from_str(" "));
        }
        proof {
            assert(texts(labels@) =~= blanks(self.cells@.len()));
        }
        self.render(&labels)
    }

    /// The labels that a formatter gives the cells, by the cells' index.
    pub open spec fn labels_by<F: CellFormatter>(&self, contents: &F) -> Seq<Seq<char>> {
        Seq::new(self.cells@.len(), |i: int| contents.contents_spec(&self.cells@[i]))
    }

    /// The picture of the grid in text, each cell with the label that the
    /// formatter gives it.
    pub fn labelled<F: CellFormatter>(&self, contents: &F) -> (s: String)
        requires
            self.shape_ok(),
        ensures
            s@ == self.picture(self.labels_by(contents)),
    {
        let mut labels: Vec<String> = Vec::new();
        let mut i: usize = 0;
        while i < self.cells.len()
            invariant
                i <= self.cells@.len(),
                labels@.len() == i,
                forall|k: int|
                    0 <= k < i ==> (#[trigger] labels@[k])@ == contents.contents_spec(
                        &self.cells@[k],
                    ),
            decreases self.cells@.len() - i,
        {
            labels.push(contents.contents_of(&self.cells[i]));
            i = i + 1;
        }
        proof {
            assert(texts(labels@) =~= self.labels_by(contents));
        }
        self.render(&labels)
    }
}

} // verus!
