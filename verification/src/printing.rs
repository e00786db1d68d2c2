//! A plain-text table renderer: column headers, a rule above and below
//! them, and one padded line per row, columns separated by `|`. The
//! rendering itself is presentation, not analytics; only the table's
//! contents are specified exactly.

use vstd::prelude::*;
use vstd::string::StringExecFns;
use vstd::string::StrSliceExecFns;

verus! {

/// A table being assembled: its column names and its rows.
pub struct TablePrinter {
    column_names: Vec<String>,
    rows: Vec<Vec<String>>,
}

impl TablePrinter {
    /// The column names.
    pub closed spec fn columns_view(&self) -> Seq<Seq<char>> {
        self.column_names.deep_view()
    }

    /// The rows added so far, in order.
    pub closed spec fn rows_view(&self) -> Seq<Seq<Seq<char>>> {
        self.rows.deep_view()
    }

    /// An empty table with these column names.
    pub fn new(column_names: Vec<String>) -> (r: TablePrinter)
        ensures
            r.columns_view() == column_names.deep_view(),
            r.rows_view() == Seq::<Seq<Seq<char>>>::empty(),
    {
        let r = TablePrinter { column_names, rows: Vec::new() };
        proof {
            assert(r.rows_view() =~= Seq::<Seq<Seq<char>>>::empty());
        }
        r
    }

    /// Appends one row; it must have one cell per column.
    pub fn add_row(&mut self, row: Vec<String>)
        requires
            row@.len() == old(self).columns_view().len(),
        ensures
            final(self).columns_view() == old(self).columns_view(),
            final(self).rows_view() == old(self).rows_view().push(row.deep_view()),
    {
        let ghost prev = self.rows.deep_view();
        self.rows.push(row);
        proof {
            assert(self.rows.deep_view() =~= prev.push(self.rows@.last().deep_view()));
        }
    }

    /// Renders the table: a dashed rule, the centred column names, a rule of
    /// dashes joined by `+`, and one left-aligned line per row, every line
    /// ended by a line feed.
    pub fn print(&self) -> (r: String)
        ensures
            r@.len() > 0,
            r@.last() == '\n',
    {
        let ncols = self.column_names.len();
        let mut widths: Vec<usize> = Vec::new();
        let mut j: usize = 0;
        while j < ncols
            invariant
                ncols == self.column_names@.len(),
                0 <= j <= ncols,
                widths@.len() == j,
            decreases ncols - j,
        {
            let l = self.column_names[j].as_str().len();
            let w: usize = if l <= usize::MAX - 2 {
                l + 2
            } else {
                l
            };
            widths.push(w);
            j += 1;
        }
        let nrows = self.rows.len();
        let mut i: usize = 0;
        while i < nrows
            invariant
                nrows == self.rows@.len(),
                ncols == self.column_names@.len(),
                widths@.len() == ncols,
                0 <= i <= nrows,
            decreases nrows - i,
        {
            let row = &self.rows[i];
            let rcols = row.len();
            let mut j2: usize = 0;
            while j2 < rcols && j2 < ncols
                invariant
                    rcols == self.rows@[i as int]@.len(),
                    widths@.len() == ncols,
                    0 <= j2 <= rcols,
                    0 <= i < nrows,
                    nrows == self.rows@.len(),
                decreases rcols - j2,
            {
                let l = self.rows[i][j2].as_str().len();
                let w: usize = if l <= usize::MAX - 2 {
                    l + 2
                } else {
                    l
                };
                if w > widths[j2] {
                    widths.set(j2, w);
                }
                j2 += 1;
            }
            i += 1;
        }
        let mut total: usize = 0;
        let mut j3: usize = 0;
        while j3 < ncols
            invariant
                widths@.len() == ncols,
                0 <= j3 <= ncols,
            decreases ncols - j3,
        {
            let w = widths[j3];
            if total <= usize::MAX - 1 && w <= usize::MAX - 1 - total {
                total = total + w + 1;
            }
            j3 += 1;
        }
        if total > 0 {
            total = total - 1;
        }
        let mut out = String::new();
        append_repeat(&mut out, "-", total);
        out.append("\n");
        let mut j4: usize = 0;
        while j4 < ncols
            invariant
                ncols == self.column_names@.len(),
                widths@.len() == ncols,
                0 <= j4 <= ncols,
            decreases ncols - j4,
        {
            let name = &self.column_names[j4];
            let l = name.as_str().len();
            let used: usize = if l <= usize::MAX - 2 {
                l + 2
            } else {
                l
            };
            let pad: usize = if widths[j4] >= used {
                widths[j4] - used
            } else {
                0
            };
            append_repeat(&mut out, " ", pad / 2);
            out.append(" ");
            out.append(name.as_str());
            out.append(" ");
            append_repeat(&mut out, " ", pad / 2 + pad % 2);
            if j4 + 1 < ncols {
                out.append("|");
            }
            j4 += 1;
        }
        out.append("\n");
        let mut j5: usize = 0;
        while j5 < ncols
            invariant
                widths@.len() == ncols,
                0 <= j5 <= ncols,
            decreases ncols - j5,
        {
            if j5 > 0 {
                out.append("+");
            }
            append_repeat(&mut out, "-", widths[j5]);
            j5 += 1;
        }
        out.append("\n");
        proof {
            reveal_strlit("\n");
            assert(out@.len() > 0 && out@.last() == '\n');
        }
        let mut i2: usize = 0;
        while i2 < nrows
            invariant
                nrows == self.rows@.len(),
                ncols == self.column_names@.len(),
                widths@.len() == ncols,
                0 <= i2 <= nrows,
                out@.len() > 0 && out@.last() == '\n',
            decreases nrows - i2,
        {
            let row = &self.rows[i2];
            let rcols = row.len();
            let mut j6: usize = 0;
            while j6 < rcols && j6 < ncols
                invariant
                    rcols == self.rows@[i2 as int]@.len(),
                    ncols == self.column_names@.len(),
                    widths@.len() == ncols,
                    0 <= j6 <= rcols,
                    0 <= i2 < nrows,
                    nrows == self.rows@.len(),
                decreases rcols - j6,
            {
                let cell = &self.rows[i2][j6];
                let l = cell.as_str().len();
                let used: usize = if l <= usize::MAX - 2 {
                    l + 2
                } else {
                    l
                };
                let pad: usize = if widths[j6] >= used {
                    widths[j6] - used
                } else {
                    0
                };
                out.append(" ");
                out.append(cell.as_str());
                out.append(" ");
                append_repeat(&mut out, " ", pad);
                if j6 + 1 < ncols {
                    out.append("|");
                }
                j6 += 1;
            }
            out.append("\n");
            proof {
                reveal_strlit("\n");
                assert(out@.len() > 0 && out@.last() == '\n');
            }
            i2 += 1;
        }
        out
    }
}

/// Appends `n` copies of a single-character piece.
fn append_repeat(s: &mut String, piece: &str, n: usize)
    ensures
        final(s)@.len() >= old(s)@.len(),
        final(s)@.len() > 0 || old(s)@.len() == 0,
        final(s)@.take(old(s)@.len() as int) == old(s)@,
{
    proof {
        assert(s@.take(s@.len() as int) =~= s@);
    }
    let mut k: usize = 0;
    while k < n
        invariant
            s@.len() >= old(s)@.len(),
            s@.take(old(s)@.len() as int) == old(s)@,
        decreases n - k,
    {
        let ghost before = s@;
        s.append(piece);
        proof {
            assert(s@.take(old(s)@.len() as int) =~= before.take(old(s)@.len() as int));
        }
        k += 1;
    }
}

/// A record type that can present itself as table rows.
pub trait TablePrinting: Sized {
    /// The table's column names.
    fn get_column_names() -> Vec<String>;

    /// Appends this record's row to the printer.
    fn add_row(&self, table_printer: &mut TablePrinter);

    /// A printer filled with one row per record.
    fn create_printer(items: &Vec<Self>) -> TablePrinter;
}

/// A collection that can render itself as a table.
pub trait PrintAsTable {
    /// The rendered table text.
    fn print_as_table(&self) -> String;
}

} // verus!
