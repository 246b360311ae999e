use vstd::prelude::*;
use vstd::string::StringExecFns;
use crate::grid::PuzzleGrid;
use crate::text::push_char;

verus! {

/// A row's cells joined by commas: "c0,c1,...", empty for an empty row.
pub open spec fn joined_cells(row: Seq<char>) -> Seq<char>
    decreases row.len(),
{
    if row.len() == 0 {
        Seq::empty()
    } else if row.len() == 1 {
        seq![row[0]]
    } else {
        joined_cells(row.drop_last()) + seq![',', row.last()]
    }
}

/// One grid row as serialized: three empty fields (three commas), then
/// the row's cells comma-joined, then a newline.
pub open spec fn row_text(row: Seq<char>) -> Seq<char> {
    seq![',', ',', ','] + joined_cells(row) + seq!['\n']
}

/// The grid section: every row's line, in order.
pub open spec fn grid_text(cells: Seq<Seq<char>>) -> Seq<char>
    decreases cells.len(),
{
    if cells.len() == 0 {
        Seq::empty()
    } else {
        grid_text(cells.drop_last()) + row_text(cells.last())
    }
}

/// One word of the word-list section, at (0-based) position `j`: three
/// empty fields then the word, and a newline after every second word.
pub open spec fn entry_text(w: Seq<char>, j: int) -> Seq<char> {
    if j % 2 == 1 {
        seq![',', ',', ','] + w + seq!['\n']
    } else {
        seq![',', ',', ','] + w
    }
}

/// The word-list section: the placed words in placement order, two to a
/// line.
pub open spec fn words_text(entries: Seq<Seq<char>>) -> Seq<char>
    decreases entries.len(),
{
    if entries.len() == 0 {
        Seq::empty()
    } else {
        words_text(entries.drop_last()) + entry_text(entries.last(), entries.len() - 1)
    }
}

/// The whole tabular output: the grid section, three blank lines, then
/// the word list.
pub open spec fn output_text_spec(cells: Seq<Seq<char>>, entries: Seq<Seq<char>>) -> Seq<char> {
    grid_text(cells) + seq!['\n', '\n', '\n'] + words_text(entries)
}

impl PuzzleGrid {
    /// Serializes the puzzle in the tabular output format; the caller
    /// writes the text to its destination. Called once for the answer
    /// key (before fill-in) and once for the finished puzzle (after).
    pub fn output_text(&self) -> (r: String)
        ensures
            r@ == output_text_spec(self.cells(), self.entries_view()),
    {
        let mut out = String::new();

        // puzzle grid
        let rows = self.rows();
        let mut yy: usize = 0;
        while yy < rows
            invariant
                rows == self.cells().len(),
                yy <= rows,
                out@ == grid_text(self.cells().subrange(0, yy as int)),
            decreases rows - yy,
        {
            push_char(&mut out, ',');
            push_char(&mut out, ',');
            push_char(&mut out, ',');
            let ghost sofar = out@;
            proof {
                assert(sofar =~= grid_text(self.cells().subrange(0, yy as int)) + seq![
                    ',',
                    ',',
                    ',',
                ]);
                assert(self.cells()[yy as int].subrange(0, 0) =~= Seq::<char>::empty());
            }
            let cols = self.row_len(yy);
            let mut xx: usize = 0;
            while xx < cols
                invariant
                    rows == self.cells().len(),
                    yy < rows,
                    cols == self.cells()[yy as int].len(),
                    xx <= cols,
                    sofar == grid_text(self.cells().subrange(0, yy as int)) + seq![',', ',', ','],
                    out@ == sofar + joined_cells(self.cells()[yy as int].subrange(0, xx as int)),
                decreases cols - xx,
            {
                if xx > 0 {
                    push_char(&mut out, ',');
                }
                let c = self.cell_at(xx, yy);
                push_char(&mut out, c);
                xx += 1;
                proof {
                    let row = self.cells()[yy as int];
                    assert(row.subrange(0, xx as int).drop_last() =~= row.subrange(
                        0,
                        xx as int - 1,
                    ));
                    assert(out@ =~= sofar + joined_cells(row.subrange(0, xx as int)));
                }
            }
            push_char(&mut out, '\n');
            yy += 1;
            proof {
                let rs = self.cells();
                assert(rs.subrange(0, yy as int).drop_last() =~= rs.subrange(0, yy as int - 1));
                assert(rs[yy as int - 1].subrange(0, rs[yy as int - 1].len() as int) =~= rs[yy
                    as int - 1]);
                assert(out@ =~= grid_text(rs.subrange(0, yy as int)));
            }
        }
        proof {
            assert(self.cells().subrange(0, self.cells().len() as int) =~= self.cells());
        }

        // search words
        push_char(&mut out, '\n');
        push_char(&mut out, '\n');
        push_char(&mut out, '\n');
        let ghost mid = out@;
        proof {
            assert(mid =~= grid_text(self.cells()) + seq!['\n', '\n', '\n']);
            assert(self.entries_view().subrange(0, 0) =~= Seq::<Seq<char>>::empty());
        }
        let count = self.entry_count();
        let mut k: usize = 0;
        let mut i: usize = 0;
        while k < count
            invariant
                count == self.entries_view().len(),
                k <= count,
                i == k % 2,
                mid == grid_text(self.cells()) + seq!['\n', '\n', '\n'],
                out@ == mid + words_text(self.entries_view().subrange(0, k as int)),
            decreases count - k,
        {
            push_char(&mut out, ',');
            push_char(&mut out, ',');
            push_char(&mut out, ',');
            let entry = self.entry_at(k);
            out.append(entry.as_str());
            i += 1;
            if i == 2 {
                push_char(&mut out, '\n');
                i = 0;
            }
            k += 1;
            proof {
                let es = self.entries_view();
                assert(es.subrange(0, k as int).drop_last() =~= es.subrange(0, k as int - 1));
                assert(out@ =~= mid + words_text(es.subrange(0, k as int)));
            }
        }
        proof {
            assert(self.entries_view().subrange(0, self.entries_view().len() as int)
                =~= self.entries_view());
        }
        out
    }
}

} // verus!
