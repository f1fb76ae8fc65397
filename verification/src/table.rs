//! Left-aligned columns of text.
use vstd::prelude::*;

use crate::text::{chars_of, join, joined, space_padded, texts, trim_end, trimmed_end, with_spaces};

verus! {

/// What the rows of a table say.
pub open spec fn rows_view(rows: Seq<Vec<String>>) -> Seq<Seq<Seq<char>>> {
    rows.map_values(|r: Vec<String>| texts(r@))
}

/// How long the cell at position `j` of a row is.
pub open spec fn cell_length(row: Seq<Seq<char>>, j: int) -> nat {
    if j < row.len() {
        row[j].len()
    } else {
        0
    }
}

/// How wide the column at position `j` is: as wide as its longest cell.
pub open spec fn width(header: Seq<Seq<char>>, rows: Seq<Seq<Seq<char>>>, j: int) -> nat
    decreases rows.len(),
{
    if rows.len() == 0 {
        header[j].len()
    } else {
        let before = width(header, rows.drop_last(), j);
        let here = cell_length(rows.last(), j);
        if here > before {
            here
        } else {
            before
        }
    }
}

/// How wide each column is.
pub open spec fn widths(header: Seq<Seq<char>>, rows: Seq<Seq<Seq<char>>>) -> Seq<nat> {
    Seq::new(header.len(), |j: int| width(header, rows, j))
}

/// The cells of a row, each as wide as its column.
pub open spec fn padded(cells: Seq<Seq<char>>, widths: Seq<nat>) -> Seq<Seq<char>> {
    Seq::new(
        if cells.len() < widths.len() {
            cells.len()
        } else {
            widths.len()
        },
        |j: int| space_padded(cells[j], widths[j]),
    )
}

/// One line of a table: two spaces between the columns, none at the end.
pub open spec fn line(cells: Seq<Seq<char>>, widths: Seq<nat>) -> Seq<char> {
    trim_end(join(padded(cells, widths), "  "@)) + "\n"@
}

/// The lines of several rows.
pub open spec fn lines(rows: Seq<Seq<Seq<char>>>, widths: Seq<nat>) -> Seq<char>
    decreases rows.len(),
{
    if rows.len() == 0 {
        seq![]
    } else {
        lines(rows.drop_last(), widths) + line(rows.last(), widths)
    }
}

/// A table: left-aligned columns separated by two spaces.
pub open spec fn table_text(header: Seq<Seq<char>>, rows: Seq<Seq<Seq<char>>>) -> Seq<char> {
    line(header, widths(header, rows)) + lines(rows, widths(header, rows))
}

/// What column widths say.
pub open spec fn counts(widths: Seq<usize>) -> Seq<nat> {
    widths.map_values(|w: usize| w as nat)
}

/// How wide each column is.
fn widths_of(header: &[String], rows: &[Vec<String>]) -> (r: Vec<usize>)
    ensures
        counts(r@) == widths(texts(header@), rows_view(rows@)),
{
    let ghost head = texts(header@);
    let ghost all = rows_view(rows@);
    let mut r: Vec<usize> = Vec::with_capacity(header.len());
    for j in 0..header.len()
        invariant
            head == texts(header@),
            r@.len() == j,
            forall|k: int| 0 <= k < j ==> #[trigger] r@[k] == head[k].len(),
    {
        assert(head[j as int] == header@[j as int]@);
        r.push(chars_of(&header[j]).len());
    }
    for i in 0..rows.len()
        invariant
            head == texts(header@),
            all == rows_view(rows@),
            r@.len() == head.len(),
            forall|k: int| 0 <= k < head.len() ==> #[trigger] r@[k] == width(head, all.take(i as int), k),
    {
        let row = &rows[i];
        let n = r.len();
        let ghost seen = all.take(i as int);
        let ghost more = all.take(i + 1);
        assert(more.drop_last() =~= seen);
        assert(more.last() == texts(row@));
        for j in 0..n
            invariant
                n == r@.len(),
                r@.len() == head.len(),
                more.len() > 0,
                more.drop_last() == seen,
                more.last() == texts(row@),
                forall|k: int| j <= k < head.len() ==> #[trigger] r@[k] == width(head, seen, k),
                forall|k: int| 0 <= k < j ==> #[trigger] r@[k] == width(head, more, k),
        {
            if j < row.len() {
                let here = chars_of(&row[j]).len();
                assert(texts(row@)[j as int] == row@[j as int]@);
                if here > r[j] {
                    r.set(j, here);
                }
            }
        }
    }
    assert(all.take(rows@.len() as int) =~= all);
    assert(counts(r@) =~= widths(head, all));
    r
}

/// One line of a table.
fn line_of(cells: &[String], widths: &[usize]) -> (r: String)
    ensures
        r@ == line(texts(cells@), counts(widths@)),
{
    let n = if cells.len() < widths.len() {
        cells.len()
    } else {
        widths.len()
    };
    let mut parts: Vec<String> = Vec::with_capacity(n);
    for j in 0..n
        invariant
            n <= cells@.len(),
            n <= widths@.len(),
            parts@.len() == j,
            forall|k: int| 0 <= k < j ==> (#[trigger] parts@[k])@ == space_padded(cells@[k]@, widths@[k] as nat),
    {
        parts.push(with_spaces(&cells[j], widths[j]));
    }
    assert(texts(parts@) =~= padded(texts(cells@), counts(widths@)));
    trimmed_end(&joined(&parts, "  ")).concat("\n")
}

/// Left-aligned columns separated by two spaces.
#[must_use]
pub fn table(header: &[String], rows: &[Vec<String>]) -> (r: String)
    ensures
        r@ == table_text(texts(header@), rows_view(rows@)),
{
    let widths = widths_of(header, rows);
    let mut r = line_of(header, &widths);
    let ghost first = r@;
    let ghost all = rows_view(rows@);
    assert(first =~= first + lines(all.take(0), counts(widths@)));
    for i in 0..rows.len()
        invariant
            all == rows_view(rows@),
            r@ == first + lines(all.take(i as int), counts(widths@)),
    {
        assert(all.take(i + 1).drop_last() =~= all.take(i as int));
        assert(all.take(i + 1).last() == texts(rows@[i as int]@));
        r.append(&line_of(&rows[i], &widths));
        assert(r@ =~= first + lines(all.take(i + 1), counts(widths@)));
    }
    assert(all.take(rows@.len() as int) =~= all);
    r
}

/// A column is as wide as its widest cell: no cell is wider, and one is as wide.
pub proof fn law_a_column_fits_its_cells(header: Seq<Seq<char>>, rows: Seq<Seq<Seq<char>>>, j: int)
    requires
        0 <= j < header.len(),
    ensures
        widths(header, rows).len() == header.len(),
        widths(header, rows)[j] >= header[j].len(),
        forall|i: int|
            0 <= i < rows.len() && j < (#[trigger] rows[i]).len() ==> widths(header, rows)[j] >= rows[i][j].len(),
        widths(header, rows)[j] == header[j].len() || exists|i: int|
            0 <= i < rows.len() && j < (#[trigger] rows[i]).len() && widths(header, rows)[j] == rows[i][j].len(),
    decreases rows.len(),
{
    if rows.len() > 0 {
        let before = rows.drop_last();
        law_a_column_fits_its_cells(header, before, j);
        assert(width(header, before, j) == widths(header, before)[j]);
        assert forall|i: int| 0 <= i < rows.len() && j < (#[trigger] rows[i]).len() implies widths(header, rows)[j]
            >= rows[i][j].len() by {
            if i < before.len() {
                assert(before[i] == rows[i]);
            }
        }
        if widths(header, rows)[j] == widths(header, before)[j] {
            if widths(header, before)[j] != header[j].len() {
                let i = choose|i: int|
                    0 <= i < before.len() && j < (#[trigger] before[i]).len() && widths(header, before)[j]
                        == before[i][j].len();
                assert(rows[i] == before[i]);
            }
        } else {
            assert(rows[rows.len() - 1] == rows.last());
        }
    }
}

/// The cells of every row stand under those of the header: each starts where its
/// column does, two places after the one before it ends, with spaces between them.
pub proof fn law_cells_are_aligned(cells: Seq<Seq<char>>, widths: Seq<nat>) -> (starts: Seq<int>)
    requires
        cells.len() == widths.len(),
        forall|j: int| 0 <= j < cells.len() ==> (#[trigger] cells[j]).len() <= widths[j],
    ensures
        starts.len() == widths.len(),
        starts.len() > 0 ==> starts[0] == 0,
        forall|j: int| 0 <= j < widths.len() - 1 ==> starts[j + 1] == #[trigger] starts[j] + widths[j] + 2,
        ({
            let text = join(padded(cells, widths), "  "@);
            &&& line(cells, widths) == trim_end(text) + "\n"@
            &&& text.len() == (if cells.len() == 0 {
                0
            } else {
                starts.last() + widths.last()
            })
            &&& forall|j: int, x: int|
                0 <= j < cells.len() && 0 <= x < cells[j].len() ==> text[starts[j] + x] == #[trigger] cells[j][x]
            &&& forall|j: int, y: int|
                0 <= j < cells.len() - 1 && #[trigger] starts[j] + cells[j].len() <= y < starts[j] + widths[j] + 2
                    ==> #[trigger] text[y] == ' '
            &&& forall|y: int|
                cells.len() > 0 && starts.last() + cells.last().len() <= y < text.len() ==> #[trigger] text[y] == ' '
        }),
    decreases cells.len(),
{
    reveal_strlit("  ");
    if cells.len() == 0 {
        seq![]
    } else {
        let n = cells.len() - 1;
        let before = cells.drop_last();
        let narrower = widths.drop_last();
        let starts = law_cells_are_aligned(before, narrower);
        let all = padded(cells, widths);
        assert(all.drop_last() =~= padded(before, narrower));
        let head = join(padded(before, narrower), "  "@);
        let text = join(all, "  "@);
        let here = if n == 0 {
            0
        } else {
            starts.last() + narrower.last() + 2
        };
        let r = starts.push(here);
        assert(all.last() == space_padded(cells[n], widths[n]));
        if n == 0 {
            assert(all[0] == all.last());
            assert(text == all.last());
        } else {
            assert(text == head + "  "@ + all.last());
            assert(head.len() + 2 == here);
        }
        assert forall|j: int, x: int| 0 <= j < cells.len() && 0 <= x < cells[j].len() implies text[r[j] + x]
            == #[trigger] cells[j][x] by {
            if j < n {
                assert(before[j] == cells[j]);
                assert(head[starts[j] + x] == before[j][x]);
                lemma_inside(narrower, starts, j);
            }
        }
        assert forall|j: int, y: int|
            0 <= j < cells.len() - 1 && #[trigger] r[j] + cells[j].len() <= y < r[j] + widths[j] + 2 implies #[trigger] text[y]
            == ' ' by {
            assert(before[j] == cells[j]);
            assert(r[j] == starts[j]);
            if j < n - 1 {
                lemma_inside(narrower, starts, j);
                lemma_inside(narrower, starts, j + 1);
                assert(starts[j + 1] == starts[j] + narrower[j] + 2);
                assert(head[y] == ' ');
            } else if y < head.len() {
                assert(starts.last() == starts[j]);
                assert(head[y] == ' ');
            }
        }
        assert forall|j: int| 0 <= j < widths.len() - 1 implies r[j + 1] == #[trigger] r[j] + widths[j] + 2 by {
            if j < n - 1 {
                assert(starts[j + 1] == starts[j] + narrower[j] + 2);
            }
        }
        if n > 0 {
            assert(r[0] == starts[0]);
        }
        r
    }
}

/// A column ends within the text of its line.
proof fn lemma_inside(widths: Seq<nat>, starts: Seq<int>, j: int)
    requires
        0 <= j < widths.len(),
        starts.len() == widths.len(),
        starts[0] == 0,
        forall|j: int| 0 <= j < widths.len() - 1 ==> starts[j + 1] == #[trigger] starts[j] + widths[j] + 2,
    ensures
        0 <= starts[j],
        starts[j] + widths[j] <= starts.last() + widths.last(),
{
    if j < widths.len() - 1 {
        lemma_inside_from(widths, starts, j, widths.len() - 1);
    }
    lemma_inside_from(widths, starts, 0, j);
}

proof fn lemma_inside_from(widths: Seq<nat>, starts: Seq<int>, i: int, j: int)
    requires
        0 <= i <= j < widths.len(),
        starts.len() == widths.len(),
        forall|j: int| 0 <= j < widths.len() - 1 ==> starts[j + 1] == #[trigger] starts[j] + widths[j] + 2,
    ensures
        starts[i] <= starts[j],
        i < j ==> starts[i] + widths[i] + 2 <= starts[j],
    decreases j - i,
{
    if i < j {
        lemma_inside_from(widths, starts, i, j - 1);
        assert(starts[j - 1 + 1] == starts[j - 1] + widths[j - 1] + 2);
    }
}

/// A table is a line for its header and then one for each row, in order, all with
/// the same columns.
pub proof fn law_a_line_for_each_row(header: Seq<Seq<char>>, rows: Seq<Seq<Seq<char>>>, row: Seq<Seq<char>>, widths: Seq<nat>)
    ensures
        table_text(header, rows) == line(header, self::widths(header, rows)) + lines(rows, self::widths(header, rows)),
        lines(rows.push(row), widths) == lines(rows, widths) + line(row, widths),
        lines(Seq::<Seq<Seq<char>>>::empty(), widths).len() == 0,
{
    assert(rows.push(row).drop_last() =~= rows);
}

}
