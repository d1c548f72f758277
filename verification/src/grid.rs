//! Texts in columns.
use crate::text::concat;
use crate::text::copy_all;
use crate::text::join;
use crate::text::pad;
use vstd::prelude::*;
use vstd::string::*;

verus! {

/// The cells of lines.
pub open spec fn cells(lines: Seq<Vec<String>>) -> Seq<Seq<Seq<char>>> {
    lines.map_values(|line: Vec<String>| crate::text::views(line@))
}

/// The width of a column: that of its widest cell.
pub open spec fn width(lines: Seq<Seq<Seq<char>>>, column: int) -> nat
    decreases lines.len(),
{
    if lines.len() == 0 {
        0
    } else {
        let before = width(lines.drop_last(), column);
        let length = lines.last()[column].len();
        if before < length {
            length
        } else {
            before
        }
    }
}

/// The widths of columns.
pub open spec fn widths(lines: Seq<Seq<Seq<char>>>, columns: nat) -> Seq<nat> {
    Seq::new(columns, |column: int| width(lines, column))
}

/// The cells of a line filled up to the widths of their columns, but for the last.
pub open spec fn filled(line: Seq<Seq<char>>, sizes: Seq<nat>) -> Seq<Seq<char>> {
    Seq::new(
        line.len(),
        |column: int|
            if column == line.len() - 1 {
                line[column]
            } else {
                crate::text::padded(line[column], sizes[column])
            },
    )
}

/// A line: its cells, two spaces between them, and the end of the line.
pub open spec fn line_text(line: Seq<Seq<char>>, sizes: Seq<nat>) -> Seq<char> {
    crate::text::joined(filled(line, sizes), "  "@) + "\n"@
}

/// Lines one below the other.
pub open spec fn lines_text(lines: Seq<Seq<Seq<char>>>, sizes: Seq<nat>) -> Seq<char>
    decreases lines.len(),
{
    if lines.len() == 0 {
        Seq::empty()
    } else {
        lines_text(lines.drop_last(), sizes) + line_text(lines.last(), sizes)
    }
}

/// A head and lines in columns.
pub open spec fn grid_text(head: Seq<Seq<char>>, lines: Seq<Seq<Seq<char>>>) -> Seq<char> {
    let all = seq![head] + lines;
    lines_text(all, widths(all, head.len()))
}

fn column_width(lines: &Vec<Vec<String>>, column: usize) -> (size: usize)
    requires
        forall|k: int| 0 <= k < lines@.len() ==> column < (#[trigger] lines@[k])@.len(),
    ensures
        size == width(cells(lines@), column as int),
{
    let ghost all = cells(lines@);
    let mut size: usize = 0;
    let mut i: usize = 0;
    while i < lines.len()
        invariant
            i <= lines@.len(),
            all == cells(lines@),
            forall|k: int| 0 <= k < lines@.len() ==> column < (#[trigger] lines@[k])@.len(),
            size == width(all.take(i as int), column as int),
        decreases lines@.len() - i,
    {
        assert(all.take(i + 1).drop_last() =~= all.take(i as int));
        assert(all.take(i + 1).last() == crate::text::views(lines@[i as int]@));
        let length: usize = lines[i][column].as_str().unicode_len();
        if size < length {
            size = length;
        }
        i = i + 1;
    }
    assert(all.take(lines@.len() as int) =~= all);
    size
}

fn line(cells: &Vec<String>, sizes: &Vec<usize>) -> (text: String)
    requires
        sizes@.len() >= cells@.len(),
    ensures
        text@ == line_text(
            crate::text::views(cells@),
            sizes@.map_values(|size: usize| size as nat),
        ),
{
    let ghost whole = crate::text::views(cells@);
    let ghost columns = sizes@.map_values(|size: usize| size as nat);
    let mut parts: Vec<String> = Vec::new();
    let mut i: usize = 0;
    while i < cells.len()
        invariant
            i <= cells@.len(),
            sizes@.len() >= cells@.len(),
            whole == crate::text::views(cells@),
            columns == sizes@.map_values(|size: usize| size as nat),
            parts@.len() == i,
            forall|k: int| 0 <= k < i ==> #[trigger] parts@[k]@ == filled(whole, columns)[k],
        decreases cells@.len() - i,
    {
        if i == cells.len() - 1 {
            parts.push(cells[i].clone());
        } else {
            parts.push(pad(cells[i].as_str(), sizes[i]));
        }
        i = i + 1;
    }
    assert(crate::text::views(parts@) =~= filled(whole, columns));
    let text = join(&parts, "  ");
    concat(text.as_str(), "\n")
}

/// A head and lines in columns.
pub fn grid(head: &Vec<String>, lines: &Vec<Vec<String>>) -> (text: String)
    requires
        forall|k: int| 0 <= k < lines@.len() ==> (#[trigger] lines@[k])@.len() == head@.len(),
    ensures
        text@ == grid_text(crate::text::views(head@), cells(lines@)),
{
    let mut all: Vec<Vec<String>> = Vec::new();
    all.push(copy_all(head));
    let mut i: usize = 0;
    while i < lines.len()
        invariant
            i <= lines@.len(),
            forall|k: int| 0 <= k < lines@.len() ==> (#[trigger] lines@[k])@.len() == head@.len(),
            forall|k: int| 0 <= k < all@.len() ==> (#[trigger] all@[k])@.len() == head@.len(),
            cells(all@) == seq![crate::text::views(head@)] + cells(lines@).take(i as int),
        decreases lines@.len() - i,
    {
        let ghost before = all@;
        let copy = copy_all(&lines[i]);
        assert(crate::text::views(copy@).len() == copy@.len());
        assert(crate::text::views(lines@[i as int]@).len() == lines@[i as int]@.len());
        all.push(copy);
        i = i + 1;
        proof {
            let done = cells(lines@).take(i as int);
            assert(cells(all@) =~= cells(before).push(crate::text::views(copy@)));
            assert(done =~= cells(lines@).take(i - 1).push(crate::text::views(lines@[i - 1]@)));
            assert(cells(all@) =~= seq![crate::text::views(head@)] + done);
        }
    }
    assert(cells(lines@).take(lines@.len() as int) =~= cells(lines@));
    let ghost whole = cells(all@);
    let mut sizes: Vec<usize> = Vec::new();
    let mut column: usize = 0;
    while column < head.len()
        invariant
            column <= head@.len(),
            whole == cells(all@),
            forall|k: int| 0 <= k < all@.len() ==> (#[trigger] all@[k])@.len() == head@.len(),
            sizes@.len() == column,
            forall|k: int| 0 <= k < column ==> #[trigger] sizes@[k] == width(whole, k),
        decreases head@.len() - column,
    {
        sizes.push(column_width(&all, column));
        column = column + 1;
    }
    let ghost columns = sizes@.map_values(|size: usize| size as nat);
    assert(columns =~= widths(whole, head@.len()));
    let mut text = String::new();
    let mut i: usize = 0;
    while i < all.len()
        invariant
            i <= all@.len(),
            sizes@.len() == head@.len(),
            columns == sizes@.map_values(|size: usize| size as nat),
            whole == cells(all@),
            forall|k: int| 0 <= k < all@.len() ==> (#[trigger] all@[k])@.len() == head@.len(),
            text@ == lines_text(whole.take(i as int), columns),
        decreases all@.len() - i,
    {
        assert(whole.take(i + 1).drop_last() =~= whole.take(i as int));
        assert(whole.take(i + 1).last() == crate::text::views(all@[i as int]@));
        let next = line(&all[i], &sizes);
        text = concat(text.as_str(), next.as_str());
        i = i + 1;
    }
    assert(whole.take(all@.len() as int) =~= whole);
    text
}

/// A column is as wide as its widest cell.
pub proof fn columns_fit_their_cells(lines: Seq<Seq<Seq<char>>>, column: int, i: int)
    requires
        0 <= i < lines.len(),
    ensures
        lines[i][column].len() <= width(lines, column),
        exists|k: int| 0 <= k < lines.len() && (#[trigger] lines[k])[column].len() == width(lines, column),
    decreases lines.len(),
{
    let rest = lines.drop_last();
    let last = lines.len() - 1;
    assert forall|j: int| 0 <= j < last implies #[trigger] lines[j] == rest[j] by {}
    assert(lines[last] == lines.last());
    if last > 0 {
        columns_fit_their_cells(
            rest,
            column,
            if i < last {
                i
            } else {
                0
            },
        );
        let k = choose|k: int|
            0 <= k < rest.len() && (#[trigger] rest[k])[column].len() == width(rest, column);
        assert(lines[k] == rest[k]);
    } else {
        assert(width(rest, column) == 0);
    }
}

/// In a line every cell but the last is filled up with spaces to the width of its column.
pub proof fn cells_are_filled_up(line: Seq<Seq<char>>, sizes: Seq<nat>, column: int, at: int)
    requires
        0 <= column < line.len() - 1,
    ensures
        ({
            let cell = filled(line, sizes)[column];
            &&& cell.len() == if line[column].len() < sizes[column] {
                sizes[column]
            } else {
                line[column].len()
            }
            &&& 0 <= at < line[column].len() ==> cell[at] == line[column][at]
            &&& line[column].len() <= at < sizes[column] ==> cell[at] == ' '
        }),
        filled(line, sizes).last() == line.last(),
{
}

} // verus!
