//! The grid of a table: every cell laid out over the rows and columns that it spans.

use vstd::prelude::*;

use crate::tables::parse::{cells_of, rows_of, Cell, ParsedCell, ParsedRow, Row, TableError};
use crate::text::copy_of;

verus! {

/// A table laid out: each row has `width` places, and a place holds the text of the cell that
/// covers it, if there is one.
#[verifier::ext_equal]
pub struct Grid {
    pub rows: Seq<Seq<Option<Seq<char>>>>,
    pub width: nat,
}

/// A row of `width` places that no cell covers.
pub open spec fn blank_row(width: nat) -> Seq<Option<Seq<char>>> {
    Seq::new(width, |j: int| None)
}

/// `row` with places added up to `width`.
pub open spec fn widen_row(row: Seq<Option<Seq<char>>>, width: nat) -> Seq<Option<Seq<char>>> {
    Seq::new(
        if row.len() < width {
            width
        } else {
            row.len()
        },
        |j: int|
            if j < row.len() {
                row[j]
            } else {
                None
            },
    )
}

/// `rows` with places added to each up to `width`.
pub open spec fn widen(rows: Seq<Seq<Option<Seq<char>>>>, width: nat) -> Seq<
    Seq<Option<Seq<char>>>,
> {
    Seq::new(rows.len(), |i: int| widen_row(rows[i], width))
}

/// `rows` with blank rows of `width` places added up to `count` rows.
pub open spec fn deepen(rows: Seq<Seq<Option<Seq<char>>>>, count: nat, width: nat) -> Seq<
    Seq<Option<Seq<char>>>,
> {
    Seq::new(
        if rows.len() < count {
            count
        } else {
            rows.len()
        },
        |i: int|
            if i < rows.len() {
                rows[i]
            } else {
                blank_row(width)
            },
    )
}

/// `rows` with `text` in the places of `height` rows from `top` on and `width` columns from
/// `left` on.
pub open spec fn fill(
    rows: Seq<Seq<Option<Seq<char>>>>,
    top: int,
    left: int,
    height: nat,
    width: nat,
    text: Seq<char>,
) -> Seq<Seq<Option<Seq<char>>>> {
    Seq::new(
        rows.len(),
        |i: int|
            Seq::new(
                rows[i].len(),
                |j: int|
                    if top <= i < top + height && left <= j < left + width {
                        Some(text)
                    } else {
                        rows[i][j]
                    },
            ),
    )
}

/// The first column at or behind `col` whose place in `row` is not covered.
pub open spec fn free_column(row: Seq<Option<Seq<char>>>, col: int) -> int
    decreases row.len() - col,
{
    if 0 <= col < row.len() && row[col] is Some {
        free_column(row, col + 1)
    } else {
        col
    }
}

/// The grid with `cell` laid out in the row `r`, at the first free column from `col` on, and
/// the column behind it. The grid grows by the columns and rows that the cell needs.
pub open spec fn place_cell(g: Grid, r: int, col: int, cell: Cell) -> (Grid, int) {
    let left = free_column(g.rows[r], col);
    let width = if left + cell.colspan > g.width {
        (left + cell.colspan) as nat
    } else {
        g.width
    };
    let rows = deepen(widen(g.rows, width), (r + cell.rowspan) as nat, width);
    (
        Grid { rows: fill(rows, r, left, cell.rowspan, cell.colspan, cell.text), width },
        left + cell.colspan,
    )
}

/// The grid with `cells` laid out in the row `r` from the column `col` on.
pub open spec fn place_cells(g: Grid, r: int, col: int, cells: Seq<Cell>) -> Grid
    decreases cells.len(),
{
    if cells.len() == 0 {
        g
    } else {
        let (next, behind) = place_cell(g, r, col, cells[0]);
        place_cells(next, r, behind, cells.skip(1))
    }
}

/// The grid with `rows` laid out, the first of them in the row `r`.
pub open spec fn place_rows(g: Grid, r: int, rows: Seq<Row>) -> Grid
    decreases rows.len(),
{
    if rows.len() == 0 {
        g
    } else {
        let deeper = Grid { rows: deepen(g.rows, (r + 1) as nat, g.width), width: g.width };
        place_rows(place_cells(deeper, r, 0, rows[0].cells), r + 1, rows.skip(1))
    }
}

/// The table with `rows` laid out.
pub open spec fn expand(rows: Seq<Row>) -> Grid {
    place_rows(Grid { rows: Seq::empty(), width: 0 }, 0, rows)
}

/// How many columns `cells` ask for, all together.
pub open spec fn columns_asked(cells: Seq<Cell>) -> nat
    decreases cells.len(),
{
    if cells.len() == 0 {
        0
    } else {
        cells[0].colspan + columns_asked(cells.skip(1))
    }
}

/// How many columns the cells of all `rows` ask for, all together.
pub open spec fn all_columns_asked(rows: Seq<Row>) -> nat
    decreases rows.len(),
{
    if rows.len() == 0 {
        0
    } else {
        columns_asked(rows[0].cells) + all_columns_asked(rows.skip(1))
    }
}

/// Whether the spans of all cells stay within what a machine can count: the columns they ask
/// for, and the last row that each one reaches.
pub open spec fn spans_fit(rows: Seq<Row>) -> bool {
    &&& all_columns_asked(rows) <= usize::MAX
    &&& forall|i: int, k: int|
        0 <= i < rows.len() && 0 <= k < rows[i].cells.len() ==> i + (
        #[trigger] rows[i].cells[k]).rowspan <= usize::MAX
}

/// A grid whose rows all have `width` places.
pub open spec fn rectangular(g: Grid) -> bool {
    forall|i: int| 0 <= i < g.rows.len() ==> (#[trigger] g.rows[i]).len() == g.width
}

/// The text that a place holds.
pub open spec fn place_text(place: Option<Vec<char>>) -> Option<Seq<char>> {
    match place {
        Some(text) => Some(text@),
        None => None,
    }
}

/// The texts that the places of a row hold.
pub open spec fn row_texts(row: Seq<Option<Vec<char>>>) -> Seq<Option<Seq<char>>> {
    Seq::new(row.len(), |j: int| place_text(row[j]))
}

/// The texts that the places of all rows hold.
pub open spec fn grid_texts(rows: Seq<Vec<Option<Vec<char>>>>) -> Seq<Seq<Option<Seq<char>>>> {
    Seq::new(rows.len(), |i: int| row_texts(rows[i]@))
}

/// A table laid out.
pub struct ExpandedTable {
    pub grid: Vec<Vec<Option<Vec<char>>>>,
    pub width: usize,
}

impl View for ExpandedTable {
    type V = Grid;

    open spec fn view(&self) -> Grid {
        Grid { rows: grid_texts(self.grid@), width: self.width as nat }
    }
}

proof fn lemma_free_column(row: Seq<Option<Seq<char>>>, col: int)
    requires
        0 <= col <= row.len(),
    ensures
        col <= free_column(row, col) <= row.len(),
    decreases row.len() - col,
{
    if col < row.len() && row[col] is Some {
        lemma_free_column(row, col + 1);
    }
}

fn first_free(row: &Vec<Option<Vec<char>>>, from: usize) -> (col: usize)
    requires
        from <= row@.len(),
    ensures
        col == free_column(row_texts(row@), from as int),
        from <= col <= row@.len(),
{
    let mut col: usize = from;
    while col < row.len() && row[col].is_some()
        invariant
            from <= col <= row@.len(),
            free_column(row_texts(row@), from as int) == free_column(row_texts(row@), col as int),
        decreases row.len() - col,
    {
        assert(row_texts(row@)[col as int] is Some);
        col += 1;
    }
    col
}

fn blank(width: usize) -> (row: Vec<Option<Vec<char>>>)
    ensures
        row_texts(row@) == blank_row(width as nat),
        row@.len() == width,
{
    let mut row: Vec<Option<Vec<char>>> = Vec::new();
    while row.len() < width
        invariant
            row@.len() <= width,
            forall|j: int| 0 <= j < row@.len() ==> (#[trigger] row@[j]) is None,
        decreases width - row.len(),
    {
        row.push(None);
    }
    assert(row_texts(row@) =~= blank_row(width as nat));
    row
}

/// Adds blank rows up to `count` rows.
fn ensure_rows(grid: &mut Vec<Vec<Option<Vec<char>>>>, count: usize, width: usize)
    ensures
        grid_texts(final(grid)@) == deepen(grid_texts(old(grid)@), count as nat, width as nat),
{
    let ghost before = grid_texts(grid@);
    while grid.len() < count
        invariant
            before.len() <= grid@.len(),
            grid@.len() <= count || grid@.len() == before.len(),
            grid_texts(grid@) == deepen(before, grid@.len(), width as nat),
        decreases count - grid.len(),
    {
        let ghost shorter = grid@;
        grid.push(blank(width));
        assert(grid_texts(grid@) =~= grid_texts(shorter).push(blank_row(width as nat)));
        assert(grid_texts(grid@) =~= deepen(before, grid@.len(), width as nat));
    }
    assert(grid_texts(grid@) =~= deepen(before, count as nat, width as nat));
}

fn widened(row: Vec<Option<Vec<char>>>, width: usize) -> (out: Vec<Option<Vec<char>>>)
    ensures
        row_texts(out@) == widen_row(row_texts(row@), width as nat),
{
    let mut out = row;
    let ghost before = out@;
    while out.len() < width
        invariant
            before.len() <= out@.len(),
            out@.len() <= width || out@.len() == before.len(),
            forall|j: int| 0 <= j < before.len() ==> out@[j] == before[j],
            forall|j: int| before.len() <= j < out@.len() ==> (#[trigger] out@[j]) is None,
        decreases width - out.len(),
    {
        out.push(None);
    }
    assert(row_texts(out@) =~= widen_row(row_texts(before), width as nat));
    out
}

/// Adds places to each row up to `width`.
fn resize_width(grid: &mut Vec<Vec<Option<Vec<char>>>>, width: usize)
    ensures
        grid_texts(final(grid)@) == widen(grid_texts(old(grid)@), width as nat),
{
    let ghost before = grid@;
    let mut i: usize = 0;
    while i < grid.len()
        invariant
            i <= grid@.len(),
            grid@.len() == before.len(),
            forall|k: int|
                0 <= k < i ==> row_texts(#[trigger] grid@[k]@) == widen_row(
                    row_texts(before[k]@),
                    width as nat,
                ),
            forall|k: int| i <= k < grid@.len() ==> #[trigger] grid@[k] == before[k],
        decreases grid.len() - i,
    {
        let mut row: Vec<Option<Vec<char>>> = Vec::new();
        std::mem::swap(&mut row, &mut grid[i]);
        let wide = widened(row, width);
        grid[i] = wide;
        i += 1;
    }
    assert(grid_texts(grid@) =~= widen(grid_texts(before), width as nat));
}

/// Puts `text` into the places from `left` to `right` of a row.
fn fill_row(
    row: Vec<Option<Vec<char>>>,
    left: usize,
    right: usize,
    text: &Vec<char>,
) -> (out: Vec<Option<Vec<char>>>)
    requires
        left <= right <= row@.len(),
    ensures
        row_texts(out@) == Seq::new(
            row@.len(),
            |j: int|
                if left <= j < right {
                    Some(text@)
                } else {
                    row_texts(row@)[j]
                },
        ),
{
    let mut out = row;
    let ghost before = out@;
    let mut j: usize = left;
    while j < right
        invariant
            left <= j <= right <= out@.len(),
            out@.len() == before.len(),
            forall|k: int| left <= k < j ==> place_text(#[trigger] out@[k]) == Some(text@),
            forall|k: int|
                0 <= k < out@.len() && !(left <= k < j) ==> #[trigger] out@[k] == before[k],
        decreases right - j,
    {
        out[j] = Some(copy_of(text));
        j += 1;
    }
    assert(row_texts(out@) =~= Seq::new(
        before.len(),
        |j: int|
            if left <= j < right {
                Some(text@)
            } else {
                row_texts(before)[j]
            },
    ));
    out
}

/// Puts the text of `cell` into the places that it covers, its first at `top` and `left`.
fn fill_cell(grid: &mut Vec<Vec<Option<Vec<char>>>>, top: usize, left: usize, cell: &ParsedCell)
    requires
        top + cell.rowspan <= old(grid)@.len(),
        forall|i: int|
            0 <= i < old(grid)@.len() ==> left + cell.colspan <= (#[trigger] old(
                grid,
            )@[i])@.len(),
        left + cell.colspan <= usize::MAX,
        top + cell.rowspan <= usize::MAX,
    ensures
        grid_texts(final(grid)@) == fill(
            grid_texts(old(grid)@),
            top as int,
            left as int,
            cell.rowspan as nat,
            cell.colspan as nat,
            cell.text@,
        ),
{
    let ghost before = grid@;
    let ghost wanted = fill(
        grid_texts(before),
        top as int,
        left as int,
        cell.rowspan as nat,
        cell.colspan as nat,
        cell.text@,
    );
    let mut i: usize = top;
    while i < top + cell.rowspan
        invariant
            top <= i <= top + cell.rowspan <= grid@.len(),
            top + cell.rowspan <= usize::MAX,
            left + cell.colspan <= usize::MAX,
            grid@.len() == before.len(),
            forall|k: int|
                0 <= k < before.len() ==> left + cell.colspan <= (#[trigger] before[k])@.len(),
            wanted == fill(
                grid_texts(before),
                top as int,
                left as int,
                cell.rowspan as nat,
                cell.colspan as nat,
                cell.text@,
            ),
            forall|k: int| top <= k < i ==> row_texts(#[trigger] grid@[k]@) == wanted[k],
            forall|k: int|
                0 <= k < grid@.len() && !(top <= k < i) ==> #[trigger] grid@[k] == before[k],
        decreases top + cell.rowspan - i,
    {
        let mut row: Vec<Option<Vec<char>>> = Vec::new();
        std::mem::swap(&mut row, &mut grid[i]);
        assert(row == before[i as int]);
        let filled = fill_row(row, left, left + cell.colspan, &cell.text);
        assert(row_texts(filled@) =~= wanted[i as int]);
        grid[i] = filled;
        i += 1;
    }
    assert forall|k: int| 0 <= k < grid@.len() implies #[trigger] grid_texts(grid@)[k]
        =~= wanted[k] by {
        if !(top <= k < top + cell.rowspan) {
            assert(grid@[k] == before[k]);
            assert(row_texts(before[k]@) =~= wanted[k]);
        }
    }
    assert(grid_texts(grid@) =~= wanted);
}

proof fn lemma_place_cell(g: Grid, r: int, col: int, cell: Cell)
    requires
        rectangular(g),
        0 <= r < g.rows.len(),
        0 <= col <= g.width,
    ensures
        ({
            let (next, behind) = place_cell(g, r, col, cell);
            &&& rectangular(next)
            &&& r < next.rows.len()
            &&& behind <= next.width <= g.width + cell.colspan
            &&& col <= behind
            &&& g.rows.len() <= next.rows.len()
            &&& r + cell.rowspan <= next.rows.len()
        }),
{
    lemma_free_column(g.rows[r], col);
}

proof fn lemma_place_cells(g: Grid, r: int, col: int, cells: Seq<Cell>)
    requires
        rectangular(g),
        0 <= r < g.rows.len(),
        0 <= col <= g.width,
    ensures
        rectangular(place_cells(g, r, col, cells)),
        place_cells(g, r, col, cells).rows.len() >= g.rows.len(),
    decreases cells.len(),
{
    if cells.len() > 0 {
        lemma_place_cell(g, r, col, cells[0]);
        let (next, behind) = place_cell(g, r, col, cells[0]);
        lemma_place_cells(next, r, behind, cells.skip(1));
    }
}

proof fn lemma_place_rows(g: Grid, r: int, rows: Seq<Row>)
    requires
        rectangular(g),
        0 <= r <= g.rows.len(),
    ensures
        rectangular(place_rows(g, r, rows)),
        place_rows(g, r, rows).rows.len() >= r + rows.len(),
    decreases rows.len(),
{
    if rows.len() > 0 {
        let deeper = Grid { rows: deepen(g.rows, (r + 1) as nat, g.width), width: g.width };
        lemma_place_cells(deeper, r, 0, rows[0].cells);
        lemma_place_rows(place_cells(deeper, r, 0, rows[0].cells), r + 1, rows.skip(1));
    }
}

/// All rows of a table that is laid out have the same number of places, and no row is lost.
pub proof fn law_grid_is_rectangular(rows: Seq<Row>)
    ensures
        rectangular(expand(rows)),
        expand(rows).rows.len() >= rows.len(),
{
    lemma_place_rows(Grid { rows: Seq::empty(), width: 0 }, 0, rows);
}

/// Lays `cell` out in the row `r`.
fn put_cell(table: &mut ExpandedTable, r: usize, col: usize, cell: &ParsedCell) -> (behind: usize)
    requires
        rectangular(old(table)@),
        r < old(table).grid@.len(),
        col <= old(table).width,
        old(table).width + cell.colspan <= usize::MAX,
        r + cell.rowspan <= usize::MAX,
    ensures
        (final(table)@, behind as int) == place_cell(old(table)@, r as int, col as int, cell@),
        rectangular(final(table)@),
        r < final(table).grid@.len(),
        col <= behind <= final(table).width <= old(table).width + cell.colspan,
{
    let ghost g = table@;
    proof {
        lemma_place_cell(g, r as int, col as int, cell@);
        assert(g.rows[r as int] == row_texts(table.grid@[r as int]@));
        assert(g.rows[r as int].len() == g.width);
    }
    let left = first_free(&table.grid[r], col);
    if left + cell.colspan > table.width {
        table.width = left + cell.colspan;
    }
    let width = table.width;
    resize_width(&mut table.grid, width);
    ensure_rows(&mut table.grid, r + cell.rowspan, width);
    proof {
        let rows = deepen(widen(g.rows, width as nat), (r + cell.rowspan) as nat, width as nat);
        assert(grid_texts(table.grid@) == rows);
        assert forall|i: int| 0 <= i < table.grid@.len() implies left + cell.colspan <= (
        #[trigger] table.grid@[i])@.len() by {
            assert(rows[i].len() == row_texts(table.grid@[i]@).len());
            assert(rows[i].len() == width);
        }
    }
    fill_cell(&mut table.grid, r, left, cell);
    left + cell.colspan
}

proof fn lemma_columns_asked(cells: Seq<Cell>, k: int)
    requires
        0 <= k < cells.len(),
    ensures
        columns_asked(cells.skip(k)) == cells[k].colspan + columns_asked(cells.skip(k + 1)),
{
    assert(cells.skip(k)[0] == cells[k]);
    assert(cells.skip(k).skip(1) =~= cells.skip(k + 1));
}

/// Lays the cells of `row` out in the row `r`; `later` columns may still be asked for behind it.
fn put_row(table: &mut ExpandedTable, r: usize, row: &ParsedRow, Ghost(later): Ghost<nat>)
    requires
        rectangular(old(table)@),
        r < old(table).grid@.len(),
        old(table).width + columns_asked(row@.cells) + later <= usize::MAX,
        forall|k: int|
            0 <= k < row.cells@.len() ==> r + (#[trigger] row.cells@[k]).rowspan <= usize::MAX,
    ensures
        final(table)@ == place_cells(old(table)@, r as int, 0, row@.cells),
        rectangular(final(table)@),
        r < final(table).grid@.len(),
        final(table).width + later <= usize::MAX,
{
    let ghost cells = row@.cells;
    let mut col: usize = 0;
    let mut k: usize = 0;
    assert(cells.skip(0) =~= cells);
    while k < row.cells.len()
        invariant
            k <= row.cells@.len(),
            cells == cells_of(row.cells@),
            rectangular(table@),
            r < table.grid@.len(),
            col <= table.width,
            table.width + columns_asked(cells.skip(k as int)) + later <= usize::MAX,
            forall|k: int|
                0 <= k < row.cells@.len() ==> r + (#[trigger] row.cells@[k]).rowspan <= usize::MAX,
            place_cells(old(table)@, r as int, 0, cells) == place_cells(
                table@,
                r as int,
                col as int,
                cells.skip(k as int),
            ),
        decreases row.cells.len() - k,
    {
        proof {
            lemma_columns_asked(cells, k as int);
            assert(cells.skip(k as int)[0] == row.cells@[k as int]@);
            assert(cells.skip(k as int).skip(1) =~= cells.skip(k + 1));
        }
        let behind = put_cell(table, r, col, &row.cells[k]);
        col = behind;
        k += 1;
    }
}

proof fn lemma_all_columns_asked(rows: Seq<Row>, r: int)
    requires
        0 <= r < rows.len(),
    ensures
        all_columns_asked(rows.skip(r)) == columns_asked(rows[r].cells) + all_columns_asked(
            rows.skip(r + 1),
        ),
{
    assert(rows.skip(r)[0] == rows[r]);
    assert(rows.skip(r).skip(1) =~= rows.skip(r + 1));
}

/// Lays a table out. There is no table without a column.
pub fn expand_rows(rows: &Vec<ParsedRow>) -> (r: Result<ExpandedTable, TableError>)
    requires
        spans_fit(rows_of(rows@)),
    ensures
        match r {
            Ok(table) => table@ == expand(rows_of(rows@)) && table.width > 0 && rectangular(table@),
            Err(e) => e == TableError::NoColumns && expand(rows_of(rows@)).width == 0,
        },
{
    let ghost all = rows_of(rows@);
    let mut table = ExpandedTable { grid: Vec::new(), width: 0 };
    let mut i: usize = 0;
    proof {
        assert(grid_texts(table.grid@) =~= Seq::empty());
        assert(all.skip(0) =~= all);
    }
    while i < rows.len()
        invariant
            i <= rows@.len(),
            all == rows_of(rows@),
            spans_fit(all),
            rectangular(table@),
            table.width + all_columns_asked(all.skip(i as int)) <= usize::MAX,
            expand(all) == place_rows(table@, i as int, all.skip(i as int)),
        decreases rows.len() - i,
    {
        proof {
            lemma_all_columns_asked(all, i as int);
            assert(all.skip(i as int)[0] == rows@[i as int]@);
            assert(all.skip(i as int).skip(1) =~= all.skip(i + 1));
        }
        let width = table.width;
        ensure_rows(&mut table.grid, i + 1, width);
        proof {
            assert forall|k: int| 0 <= k < rows@[i as int].cells@.len() implies i + (
            #[trigger] rows@[i as int].cells@[k]).rowspan <= usize::MAX by {
                assert(all[i as int].cells[k].rowspan == rows@[i as int].cells@[k].rowspan);
            }
        }
        put_row(&mut table, i, &rows[i], Ghost(all_columns_asked(all.skip(i + 1))));
        i += 1;
    }
    if table.width == 0 {
        return Err(TableError::NoColumns);
    }
    Ok(table)
}

/// Whether the spans of all cells stay within what a machine can count.
pub fn check_spans(rows: &Vec<ParsedRow>) -> (r: bool)
    ensures
        r == spans_fit(rows_of(rows@)),
{
    let ghost all = rows_of(rows@);
    let mut total: usize = 0;
    let mut i: usize = 0;
    assert(all.skip(0) =~= all);
    while i < rows.len()
        invariant
            i <= rows@.len(),
            all == rows_of(rows@),
            total + all_columns_asked(all.skip(i as int)) == all_columns_asked(all),
            forall|a: int, k: int|
                0 <= a < i && 0 <= k < all[a].cells.len() ==> a + (
                #[trigger] all[a].cells[k]).rowspan <= usize::MAX,
        decreases rows.len() - i,
    {
        proof {
            lemma_all_columns_asked(all, i as int);
        }
        let cells = &rows[i].cells;
        let ghost row_cells = all[i as int].cells;
        assert(row_cells == cells_of(cells@));
        let mut k: usize = 0;
        assert(row_cells.skip(0) =~= row_cells);
        while k < cells.len()
            invariant
                i < rows@.len(),
                k <= cells@.len(),
                all == rows_of(rows@),
                row_cells == all[i as int].cells,
                row_cells == cells_of(cells@),
                total + columns_asked(row_cells.skip(k as int)) + all_columns_asked(all.skip(i + 1))
                    == all_columns_asked(all),
                forall|a: int, b: int|
                    0 <= a < i && 0 <= b < all[a].cells.len() ==> a + (
                    #[trigger] all[a].cells[b]).rowspan <= usize::MAX,
                forall|b: int|
                    0 <= b < k ==> i + (#[trigger] row_cells[b]).rowspan <= usize::MAX,
            decreases cells.len() - k,
        {
            proof {
                lemma_columns_asked(row_cells, k as int);
                assert(row_cells[k as int] == cells@[k as int]@);
            }
            if i.checked_add(cells[k].rowspan).is_none() {
                assert(i + all[i as int].cells[k as int].rowspan > usize::MAX);
                return false;
            }
            match total.checked_add(cells[k].colspan) {
                Some(t) => {
                    total = t;
                },
                None => {
                    return false;
                },
            }
            k += 1;
        }
        i += 1;
    }
    true
}

// ---- Where cells go ----

/// A cell goes to the leftmost place of its row, at or behind `col`, that nothing covers.
pub proof fn law_free_column_is_leftmost(row: Seq<Option<Seq<char>>>, col: int)
    requires
        0 <= col <= row.len(),
    ensures
        col <= free_column(row, col) <= row.len(),
        free_column(row, col) < row.len() ==> row[free_column(row, col)] is None,
        forall|j: int| col <= j < free_column(row, col) ==> (#[trigger] row[j]) is Some,
    decreases row.len() - col,
{
    if col < row.len() && row[col] is Some {
        law_free_column_is_leftmost(row, col + 1);
    }
}

/// Laying one cell out fills the places that it spans with its text and changes no other: it
/// begins at the leftmost uncovered place of the row at or behind `col`, and the grid grows only
/// as far as the cell reaches. A cell that takes one column writes over nothing in its row.
pub proof fn law_cell_fills_what_it_spans(g: Grid, r: int, col: int, cell: Cell)
    requires
        rectangular(g),
        0 <= r < g.rows.len(),
        0 <= col <= g.width,
    ensures
        ({
            let (next, behind) = place_cell(g, r, col, cell);
            let left = behind - cell.colspan;
            &&& col <= left <= g.width
            &&& left < g.width ==> g.rows[r][left] is None
            &&& forall|j: int| col <= j < left ==> (#[trigger] g.rows[r][j]) is Some
            &&& rectangular(next)
            &&& next.width == if behind > g.width {
                behind as nat
            } else {
                g.width
            }
            &&& next.rows.len() == if r + cell.rowspan > g.rows.len() {
                (r + cell.rowspan) as nat
            } else {
                g.rows.len()
            }
            &&& forall|i: int, j: int|
                0 <= i < next.rows.len() && 0 <= j < next.width ==> #[trigger] next.rows[i][j]
                    == if r <= i < r + cell.rowspan && left <= j < behind {
                    Some(cell.text)
                } else if i < g.rows.len() && j < g.width {
                    g.rows[i][j]
                } else {
                    None
                }
            &&& cell.colspan == 1 ==> forall|j: int|
                0 <= j < g.width && g.rows[r][j] is Some ==> #[trigger] next.rows[r][j]
                    == g.rows[r][j]
        }),
{
    law_free_column_is_leftmost(g.rows[r], col);
}

/// A cell and where it went.
pub struct Placed {
    pub row: int,
    pub left: int,
    pub cell: Cell,
}

impl Placed {
    /// Whether the cell covers the place in the row `i` and the column `j`.
    pub open spec fn covers(self, i: int, j: int) -> bool {
        self.row <= i < self.row + self.cell.rowspan && self.left <= j < self.left
            + self.cell.colspan
    }
}

/// The cells of the first `n` of `rows` in reading order, each with the number of its row.
pub open spec fn cells_in_order(rows: Seq<Row>, n: nat) -> Seq<(int, Cell)>
    decreases n,
{
    if n == 0 {
        Seq::empty()
    } else {
        cells_in_order(rows, (n - 1) as nat) + Seq::new(
            rows[n - 1].cells.len(),
            |k: int| (n - 1, rows[n - 1].cells[k]),
        )
    }
}

/// Whether one of the first `n` of `ps` covers a place.
pub open spec fn covered(ps: Seq<Placed>, n: int, i: int, j: int) -> bool {
    exists|q: int| 0 <= q < n && (#[trigger] ps[q]).covers(i, j)
}

/// Whether the cell number `q` went to the leftmost place that it could: behind the cell before
/// it in its row, and covered by no cell before it.
pub open spec fn well_placed(ps: Seq<Placed>, q: int) -> bool {
    let from = if q > 0 && ps[q - 1].row == ps[q].row {
        ps[q - 1].left + ps[q - 1].cell.colspan
    } else {
        0
    };
    &&& from <= ps[q].left
    &&& !covered(ps, q, ps[q].row, ps[q].left)
    &&& forall|j: int| from <= j < ps[q].left ==> #[trigger] covered(ps, q, ps[q].row, j)
}

/// Whether a place holds the text of the last cell that covers it, or nothing if none does.
pub open spec fn holds_last(place: Option<Seq<char>>, ps: Seq<Placed>, i: int, j: int) -> bool {
    match place {
        Some(text) => exists|q: int|
            0 <= q < ps.len() && (#[trigger] ps[q]).covers(i, j) && ps[q].cell.text == text
                && forall|p: int| q < p < ps.len() ==> !(#[trigger] ps[p]).covers(i, j),
        None => !covered(ps, ps.len() as int, i, j),
    }
}

/// Whether `g` is the grid in which the cells `ps` were laid out.
pub open spec fn shows(g: Grid, ps: Seq<Placed>) -> bool {
    &&& rectangular(g)
    &&& forall|i: int, j: int|
        0 <= i < g.rows.len() && 0 <= j < g.width ==> holds_last(
            #[trigger] g.rows[i][j],
            ps,
            i,
            j,
        )
    &&& forall|q: int|
        0 <= q < ps.len() ==> 0 <= (#[trigger] ps[q]).row && 0 <= ps[q].left && ps[q].row
            + ps[q].cell.rowspan <= g.rows.len() && ps[q].left + ps[q].cell.colspan <= g.width
    &&& g.width > 0 ==> exists|q: int|
        0 <= q < ps.len() && (#[trigger] ps[q]).left + ps[q].cell.colspan == g.width
    &&& forall|q: int| 0 <= q < ps.len() ==> #[trigger] well_placed(ps, q)
}

/// Whether `g` has `n` rows, or more if a cell reaches farther down, and then just so many.
pub open spec fn has_rows(g: Grid, ps: Seq<Placed>, n: int) -> bool {
    &&& g.rows.len() >= n
    &&& g.rows.len() > n ==> exists|q: int|
        0 <= q < ps.len() && (#[trigger] ps[q]).row + ps[q].cell.rowspan == g.rows.len()
}

/// The cells as they stand in the table.
pub open spec fn as_written(ps: Seq<Placed>) -> Seq<(int, Cell)> {
    Seq::new(ps.len(), |q: int| (ps[q].row, ps[q].cell))
}

proof fn lemma_place_one(g: Grid, r: int, col: int, cell: Cell, ps: Seq<Placed>)
    requires
        shows(g, ps),
        0 <= r < g.rows.len(),
        0 <= col <= g.width,
        col == if ps.len() > 0 && ps.last().row == r {
            ps.last().left + ps.last().cell.colspan
        } else {
            0
        },
    ensures
        ({
            let (next, behind) = place_cell(g, r, col, cell);
            let more = ps.push(Placed { row: r, left: behind - cell.colspan, cell });
            shows(next, more) && as_written(more) == as_written(ps).push((r, cell))
        }),
{
    law_cell_fills_what_it_spans(g, r, col, cell);
    let (next, behind) = place_cell(g, r, col, cell);
    let left = behind - cell.colspan;
    let now = Placed { row: r, left, cell };
    let more = ps.push(now);
    let n = ps.len() as int;
    assert(as_written(more) =~= as_written(ps).push((r, cell)));
    assert forall|i: int, j: int|
        0 <= i < next.rows.len() && 0 <= j < next.width implies holds_last(
        #[trigger] next.rows[i][j],
        more,
        i,
        j,
    ) by {
        let place = next.rows[i][j];
        if now.covers(i, j) {
            assert(more[n].covers(i, j) && more[n].cell.text == cell.text);
            assert(place == Some(cell.text));
        } else if i < g.rows.len() && j < g.width {
            let old_place = g.rows[i][j];
            assert(place == old_place);
            assert(holds_last(old_place, ps, i, j));
            if place is Some {
                let q = choose|q: int|
                    0 <= q < ps.len() && (#[trigger] ps[q]).covers(i, j) && ps[q].cell.text
                        == place->0 && forall|p: int|
                        q < p < ps.len() ==> !(#[trigger] ps[p]).covers(i, j);
                assert(more[q] == ps[q]);
                assert forall|p: int| q < p < more.len() implies !(#[trigger] more[p]).covers(
                    i,
                    j,
                ) by {
                    if p < n {
                        assert(more[p] == ps[p]);
                    }
                }
            } else {
                assert forall|q: int| 0 <= q < more.len() implies !(#[trigger] more[q]).covers(
                    i,
                    j,
                ) by {
                    if q < n {
                        assert(more[q] == ps[q]);
                    }
                }
            }
        } else {
            assert(place is None);
            assert forall|q: int| 0 <= q < more.len() implies !(#[trigger] more[q]).covers(i, j) by {
                if q < n {
                    assert(more[q] == ps[q]);
                }
            }
        }
    }
    assert forall|q: int| 0 <= q < more.len() implies 0 <= (#[trigger] more[q]).row && 0
        <= more[q].left && more[q].row + more[q].cell.rowspan <= next.rows.len() && more[q].left
        + more[q].cell.colspan <= next.width by {
        if q < n {
            assert(more[q] == ps[q]);
        }
    }
    if next.width > 0 {
        if behind >= g.width {
            assert(more[n].left + more[n].cell.colspan == next.width);
        } else {
            let q = choose|q: int|
                0 <= q < ps.len() && (#[trigger] ps[q]).left + ps[q].cell.colspan == g.width;
            assert(more[q] == ps[q]);
        }
    }
    assert forall|q: int| 0 <= q < more.len() implies #[trigger] well_placed(more, q) by {
        if q < n {
            assert(well_placed(ps, q));
            lemma_covered_before(ps, now, q);
            assert(more[q] == ps[q]);
            if q > 0 {
                assert(more[q - 1] == ps[q - 1]);
            }
        } else {
            lemma_covered_before(ps, now, n);
            if n > 0 {
                assert(more[n - 1] == ps.last());
            }
            assert forall|j: int| col <= j < left implies #[trigger] covered(more, n, r, j) by {
                assert(holds_last(g.rows[r][j], ps, r, j));
                assert(covered(ps, n, r, j));
            }
            if left < g.width {
                assert(holds_last(g.rows[r][left], ps, r, left));
            }
            assert(!covered(ps, n, r, left));
        }
    }
}

proof fn lemma_covered_before(ps: Seq<Placed>, more: Placed, n: int)
    requires
        0 <= n <= ps.len(),
    ensures
        forall|i: int, j: int| #[trigger]
            covered(ps.push(more), n, i, j) == covered(ps, n, i, j),
{
    assert forall|i: int, j: int| #[trigger] covered(ps.push(more), n, i, j) == covered(
        ps,
        n,
        i,
        j,
    ) by {
        if covered(ps, n, i, j) {
            let q = choose|q: int| 0 <= q < n && (#[trigger] ps[q]).covers(i, j);
            assert(ps.push(more)[q] == ps[q]);
        }
        if covered(ps.push(more), n, i, j) {
            let q = choose|q: int| 0 <= q < n && (#[trigger] ps.push(more)[q]).covers(i, j);
            assert(ps.push(more)[q] == ps[q]);
        }
    }
}

proof fn lemma_place_many(
    g: Grid,
    r: int,
    col: int,
    cells: Seq<Cell>,
    ps: Seq<Placed>,
    n: int,
) -> (out: Seq<Placed>)
    requires
        shows(g, ps),
        has_rows(g, ps, n),
        0 <= r < g.rows.len(),
        0 <= col <= g.width,
        col == if ps.len() > 0 && ps.last().row == r {
            ps.last().left + ps.last().cell.colspan
        } else {
            0
        },
    ensures
        shows(place_cells(g, r, col, cells), out),
        as_written(out) == as_written(ps) + Seq::new(cells.len(), |k: int| (r, cells[k])),
        cells.len() > 0 ==> out.len() > 0 && out.last().row == r,
        cells.len() == 0 ==> out == ps,
        has_rows(place_cells(g, r, col, cells), out, n),
    decreases cells.len(),
{
    let written = Seq::new(cells.len(), |k: int| (r, cells[k]));
    if cells.len() == 0 {
        assert(as_written(ps) + written =~= as_written(ps));
        ps
    } else {
        lemma_place_one(g, r, col, cells[0], ps);
        law_cell_fills_what_it_spans(g, r, col, cells[0]);
        let (next, behind) = place_cell(g, r, col, cells[0]);
        let now = Placed { row: r, left: behind - cells[0].colspan, cell: cells[0] };
        let more = ps.push(now);
        assert(more.last() == now);
        assert(has_rows(next, more, n)) by {
            if next.rows.len() != g.rows.len() {
                assert(more[ps.len() as int] == now);
            } else if g.rows.len() != n {
                let q = choose|q: int|
                    0 <= q < ps.len() && (#[trigger] ps[q]).row + ps[q].cell.rowspan
                        == g.rows.len();
                assert(more[q] == ps[q]);
            }
        }
        let out = lemma_place_many(next, r, behind, cells.skip(1), more, n);
        let rest = Seq::new(cells.skip(1).len(), |k: int| (r, cells.skip(1)[k]));
        assert(as_written(ps) + written =~= as_written(ps).push((r, cells[0])) + rest);
        out
    }
}

proof fn lemma_place_all(g: Grid, r: int, rows: Seq<Row>, ps: Seq<Placed>) -> (out: Seq<Placed>)
    requires
        shows(g, ps),
        0 <= r <= rows.len(),
        has_rows(g, ps, r),
        as_written(ps) == cells_in_order(rows, r as nat),
        ps.len() > 0 ==> ps.last().row < r,
    ensures
        shows(place_rows(g, r, rows.skip(r)), out),
        has_rows(place_rows(g, r, rows.skip(r)), out, rows.len() as int),
        as_written(out) == cells_in_order(rows, rows.len()),
    decreases rows.len() - r,
{
    if r == rows.len() {
        ps
    } else {
        let deeper = Grid { rows: deepen(g.rows, (r + 1) as nat, g.width), width: g.width };
        assert forall|i: int, j: int|
            0 <= i < deeper.rows.len() && 0 <= j < deeper.width implies holds_last(
            #[trigger] deeper.rows[i][j],
            ps,
            i,
            j,
        ) by {
            if i < g.rows.len() {
                assert(holds_last(g.rows[i][j], ps, i, j));
            } else {
                assert forall|q: int| 0 <= q < ps.len() implies !(#[trigger] ps[q]).covers(
                    i,
                    j,
                ) by {}
            }
        }
        assert(has_rows(deeper, ps, r + 1)) by {
            if deeper.rows.len() != r + 1 {
                assert(deeper.rows.len() == g.rows.len());
            }
        }
        assert(rows.skip(r)[0] == rows[r]);
        assert(rows.skip(r).skip(1) =~= rows.skip(r + 1));
        let next = place_cells(deeper, r, 0, rows[r].cells);
        let more = lemma_place_many(deeper, r, 0, rows[r].cells, ps, r + 1);
        assert(as_written(more) =~= cells_in_order(rows, (r + 1) as nat));
        lemma_place_all(next, r + 1, rows, more)
    }
}

/// A table is laid out in reading order: each cell goes to the leftmost place of its row that is
/// behind the cell before it and that no cell before it covers; each place then holds the text of
/// the last cell that covers it, and nothing if none does. The grid has a row for each row of the
/// table and reaches as far down and to the right as the cells do, and no farther.
pub proof fn law_cells_are_laid_out_in_reading_order(rows: Seq<Row>)
    ensures
        exists|ps: Seq<Placed>| #[trigger]
            shows(expand(rows), ps) && has_rows(expand(rows), ps, rows.len() as int) && as_written(
                ps,
            ) == cells_in_order(rows, rows.len()),
{
    let g = Grid { rows: Seq::empty(), width: 0 };
    let none = Seq::<Placed>::empty();
    assert(shows(g, none));
    assert(as_written(none) =~= cells_in_order(rows, 0));
    assert(rows.skip(0) =~= rows);
    let ps = lemma_place_all(g, 0, rows, none);
    assert(shows(expand(rows), ps));
}

// ---- Tables without spans ----

/// Whether every cell takes one row and one column.
pub open spec fn without_spans(rows: Seq<Row>) -> bool {
    forall|i: int, k: int|
        0 <= i < rows.len() && 0 <= k < rows[i].cells.len() ==> (
        #[trigger] rows[i].cells[k]).rowspan == 1 && rows[i].cells[k].colspan == 1
}

/// Whether the places of `row` hold the texts of the first `n` of `cells`, and no others.
pub open spec fn holds_cells(row: Seq<Option<Seq<char>>>, cells: Seq<Cell>, n: nat) -> bool {
    &&& n <= row.len()
    &&& forall|j: int| 0 <= j < n ==> #[trigger] row[j] == Some(cells[j].text)
    &&& forall|j: int| n <= j < row.len() ==> (#[trigger] row[j]) is None
}

/// What stands in the rows before the row `r`, and that there are no more than `count`.
spec fn laid_out(g: Grid, rows: Seq<Row>, r: int, count: int) -> bool {
    &&& rectangular(g)
    &&& g.rows.len() == count
    &&& forall|i: int|
        0 <= i < r ==> holds_cells(#[trigger] g.rows[i], rows[i].cells, rows[i].cells.len())
}

proof fn lemma_plain_cells(g: Grid, rows: Seq<Row>, r: int, n: nat)
    requires
        without_spans(rows),
        0 <= r < rows.len(),
        n <= rows[r].cells.len(),
        laid_out(g, rows, r, r + 1),
        holds_cells(g.rows[r], rows[r].cells, n),
    ensures
        ({
            let done = place_cells(g, r, n as int, rows[r].cells.skip(n as int));
            laid_out(done, rows, r + 1, r + 1)
        }),
    decreases rows[r].cells.len() - n,
{
    let cells = rows[r].cells;
    let rest = cells.skip(n as int);
    if n < cells.len() {
        let cell = cells[n as int];
        assert(rest[0] == cell);
        assert(cell.rowspan == 1 && cell.colspan == 1);
        assert(free_column(g.rows[r], n as int) == n);
        let (next, behind) = place_cell(g, r, n as int, cell);
        assert(next.rows.len() == r + 1);
        assert forall|i: int| 0 <= i < r implies holds_cells(
            #[trigger] next.rows[i],
            rows[i].cells,
            rows[i].cells.len(),
        ) by {
            assert(holds_cells(g.rows[i], rows[i].cells, rows[i].cells.len()));
        }
        assert(holds_cells(next.rows[r], cells, n + 1));
        assert(rest.skip(1) =~= cells.skip(n as int + 1));
        lemma_plain_cells(next, rows, r, n + 1);
    } else {
        assert(rest.len() == 0);
    }
}

proof fn lemma_plain_rows(g: Grid, rows: Seq<Row>, r: int)
    requires
        without_spans(rows),
        0 <= r <= rows.len(),
        laid_out(g, rows, r, r),
    ensures
        laid_out(place_rows(g, r, rows.skip(r)), rows, rows.len() as int, rows.len() as int),
    decreases rows.len() - r,
{
    if r < rows.len() {
        let deeper = Grid { rows: deepen(g.rows, (r + 1) as nat, g.width), width: g.width };
        assert forall|i: int| 0 <= i < r implies holds_cells(
            #[trigger] deeper.rows[i],
            rows[i].cells,
            rows[i].cells.len(),
        ) by {
            assert(deeper.rows[i] == g.rows[i]);
        }
        assert(rows.skip(r)[0] == rows[r]);
        assert(rows[r].cells.skip(0) =~= rows[r].cells);
        lemma_plain_cells(deeper, rows, r, 0);
        assert(rows.skip(r).skip(1) =~= rows.skip(r + 1));
        lemma_plain_rows(place_cells(deeper, r, 0, rows[r].cells), rows, r + 1);
    }
}

/// A table whose cells take one row and one column each is laid out as it is written: a row for
/// each of its rows, with its cells in order, and uncovered places behind them.
pub proof fn law_plain_tables_are_laid_out_as_written(rows: Seq<Row>)
    requires
        without_spans(rows),
    ensures
        expand(rows).rows.len() == rows.len(),
        rectangular(expand(rows)),
        forall|i: int|
            0 <= i < rows.len() ==> holds_cells(
                #[trigger] expand(rows).rows[i],
                rows[i].cells,
                rows[i].cells.len(),
            ),
{
    assert(rows.skip(0) =~= rows);
    lemma_plain_rows(Grid { rows: Seq::empty(), width: 0 }, rows, 0);
}

} // verus!
