//! Rows and cells of an HTML table.

use vstd::prelude::*;

use crate::number::{parse_unsigned, read_unsigned};
use crate::pattern::{
    find_matches, group_at, group_of, groups_of, matches_placed, regex_matches, Groups,
};
use crate::scan::{
    find_tag, find_tag_end, law_tags_are_found_first, lemma_tag_end, lemma_tag_from, starts_tag,
    tag_end, tag_from,
};
use crate::tables::cell_text::{fragment_text, html_fragment_to_text};
use crate::text::{chars_of, string_of, trim, trimmed, CharClass};

verus! {

/// Why a table is not read.
#[derive(Clone, Copy, Debug, PartialEq, Eq, Structural)]
pub enum TableError {
    /// The start tag of a row is not closed.
    RowStartOpen,
    /// A row has no end tag.
    RowEndMissing,
    /// The end tag of a row is not closed.
    RowEndOpen,
    /// The start tag of a cell is not closed.
    CellStartOpen,
    /// A cell has no end tag.
    CellEndMissing,
    /// The end tag of a cell is not closed.
    CellEndOpen,
    /// There is no row.
    NoRows,
    /// There is no column.
    NoColumns,
}

impl TableError {
    /// The error in words.
    pub fn message(&self) -> (r: &'static str)
        ensures
            r@ == (match *self {
                TableError::RowStartOpen => "table row start tag was not closed"@,
                TableError::RowEndMissing => "table row end tag was not found"@,
                TableError::RowEndOpen => "table row end tag was not closed"@,
                TableError::CellStartOpen => "table cell start tag was not closed"@,
                TableError::CellEndMissing => "table cell end tag was not found"@,
                TableError::CellEndOpen => "table cell end tag was not closed"@,
                TableError::NoRows => "table has no rows"@,
                TableError::NoColumns => "table has no columns"@,
            }),
    {
        match self {
            TableError::RowStartOpen => "table row start tag was not closed",
            TableError::RowEndMissing => "table row end tag was not found",
            TableError::RowEndOpen => "table row end tag was not closed",
            TableError::CellStartOpen => "table cell start tag was not closed",
            TableError::CellEndMissing => "table cell end tag was not found",
            TableError::CellEndOpen => "table cell end tag was not closed",
            TableError::NoRows => "table has no rows",
            TableError::NoColumns => "table has no columns",
        }
    }
}

/// A cell: its text, and how many rows and columns it takes.
pub struct Cell {
    pub text: Seq<char>,
    pub rowspan: nat,
    pub colspan: nat,
}

/// A row: its cells, and whether one of them is a header cell.
pub struct Row {
    pub cells: Seq<Cell>,
    pub has_th: bool,
}

/// A cell as it was read.
pub struct ParsedCell {
    pub text: Vec<char>,
    pub rowspan: usize,
    pub colspan: usize,
}

impl View for ParsedCell {
    type V = Cell;

    open spec fn view(&self) -> Cell {
        Cell { text: self.text@, rowspan: self.rowspan as nat, colspan: self.colspan as nat }
    }
}

/// A row as it was read.
pub struct ParsedRow {
    pub cells: Vec<ParsedCell>,
    pub has_th: bool,
}

impl View for ParsedRow {
    type V = Row;

    open spec fn view(&self) -> Row {
        Row { cells: cells_of(self.cells@), has_th: self.has_th }
    }
}

/// The cells that `cells` stand for.
pub open spec fn cells_of(cells: Seq<ParsedCell>) -> Seq<Cell> {
    Seq::new(cells.len(), |i: int| cells[i]@)
}

/// The rows that `rows` stand for.
pub open spec fn rows_of(rows: Seq<ParsedRow>) -> Seq<Row> {
    Seq::new(rows.len(), |i: int| rows[i]@)
}

// ---- Spans ----

/// The pattern of the attribute `rowspan` and its value: quoted in one of two ways, or bare.
pub const ROWSPAN_PATTERN: &'static str =
    "(?i)\\browspan\\s*=\\s*(?:\"([^\"]*)\"|'([^']*)'|([^\\s/>]+))";

/// The pattern of the attribute `colspan` and its value: quoted in one of two ways, or bare.
pub const COLSPAN_PATTERN: &'static str =
    "(?i)\\bcolspan\\s*=\\s*(?:\"([^\"]*)\"|'([^']*)'|([^\\s/>]+))";

/// The place of an attribute's value: the first of the groups 1, 2 and 3 that took part.
pub open spec fn value_place(groups: Seq<Option<(usize, usize)>>) -> Option<(usize, usize)> {
    if group_at(groups, 1) is Some {
        group_at(groups, 1)
    } else if group_at(groups, 2) is Some {
        group_at(groups, 2)
    } else {
        group_at(groups, 3)
    }
}

/// The span that a tag asks for, given the matches of the attribute's pattern in it: the
/// number in the first match if it is a positive `usize`, else 1.
pub open spec fn span_value(
    tag: Seq<char>,
    matches: Option<Seq<Seq<Option<(usize, usize)>>>>,
) -> nat {
    let place = if matches is Some && matches->0.len() > 0 {
        value_place((matches->0)[0])
    } else {
        None
    };
    match place {
        Some((from, to)) => match parse_unsigned(
            trim(tag.subrange(from as int, to as int), CharClass::Space),
            10,
            usize::MAX as nat,
        ) {
            Some(n) => if n > 0 {
                n
            } else {
                1
            },
            None => 1,
        },
        None => 1,
    }
}

/// The span that `tag` asks for by the attribute that `pattern` describes.
pub open spec fn span_attr(tag: Seq<char>, pattern: Seq<char>) -> nat {
    span_value(tag, regex_matches(pattern, tag))
}

/// The span that a tag asks for, given the matches of the attribute's pattern in it.
pub fn read_span(tag: &[char], matches: &Option<Vec<Groups>>) -> (n: usize)
    requires
        matches is Some ==> matches_placed(groups_of(matches->0@), tag@.len()),
    ensures
        n == span_value(
            tag@,
            match *matches {
                Some(m) => Some(groups_of(m@)),
                None => None,
            },
        ),
        n > 0,
{
    let first = match matches {
        Some(m) => if m.len() > 0 {
            Some(&m[0])
        } else {
            None
        },
        None => None,
    };
    match first {
        Some(groups) => {
            assert(groups_of(matches->0@)[0] == groups@);
            let place = match group_of(groups, 1) {
                Some(p) => Some(p),
                None => match group_of(groups, 2) {
                    Some(p) => Some(p),
                    None => group_of(groups, 3),
                },
            };
            match place {
                Some((from, to)) => {
                    let value = trimmed(
                        vstd::slice::slice_subrange(tag, from, to),
                        CharClass::Space,
                    );
                    match read_unsigned(value, 10, usize::MAX as u64) {
                        Some(n) => if n > 0 {
                            n as usize
                        } else {
                            1
                        },
                        None => 1,
                    }
                },
                None => 1,
            }
        },
        None => 1,
    }
}

/// The span that `tag` asks for by the attribute that `pattern` describes.
pub fn parse_span_attr(tag: &[char], pattern: &str) -> (n: usize)
    ensures
        n == span_attr(tag@, pattern@),
        n > 0,
{
    let text = string_of(tag);
    let matches = find_matches(pattern, text.as_str());
    read_span(tag, &matches)
}

// ---- Cells ----

/// The cell that begins in `row` at `start`, and the position behind it. Its end tag has the
/// name `close`.
pub open spec fn cell_at(row: Seq<char>, start: int, close: Seq<char>) -> Result<
    (Cell, int),
    TableError,
> {
    match tag_end(row, start) {
        None => Err(TableError::CellStartOpen),
        Some(open_end) => match tag_from(row, open_end, close) {
            None => Err(TableError::CellEndMissing),
            Some(close_start) => match tag_end(row, close_start) {
                None => Err(TableError::CellEndOpen),
                Some(close_end) => {
                    let tag = row.subrange(start, open_end);
                    let cell = Cell {
                        text: fragment_text(row.subrange(open_end, close_start)),
                        rowspan: span_attr(tag, ROWSPAN_PATTERN@),
                        colspan: span_attr(tag, COLSPAN_PATTERN@),
                    };
                    Ok((cell, close_end))
                },
            },
        },
    }
}

proof fn lemma_cell_at(row: Seq<char>, start: int, close: Seq<char>)
    ensures
        cell_at(row, start, close) matches Ok((_, end)) ==> start < end <= row.len(),
{
    lemma_tag_end(row, start);
    if let Some(open_end) = tag_end(row, start) {
        lemma_tag_from(row, open_end, close);
        if let Some(close_start) = tag_from(row, open_end, close) {
            lemma_tag_end(row, close_start);
        }
    }
}

/// The cell that begins at `start`.
pub fn parse_cell(row: &[char], start: usize, close: &[char]) -> (r: Result<
    (ParsedCell, usize),
    TableError,
>)
    ensures
        match cell_at(row@, start as int, close@) {
            Ok((cell, end)) => r is Ok && (r->Ok_0).0@ == cell && (r->Ok_0).1 == end && start < end
                <= row@.len() && (r->Ok_0).0.rowspan > 0 && (r->Ok_0).0.colspan > 0,
            Err(e) => r is Err && r->Err_0 == e,
        },
{
    proof {
        lemma_cell_at(row@, start as int, close@);
    }
    let open_end = match find_tag_end(row, start) {
        Some(p) => p,
        None => {
            return Err(TableError::CellStartOpen);
        },
    };
    let close_start = match find_tag(row, open_end, close) {
        Some(p) => p,
        None => {
            return Err(TableError::CellEndMissing);
        },
    };
    let close_end = match find_tag_end(row, close_start) {
        Some(p) => p,
        None => {
            return Err(TableError::CellEndOpen);
        },
    };
    let tag = vstd::slice::slice_subrange(row, start, open_end);
    let inner = vstd::slice::slice_subrange(row, open_end, close_start);
    let cell = ParsedCell {
        text: html_fragment_to_text(inner),
        rowspan: parse_span_attr(tag, ROWSPAN_PATTERN),
        colspan: parse_span_attr(tag, COLSPAN_PATTERN),
    };
    Ok((cell, close_end))
}

// ---- Rows ----

/// The cells of `row` from `pos` on: as long as a header cell follows, the next header cell,
/// and else the next data cell.
pub open spec fn row_from(row: Seq<char>, pos: int) -> Result<Row, TableError>
    decreases row.len() - pos,
    via row_from_decreases
{
    if pos < 0 || pos >= row.len() {
        Ok(Row { cells: Seq::empty(), has_th: false })
    } else {
        let th = tag_from(row, pos, "th"@);
        let td = tag_from(row, pos, "td"@);
        if th is None && td is None {
            Ok(Row { cells: Seq::empty(), has_th: false })
        } else {
            let found = if th is Some {
                cell_at(row, th->0, "/th"@)
            } else {
                cell_at(row, td->0, "/td"@)
            };
            match found {
                Err(e) => Err(e),
                Ok((cell, end)) => match row_from(row, end) {
                    Err(e) => Err(e),
                    Ok(rest) => Ok(
                        Row { cells: seq![cell] + rest.cells, has_th: th is Some || rest.has_th },
                    ),
                },
            }
        }
    }
}

#[via_fn]
proof fn row_from_decreases(row: Seq<char>, pos: int) {
    lemma_tag_from(row, pos, "th"@);
    lemma_tag_from(row, pos, "td"@);
    if let Some(start) = tag_from(row, pos, "th"@) {
        lemma_cell_at(row, start, "/th"@);
    } else if let Some(start) = tag_from(row, pos, "td"@) {
        lemma_cell_at(row, start, "/td"@);
    }
}

/// The row that the cells already read and the rest of the row make up.
spec fn row_after(before: Row, rest: Result<Row, TableError>) -> Result<Row, TableError> {
    match rest {
        Err(e) => Err(e),
        Ok(r) => Ok(Row { cells: before.cells + r.cells, has_th: before.has_th || r.has_th }),
    }
}

/// The spans of every cell are positive.
pub open spec fn spans_positive(row: ParsedRow) -> bool {
    forall|i: int|
        0 <= i < row.cells@.len() ==> (#[trigger] row.cells@[i]).rowspan > 0
            && row.cells@[i].colspan > 0
}

/// The cells of a row.
pub fn parse_row(row: &[char]) -> (r: Result<ParsedRow, TableError>)
    ensures
        match row_from(row@, 0) {
            Ok(expected) => r is Ok && r->Ok_0@ == expected && spans_positive(r->Ok_0),
            Err(e) => r is Err && r->Err_0 == e,
        },
{
    let th = chars_of("th");
    let th_end = chars_of("/th");
    let td = chars_of("td");
    let td_end = chars_of("/td");
    let mut out = ParsedRow { cells: Vec::new(), has_th: false };
    let mut pos: usize = 0;
    proof {
        assert(cells_of(out.cells@) =~= Seq::empty());
        if let Ok(all) = row_from(row@, 0) {
            assert(Seq::<Cell>::empty() + all.cells =~= all.cells);
        }
    }
    while pos < row.len()
        invariant
            pos <= row@.len(),
            th@ == "th"@,
            th_end@ == "/th"@,
            td@ == "td"@,
            td_end@ == "/td"@,
            row_from(row@, 0) == row_after(out@, row_from(row@, pos as int)),
            spans_positive(out),
        decreases row.len() - pos,
    {
        let ghost before = out@;
        proof {
            lemma_tag_from(row@, pos as int, "th"@);
            lemma_tag_from(row@, pos as int, "td"@);
        }
        let (header, start) = match find_tag(row, pos, &th) {
            Some(p) => (true, p),
            None => match find_tag(row, pos, &td) {
                Some(p) => (false, p),
                None => {
                    assert(before.cells + Seq::<Cell>::empty() =~= before.cells);
                    return Ok(out);
                },
            },
        };
        let found = if header {
            parse_cell(row, start, &th_end)
        } else {
            parse_cell(row, start, &td_end)
        };
        match found {
            Err(e) => {
                return Err(e);
            },
            Ok((cell, end)) => {
                let ghost c = cell@;
                out.cells.push(cell);
                if header {
                    out.has_th = true;
                }
                proof {
                    assert(cells_of(out.cells@) =~= before.cells.push(c));
                    if let Ok(rest) = row_from(row@, end as int) {
                        assert(before.cells + (seq![c] + rest.cells) =~= before.cells.push(c)
                            + rest.cells);
                    }
                }
                pos = end;
            },
        }
    }
    assert(out@.cells + Seq::<Cell>::empty() =~= out@.cells);
    Ok(out)
}

/// The rows of the table `s` from `pos` on.
pub open spec fn rows_from(s: Seq<char>, pos: int) -> Result<Seq<Row>, TableError>
    decreases s.len() - pos,
    via rows_from_decreases
{
    match tag_from(s, pos, "tr"@) {
        None => Ok(Seq::empty()),
        Some(start) => match tag_end(s, start) {
            None => Err(TableError::RowStartOpen),
            Some(open_end) => match tag_from(s, open_end, "/tr"@) {
                None => Err(TableError::RowEndMissing),
                Some(close_start) => match tag_end(s, close_start) {
                    None => Err(TableError::RowEndOpen),
                    Some(close_end) => match row_from(s.subrange(open_end, close_start), 0) {
                        Err(e) => Err(e),
                        Ok(row) => match rows_from(s, close_end) {
                            Err(e) => Err(e),
                            Ok(rest) => Ok(seq![row] + rest),
                        },
                    },
                },
            },
        },
    }
}

#[via_fn]
proof fn rows_from_decreases(s: Seq<char>, pos: int) {
    lemma_tag_from(s, pos, "tr"@);
    if let Some(start) = tag_from(s, pos, "tr"@) {
        lemma_tag_end(s, start);
        if let Some(open_end) = tag_end(s, start) {
            lemma_tag_from(s, open_end, "/tr"@);
            if let Some(close_start) = tag_from(s, open_end, "/tr"@) {
                lemma_tag_end(s, close_start);
            }
        }
    }
}

spec fn rows_after(before: Seq<Row>, rest: Result<Seq<Row>, TableError>) -> Result<
    Seq<Row>,
    TableError,
> {
    match rest {
        Err(e) => Err(e),
        Ok(r) => Ok(before + r),
    }
}

/// The spans of every cell in every row are positive.
pub open spec fn all_spans_positive(rows: Seq<ParsedRow>) -> bool {
    forall|i: int| 0 <= i < rows.len() ==> spans_positive(#[trigger] rows[i])
}

/// The rows of a table.
pub fn parse_rows(s: &[char]) -> (r: Result<Vec<ParsedRow>, TableError>)
    ensures
        match rows_from(s@, 0) {
            Ok(expected) => r is Ok && rows_of(r->Ok_0@) == expected && all_spans_positive(
                r->Ok_0@,
            ),
            Err(e) => r is Err && r->Err_0 == e,
        },
{
    let tr = chars_of("tr");
    let tr_end = chars_of("/tr");
    let mut out: Vec<ParsedRow> = Vec::new();
    let mut pos: usize = 0;
    let mut next = find_tag(s, pos, &tr);
    proof {
        assert(rows_of(out@) =~= Seq::empty());
        if let Ok(all) = rows_from(s@, 0) {
            assert(Seq::<Row>::empty() + all =~= all);
        }
    }
    while next.is_some()
        invariant
            pos <= s@.len(),
            tr@ == "tr"@,
            tr_end@ == "/tr"@,
            match tag_from(s@, pos as int, "tr"@) {
                Some(p) => next is Some && next->0 == p && pos <= p < s@.len(),
                None => next is None,
            },
            rows_from(s@, 0) == rows_after(rows_of(out@), rows_from(s@, pos as int)),
            all_spans_positive(out@),
        decreases s.len() - pos,
    {
        let ghost before = rows_of(out@);
        let start = next.unwrap();
        let open_end = match find_tag_end(s, start) {
            Some(p) => p,
            None => {
                return Err(TableError::RowStartOpen);
            },
        };
        let close_start = match find_tag(s, open_end, &tr_end) {
            Some(p) => p,
            None => {
                return Err(TableError::RowEndMissing);
            },
        };
        let close_end = match find_tag_end(s, close_start) {
            Some(p) => p,
            None => {
                return Err(TableError::RowEndOpen);
            },
        };
        match parse_row(vstd::slice::slice_subrange(s, open_end, close_start)) {
            Err(e) => {
                return Err(e);
            },
            Ok(row) => {
                let ghost r = row@;
                out.push(row);
                proof {
                    assert(rows_of(out@) =~= before.push(r));
                    if let Ok(rest) = rows_from(s@, close_end as int) {
                        assert(before + (seq![r] + rest) =~= before.push(r) + rest);
                    }
                }
            },
        }
        pos = close_end;
        next = find_tag(s, pos, &tr);
    }
    assert(rows_of(out@) + Seq::<Row>::empty() =~= rows_of(out@));
    Ok(out)
}

// ---- Laws ----

/// A span is the number that the attribute gives where it stands first, whichever way it is
/// quoted, if that is a number greater than 0; in every other case it is 1.
pub proof fn law_spans_are_given_by_the_first_attribute(
    tag: Seq<char>,
    matches: Seq<Seq<Option<(usize, usize)>>>,
    k: int,
    from: usize,
    to: usize,
)
    requires
        matches.len() > 0,
        1 <= k <= 3,
        group_at(matches[0], k) == Some((from, to)),
        forall|j: int| 1 <= j < k ==> #[trigger] group_at(matches[0], j) is None,
    ensures
        ({
            let n = parse_unsigned(
                trim(tag.subrange(from as int, to as int), CharClass::Space),
                10,
                usize::MAX as nat,
            );
            span_value(tag, Some(matches)) == if n is Some && n->0 > 0 {
                n->0
            } else {
                1
            }
        }),
        span_value(tag, None) == 1,
        span_value(tag, Some(Seq::empty())) == 1,
{
    if k > 1 {
        assert(group_at(matches[0], 1) is None);
    }
    if k > 2 {
        assert(group_at(matches[0], 2) is None);
    }
}

/// Whether `p` is the first place at or behind `pos` where a tag with the name `name` begins.
pub open spec fn first_tag(s: Seq<char>, pos: int, name: Seq<char>, p: int) -> bool {
    &&& pos <= p
    &&& starts_tag(s, p, name)
    &&& forall|q: int| pos <= q < p ==> !#[trigger] starts_tag(s, q, name)
}

/// Whether no tag with the name `name` begins at or behind `pos`.
pub open spec fn no_tag(s: Seq<char>, pos: int, name: Seq<char>) -> bool {
    forall|q: int| pos <= q ==> !#[trigger] starts_tag(s, q, name)
}

proof fn lemma_first_tag(s: Seq<char>, pos: int, name: Seq<char>)
    ensures
        match tag_from(s, pos, name) {
            Some(p) => first_tag(s, pos, name, p),
            None => no_tag(s, pos, name),
        },
        forall|p: int| #[trigger] first_tag(s, pos, name, p) ==> tag_from(s, pos, name) == Some(p),
        no_tag(s, pos, name) ==> tag_from(s, pos, name) is None,
{
    law_tags_are_found_first(s, pos, name);
    assert forall|p: int| #[trigger] first_tag(s, pos, name, p) implies tag_from(s, pos, name)
        == Some(p) by {
        let found = tag_from(s, pos, name);
        if found is Some {
            let q = found->0;
            if q < p {
                assert(!starts_tag(s, q, name));
            }
            if p < q {
                assert(!starts_tag(s, p, name));
            }
        } else {
            assert(!starts_tag(s, p, name));
        }
    }
}

/// A cell goes from its start tag to its first end tag. Its text is what stands between, and its
/// start tag says how many rows and columns it takes.
pub proof fn law_cells_end_at_their_end_tag(
    row: Seq<char>,
    start: int,
    name: Seq<char>,
    open_end: int,
    close_start: int,
    close_end: int,
)
    requires
        tag_end(row, start) == Some(open_end),
        first_tag(row, open_end, name, close_start),
        tag_end(row, close_start) == Some(close_end),
    ensures
        ({
            let tag = row.subrange(start, open_end);
            cell_at(row, start, name) == Ok::<_, TableError>(
                (
                    Cell {
                        text: fragment_text(row.subrange(open_end, close_start)),
                        rowspan: span_attr(tag, ROWSPAN_PATTERN@),
                        colspan: span_attr(tag, COLSPAN_PATTERN@),
                    },
                    close_end,
                ),
            )
        }),
{
    lemma_first_tag(row, open_end, name);
}

/// The cells of a row are read from left to right; as long as a header cell follows somewhere, it
/// is the next one, and only then come data cells. A row with a header cell has one.
pub proof fn law_cells_are_read_in_order(row: Seq<char>, pos: int, p: int, cell: Cell, end: int)
    requires
        0 <= pos < row.len(),
        (first_tag(row, pos, "th"@, p) && cell_at(row, p, "/th"@) == Ok::<_, TableError>(
            (cell, end),
        )) || (no_tag(row, pos, "th"@) && first_tag(row, pos, "td"@, p) && cell_at(row, p, "/td"@)
            == Ok::<_, TableError>((cell, end))),
    ensures
        row_from(row, pos) is Ok <==> row_from(row, end) is Ok,
        row_from(row, end) matches Ok(rest) ==> row_from(row, pos) == Ok::<_, TableError>(
            Row {
                cells: seq![cell] + rest.cells,
                has_th: first_tag(row, pos, "th"@, p) || rest.has_th,
            },
        ),
{
    lemma_first_tag(row, pos, "th"@);
    lemma_first_tag(row, pos, "td"@);
}

/// A row without a cell has none.
pub proof fn law_rows_end_with_their_cells(row: Seq<char>, pos: int)
    requires
        0 <= pos,
        no_tag(row, pos, "th"@),
        no_tag(row, pos, "td"@),
    ensures
        row_from(row, pos) == Ok::<_, TableError>(Row { cells: Seq::empty(), has_th: false }),
{
    lemma_first_tag(row, pos, "th"@);
    lemma_first_tag(row, pos, "td"@);
}

/// The rows of a table are read one after the other, each from its start tag to its first end tag.
/// A table without one more row ends there.
pub proof fn law_rows_are_read_in_order(
    s: Seq<char>,
    pos: int,
    start: int,
    open_end: int,
    close_start: int,
    close_end: int,
)
    requires
        first_tag(s, pos, "tr"@, start),
        tag_end(s, start) == Some(open_end),
        first_tag(s, open_end, "/tr"@, close_start),
        tag_end(s, close_start) == Some(close_end),
    ensures
        rows_from(s, pos) is Ok <==> row_from(s.subrange(open_end, close_start), 0) is Ok
            && rows_from(s, close_end) is Ok,
        rows_from(s, pos) matches Ok(rows) ==> {
            &&& rows.len() > 0
            &&& row_from(s.subrange(open_end, close_start), 0) == Ok::<_, TableError>(rows[0])
            &&& rows_from(s, close_end) == Ok::<_, TableError>(rows.skip(1))
        },
{
    lemma_first_tag(s, pos, "tr"@);
    lemma_first_tag(s, open_end, "/tr"@);
    if rows_from(s, pos) is Ok {
        let rest = rows_from(s, close_end)->Ok_0;
        let row = row_from(s.subrange(open_end, close_start), 0)->Ok_0;
        assert((seq![row] + rest).skip(1) =~= rest);
    }
}

/// A table without a row has none; one whose last row has no end cannot be read.
pub proof fn law_rows_must_end(s: Seq<char>, pos: int, start: int)
    ensures
        no_tag(s, pos, "tr"@) ==> rows_from(s, pos) == Ok::<_, TableError>(Seq::<Row>::empty()),
        first_tag(s, pos, "tr"@, start) && tag_end(s, start) is None ==> rows_from(s, pos) == Err::<
            Seq<Row>,
            _,
        >(TableError::RowStartOpen),
        first_tag(s, pos, "tr"@, start) && tag_end(s, start) is Some && no_tag(
            s,
            tag_end(s, start)->0,
            "/tr"@,
        ) ==> rows_from(s, pos) == Err::<Seq<Row>, _>(TableError::RowEndMissing),
{
    lemma_first_tag(s, pos, "tr"@);
    if tag_end(s, start) is Some {
        lemma_first_tag(s, tag_end(s, start)->0, "/tr"@);
    }
}

} // verus!
