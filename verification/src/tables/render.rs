//! A table as Markdown, one record per row.

use vstd::prelude::*;
use vstd::utf8::encode_utf8;

use crate::json::{json_string, quoted};
use crate::number::{decimal, decimal_of};
use crate::pieces::{join, joined, texts};
use crate::tables::columns::{build_columns, column_names, numbered_column, numbered_column_name};
use crate::tables::grid::{
    check_spans, expand, expand_rows, law_grid_is_rectangular, place_text, rectangular, spans_fit,
    ExpandedTable, Grid,
};
use crate::tables::parse::{parse_rows, rows_from, rows_of, ParsedRow, Row, TableError};
use crate::text::{byte_len, chars_of, copy_of, push_all, push_str, string_of};

verus! {

/// The number of bytes beyond which the HTML of a table is not read.
pub const RAW_HTML_LIMIT: usize = 131072;

/// The number of cells beyond which a table is not rewritten.
pub const CELL_LIMIT: usize = 2000;

/// The number of bytes beyond which a rewritten table is not kept.
pub const NORMALIZED_CHAR_LIMIT: usize = 32768;

/// The number of rows that stand together without a blank line.
pub const ROW_GROUP_SIZE: usize = 25;

/// A table: the names of its columns, and its rows.
pub struct Table {
    pub columns: Seq<Seq<char>>,
    pub rows: Seq<Seq<Seq<char>>>,
}

/// How many rows at the start have a header cell.
pub open spec fn header_count(rows: Seq<Row>) -> nat
    decreases rows.len(),
{
    if rows.len() == 0 || !rows[0].has_th {
        0
    } else {
        1 + header_count(rows.skip(1))
    }
}

/// The text of a place; the empty text if no cell covers it.
pub open spec fn text_or_empty(place: Option<Seq<char>>) -> Seq<char> {
    match place {
        Some(text) => text,
        None => Seq::empty(),
    }
}

/// The texts of a row.
pub open spec fn data_row(row: Seq<Option<Seq<char>>>) -> Seq<Seq<char>> {
    Seq::new(row.len(), |j: int| text_or_empty(row[j]))
}

/// The names of the columns: from the header rows, or by number if there are none.
pub open spec fn columns_of(g: Grid, headers: nat) -> Seq<Seq<char>> {
    if headers == 0 {
        Seq::new(g.width, |j: int| numbered_column((j + 1) as nat))
    } else {
        column_names(g.rows, headers)
    }
}

/// The table that `rows` make up: the rows behind the header rows are its rows.
pub open spec fn table_of(rows: Seq<Row>) -> Table {
    let g = expand(rows);
    let headers = header_count(rows);
    Table {
        columns: columns_of(g, headers),
        rows: Seq::new(
            (g.rows.len() - headers) as nat,
            |i: int| data_row(g.rows[headers + i]),
        ),
    }
}

/// What becomes of a table's HTML when it is read.
pub enum Reading {
    /// It cannot be read.
    Failed(TableError),
    /// Its cells ask for more rows or columns than a machine can count.
    Uncountable,
    /// It is a table.
    Rows(Seq<Row>),
}

/// Reads the HTML of a table: it has rows, and a column.
pub open spec fn reading(html: Seq<char>) -> Reading {
    match rows_from(html, 0) {
        Err(e) => Reading::Failed(e),
        Ok(rows) => if rows.len() == 0 {
            Reading::Failed(TableError::NoRows)
        } else if !spans_fit(rows) {
            Reading::Uncountable
        } else if expand(rows).width == 0 {
            Reading::Failed(TableError::NoColumns)
        } else {
            Reading::Rows(rows)
        },
    }
}

// ---- The text of a table ----

/// The first `n` fields of a record: names and values in turn.
pub open spec fn record_fields(columns: Seq<Seq<char>>, values: Seq<Seq<char>>, n: nat) -> Seq<char>
    decreases n,
{
    if n == 0 {
        Seq::empty()
    } else {
        record_fields(columns, values, (n - 1) as nat) + (if n > 1 {
            seq![',']
        } else {
            Seq::empty()
        }) + json_string(columns[n - 1]) + seq![':'] + json_string(values[n - 1])
    }
}

/// A row as a JSON object whose names are the columns, in their order.
pub open spec fn record(columns: Seq<Seq<char>>, values: Seq<Seq<char>>) -> Seq<char> {
    let n = if columns.len() < values.len() {
        columns.len()
    } else {
        values.len()
    };
    seq!['{'] + record_fields(columns, values, n) + seq!['}']
}

/// The first `n` rows, each on a line of its own, with a blank line before each group but the
/// first.
pub open spec fn record_lines(columns: Seq<Seq<char>>, rows: Seq<Seq<Seq<char>>>, n: nat) -> Seq<
    char,
>
    decreases n,
{
    if n == 0 {
        Seq::empty()
    } else {
        record_lines(columns, rows, (n - 1) as nat) + (if n > 1 && (n - 1) % (
        ROW_GROUP_SIZE as int) == 0 {
            seq!['\n']
        } else {
            Seq::empty()
        }) + "Row: "@ + record(columns, rows[n - 1]) + seq!['\n']
    }
}

/// The heading of the table number `ordinal`, and where its HTML is kept.
pub open spec fn table_heading(ordinal: nat, artifact: Seq<char>) -> Seq<char> {
    "\n\n##### OCR Table "@ + decimal(ordinal) + "\nSource (OCR HTML): "@ + artifact + "\n"@
}

/// A table as Markdown.
pub open spec fn table_text(table: Table, ordinal: nat, artifact: Seq<char>) -> Seq<char> {
    table_heading(ordinal, artifact) + "Columns: "@ + join(table.columns, ", "@) + "\n\n"@
        + record_lines(table.columns, table.rows, table.rows.len()) + seq!['\n']
}

/// What stands for a table that is not rewritten.
pub open spec fn placeholder(ordinal: nat, artifact: Seq<char>, reason: Seq<char>) -> Seq<char> {
    table_heading(ordinal, artifact) + "Status: "@ + reason + "\n\n"@
}

/// What becomes of a table when it is rewritten.
pub enum Rewriting {
    /// The text that takes its place.
    Text(Seq<char>),
    /// Its HTML, its cells or its text are over a limit.
    TooLarge,
    /// It cannot be read, or has no row besides header rows.
    Failed,
    /// Its cells ask for more rows or columns than a machine can count.
    Uncountable,
}

/// Rewrites the table number `ordinal`.
pub open spec fn rewriting(html: Seq<char>, ordinal: nat, artifact: Seq<char>) -> Rewriting {
    if encode_utf8(html).len() > RAW_HTML_LIMIT {
        Rewriting::TooLarge
    } else {
        match reading(html) {
            Reading::Failed(_) => Rewriting::Failed,
            Reading::Uncountable => Rewriting::Uncountable,
            Reading::Rows(rows) => {
                let table = table_of(rows);
                let text = table_text(table, ordinal, artifact);
                if table.rows.len() == 0 {
                    Rewriting::Failed
                } else if table.columns.len() * table.rows.len() > CELL_LIMIT {
                    Rewriting::TooLarge
                } else if encode_utf8(text).len() > NORMALIZED_CHAR_LIMIT {
                    Rewriting::TooLarge
                } else {
                    Rewriting::Text(text)
                }
            },
        }
    }
}

// ---- Reading ----

/// The rows of a grid as texts.
pub open spec fn rows_texts(rows: Seq<Vec<Vec<char>>>) -> Seq<Seq<Seq<char>>> {
    Seq::new(rows.len(), |i: int| texts(rows[i]@))
}

/// A table as it was read.
pub struct ParsedTable {
    pub columns: Vec<Vec<char>>,
    pub rows: Vec<Vec<Vec<char>>>,
}

impl View for ParsedTable {
    type V = Table;

    open spec fn view(&self) -> Table {
        Table { columns: texts(self.columns@), rows: rows_texts(self.rows@) }
    }
}

/// A table laid out, with the number of its header rows.
struct LaidOut {
    table: ExpandedTable,
    headers: usize,
}

/// What came of reading a table's HTML.
enum LayOut {
    Failed(TableError),
    Uncountable,
    Table(LaidOut),
}

proof fn lemma_header_count(rows: Seq<Row>)
    ensures
        header_count(rows) <= rows.len(),
    decreases rows.len(),
{
    if rows.len() > 0 {
        lemma_header_count(rows.skip(1));
    }
}

fn count_headers(rows: &Vec<ParsedRow>) -> (n: usize)
    ensures
        n == header_count(rows_of(rows@)),
        n <= rows@.len(),
{
    let ghost all = rows_of(rows@);
    let mut n: usize = 0;
    assert(all.skip(0) =~= all);
    while n < rows.len() && rows[n].has_th
        invariant
            n <= rows@.len(),
            all == rows_of(rows@),
            header_count(all) == n + header_count(all.skip(n as int)),
        decreases rows.len() - n,
    {
        assert(all.skip(n as int)[0] == rows@[n as int]@);
        assert(all.skip(n as int).skip(1) =~= all.skip(n + 1));
        n += 1;
    }
    if n < rows.len() {
        assert(all.skip(n as int)[0] == rows@[n as int]@);
    }
    n
}

fn lay_out(html: &[char]) -> (r: LayOut)
    ensures
        match reading(html@) {
            Reading::Failed(e) => r == LayOut::Failed(e),
            Reading::Uncountable => r == LayOut::Uncountable,
            Reading::Rows(rows) => r matches LayOut::Table(t) && t.table@ == expand(rows)
                && t.headers == header_count(rows) && rectangular(t.table@) && t.headers
                <= t.table.grid@.len(),
        },
{
    match parse_rows(html) {
        Err(e) => LayOut::Failed(e),
        Ok(rows) => {
            if rows.len() == 0 {
                return LayOut::Failed(TableError::NoRows);
            }
            if !check_spans(&rows) {
                return LayOut::Uncountable;
            }
            let headers = count_headers(&rows);
            proof {
                law_grid_is_rectangular(rows_of(rows@));
            }
            match expand_rows(&rows) {
                Err(e) => LayOut::Failed(e),
                Ok(table) => LayOut::Table(LaidOut { table, headers }),
            }
        },
    }
}

/// Whether each row of a table has a value for each of its columns.
pub open spec fn has_all_values(t: Table) -> bool {
    forall|i: int| 0 <= i < t.rows.len() ==> (#[trigger] t.rows[i]).len() == t.columns.len()
}

/// Each row of a table has a value for each of its columns.
pub proof fn law_rows_have_all_values(html: Seq<char>)
    ensures
        reading(html) matches Reading::Rows(rows) ==> has_all_values(table_of(rows)) && table_of(
            rows,
        ).columns.len() > 0,
{
    match reading(html) {
        Reading::Rows(rows) => {
            let g = expand(rows);
            let t = table_of(rows);
            law_grid_is_rectangular(rows);
            lemma_header_count(rows);
            assert(g.rows.len() > 0);
            assert(g.rows[0].len() == g.width);
            assert forall|i: int| 0 <= i < t.rows.len() implies (#[trigger] t.rows[i]).len()
                == t.columns.len() by {
                assert(g.rows[header_count(rows) + i].len() == g.width);
            }
        },
        _ => {},
    }
}

/// The table that a laid out table makes up.
fn finish_table(t: &LaidOut) -> (r: ParsedTable)
    requires
        rectangular(t.table@),
        t.headers <= t.table.grid@.len(),
    ensures
        texts(r.columns@) == columns_of(t.table@, t.headers as nat),
        rows_texts(r.rows@) == Seq::new(
            (t.table@.rows.len() - t.headers) as nat,
            |i: int| data_row(t.table@.rows[t.headers + i]),
        ),
{
    let ghost g = t.table@;
    let width = t.table.width;
    let columns = if t.headers == 0 {
        let mut names: Vec<Vec<char>> = Vec::new();
        let mut j: usize = 0;
        while j < width
            invariant
                j <= width,
                names@.len() == j,
                forall|k: int|
                    0 <= k < j ==> (#[trigger] names@[k])@ == numbered_column((k + 1) as nat),
            decreases width - j,
        {
            names.push(numbered_column_name(j + 1));
            j += 1;
        }
        assert(texts(names@) =~= columns_of(g, 0));
        names
    } else {
        assert forall|i: int| 0 <= i < t.table.grid@.len() implies (
        #[trigger] t.table.grid@[i])@.len() == width by {
            assert(g.rows[i].len() == g.width);
        }
        build_columns(&t.table.grid, t.headers)
    };
    let mut rows: Vec<Vec<Vec<char>>> = Vec::new();
    let mut i: usize = t.headers;
    while i < t.table.grid.len()
        invariant
            t.headers <= i <= t.table.grid@.len(),
            g == t.table@,
            rows@.len() == i - t.headers,
            forall|k: int|
                0 <= k < rows@.len() ==> texts((#[trigger] rows@[k])@) == data_row(
                    g.rows[t.headers + k],
                ),
        decreases t.table.grid.len() - i,
    {
        let places = &t.table.grid[i];
        let mut row: Vec<Vec<char>> = Vec::new();
        let mut j: usize = 0;
        while j < places.len()
            invariant
                j <= places@.len(),
                row@.len() == j,
                forall|k: int|
                    0 <= k < j ==> (#[trigger] row@[k])@ == text_or_empty(place_text(places@[k])),
            decreases places.len() - j,
        {
            match &places[j] {
                Some(text) => row.push(copy_of(text)),
                None => row.push(Vec::new()),
            }
            j += 1;
        }
        assert(texts(row@) =~= data_row(g.rows[i as int]));
        rows.push(row);
        i += 1;
    }
    assert(rows_texts(rows@) =~= Seq::new(
        (g.rows.len() - t.headers) as nat,
        |i: int| data_row(g.rows[t.headers + i]),
    ));
    ParsedTable { columns, rows }
}

/// What came of reading a table's HTML.
pub enum TableReading {
    /// It cannot be read.
    Failed(TableError),
    /// Its cells ask for more rows or columns than a machine can count.
    Uncountable,
    /// The table.
    Table(ParsedTable),
}

/// Reads the HTML of a table.
pub fn parse_table_fragment(html: &[char]) -> (r: TableReading)
    ensures
        match reading(html@) {
            Reading::Failed(e) => r == TableReading::Failed(e),
            Reading::Uncountable => r == TableReading::Uncountable,
            Reading::Rows(rows) => r matches TableReading::Table(t) && t@ == table_of(rows),
        },
        r matches TableReading::Table(t) ==> has_all_values(t@),
{
    proof {
        law_rows_have_all_values(html@);
    }
    match lay_out(html) {
        LayOut::Failed(e) => TableReading::Failed(e),
        LayOut::Uncountable => TableReading::Uncountable,
        LayOut::Table(t) => TableReading::Table(finish_table(&t)),
    }
}

// ---- Rendering ----

fn push_json(out: &mut Vec<char>, text: &[char])
    ensures
        final(out)@ == old(out)@ + json_string(text@),
{
    let s = string_of(text);
    let written = quoted(s);
    push_str(out, written.as_str());
}

/// A row as a JSON object whose names are the columns.
pub fn render_row_json(columns: &Vec<Vec<char>>, values: &Vec<Vec<char>>) -> (out: Vec<char>)
    ensures
        out@ == record(texts(columns@), texts(values@)),
{
    let ghost cs = texts(columns@);
    let ghost vs = texts(values@);
    let n = if columns.len() < values.len() {
        columns.len()
    } else {
        values.len()
    };
    let mut out: Vec<char> = Vec::new();
    out.push('{');
    let mut i: usize = 0;
    assert(out@ =~= seq!['{'] + record_fields(cs, vs, 0));
    while i < n
        invariant
            i <= n <= columns@.len(),
            n <= values@.len(),
            cs == texts(columns@),
            vs == texts(values@),
            out@ == seq!['{'] + record_fields(cs, vs, i as nat),
        decreases n - i,
    {
        if i > 0 {
            out.push(',');
        }
        push_json(&mut out, &columns[i]);
        out.push(':');
        push_json(&mut out, &values[i]);
        i += 1;
        assert(out@ =~= seq!['{'] + record_fields(cs, vs, i as nat));
    }
    out.push('}');
    assert(out@ =~= record(cs, vs));
    out
}

fn push_heading(out: &mut Vec<char>, ordinal: usize, artifact: &[char])
    ensures
        final(out)@ == old(out)@ + table_heading(ordinal as nat, artifact@),
{
    push_str(out, "\n\n##### OCR Table ");
    let digits = decimal_of(ordinal);
    push_all(out, &digits);
    push_str(out, "\nSource (OCR HTML): ");
    push_all(out, artifact);
    push_str(out, "\n");
    assert(out@ =~= old(out)@ + table_heading(ordinal as nat, artifact@));
}

/// What stands for a table that is not rewritten.
pub fn render_placeholder_block(ordinal: usize, artifact: &[char], reason: &str) -> (out: Vec<char>)
    ensures
        out@ == placeholder(ordinal as nat, artifact@, reason@),
{
    let mut out: Vec<char> = Vec::new();
    push_heading(&mut out, ordinal, artifact);
    push_str(&mut out, "Status: ");
    push_str(&mut out, reason);
    push_str(&mut out, "\n\n");
    assert(out@ =~= placeholder(ordinal as nat, artifact@, reason@));
    out
}

fn render_table(table: &ParsedTable, ordinal: usize, artifact: &[char]) -> (out: Vec<char>)
    ensures
        out@ == table_text(table@, ordinal as nat, artifact@),
{
    let ghost t = table@;
    let mut out: Vec<char> = Vec::new();
    push_heading(&mut out, ordinal, artifact);
    push_str(&mut out, "Columns: ");
    let comma = chars_of(", ");
    let names = joined(&table.columns, &comma);
    push_all(&mut out, &names);
    push_str(&mut out, "\n\n");
    let ghost head = out@;
    let mut i: usize = 0;
    assert(head + record_lines(t.columns, t.rows, 0) =~= head);
    while i < table.rows.len()
        invariant
            i <= table.rows@.len(),
            t == table@,
            out@ == head + record_lines(t.columns, t.rows, i as nat),
        decreases table.rows.len() - i,
    {
        if i > 0 && i % ROW_GROUP_SIZE == 0 {
            out.push('\n');
        }
        push_str(&mut out, "Row: ");
        let line = render_row_json(&table.columns, &table.rows[i]);
        assert(line@ == record(t.columns, t.rows[i as int]));
        push_all(&mut out, &line);
        out.push('\n');
        i += 1;
        assert(out@ =~= head + record_lines(t.columns, t.rows, i as nat));
    }
    out.push('\n');
    assert(out@ =~= table_text(t, ordinal as nat, artifact@));
    out
}

/// What came of rewriting a table.
pub enum TableRewriting {
    /// The text that takes its place.
    Text(Vec<char>),
    /// Its HTML, its cells or its text are over a limit.
    TooLarge,
    /// It cannot be read, or has no row besides header rows.
    Failed,
    /// Its cells ask for more rows or columns than a machine can count.
    Uncountable,
}

/// Whether `r` is what `expected` says.
pub open spec fn rewriting_is(r: TableRewriting, expected: Rewriting) -> bool {
    match expected {
        Rewriting::Text(text) => r matches TableRewriting::Text(t) && t@ == text,
        Rewriting::TooLarge => r == TableRewriting::TooLarge,
        Rewriting::Failed => r == TableRewriting::Failed,
        Rewriting::Uncountable => r == TableRewriting::Uncountable,
    }
}

/// Rewrites the table number `ordinal`.
pub fn render_normalized_table(html: &[char], ordinal: usize, artifact: &[char]) -> (r:
    TableRewriting)
    ensures
        rewriting_is(r, rewriting(html@, ordinal as nat, artifact@)),
{
    if byte_len(html) > RAW_HTML_LIMIT {
        return TableRewriting::TooLarge;
    }
    match lay_out(html) {
        LayOut::Failed(_) => TableRewriting::Failed,
        LayOut::Uncountable => TableRewriting::Uncountable,
        LayOut::Table(t) => {
            let width = t.table.width;
            let count = t.table.grid.len() - t.headers;
            if count == 0 {
                return TableRewriting::Failed;
            }
            let large = match width.checked_mul(count) {
                Some(cells) => cells > CELL_LIMIT,
                None => true,
            };
            if large {
                return TableRewriting::TooLarge;
            }
            let table = finish_table(&t);
            let text = render_table(&table, ordinal, artifact);
            if byte_len(&text) > NORMALIZED_CHAR_LIMIT {
                return TableRewriting::TooLarge;
            }
            TableRewriting::Text(text)
        },
    }
}

// ---- Laws ----

/// The header rows are the rows at the start that have a header cell, up to the first that has
/// none.
pub proof fn law_header_rows_come_first(rows: Seq<Row>, n: nat)
    requires
        n <= rows.len(),
        forall|i: int| 0 <= i < n ==> (#[trigger] rows[i]).has_th,
        n < rows.len() ==> !rows[n as int].has_th,
    ensures
        header_count(rows) == n,
    decreases n,
{
    if n > 0 {
        assert(rows[0].has_th);
        let rest = rows.skip(1);
        assert forall|i: int| 0 <= i < n - 1 implies (#[trigger] rest[i]).has_th by {
            assert(rest[i] == rows[i + 1]);
        }
        law_header_rows_come_first(rest, (n - 1) as nat);
    }
}

/// The rows of a table are those of the grid behind the header rows, with the empty text where no
/// cell is; the header rows name the columns, and without any the columns are numbered from 1.
pub proof fn law_rows_behind_the_headers_are_data(rows: Seq<Row>, n: nat)
    requires
        n <= rows.len(),
        forall|i: int| 0 <= i < n ==> (#[trigger] rows[i]).has_th,
        n < rows.len() ==> !rows[n as int].has_th,
    ensures
        ({
            let g = expand(rows);
            let t = table_of(rows);
            &&& t.rows.len() + n == g.rows.len()
            &&& forall|i: int, j: int|
                0 <= i < t.rows.len() && 0 <= j < g.width ==> #[trigger] t.rows[i][j]
                    == match g.rows[n + i][j] {
                    Some(text) => text,
                    None => Seq::empty(),
                }
            &&& forall|i: int|
                0 <= i < t.rows.len() ==> (#[trigger] t.rows[i]).len() == g.width
            &&& n > 0 ==> t.columns == column_names(g.rows, n)
            &&& n == 0 ==> t.columns.len() == g.width && forall|j: int|
                0 <= j < g.width ==> #[trigger] t.columns[j] == "col_"@ + decimal((j + 1) as nat)
        }),
{
    law_header_rows_come_first(rows, n);
    law_grid_is_rectangular(rows);
    let g = expand(rows);
    let t = table_of(rows);
    assert forall|i: int| 0 <= i < t.rows.len() implies (#[trigger] t.rows[i]).len() == g.width by {
        assert(g.rows[n + i].len() == g.width);
    }
}

proof fn lemma_record_fields(columns: Seq<Seq<char>>, values: Seq<Seq<char>>, n: nat)
    ensures
        record_fields(columns, values, n) == join(
            Seq::new(
                n,
                |j: int| json_string(columns[j]) + seq![':'] + json_string(values[j]),
            ),
            seq![','],
        ),
    decreases n,
{
    let all = Seq::new(n, |j: int| json_string(columns[j]) + seq![':'] + json_string(values[j]));
    if n > 0 {
        lemma_record_fields(columns, values, (n - 1) as nat);
        let init = Seq::new(
            (n - 1) as nat,
            |j: int| json_string(columns[j]) + seq![':'] + json_string(values[j]),
        );
        assert(all.drop_last() =~= init);
        assert(all.last() == json_string(columns[n - 1]) + seq![':'] + json_string(values[n - 1]));
        if n == 1 {
            assert(record_fields(columns, values, 1) =~= all[0]);
        } else {
            assert(record_fields(columns, values, n) =~= join(init, seq![',']) + seq![',']
                + all.last());
        }
    }
}

/// A record pairs the name of each column with the value in that column, in the order of the
/// columns.
pub proof fn law_records_pair_names_and_values(columns: Seq<Seq<char>>, values: Seq<Seq<char>>)
    requires
        columns.len() == values.len(),
    ensures
        record(columns, values) == seq!['{'] + join(
            Seq::new(
                columns.len(),
                |j: int| json_string(columns[j]) + seq![':'] + json_string(values[j]),
            ),
            seq![','],
        ) + seq!['}'],
{
    lemma_record_fields(columns, values, columns.len());
}

/// Each row of a table has a line of its own, in order; behind 25 rows each, if more follow, there
/// is an empty line.
pub proof fn law_each_row_has_its_line(columns: Seq<Seq<char>>, rows: Seq<Seq<Seq<char>>>, i: nat)
    requires
        i < rows.len(),
    ensures
        record_lines(columns, rows, 0) == Seq::<char>::empty(),
        record_lines(columns, rows, i + 1) == record_lines(columns, rows, i) + (if i > 0 && i % 25
            == 0 {
            seq!['\n']
        } else {
            Seq::empty()
        }) + "Row: "@ + record(columns, rows[i as int]) + seq!['\n'],
{
}

/// A table is rewritten only if its HTML takes no more than 131072 bytes, it has data rows, no more
/// than 2000 cells in them, and no more than 32768 bytes of text: its number and where its HTML is
/// kept, the names of the columns, and a record for each row.
pub proof fn law_tables_within_limits_are_rewritten(
    html: Seq<char>,
    rows: Seq<Row>,
    ordinal: nat,
    artifact: Seq<char>,
)
    requires
        reading(html) == Reading::Rows(rows),
    ensures
        ({
            let t = table_of(rows);
            let text = "\n\n##### OCR Table "@ + decimal(ordinal) + "\nSource (OCR HTML): "@
                + artifact + "\n"@ + "Columns: "@ + join(t.columns, ", "@) + "\n\n"@ + record_lines(
                t.columns,
                t.rows,
                t.rows.len(),
            ) + seq!['\n'];
            rewriting(html, ordinal, artifact) == if encode_utf8(html).len() > 131072 {
                Rewriting::TooLarge
            } else if t.rows.len() == 0 {
                Rewriting::Failed
            } else if t.columns.len() * t.rows.len() > 2000 || encode_utf8(text).len() > 32768 {
                Rewriting::TooLarge
            } else {
                Rewriting::Text(text)
            }
        }),
{
}

/// A table whose HTML cannot be read, or that has no row or no column, is not rewritten.
pub proof fn law_unreadable_tables_are_not_rewritten(
    html: Seq<char>,
    ordinal: nat,
    artifact: Seq<char>,
)
    requires
        encode_utf8(html).len() <= 131072,
    ensures
        rows_from(html, 0) is Err ==> rewriting(html, ordinal, artifact) is Failed,
        rows_from(html, 0) matches Ok(rows) ==> {
            &&& rows.len() == 0 ==> rewriting(html, ordinal, artifact) is Failed
            &&& rows.len() > 0 && spans_fit(rows) && expand(rows).width == 0 ==> rewriting(
                html,
                ordinal,
                artifact,
            ) is Failed
            &&& rows.len() > 0 && spans_fit(rows) && expand(rows).width > 0 ==> reading(html)
                == Reading::Rows(rows)
            &&& rows.len() > 0 && !spans_fit(rows) ==> rewriting(html, ordinal, artifact)
                is Uncountable
        },
{
}

/// A placeholder tells the number of the table, where its HTML is kept, and why it is not
/// rewritten.
pub proof fn law_placeholders_tell_why(ordinal: nat, artifact: Seq<char>, reason: Seq<char>)
    ensures
        placeholder(ordinal, artifact, reason) == "\n\n##### OCR Table "@ + decimal(ordinal)
            + "\nSource (OCR HTML): "@ + artifact + "\n"@ + "Status: "@ + reason + "\n\n"@,
{
}

} // verus!
