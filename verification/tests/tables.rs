use paperdown::tables::cell_text::{decode_html_entity, html_fragment_to_text};
use paperdown::tables::columns::{build_columns, disambiguate_keys, normalize_key};
use paperdown::tables::grid::{check_spans, expand_rows};
use paperdown::tables::normalize::{
    extract_table_span, extract_tables, find_next_table_tag, normalize_tables, path_of_artifact,
    rewrite_non_code_chunk, tables_of_paper, NormalizedTables, TableStats,
};
use paperdown::tables::parse::{
    parse_cell, parse_rows, parse_span_attr, read_span, TableError, COLSPAN_PATTERN, ROWSPAN_PATTERN,
};
use paperdown::tables::render::{
    parse_table_fragment, render_normalized_table, render_placeholder_block, render_row_json,
    TableReading, TableRewriting,
};

fn chars(s: &str) -> Vec<char> {
    s.chars().collect()
}

fn text(v: &[char]) -> String {
    v.iter().collect()
}

fn list(items: &[&str]) -> Vec<Vec<char>> {
    items.iter().map(|s| chars(s)).collect()
}

fn normalized(markdown: &str) -> NormalizedTables {
    normalize_tables(markdown).expect("cells can be counted")
}

// ---- Cells ----

#[test]
fn character_references_are_decoded() {
    for (reference, expected) in [
        ("&amp;", "&"),
        ("&lt;", "<"),
        ("&gt;", ">"),
        ("&quot;", "\""),
        ("&#39;", "'"),
        ("&#x27;", "'"),
        ("&#x2014;", "\u{2014}"),
        ("&#X41;", "A"),
        ("&#8364;", "\u{20ac}"),
    ] {
        let (decoded, consumed) = decode_html_entity(&chars(reference), 0).expect("decoded");
        assert_eq!(text(&decoded), expected);
        assert_eq!(consumed, reference.chars().count());
    }
    for reference in ["&nbsp;", "&#xD800;", "&#1114112;", "&#99999999999;", "&#;", "&amp"] {
        assert!(decode_html_entity(&chars(reference), 0).is_none(), "{reference}");
    }
}

#[test]
fn the_text_of_a_cell_has_no_tags() {
    let cell = |s: &str| text(&html_fragment_to_text(&chars(s)));
    assert_eq!(cell(" <b>a</b>&amp;b<br/>c "), "a&b\nc");
    assert_eq!(cell("<p>x</p><div>y</div>"), "x\n\ny");
    assert_eq!(cell("1 < 2"), "1");
    assert_eq!(cell("a&nbsp;b"), "a&nbsp;b");
    assert_eq!(cell("<i title=\"a>b\">z</i>"), "z");
}

#[test]
fn spans_are_read_from_attributes() {
    let rowspan = |s: &str| parse_span_attr(&chars(s), ROWSPAN_PATTERN);
    let colspan = |s: &str| parse_span_attr(&chars(s), COLSPAN_PATTERN);
    assert_eq!(rowspan("<td rowspan=\"3\">"), 3);
    assert_eq!(rowspan("<td ROWSPAN = ' 4 '>"), 4);
    assert_eq!(colspan("<td colspan=2 rowspan=5>"), 2);
    assert_eq!(rowspan("<td colspan=2 rowspan=5>"), 5);
    assert_eq!(rowspan("<td>"), 1);
    assert_eq!(rowspan("<td rowspan=0>"), 1);
    assert_eq!(rowspan("<td rowspan=-2>"), 1);
    assert_eq!(rowspan("<td rowspan=x>"), 1);
    assert_eq!(rowspan("<td data-rowspan=7>"), 7);
    assert_eq!(rowspan("<td xrowspan=7>"), 1);
}

#[test]
fn a_span_is_read_from_the_first_match() {
    let tag = chars("<td a='12' b=34>");
    let matches = vec![
        vec![Some((4, 10)), None, Some((7, 9)), None],
        vec![Some((11, 15)), None, None, Some((13, 15))],
    ];
    assert_eq!(read_span(&tag, &Some(matches)), 12);
    assert_eq!(read_span(&tag, &Some(Vec::new())), 1);
    assert_eq!(read_span(&tag, &None), 1);
}

// ---- Rows ----

fn failure(html: &str) -> &'static str {
    match parse_rows(&chars(html)) {
        Ok(_) => panic!("expected an error"),
        Err(e) => e.message(),
    }
}

#[test]
fn rows_that_are_not_closed_are_refused() {
    assert_eq!(failure("<tr"), "table row start tag was not closed");
    assert_eq!(failure("<tr><td>x</td>"), "table row end tag was not found");
    assert_eq!(failure("<tr></tr"), "table row end tag was not closed");
    assert_eq!(failure("<tr><td a='></tr>"), "table cell start tag was not closed");
    assert_eq!(failure("<tr><td </tr>"), "table cell start tag was not closed");
    assert_eq!(failure("<tr><td>x</tr>"), "table cell end tag was not found");
    assert_eq!(failure("<tr><td>x</td</tr>"), "table cell end tag was not closed");
}

#[test]
fn header_cells_are_looked_for_first() {
    let rows = parse_rows(&chars("<TR><td>a</td><TH>b</TH><td>c</td></TR>")).ok().expect("rows");
    assert_eq!(rows.len(), 1);
    assert!(rows[0].has_th);
    let cells: Vec<String> = rows[0].cells.iter().map(|c| text(&c.text)).collect();
    assert_eq!(cells, vec!["b", "c"]);
}

#[test]
fn spans_are_laid_out() {
    let html = "<tr><td rowspan=2>a</td><td colspan=2>b</td></tr><tr><td>c</td></tr>";
    let rows = parse_rows(&chars(html)).ok().expect("rows");
    assert!(check_spans(&rows));
    let table = expand_rows(&rows).ok().expect("table");
    assert_eq!(table.width, 3);
    let grid: Vec<Vec<Option<String>>> = table
        .grid
        .iter()
        .map(|row| row.iter().map(|c| c.as_ref().map(|t| text(t))).collect())
        .collect();
    let s = |t: &str| Some(t.to_string());
    assert_eq!(grid, vec![vec![s("a"), s("b"), s("b")], vec![s("a"), s("c"), None]]);
}

#[test]
fn a_table_without_spans_is_laid_out_as_written() {
    let html = "<tr><td>a</td><td>b</td></tr><tr></tr><tr><td>c</td></tr>";
    let rows = parse_rows(&chars(html)).ok().expect("rows");
    assert!(check_spans(&rows));
    let table = expand_rows(&rows).ok().expect("table");
    let grid: Vec<Vec<Option<String>>> = table
        .grid
        .iter()
        .map(|row| row.iter().map(|c| c.as_ref().map(|t| text(t))).collect())
        .collect();
    let s = |t: &str| Some(t.to_string());
    assert_eq!(grid.len(), rows.len());
    assert_eq!(grid[0], vec![s("a"), s("b")]);
    assert_eq!(grid[grid.len() - 1], vec![s("c"), None]);
}

#[test]
fn spans_that_cannot_be_counted_are_found() {
    let max = usize::MAX;
    let html = format!("<tr><td>x</td><td colspan={max}>a</td></tr>");
    let rows = parse_rows(&chars(&html)).ok().expect("rows");
    assert!(!check_spans(&rows));
    assert!(matches!(parse_table_fragment(&chars(&html)), TableReading::Uncountable));
    let markdown = format!("<table>{html}</table>");
    assert!(normalize_tables(&markdown).is_none());
    assert!(tables_of_paper(&markdown, true, false).is_none());
    assert!(tables_of_paper(&markdown, false, false).is_some());
    let kept = tables_of_paper(&markdown, false, true).expect("nothing is laid out");
    assert_eq!(kept.markdown, markdown);
    assert_eq!(kept.artifacts[0].html, markdown);
    assert_eq!(kept.artifacts[0].name, "table_001.html");
}

// ---- Columns ----

#[test]
fn columns_are_named_by_the_rows_with_headings() {
    let row = |places: &[&str]| -> Vec<Option<Vec<char>>> {
        places.iter().map(|s| Some(chars(s))).collect()
    };
    let names = |grid: &Vec<Vec<Option<Vec<char>>>>, n: usize| -> Vec<String> {
        build_columns(grid, n).iter().map(|s| text(s)).collect()
    };
    let grid = vec![row(&["A", "B"]), row(&["A", "c", "more"]), row(&["x"])];
    assert_eq!(names(&grid, 1), vec!["a", "b"]);
    assert_eq!(names(&grid, 2), vec!["a", "b_c"]);
    assert_eq!(names(&grid, 0), vec!["col_1", "col_2"]);
    assert_eq!(names(&vec![row(&["A"])], 5), vec!["a"]);
    assert!(names(&Vec::new(), 3).is_empty());
}

#[test]
fn keys_are_made_of_letters_digits_and_underscores() {
    let key = |s: &str, i: usize| text(&normalize_key(&chars(s), i));
    assert_eq!(key("Mean Value (mm/yr)", 1), "mean_value_mm_yr");
    assert_eq!(key("  __a--B  ", 2), "a_b");
    assert_eq!(key("\u{e9}", 3), "col_3");
    assert_eq!(key("", 12), "col_12");
}

#[test]
fn a_key_gives_itself() {
    for heading in ["Mean Value (mm/yr)", "__A--b", "", "\u{e9}", "col_7", "x / y / x"] {
        let key = normalize_key(&chars(heading), 7);
        assert_eq!(normalize_key(&key, 1), key, "{heading:?}");
    }
}

#[test]
fn equal_keys_are_told_apart() {
    let keys = disambiguate_keys(&list(&["a", "b", "a", "a", "b"]));
    let keys: Vec<String> = keys.iter().map(|k| text(k)).collect();
    assert_eq!(keys, vec!["a", "b", "a_2", "a_3", "b_2"]);
}

// ---- Reading and rendering ----

#[test]
fn a_table_has_rows_and_columns() {
    let reading = |s: &str| parse_table_fragment(&chars(s));
    assert!(matches!(reading("<table></table>"), TableReading::Failed(TableError::NoRows)));
    assert!(matches!(reading("<tr></tr>"), TableReading::Failed(TableError::NoColumns)));
    assert!(matches!(
        reading("<tr><td>x</tr>"),
        TableReading::Failed(TableError::CellEndMissing)
    ));
    match reading("<tr><th>A</th><th colspan=2>B</th></tr><tr><th>A</th><th>C</th></tr><tr><td>1</td></tr>") {
        TableReading::Table(t) => {
            let columns: Vec<String> = t.columns.iter().map(|c| text(c)).collect();
            assert_eq!(columns, vec!["a", "b_c", "b"]);
            let rows: Vec<Vec<String>> =
                t.rows.iter().map(|r| r.iter().map(|c| text(c)).collect()).collect();
            assert_eq!(rows, vec![vec!["1", "", ""]]);
        }
        _ => panic!("expected a table"),
    }
}

#[test]
fn records_are_json_objects() {
    let got = render_row_json(
        &list(&["a", "q\"\\", "ctl"]),
        &list(&["1", "x\ny\tz\r", "\u{8}\u{c}\u{1}\u{1f}\u{7f}\u{e9}\u{1f600}/"]),
    );
    assert_eq!(
        text(&got),
        "{\"a\":\"1\",\"q\\\"\\\\\":\"x\\ny\\tz\\r\",\"ctl\":\"\\b\\f\\u0001\\u001f\u{7f}\u{e9}\u{1f600}/\"}"
    );
    assert_eq!(text(&render_row_json(&Vec::new(), &Vec::new())), "{}");
    assert_eq!(text(&render_row_json(&list(&["a", "b"]), &list(&["1"]))), "{\"a\":\"1\"}");
}

#[test]
fn a_placeholder_points_at_the_artifact() {
    assert_eq!(
        text(&render_placeholder_block(7, &path_of_artifact(7), "why")),
        "\n\n##### OCR Table 7\nSource (OCR HTML): tables/table_007.html\nStatus: why\n\n"
    );
    assert_eq!(text(&path_of_artifact(1234)), "tables/table_1234.html");
}

#[test]
fn rows_stand_in_groups_of_twenty_five() {
    let rows: String = (0..51).map(|i| format!("<tr><td>{i}</td></tr>")).collect();
    match render_normalized_table(&chars(&rows), 1, &chars("p")) {
        TableRewriting::Text(t) => {
            let got = text(&t);
            assert!(got.starts_with("\n\n##### OCR Table 1\nSource (OCR HTML): p\nColumns: col_1\n\nRow: {\"col_1\":\"0\"}\n"));
            assert!(got.contains("Row: {\"col_1\":\"24\"}\n\nRow: {\"col_1\":\"25\"}\n"));
            assert!(got.contains("Row: {\"col_1\":\"49\"}\n\nRow: {\"col_1\":\"50\"}\n\n"));
            assert!(got.ends_with("\"50\"}\n\n"));
            assert!(!got.contains("\"1\"}\n\n"));
        }
        _ => panic!("expected a text"),
    }
}

#[test]
fn large_tables_are_not_rewritten() {
    let too_large = |html: &str| {
        matches!(render_normalized_table(&chars(html), 1, &chars("p")), TableRewriting::TooLarge)
    };
    assert!(!too_large("<tr><td rowspan=40 colspan=50></td></tr>"));
    assert!(too_large("<tr><td rowspan=29 colspan=69></td></tr>"));
    assert!(too_large(&format!("<tr><td>{}</td></tr>", "x".repeat(32 * 1024))));
    assert!(!too_large(&format!("<tr><td>{}</td></tr>", "x".repeat(30 * 1024))));
    assert!(too_large(&" ".repeat(128 * 1024 + 1)));
    assert!(too_large(&"\u{e9}".repeat(64 * 1024 + 1)));
    assert!(matches!(
        render_normalized_table(&chars(&" ".repeat(128 * 1024)), 1, &chars("p")),
        TableRewriting::Failed
    ));
    assert!(matches!(
        render_normalized_table(&chars("<tr><th>only</th></tr>"), 1, &chars("p")),
        TableRewriting::Failed
    ));
}

// ---- Tables in Markdown ----

#[test]
fn a_table_is_rewritten_and_kept() {
    let html = "<table><tr><th>Name</th><th>Value</th></tr><tr><td>a</td><td>1</td></tr></table>";
    let done = normalized(&format!("before {html} after\n"));
    assert_eq!(
        done.markdown,
        "before \n\n##### OCR Table 1\nSource (OCR HTML): tables/table_001.html\nColumns: name, value\n\nRow: {\"name\":\"a\",\"value\":\"1\"}\n\n after\n"
    );
    assert_eq!(done.artifacts.len(), 1);
    assert_eq!(done.artifacts[0].name, "table_001.html");
    assert_eq!(done.artifacts[0].html, html);
    assert_eq!(
        done.stats,
        TableStats {
            tables_found: 1,
            tables_raw_written: 1,
            tables_normalized: 1,
            ..TableStats::default()
        }
    );
}

#[test]
fn tables_in_code_are_left_alone() {
    let md = "`<table>` and ``a ` <TABLE``\n~~~\n<table><tr><td>x</td></tr></table>\n~~~~\n```\n<table>\n";
    let done = normalized(md);
    assert_eq!(done.markdown, md);
    assert_eq!(done.stats, TableStats { tables_skipped_in_code: 4, ..TableStats::default() });
    assert!(done.artifacts.is_empty());
}

#[test]
fn backticks_without_an_end_reach_to_the_next_fence() {
    let md = "`<table><tr><td>x</td></tr></table>\n```\n```\n<table><tr><td>y</td></tr></table>";
    let done = normalized(md);
    assert!(done.markdown.starts_with("`<table><tr><td>x</td></tr></table>\n```\n```\n\n\n#####"));
    assert_eq!(done.stats.tables_skipped_in_code, 1);
    assert_eq!(done.stats.tables_normalized, 1);
}

#[test]
fn tables_that_cannot_be_rewritten_have_a_placeholder() {
    let nested = "<table><tr><td><table></table></td></tr></table>";
    let broken = "<table><tr><td>x</tr></table>";
    let large = "<table><tr><td rowspan=2001></td></tr></table>";
    let md = format!("{nested}{broken}{large}");
    let done = normalized(&md);
    let block = |n: usize, why: &str| {
        format!(
            "\n\n##### OCR Table {n}\nSource (OCR HTML): tables/table_00{n}.html\nStatus: normalization skipped ({why})\n\n"
        )
    };
    assert_eq!(
        done.markdown,
        format!(
            "{}{}{}",
            block(1, "nested table detected"),
            block(2, "parse failed"),
            block(3, "table too large")
        )
    );
    assert_eq!(done.artifacts[0].html, nested);
    assert_eq!(done.artifacts[1].html, broken);
    assert_eq!(done.artifacts[2].html, large);
    assert_eq!(
        done.stats,
        TableStats {
            tables_found: 3,
            tables_raw_written: 3,
            tables_skipped_nested: 1,
            tables_failed_parse: 1,
            tables_skipped_too_large: 1,
            ..TableStats::default()
        }
    );
}

#[test]
fn a_table_without_an_end_is_kept_and_still_counts() {
    let md = "a <table> b\n```\n```\n<table><tr><td>y</td></tr></table>";
    let done = normalized(md);
    assert!(done.markdown.starts_with("a <table> b\n```\n```\n\n\n##### OCR Table 2\n"));
    assert_eq!(done.artifacts[0].name, "table_002.html");
    assert_eq!(
        done.stats,
        TableStats {
            tables_found: 2,
            tables_raw_written: 1,
            tables_normalized: 1,
            tables_failed_extract: 1,
            ..TableStats::default()
        }
    );
}

#[test]
fn a_chunk_goes_on_from_what_was_counted() {
    let mut stats = TableStats {
        tables_found: 3,
        tables_raw_written: 2,
        tables_normalized: 2,
        tables_skipped_in_code: 5,
        tables_failed_extract: 1,
        ..TableStats::default()
    };
    let mut index = 7;
    let chunk = "a `<table>` <table><tr><td>x</td></tr></table>\
        <table><table></table></table> b <table> c";
    let done = rewrite_non_code_chunk(&chars(chunk), &mut index, &mut stats).expect("countable");
    let names: Vec<&str> = done.artifacts.iter().map(|a| a.name.as_str()).collect();
    assert_eq!(names, vec!["table_008.html", "table_009.html"]);
    assert!(text(&done.text).starts_with("a `<table>` \n\n##### OCR Table 8\n"));
    assert!(text(&done.text).ends_with(" b <table> c"));
    assert_eq!(index, 10);
    assert_eq!(
        stats,
        TableStats {
            tables_found: 6,
            tables_raw_written: 4,
            tables_normalized: 3,
            tables_skipped_in_code: 6,
            tables_skipped_nested: 1,
            tables_failed_extract: 2,
            ..TableStats::default()
        }
    );
    let max = usize::MAX;
    let bad = format!("<table><tr><td>x</td><td colspan={max}>a</td></tr></table>");
    let before = stats;
    assert!(rewrite_non_code_chunk(&chars(&bad), &mut index, &mut stats).is_none());
    assert_eq!((index, stats), (10, before));
}

#[test]
fn text_without_tables_is_unchanged() {
    for md in ["", "# T\n\ntext <tables> </table> < table>\n```\nx", "\u{e9}\r\n`x"] {
        let done = normalized(md);
        assert_eq!(done.markdown, md);
        assert_eq!(done.stats, TableStats::default());
    }
}

#[test]
fn tables_are_kept_without_being_rewritten() {
    let md = "x<table><tr><td>y</td></tr></table>z";
    let kept = tables_of_paper(md, false, true).expect("cells can be counted");
    assert_eq!(kept.markdown, md);
    assert_eq!(kept.artifacts.len(), 1);
    assert_eq!(
        kept.stats,
        TableStats { tables_found: 1, tables_raw_written: 1, ..TableStats::default() }
    );
    let rewritten = tables_of_paper(md, true, true).expect("cells can be counted");
    assert_eq!(rewritten.markdown, normalized(md).markdown);
    let alone = tables_of_paper(md, false, false).expect("nothing is counted");
    assert_eq!(alone.markdown, md);
    assert!(alone.artifacts.is_empty());
}

#[test]
fn the_same_tables_are_kept_in_both_modes() {
    let md = "`<table>`\n<table><tr><td>a</td></tr></table>\n```\n<table></table>\n```\n\
        <table><table></table></table><table></table> <table> z";
    let kept = extract_tables(md);
    let rewritten = normalized(md);
    assert_eq!(kept.markdown, md);
    let pairs = |t: &NormalizedTables| -> Vec<(String, String)> {
        t.artifacts.iter().map(|a| (a.name.clone(), a.html.clone())).collect()
    };
    assert_eq!(pairs(&kept), pairs(&rewritten));
    assert_eq!(kept.artifacts.len(), 3);
    assert_eq!(
        kept.stats,
        TableStats {
            tables_found: 4,
            tables_raw_written: 3,
            tables_skipped_in_code: 2,
            tables_failed_extract: 1,
            ..TableStats::default()
        }
    );
    assert_eq!(rewritten.stats.tables_found, 4);
    assert_eq!(rewritten.stats.tables_skipped_nested, 1);
}

#[test]
fn the_end_of_a_table_is_found_by_depth() {
    let s = chars("<table a='>'><table></table></TABLE >x");
    assert_eq!(extract_table_span(&s, 0), Some((37, true)));
    assert_eq!(extract_table_span(&s, 13), Some((28, false)));
    assert_eq!(extract_table_span(&chars("<table><table></table>"), 0), None);
    assert_eq!(extract_table_span(&chars("<table"), 0), None);
}

#[test]
fn no_table_is_found_behind_the_end() {
    let s = chars("<table><tr><td>x</td></tr></table>");
    for start in [s.len(), s.len() + 1, 99, usize::MAX] {
        assert_eq!(find_next_table_tag(&s, start), None);
        assert_eq!(extract_table_span(&s, start), None);
        assert!(parse_cell(&s, start, &chars("</td")).is_err());
    }
    assert_eq!(extract_table_span(&s, 0), Some((s.len(), false)));
}

#[test]
fn every_row_has_a_value_in_every_column() {
    for html in [
        "<table><tr><td>a</td></tr><tr><td>b</td><td>c</td><td>d</td></tr></table>",
        "<table><tr><th>h</th></tr><tr><td colspan=3>x</td></tr><tr><td>y</td></tr></table>",
        "<table><tr><td rowspan=3>x</td><td>y</td></tr><tr><td colspan=2>z</td></tr></table>",
        "<table><tr><th>only</th><th>headers</th></tr></table>",
    ] {
        match parse_table_fragment(&chars(html)) {
            TableReading::Table(table) => {
                assert!(!table.columns.is_empty());
                assert!(table.rows.iter().all(|row| row.len() == table.columns.len()), "{html}");
            }
            _ => panic!("expected a table: {html}"),
        }
    }
}
