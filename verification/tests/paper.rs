use paperdown::json::Json;
use paperdown::output::prepare_output_paths;
use paperdown::paper::{assemble_paper, place_paper, PaperError};
use paperdown::paths::PathStyle;

const MARKDOWN: &str = "# T\n\n<img src=\"https://x/f.png\" alt=\"f\">\n\n<table><tr><td>y</td></tr></table>\n\nAbstract: One. Two.\n";

fn text(s: &str) -> Json {
    Json::Text(s.to_string())
}

fn layout() -> Vec<Json> {
    let block = |label: &str, content: &str| {
        Json::object(vec![
            ("content".to_string(), text(content)),
            ("label".to_string(), text(label)),
        ])
    };
    vec![Json::array(vec![
        block("image", "https://x/f.png"),
        block("table", "<table></table>"),
    ])]
}

fn results() -> Vec<(String, Option<String>)> {
    vec![("https://x/f.png".to_string(), Some("fig-001-001.png".to_string()))]
}

#[test]
fn a_paper_is_put_together() {
    let out = assemble_paper(MARKDOWN, &layout(), &results(), false, false, "p", "p.pdf", "t")
        .expect("cells can be counted");
    assert_eq!(
        out.markdown,
        "# T\n\n<img src=\"figures/fig-001-001.png\">\n\n<table><tr><td>y</td></tr></table>\n\nAbstract: One. Two.\n"
    );
    assert_eq!(out.downloaded_figures, 1);
    assert_eq!(out.stats.tables_found, 0);
    assert!(out.artifacts.is_empty());
    assert!(out.bundle.is_none());
}

#[test]
fn a_bundle_keeps_tables_in_the_text_and_as_artifacts() {
    let out = assemble_paper(MARKDOWN, &layout(), &results(), false, true, "p", "p.pdf", "t")
        .expect("cells can be counted");
    assert!(out.markdown.contains("<table><tr><td>y</td></tr></table>"));
    assert_eq!(out.artifacts.len(), 1);
    let bundle = out.bundle.expect("bundle");
    assert_eq!(bundle.title, "T");
    assert!(bundle.index.contains("description: \"One.\"\n"));
    assert!(bundle.index.contains("- 1 downloaded figure file(s).\n"));
    assert!(bundle.index.contains("- 1 extracted table artifact(s).\n"));
    let layout: serde_json::Value = serde_json::from_str(&bundle.layout).expect("valid JSON");
    assert_eq!(layout["table_artifact_match"], "order");
    let regions = layout["pages"][0]["regions"].as_array().expect("regions");
    assert_eq!(regions[0]["artifact"], "figures/fig-001-001.png");
    assert_eq!(regions[1]["artifact"], "tables/table_001.html");
    assert!(bundle.layout.ends_with("\n}\n"));
}

#[test]
fn the_parts_of_a_paper_have_their_places() {
    let posix = PathStyle::Posix;
    let paths = prepare_output_paths(posix, "out", "/in/p.pdf", false, true).unwrap().paths;
    let paper = |okf: bool| {
        assemble_paper(MARKDOWN, &layout(), &results(), true, okf, "p", "p.pdf", "t").expect("paper")
    };
    let html = "<table><tr><td>y</td></tr></table>".to_string();
    let tables = vec![("out/p/tables/table_001.html".to_string(), html)];
    let files = place_paper(posix, &paths, &paper(true));
    assert_eq!(files.tables, tables);
    assert_eq!(files.text, "out/p/manuscript.md");
    let bundle = files.bundle.expect("bundle");
    assert_eq!(bundle.index, "out/p/index.md");
    assert_eq!(bundle.layout, "out/p/layout.json");
    let files = place_paper(posix, &paths, &paper(false));
    assert_eq!(files.tables, tables);
    assert_eq!(files.text, "out/p/index.md");
    assert!(files.bundle.is_none());
}

#[test]
fn rewritten_tables_leave_the_text() {
    let out = assemble_paper(MARKDOWN, &layout(), &results(), true, true, "p", "p.pdf", "t")
        .expect("cells can be counted");
    assert!(!out.markdown.contains("<table"));
    assert!(out.markdown.contains("Row: {\"col_1\":\"y\"}\n"));
    assert_eq!(out.stats.tables_normalized, 1);
    assert_eq!(out.artifacts[0].name, "table_001.html");
}

#[test]
fn cells_that_cannot_be_counted_stop_a_paper_with_tables() {
    let max = usize::MAX;
    let md = format!("<table><tr><td></td><td colspan={max}></td></tr></table>");
    let none = Vec::new();
    let rewritten = assemble_paper(&md, &Vec::new(), &none, true, false, "p", "s", "t");
    assert_eq!(rewritten.err(), Some(PaperError::UncountableCells));
    assert!(assemble_paper(&md, &Vec::new(), &none, false, false, "p", "s", "t").is_ok());
    assert_eq!(
        PaperError::UncountableCells.message(),
        "cells of a table span too many rows or columns"
    );
}

#[test]
fn a_layout_that_cannot_be_written_stops_a_bundle() {
    let block = Json::object(vec![("bbox".to_string(), Json::Number("x".to_string()))]);
    let layout = vec![Json::array(vec![block])];
    let paper = |okf: bool| {
        assemble_paper("# T\n", &layout, &Vec::new(), false, okf, "p", "s", "t").err()
    };
    assert_eq!(paper(true), Some(PaperError::UnwritableLayout));
    assert_eq!(paper(false), None);
    assert_eq!(
        PaperError::UnwritableLayout.message(),
        "a number in the layout cannot be written"
    );
}
