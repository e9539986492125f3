use paperdown::json::Json;
use paperdown::ocr::{read_reply, validate_layout_response};
use paperdown::output::{
    entry_marks, has_existing_log_marker, keeps_tables, last_log_line, layout_path, log_entry,
    log_line, log_path_of, prepare_output_paths, text_path, validate_output_stem, LogFile,
    OutputError, PdfSummary,
};
use paperdown::paths::PathStyle;
use paperdown::tables::normalize::TableStats;

const POSIX: PathStyle = PathStyle::Posix;

#[test]
fn validate_output_stem_rejects_backslash() {
    let err = validate_output_stem("a\\b").unwrap_err().message();
    assert!(err.contains("Invalid output stem"));
}

#[test]
fn validate_output_stem_rejects_forward_slash() {
    let err = validate_output_stem("a/b").unwrap_err().message();
    assert!(err.contains("Invalid output stem"));
}

#[test]
fn validate_output_stem_accepts_normal_stem() {
    assert!(validate_output_stem("paper").is_ok());
}

#[test]
fn dots_are_no_output_stem() {
    assert!(validate_output_stem("").is_err());
    assert!(validate_output_stem(".").is_err());
    assert_eq!(validate_output_stem("..").unwrap_err().message(), "Invalid output stem: ..");
    assert!(validate_output_stem("...").is_ok());
}

#[test]
fn output_goes_to_a_directory_named_like_the_paper() {
    let prepared = prepare_output_paths(POSIX, "out", "/in/paper.v2.pdf", false, true).unwrap();
    assert_eq!(prepared.stem, "paper.v2");
    assert_eq!(prepared.paths.output_dir, "out/paper.v2");
    assert_eq!(prepared.paths.figures_dir, "out/paper.v2/figures");
    assert_eq!(prepared.paths.tables_dir.as_deref(), Some("out/paper.v2/tables"));
    assert_eq!(prepared.paths.markdown_path, "out/paper.v2/index.md");
    assert_eq!(prepared.paths.log_path, "out/paper.v2/log.jsonl");
    assert_eq!(
        prepared.remove,
        vec!["out/paper.v2/index.md", "out/paper.v2/figures", "out/paper.v2/tables"]
    );
    assert_eq!(
        prepared.create,
        vec!["out/paper.v2", "out/paper.v2/figures", "out/paper.v2/tables"]
    );
}

#[test]
fn a_bundle_has_its_text_beside_the_index() {
    let paths = prepare_output_paths(POSIX, "out", "/in/p.pdf", false, false).unwrap().paths;
    assert_eq!(text_path(POSIX, &paths, false), "out/p/index.md");
    assert_eq!(text_path(POSIX, &paths, true), "out/p/manuscript.md");
    assert_eq!(layout_path(POSIX, &paths), "out/p/layout.json");
    assert!(keeps_tables(true, false) && keeps_tables(false, true) && !keeps_tables(false, false));
}

#[test]
fn output_on_windows_goes_to_a_directory_named_like_the_paper() {
    let pdf = r"\\?\C:\in\paper.v2.pdf";
    let prepared = prepare_output_paths(PathStyle::Windows, "md", pdf, false, true).unwrap();
    assert_eq!(prepared.stem, "paper.v2");
    assert_eq!(prepared.paths.output_dir, r"md\paper.v2");
    assert_eq!(prepared.paths.tables_dir.as_deref(), Some(r"md\paper.v2\tables"));
    assert_eq!(
        log_path_of(PathStyle::Windows, "md/", pdf).as_deref(),
        Some(r"md/paper.v2\log.jsonl")
    );
}

#[test]
fn overwriting_removes_the_whole_directory() {
    let prepared = prepare_output_paths(POSIX, "out/", "paper.pdf", true, false).unwrap();
    assert_eq!(prepared.remove, vec!["out/paper"]);
    assert_eq!(prepared.create, vec!["out/paper", "out/paper/figures"]);
    assert!(prepared.paths.tables_dir.is_none());
}

#[test]
fn a_path_without_a_name_has_no_output() {
    let err = prepare_output_paths(POSIX, "out", "/in/..", false, false).unwrap_err();
    assert!(matches!(err, OutputError::InvalidName { .. }));
    assert_eq!(err.message(), "Invalid PDF filename: /in/..");
    let err = prepare_output_paths(POSIX, "out", "a\\b.pdf", false, false).unwrap_err();
    assert_eq!(err.message(), "Invalid output stem: a\\b");
}

#[test]
fn has_existing_log_marker_returns_false_for_pdf_path_mismatch() {
    let log = LogFile::Text(
        "{\"pdf_path\":\"/input/current/paper.pdf\"}\n\n{\"pdf_path\":\"/input/other/paper.pdf\"}\n"
            .to_string(),
    );
    assert_eq!(
        log_path_of(POSIX, "out", "/input/current/paper.pdf").as_deref(),
        Some("out/paper/log.jsonl")
    );
    assert!(!has_existing_log_marker(&log, "/input/current/paper.pdf"));
    assert!(has_existing_log_marker(&log, "/input/other/paper.pdf"));
}

#[test]
fn a_log_that_names_no_paper_marks_any() {
    let pdf = "/in/a.pdf";
    assert!(!has_existing_log_marker(&LogFile::Missing, pdf));
    assert!(has_existing_log_marker(&LogFile::Unreadable, pdf));
    for text in ["", " \n\n", "{}\n", "no json", "[1]", "{\"pdf_path\":7}"] {
        assert!(has_existing_log_marker(&LogFile::Text(text.to_string()), pdf), "{text}");
    }
    assert!(entry_marks(&None, pdf));
    assert!(entry_marks(&Some(None), pdf));
    assert!(!entry_marks(&Some(Some("/in/b.pdf".to_string())), pdf));
}

#[test]
fn the_last_line_that_is_not_blank_is_found() {
    assert_eq!(last_log_line("a\nb\r\n \n\n").as_deref(), Some("b"));
    assert_eq!(last_log_line("\n \n"), None);
    assert_eq!(log_path_of(POSIX, "out", "/"), None);
}

fn summary_of(pdf: &str) -> PdfSummary {
    PdfSummary {
        pdf: pdf.to_string(),
        output_dir: "out/a".to_string(),
        markdown_path: "out/a/index.md".to_string(),
        downloaded_figures: 2,
        remote_figure_links: 3,
        image_blocks: 4,
        usage: Some(Json::Number("7".to_string())),
        log_path: "out/a/log.jsonl".to_string(),
    }
}

#[test]
fn a_log_line_marks_its_paper_behind_any_log() {
    let stats = TableStats::default();
    for pdf in ["/in/a.pdf", "/in/\"q\"\\\n\u{1}\u{e9}.pdf", ""] {
        let timing = Json::object(vec![("total_s".to_string(), Json::Number("0.25".to_string()))]);
        let line = log_line(&summary_of(pdf), &stats, "t", timing).expect("can be written");
        assert!(line.starts_with('{'));
        assert!(!line.contains('\n'));
        for before in ["", "no json\n", "{\"pdf_path\":\"/in/b.pdf\"}\n", "\n \r\n"] {
            let log = LogFile::Text(format!("{before}{line}\n"));
            assert!(has_existing_log_marker(&log, pdf));
            assert!(!has_existing_log_marker(&log, "/in/b.pdf"));
        }
    }
}

#[test]
fn a_log_line_holds_the_entry() {
    let stats = TableStats { tables_found: 5, ..TableStats::default() };
    let timing = Json::object(vec![("total_s".to_string(), Json::Number("0.25".to_string()))]);
    let line = log_line(&summary_of("/in/a.pdf"), &stats, "t", timing).expect("can be written");
    assert_eq!(
        line,
        concat_fields(&[
            r#""downloaded_figures":2"#,
            r#""image_blocks":4"#,
            r#""markdown_path":"out/a/index.md""#,
            r#""output_dir":"out/a""#,
            r#""pdf_path":"/in/a.pdf""#,
            r#""remote_figure_links":3"#,
            r#""tables_failed_extract":0"#,
            r#""tables_failed_parse":0"#,
            r#""tables_found":5"#,
            r#""tables_normalized":0"#,
            r#""tables_raw_written":0"#,
            r#""tables_skipped_in_code":0"#,
            r#""tables_skipped_nested":0"#,
            r#""tables_skipped_too_large":0"#,
            r#""timestamp_utc":"t""#,
            r#""timing":{"total_s":0.25}"#,
            r#""usage":7"#,
        ])
    );
    let bad = Json::Number("soon".to_string());
    assert_eq!(log_line(&summary_of("/in/a.pdf"), &stats, "t", bad), None);
}

fn concat_fields(fields: &[&str]) -> String {
    format!("{{{}}}", fields.join(","))
}

#[test]
fn a_log_entry_names_its_paper() {
    let summary = summary_of("/in/a.pdf");
    let stats = TableStats { tables_found: 5, ..TableStats::default() };
    let entry = log_entry(&summary, &stats, "2026-01-02T00:00:00Z", Json::Null);
    assert_eq!(entry.get_text("pdf_path").map(String::as_str), Some("/in/a.pdf"));
    assert_eq!(entry.get("tables_found"), Some(&Json::Number("5".to_string())));
    assert_eq!(entry.get("downloaded_figures"), Some(&Json::Number("2".to_string())));
    assert_eq!(entry.get("remote_figure_links"), Some(&Json::Number("3".to_string())));
    assert_eq!(entry.get("image_blocks"), Some(&Json::Number("4".to_string())));
    assert_eq!(entry.get("usage"), Some(&Json::Number("7".to_string())));
    assert_eq!(entry.get("timing"), Some(&Json::Null));
    assert_eq!(
        entry.get_text("timestamp_utc").map(String::as_str),
        Some("2026-01-02T00:00:00Z")
    );
}

#[test]
fn a_log_line_with_usage_from_a_reply_can_be_read_again() {
    let nested = |n: usize| format!("{}{}", "[".repeat(n), "]".repeat(n));
    let reply = |n: usize| {
        let usage = format!(r#"{{"a": {}}}"#, nested(n));
        read_reply(200, format!(r#"{{"md_results": "", "layout_details": [], "usage": {usage}}}"#))
    };
    assert!(reply(126).is_err());
    let reply = reply(125).ok().expect("a reply");
    let (_, _, usage) = validate_layout_response(&reply).ok().expect("valid");
    let summary = PdfSummary { usage, ..summary_of("/in/a.pdf") };
    let line = log_line(&summary, &TableStats::default(), "t", Json::Null).expect("a line");
    let log = LogFile::Text(format!("{line}\n"));
    assert!(has_existing_log_marker(&log, "/in/a.pdf"));
    assert!(!has_existing_log_marker(&log, "/in/b.pdf"));
}
