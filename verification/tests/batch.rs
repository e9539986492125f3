use paperdown::batch::{
    batch_accounting, batch_start, batch_summary, display_path, doctor_report,
    effective_ocr_workers, effective_workers, exit_code, fire, fire_for_test,
    format_error_for_stderr, plan_run, root_files, select_pdfs, single_skip_summary,
    single_summary, tally, BatchAccounting, ProgressEvent, RunPlan,
};
use paperdown::input::{load_api_key, EnvFile};
use paperdown::output::{has_existing_log_marker, prepare_output_paths, LogFile, PdfSummary};
use paperdown::paths::PathStyle;
use std::cell::RefCell;

const POSIX: PathStyle = PathStyle::Posix;

#[test]
fn display_path_uses_relative_path_when_possible() {
    let cwd = "/work/cwd";
    assert_eq!(display_path(POSIX, "/work/cwd/pdf/paper.pdf", Some(cwd)), "pdf/paper.pdf");
}

#[test]
fn display_path_falls_back_to_file_name() {
    assert_eq!(display_path(POSIX, "/tmp/example.pdf", Some("/work/cwd")), "example.pdf");
    assert_eq!(display_path(POSIX, "/tmp/example.pdf", None), "example.pdf");
    assert_eq!(display_path(POSIX, "/", None), "/");
    let windows = PathStyle::Windows;
    assert_eq!(display_path(windows, r"C:\work\pdf\a.pdf", Some(r"C:\work")), r"pdf\a.pdf");
    assert_eq!(display_path(windows, r"\\?\C:\work\a.pdf", Some(r"C:\work")), "a.pdf");
}

#[test]
fn format_error_for_stderr_rewrites_overwrite_token_when_tty() {
    let message = "Re-run with --overwrite";
    let rendered = format_error_for_stderr(message, true);
    assert!(rendered.contains("\x1b[1;33m--overwrite\x1b[0m"));
    assert_eq!(rendered, "Re-run with \x1b[1;33m--overwrite\x1b[0m");
    assert_eq!(format_error_for_stderr(message, false), message);
}

fn summary() -> PdfSummary {
    PdfSummary {
        pdf: "/tmp/paper.pdf".to_string(),
        output_dir: "/tmp/out/paper".to_string(),
        markdown_path: "/tmp/out/paper/index.md".to_string(),
        downloaded_figures: 2,
        remote_figure_links: 3,
        image_blocks: 3,
        usage: None,
        log_path: "/tmp/out/paper/log.jsonl".to_string(),
    }
}

#[test]
fn print_helpers_execute_without_panic() {
    assert_eq!(
        single_summary(POSIX, &summary(), None, false),
        "Done paper.pdf | markdown: index.md | downloaded figures: 2"
    );
    assert_eq!(
        single_summary(POSIX, &summary(), Some("/tmp"), true),
        "\x1b[1;32mDone\x1b[0m paper.pdf\n\x1b[36m->\x1b[0m markdown: out/paper/index.md\n\x1b[36m->\x1b[0m downloaded figures: \x1b[1m2\x1b[0m"
    );
    assert_eq!(single_skip_summary("paper.pdf", false), "Skipped paper.pdf");
    assert_eq!(single_skip_summary("paper.pdf", true), "\x1b[1;33mSkipped\x1b[0m paper.pdf");
    let counts = batch_accounting(4, 2, 1, 1, 4);
    assert_eq!(
        batch_summary(&counts, false),
        "Batch Complete processed: 2 skipped: 1 failed: 1 figures: 4"
    );
    assert_eq!(
        batch_summary(&counts, true),
        "\x1b[1;33mBatch Complete\x1b[0m processed: \x1b[1m2\x1b[0m skipped: \x1b[1m1\x1b[0m failed: \x1b[1m1\x1b[0m figures: \x1b[1m4\x1b[0m"
    );
}

#[test]
fn effective_ocr_workers_caps_to_total_workers() {
    assert_eq!(effective_ocr_workers(32, 2), 2);
    assert_eq!(effective_ocr_workers(8, 32), 8);
    assert_eq!(effective_ocr_workers(1, 2), 1);
}

#[test]
fn the_root_index_is_written_even_if_papers_are_skipped() {
    let pdfs = |n: usize| -> Vec<String> { (0..n).map(|i| format!("/in/{i}.pdf")).collect() };
    let plan = |n: usize, done: bool| plan_run(&pdfs(n), &vec![done; n], false, 2, 2);
    for (n, done, log) in [(1, true, false), (1, false, true), (2, true, false), (2, false, true)] {
        let files = root_files(&plan(n, done), true);
        assert!(files.index);
        assert_eq!(files.log, log);
        let files = root_files(&plan(n, done), false);
        assert!(!files.index && !files.log);
    }
}

#[test]
fn there_is_always_a_worker() {
    assert_eq!(effective_ocr_workers(0, 5), 1);
    assert_eq!(effective_ocr_workers(5, 0), 1);
    assert_eq!(effective_workers(32, 3), 3);
    assert_eq!(effective_workers(2, 3), 2);
    assert_eq!(effective_workers(2, 0), 1);
}

#[test]
fn batch_accounting_mixed_outcomes_is_consistent() {
    let counts = batch_accounting(5, 2, 1, 2, 7);
    assert_eq!(
        counts,
        BatchAccounting {
            processed: 2,
            skipped: 1,
            failed: 2,
            figures: 7
        }
    );
}

#[test]
fn results_are_tallied() {
    let counts = tally(1, &vec![Some(3), None, Some(4), None]).expect("figures can be counted");
    assert_eq!(counts, batch_accounting(5, 2, 1, 2, 7));
    assert_eq!(exit_code(&counts), 1);
    let counts = tally(2, &Vec::new()).expect("figures can be counted");
    assert_eq!(counts, batch_accounting(2, 0, 2, 0, 0));
    assert_eq!(exit_code(&counts), 0);
    assert!(tally(0, &vec![Some(usize::MAX), Some(1)]).is_none());
}

#[test]
fn cli_batch_reports_failed_count() {
    let workers = effective_workers(1, 2);
    let start = batch_start(2, workers, effective_ocr_workers(workers, 5));
    assert!(start.contains("OCR concurrency: 1"));
    assert_eq!(start, "Processing 2 PDFs with 1 workers (OCR concurrency: 1)...");
    let counts = tally(0, &vec![None, None]).expect("figures can be counted");
    assert!(
        batch_summary(&counts, false)
            .contains("Batch Complete processed: 0 skipped: 0 failed: 2 figures: 0")
    );
    assert_ne!(exit_code(&counts), 0);
}

#[test]
fn cli_single_pdf_skips_when_log_exists_and_env_missing() {
    let log = LogFile::Text("{}\n".to_string());
    assert!(has_existing_log_marker(&log, "/t/paper.pdf"));
    let out = single_skip_summary(&display_path(POSIX, "/t/paper.pdf", Some("/t")), false);
    assert!(out.contains("Skipped"));
    assert!(out.contains("paper.pdf"));
    assert!(!out.contains("ZAI_API_KEY"));
}

#[test]
fn batch_existing_log_outputs_skip_without_env_or_ocr() {
    let pdfs = vec!["/t/pdf/a.pdf".to_string(), "/t/pdf/b.pdf".to_string()];
    let log = LogFile::Text("{}\n".to_string());
    let done: Vec<bool> = pdfs.iter().map(|pdf| has_existing_log_marker(&log, pdf)).collect();
    let selection = select_pdfs(&pdfs, &done, false);
    assert!(selection.pdfs.is_empty());
    let counts = tally(selection.skipped, &Vec::new()).expect("figures can be counted");
    assert!(
        batch_summary(&counts, false)
            .contains("Batch Complete processed: 0 skipped: 2 failed: 0 figures: 0")
    );
    assert_eq!(exit_code(&counts), 0);
}

#[test]
fn batch_without_log_marker_reaches_env_lookup_even_with_stale_outputs() {
    let pdfs = vec!["/t/pdf/a.pdf".to_string(), "/t/pdf/b.pdf".to_string()];
    let done: Vec<bool> =
        pdfs.iter().map(|pdf| has_existing_log_marker(&LogFile::Missing, pdf)).collect();
    let selection = select_pdfs(&pdfs, &done, false);
    assert_eq!(selection.pdfs, pdfs);
    assert_eq!(selection.skipped, 0);

    let (pdfs, skipped, start) = match plan_run(&pdfs, &done, false, 4, 2) {
        RunPlan::Batch { pdfs, skipped, workers, ocr_workers } => {
            let start = batch_start(pdfs.len(), workers, ocr_workers);
            (pdfs, skipped, start)
        }
        _ => panic!("expected a batch"),
    };
    assert!(start.contains("OCR concurrency:"));

    let mut stderr = start;
    let mut results = Vec::new();
    for pdf in &pdfs {
        let prepared = prepare_output_paths(POSIX, "/t/md", pdf, false, false).expect("paths");
        assert!(prepared.remove.contains(&prepared.paths.markdown_path));
        assert!(prepared.remove.contains(&prepared.paths.figures_dir));
        let problem = load_api_key("/t/missing.env", &EnvFile::Missing, None)
            .err()
            .expect("no key")
            .message();
        let message = format_error_for_stderr(&problem, false);
        stderr.push_str(&format!("\n  failed: {pdf}: {message}"));
        results.push(None);
    }
    let counts = tally(skipped, &results).expect("figures can be counted");
    let stdout = batch_summary(&counts, false);
    assert_ne!(exit_code(&counts), 0);

    assert!(stdout.contains("Batch Complete processed: 0 skipped: 0 failed: 2 figures: 0"));

    assert!(stderr.contains("failed:"));
    assert!(stderr.contains("a.pdf"));
    assert!(stderr.contains("b.pdf"));

    assert!(stderr.contains("ZAI_API_KEY"));
    assert!(!stderr.contains("Re-run with --overwrite"));
    assert!(!stdout.contains("\u{1b}["));
    assert!(!stderr.contains("\u{1b}["));
}

#[test]
fn overwriting_skips_no_paper() {
    let pdfs = vec!["a".to_string(), "b".to_string(), "c".to_string()];
    let done = vec![true, false, true];
    assert_eq!(select_pdfs(&pdfs, &done, true).pdfs, pdfs);
    let selection = select_pdfs(&pdfs, &done, false);
    assert_eq!(selection.pdfs, vec!["b"]);
    assert_eq!(selection.skipped, 2);
}

#[test]
fn events_are_told_to_whom_it_concerns() {
    let heard = RefCell::new(Vec::new());
    let listener = Some(|event: ProgressEvent| heard.borrow_mut().push(event));
    fire(&listener, ProgressEvent::OcrStarted);
    fire_for_test(&listener, ProgressEvent::FigureScanStarted { total: 2 });
    fire(&None::<fn(ProgressEvent)>, ProgressEvent::OcrFinished);
    assert_eq!(
        *heard.borrow(),
        vec![ProgressEvent::OcrStarted, ProgressEvent::FigureScanStarted { total: 2 }]
    );
}

#[test]
fn doctor_reports_missing_auth_without_input() {
    let (stdout, code) = doctor_report(
        &Vec::new(),
        Some("ZAI_API_KEY is not set and env file was not found: .env"),
        ".env",
    );
    assert_ne!(code, 0);
    assert!(stdout.contains("config: ok"));
    assert!(stdout.contains("config files:\n  none"));
    assert!(stdout.contains("auth: error:"));
    assert!(stdout.find("auth: error:").unwrap() < stdout.find("env file: .env").unwrap());
}

#[test]
fn doctor_accepts_environment_auth_without_input() {
    let (stdout, code) = doctor_report(&Vec::new(), None, ".env");
    assert_eq!(code, 0);
    assert_eq!(stdout, "config: ok\nconfig files:\n  none\nauth: ok\nenv file: .env\n");
}

#[test]
fn doctor_reports_explicit_config_and_rebased_env_paths() {
    let (stdout, code) =
        doctor_report(&vec!["/t/configs/paperdown.toml".to_string()], None, "/t/configs/custom.env");
    assert_eq!(code, 0);
    assert!(stdout.contains("config: ok"));
    assert!(stdout.contains("  /t/configs/paperdown.toml"));
    let env_line = "env file: /t/configs/custom.env";
    assert!(stdout.contains(env_line));
    assert!(stdout.contains("auth: ok"));
    assert!(stdout.find("auth: ok").unwrap() < stdout.find(env_line).unwrap());
}

fn names(items: &[&str]) -> Vec<String> {
    items.iter().map(|s| s.to_string()).collect()
}

#[test]
fn one_paper_is_processed_alone() {
    let one = names(&["a.pdf"]);
    match plan_run(&one, &vec![true], false, 4, 2) {
        RunPlan::SkipOne { pdf } => assert_eq!(pdf, "a.pdf"),
        _ => panic!("expected the paper to be skipped"),
    }
    match plan_run(&one, &vec![true], true, 4, 2) {
        RunPlan::One { pdf } => assert_eq!(pdf, "a.pdf"),
        _ => panic!("expected the paper to be processed"),
    }
}

#[test]
fn several_papers_are_processed_at_a_time() {
    let three = names(&["a.pdf", "b.pdf", "c.pdf"]);
    match plan_run(&three, &vec![true, true, true], false, 4, 2) {
        RunPlan::SkipAll { skipped } => assert_eq!(skipped, 3),
        _ => panic!("expected all papers to be skipped"),
    }
    match plan_run(&three, &vec![false, true, false], false, 32, 5) {
        RunPlan::Batch { pdfs, skipped, workers, ocr_workers } => {
            assert_eq!(pdfs, names(&["a.pdf", "c.pdf"]));
            assert_eq!(skipped, 1);
            assert_eq!(workers, 2);
            assert_eq!(ocr_workers, 2);
        }
        _ => panic!("expected a batch"),
    }
}
