//! A run over one or more papers: which are processed, how many at a time, and what is reported.

use vstd::prelude::*;

use crate::number::{decimal, decimal_of};
use crate::output::PdfSummary;
use crate::paths::{file_name, find_file_name, strip_prefix, without_prefix, PathStyle};
use crate::pieces::texts;
use crate::text::{
    chars_of, copy_string, found_at, has_prefix, push_all, push_str, stands_at, string_of,
};

verus! {

// ---- Progress and options ----

/// What happens while a paper is processed.
#[derive(Clone, Copy, Debug, PartialEq, Eq, Structural)]
pub enum ProgressEvent {
    OcrStarted,
    OcrFinished,
    MarkdownWriteStarted { bytes: usize },
    MarkdownWriteFinished,
    FigureScanStarted { total: usize },
    FigureDownloadFinished,
}

/// How a paper is processed. `F` is told what happens.
pub struct ProcessPdfOptions<F> {
    /// The time limit of a request in seconds.
    pub timeout: u64,
    /// The size limit of a figure in bytes.
    pub max_download_bytes: u64,
    /// Whether the whole directory of the paper is replaced.
    pub overwrite: bool,
    /// Whether tables are rewritten.
    pub normalize_tables: bool,
    pub progress: Option<F>,
}

/// Tells `progress`, if there is one, what happens.
pub fn fire<F: Fn(ProgressEvent)>(progress: &Option<F>, event: ProgressEvent)
    requires
        progress matches Some(f) ==> call_requires(f, (event,)),
    ensures
        progress matches Some(f) ==> call_ensures(f, (event,), ()),
{
    if let Some(f) = progress {
        f(event)
    }
}

/// Tells `progress`, if there is one, what happens, as processing does.
pub fn fire_for_test<F: Fn(ProgressEvent)>(progress: &Option<F>, event: ProgressEvent)
    requires
        progress matches Some(f) ==> call_requires(f, (event,)),
    ensures
        progress matches Some(f) ==> call_ensures(f, (event,), ()),
{
    fire(progress, event)
}

// ---- Which papers, and how many at a time ----

/// The papers to process: all with `overwrite`, else those that are not done.
pub open spec fn to_process(pdfs: Seq<Seq<char>>, done: Seq<bool>, overwrite: bool) -> Seq<
    Seq<char>,
>
    decreases pdfs.len(),
{
    if pdfs.len() == 0 {
        Seq::empty()
    } else {
        let before = to_process(pdfs.drop_last(), done, overwrite);
        if !overwrite && done[pdfs.len() - 1] {
            before
        } else {
            before.push(pdfs.last())
        }
    }
}

/// The papers to process, and how many are skipped.
pub struct Selection {
    pub pdfs: Vec<String>,
    pub skipped: usize,
}

/// The papers to process, and how many are skipped; `done` tells of each whether it is done.
pub fn select_pdfs(pdfs: &Vec<String>, done: &Vec<bool>, overwrite: bool) -> (r: Selection)
    requires
        done@.len() == pdfs@.len(),
    ensures
        texts(r.pdfs@) == to_process(texts(pdfs@), done@, overwrite),
        r.skipped + r.pdfs@.len() == pdfs@.len(),
{
    let ghost all = texts(pdfs@);
    let mut out: Vec<String> = Vec::new();
    let mut skipped: usize = 0;
    let mut i: usize = 0;
    assert(texts(out@) =~= to_process(all.take(0), done@, overwrite));
    while i < pdfs.len()
        invariant
            i <= pdfs@.len(),
            all == texts(pdfs@),
            done@.len() == pdfs@.len(),
            skipped + out@.len() == i,
            texts(out@) == to_process(all.take(i as int), done@, overwrite),
        decreases pdfs.len() - i,
    {
        let ghost before = texts(out@);
        assert(all.take(i + 1).drop_last() =~= all.take(i as int));
        assert(all.take(i + 1).last() == pdfs@[i as int]@);
        if !overwrite && done[i] {
            skipped += 1;
        } else {
            out.push(copy_string(&pdfs[i]));
            assert(texts(out@) =~= before.push(pdfs@[i as int]@));
        }
        i += 1;
    }
    assert(all.take(i as int) =~= all);
    Selection { pdfs: out, skipped }
}

/// With `overwrite` every paper is processed.
pub proof fn law_overwrite_skips_nothing(pdfs: Seq<Seq<char>>, done: Seq<bool>)
    ensures
        to_process(pdfs, done, true) == pdfs,
    decreases pdfs.len(),
{
    if pdfs.len() > 0 {
        law_overwrite_skips_nothing(pdfs.drop_last(), done);
        assert(pdfs.drop_last().push(pdfs.last()) =~= pdfs);
    } else {
        assert(to_process(pdfs, done, true) =~= pdfs);
    }
}

/// The lesser of two numbers, but at least 1.
pub open spec fn capped(a: nat, b: nat) -> nat {
    if a == 0 || b == 0 {
        1
    } else if a < b {
        a
    } else {
        b
    }
}

/// How many recognition requests are made at a time: no more than papers, and at least one.
pub fn effective_ocr_workers(workers: usize, ocr_workers: usize) -> (n: usize)
    ensures
        n == capped(workers as nat, ocr_workers as nat),
        n > 0,
{
    let least = if workers < ocr_workers {
        workers
    } else {
        ocr_workers
    };
    if least == 0 {
        1
    } else {
        least
    }
}

/// How many papers are processed at a time: no more than there are, and at least one.
pub fn effective_workers(workers: usize, papers: usize) -> (n: usize)
    ensures
        n == capped(workers as nat, papers as nat),
        n > 0,
{
    effective_ocr_workers(workers, papers)
}

/// What a run does.
pub enum RunPlan {
    /// There is one paper, and it is done.
    SkipOne { pdf: String },
    /// There is one paper to process.
    One { pdf: String },
    /// All papers are done.
    SkipAll { skipped: usize },
    /// Several papers are processed, so many at a time.
    Batch { pdfs: Vec<String>, skipped: usize, workers: usize, ocr_workers: usize },
}

/// What a run over `pdfs` does; `done` tells of each whether it is done.
pub fn plan_run(
    pdfs: &Vec<String>,
    done: &Vec<bool>,
    overwrite: bool,
    workers: usize,
    ocr_workers: usize,
) -> (r: RunPlan)
    requires
        done@.len() == pdfs@.len(),
    ensures
        ({
            let todo = to_process(texts(pdfs@), done@, overwrite);
            match r {
                RunPlan::SkipOne { pdf } => pdfs@.len() == 1 && todo.len() == 0 && pdf@
                    == pdfs@[0]@,
                RunPlan::One { pdf } => pdfs@.len() == 1 && todo.len() == 1 && pdf@ == pdfs@[0]@,
                RunPlan::SkipAll { skipped } => pdfs@.len() != 1 && todo.len() == 0 && skipped
                    == pdfs@.len(),
                RunPlan::Batch { pdfs: chosen, skipped, workers: n, ocr_workers: m } => {
                    &&& pdfs@.len() != 1
                    &&& todo.len() > 0
                    &&& texts(chosen@) == todo
                    &&& skipped == pdfs@.len() - todo.len()
                    &&& n == capped(workers as nat, todo.len())
                    &&& m == capped(n as nat, ocr_workers as nat)
                },
            }
        }),
{
    let selection = select_pdfs(pdfs, done, overwrite);
    assert(texts(selection.pdfs@).len() == selection.pdfs@.len());
    if pdfs.len() == 1 {
        let pdf = copy_string(&pdfs[0]);
        if selection.pdfs.len() == 0 {
            return RunPlan::SkipOne { pdf };
        }
        return RunPlan::One { pdf };
    }
    if selection.pdfs.len() == 0 {
        return RunPlan::SkipAll { skipped: selection.skipped };
    }
    let workers = effective_workers(workers, selection.pdfs.len());
    let ocr_workers = effective_ocr_workers(workers, ocr_workers);
    RunPlan::Batch { pdfs: selection.pdfs, skipped: selection.skipped, workers, ocr_workers }
}

/// Which files in the output root a run writes.
#[derive(Clone, Copy, Debug, PartialEq, Eq, Structural)]
pub struct RootFiles {
    /// The index of all papers.
    pub index: bool,
    /// The log of updates.
    pub log: bool,
}

/// Which files in the output root a run writes: for bundles the index of all papers, even if all
/// are skipped, and the log of updates if some are processed.
pub fn root_files(plan: &RunPlan, okf: bool) -> (r: RootFiles)
    ensures
        r.index == okf,
        r.log == (okf && (plan is One || plan is Batch)),
{
    let processed = match plan {
        RunPlan::One { .. } => true,
        RunPlan::Batch { .. } => true,
        RunPlan::SkipOne { .. } => false,
        RunPlan::SkipAll { .. } => false,
    };
    RootFiles { index: okf, log: okf && processed }
}

// ---- Accounting ----

/// What became of the papers of a run.
#[derive(Clone, Copy, Debug, PartialEq, Eq, Structural)]
pub struct BatchAccounting {
    pub processed: usize,
    pub skipped: usize,
    pub failed: usize,
    pub figures: usize,
}

/// What became of the papers of a run: each was processed, skipped, or failed.
pub fn batch_accounting(
    total_inputs: usize,
    processed: usize,
    skipped: usize,
    failed: usize,
    figures: usize,
) -> (r: BatchAccounting)
    requires
        processed + skipped + failed == total_inputs,
    ensures
        r == (BatchAccounting { processed, skipped, failed, figures }),
{
    BatchAccounting { processed, skipped, failed, figures }
}

/// How many of `results` succeeded.
pub open spec fn successes(results: Seq<Option<usize>>) -> nat
    decreases results.len(),
{
    if results.len() == 0 {
        0
    } else {
        successes(results.drop_last()) + (if results.last() is Some {
            1nat
        } else {
            0nat
        })
    }
}

/// How many figures were downloaded where `results` succeeded.
pub open spec fn figure_sum(results: Seq<Option<usize>>) -> nat
    decreases results.len(),
{
    if results.len() == 0 {
        0
    } else {
        figure_sum(results.drop_last()) + (match results.last() {
            Some(n) => n as nat,
            None => 0nat,
        })
    }
}

proof fn lemma_figure_sum(results: Seq<Option<usize>>, n: int)
    requires
        0 <= n <= results.len(),
    ensures
        figure_sum(results.take(n)) <= figure_sum(results),
    decreases results.len(),
{
    if n < results.len() {
        lemma_figure_sum(results.drop_last(), n);
        assert(results.drop_last().take(n) =~= results.take(n));
    } else {
        assert(results.take(n) =~= results);
    }
}

/// What became of the papers of a run: of each that was not skipped, `results` gives the number
/// of its figures, or none where it failed. Nothing if the figures cannot be counted.
pub fn tally(skipped: usize, results: &Vec<Option<usize>>) -> (r: Option<BatchAccounting>)
    requires
        skipped + results@.len() <= usize::MAX,
    ensures
        match r {
            Some(counts) => {
                &&& counts.processed == successes(results@)
                &&& counts.failed == results@.len() - successes(results@)
                &&& counts.skipped == skipped
                &&& counts.figures == figure_sum(results@)
                &&& counts.processed + counts.skipped + counts.failed == skipped + results@.len()
            },
            None => figure_sum(results@) > usize::MAX,
        },
{
    let mut processed: usize = 0;
    let mut failed: usize = 0;
    let mut figures: usize = 0;
    let mut i: usize = 0;
    assert(results@.take(0) =~= Seq::empty());
    while i < results.len()
        invariant
            i <= results@.len(),
            processed == successes(results@.take(i as int)),
            processed + failed == i,
            figures == figure_sum(results@.take(i as int)),
        decreases results.len() - i,
    {
        assert(results@.take(i + 1).drop_last() =~= results@.take(i as int));
        assert(results@.take(i + 1).last() == results@[i as int]);
        match results[i] {
            Some(n) => {
                processed += 1;
                match figures.checked_add(n) {
                    Some(sum) => {
                        figures = sum;
                    },
                    None => {
                        proof {
                            lemma_figure_sum(results@, i + 1);
                        }
                        return None;
                    },
                }
            },
            None => {
                failed += 1;
            },
        }
        i += 1;
    }
    assert(results@.take(i as int) =~= results@);
    Some(batch_accounting(skipped + results.len(), processed, skipped, failed, figures))
}

/// The exit code of a run: 1 if a paper failed.
pub fn exit_code(counts: &BatchAccounting) -> (r: i32)
    ensures
        r == if counts.failed > 0 {
            1i32
        } else {
            0i32
        },
{
    if counts.failed > 0 {
        1
    } else {
        0
    }
}

// ---- Reports ----

/// A path as it is shown: as seen from the working directory if it lies there, else its name.
pub open spec fn shown_path(
    style: PathStyle,
    path: Seq<char>,
    cwd: Option<Seq<char>>,
) -> Seq<char> {
    let rest = match cwd {
        Some(dir) => without_prefix(style, path, dir),
        None => None,
    };
    match rest {
        Some(rel) => rel,
        None => match file_name(style, path) {
            Some(name) => name,
            None => path,
        },
    }
}

/// A path as it is shown.
pub fn display_path(style: PathStyle, path: &str, cwd: Option<&str>) -> (r: String)
    ensures
        r@ == shown_path(
            style,
            path@,
            match cwd {
                Some(dir) => Some(dir@),
                None => None,
            },
        ),
{
    let chars = chars_of(path);
    if let Some(dir) = cwd {
        let base = chars_of(dir);
        if let Some(rel) = strip_prefix(style, &chars, &base) {
            return string_of(rel);
        }
    }
    match find_file_name(style, &chars) {
        Some(name) => string_of(name),
        None => string_of(&chars),
    }
}

/// `s` from `i` on with `with` in place of each `needle`.
pub open spec fn replaced_all(s: Seq<char>, i: int, needle: Seq<char>, with: Seq<char>) -> Seq<char>
    decreases s.len() - i,
{
    if i < 0 || i >= s.len() || needle.len() == 0 {
        s.skip(i)
    } else if stands_at(s, i, needle) {
        with + replaced_all(s, i + needle.len(), needle, with)
    } else {
        seq![s[i]] + replaced_all(s, i + 1, needle, with)
    }
}

/// A flag that stands out on a terminal.
pub open spec fn highlighted_overwrite() -> Seq<char> {
    "\x1b[1;33m--overwrite\x1b[0m"@
}

/// An error as it is shown: on a terminal the flag `--overwrite` stands out.
pub fn format_error_for_stderr(message: &str, tty: bool) -> (r: String)
    ensures
        r@ == if tty {
            replaced_all(message@, 0, "--overwrite"@, highlighted_overwrite())
        } else {
            message@
        },
{
    let s = chars_of(message);
    if !tty {
        return string_of(&s);
    }
    let needle = chars_of("--overwrite");
    let with = chars_of("\x1b[1;33m--overwrite\x1b[0m");
    let ghost all = replaced_all(message@, 0, needle@, with@);
    let mut out: Vec<char> = Vec::new();
    let mut i: usize = 0;
    proof {
        reveal_strlit("--overwrite");
        assert(out@ + all =~= all);
    }
    while i < s.len()
        invariant
            i <= s@.len(),
            s@ == message@,
            needle@.len() > 0,
            out@ + replaced_all(s@, i as int, needle@, with@) == all,
        decreases s.len() - i,
    {
        let ghost before = out@;
        if found_at(&s, i, &needle) {
            push_all(&mut out, &with);
            assert(before + (with@ + replaced_all(s@, i + needle@.len(), needle@, with@)) =~= out@
                + replaced_all(s@, i + needle@.len(), needle@, with@));
            i += needle.len();
        } else {
            out.push(s[i]);
            assert(before + (seq![s@[i as int]] + replaced_all(s@, i + 1, needle@, with@)) =~= out@
                + replaced_all(s@, i + 1, needle@, with@));
            i += 1;
        }
    }
    assert(s@.skip(i as int) =~= Seq::empty());
    assert(out@ + Seq::<char>::empty() =~= out@);
    string_of(&out)
}

/// The report of a paper that was skipped.
pub fn single_skip_summary(pdf: &str, tty: bool) -> (r: String)
    ensures
        r@ == (if tty {
            "\x1b[1;33mSkipped\x1b[0m "@
        } else {
            "Skipped "@
        }) + pdf@,
{
    let mut out = if tty {
        chars_of("\x1b[1;33mSkipped\x1b[0m ")
    } else {
        chars_of("Skipped ")
    };
    push_str(&mut out, pdf);
    string_of(&out)
}

/// The report of a paper that was processed.
pub open spec fn single_text(
    pdf: Seq<char>,
    markdown: Seq<char>,
    figures: nat,
    tty: bool,
) -> Seq<char> {
    if tty {
        "\x1b[1;32mDone\x1b[0m "@ + pdf + "\n\x1b[36m->\x1b[0m markdown: "@ + markdown
            + "\n\x1b[36m->\x1b[0m downloaded figures: \x1b[1m"@ + decimal(figures) + "\x1b[0m"@
    } else {
        "Done "@ + pdf + " | markdown: "@ + markdown + " | downloaded figures: "@ + decimal(figures)
    }
}

/// The report of a paper that was processed; paths are shown as seen from the working directory.
pub fn single_summary(
    style: PathStyle,
    summary: &PdfSummary,
    cwd: Option<&str>,
    tty: bool,
) -> (r: String)
    ensures
        r@ == single_text(
            shown_path(
                style,
                summary.pdf@,
                match cwd {
                    Some(dir) => Some(dir@),
                    None => None,
                },
            ),
            shown_path(
                style,
                summary.markdown_path@,
                match cwd {
                    Some(dir) => Some(dir@),
                    None => None,
                },
            ),
            summary.downloaded_figures as nat,
            tty,
        ),
{
    let pdf = display_path(style, summary.pdf.as_str(), cwd);
    let markdown = display_path(style, summary.markdown_path.as_str(), cwd);
    let figures = decimal_of(summary.downloaded_figures);
    if tty {
        let mut out = chars_of("\x1b[1;32mDone\x1b[0m ");
        push_str(&mut out, pdf.as_str());
        push_str(&mut out, "\n\x1b[36m->\x1b[0m markdown: ");
        push_str(&mut out, markdown.as_str());
        push_str(&mut out, "\n\x1b[36m->\x1b[0m downloaded figures: \x1b[1m");
        push_all(&mut out, &figures);
        push_str(&mut out, "\x1b[0m");
        string_of(&out)
    } else {
        let mut out = chars_of("Done ");
        push_str(&mut out, pdf.as_str());
        push_str(&mut out, " | markdown: ");
        push_str(&mut out, markdown.as_str());
        push_str(&mut out, " | downloaded figures: ");
        push_all(&mut out, &figures);
        string_of(&out)
    }
}

/// The report of a run over several papers.
pub open spec fn batch_text(counts: BatchAccounting, tty: bool) -> Seq<char> {
    let processed = decimal(counts.processed as nat);
    let skipped = decimal(counts.skipped as nat);
    let failed = decimal(counts.failed as nat);
    let figures = decimal(counts.figures as nat);
    if tty {
        (if counts.failed == 0 {
            "\x1b[1;32m"@
        } else {
            "\x1b[1;33m"@
        }) + "Batch Complete\x1b[0m processed: \x1b[1m"@ + processed
            + "\x1b[0m skipped: \x1b[1m"@ + skipped + "\x1b[0m failed: \x1b[1m"@ + failed
            + "\x1b[0m figures: \x1b[1m"@ + figures + "\x1b[0m"@
    } else {
        "Batch Complete processed: "@ + processed + " skipped: "@ + skipped + " failed: "@ + failed
            + " figures: "@ + figures
    }
}

/// The report of a run over several papers.
pub fn batch_summary(counts: &BatchAccounting, tty: bool) -> (r: String)
    ensures
        r@ == batch_text(*counts, tty),
{
    let processed = decimal_of(counts.processed);
    let skipped = decimal_of(counts.skipped);
    let failed = decimal_of(counts.failed);
    let figures = decimal_of(counts.figures);
    if tty {
        let mut out = if counts.failed == 0 {
            chars_of("\x1b[1;32m")
        } else {
            chars_of("\x1b[1;33m")
        };
        push_str(&mut out, "Batch Complete\x1b[0m processed: \x1b[1m");
        push_all(&mut out, &processed);
        push_str(&mut out, "\x1b[0m skipped: \x1b[1m");
        push_all(&mut out, &skipped);
        push_str(&mut out, "\x1b[0m failed: \x1b[1m");
        push_all(&mut out, &failed);
        push_str(&mut out, "\x1b[0m figures: \x1b[1m");
        push_all(&mut out, &figures);
        push_str(&mut out, "\x1b[0m");
        string_of(&out)
    } else {
        let mut out = chars_of("Batch Complete processed: ");
        push_all(&mut out, &processed);
        push_str(&mut out, " skipped: ");
        push_all(&mut out, &skipped);
        push_str(&mut out, " failed: ");
        push_all(&mut out, &failed);
        push_str(&mut out, " figures: ");
        push_all(&mut out, &figures);
        string_of(&out)
    }
}

/// What is announced before several papers are processed.
pub fn batch_start(papers: usize, workers: usize, ocr_workers: usize) -> (r: String)
    ensures
        r@ == "Processing "@ + decimal(papers as nat) + " PDFs with "@ + decimal(workers as nat)
            + " workers (OCR concurrency: "@ + decimal(ocr_workers as nat) + ")..."@,
{
    let mut out = chars_of("Processing ");
    let digits = decimal_of(papers);
    push_all(&mut out, &digits);
    push_str(&mut out, " PDFs with ");
    let digits = decimal_of(workers);
    push_all(&mut out, &digits);
    push_str(&mut out, " workers (OCR concurrency: ");
    let digits = decimal_of(ocr_workers);
    push_all(&mut out, &digits);
    push_str(&mut out, ")...");
    string_of(&out)
}

// ---- Diagnosis ----

/// Paths, each on a line of its own behind two blanks.
pub open spec fn path_lines(paths: Seq<Seq<char>>) -> Seq<char>
    decreases paths.len(),
{
    if paths.len() == 0 {
        Seq::empty()
    } else {
        path_lines(paths.drop_last()) + "  "@ + paths.last() + "\n"@
    }
}

/// The report on the configuration files and the API key; `problem` tells why there is none.
pub open spec fn doctor_text(
    config_files: Seq<Seq<char>>,
    problem: Option<Seq<char>>,
    env_file: Seq<char>,
) -> Seq<char> {
    "config: ok\nconfig files:\n"@ + (if config_files.len() == 0 {
        "  none\n"@
    } else {
        path_lines(config_files)
    }) + (match problem {
        Some(text) => "auth: error: "@ + text + "\n"@,
        None => "auth: ok\n"@,
    }) + "env file: "@ + env_file + "\n"@
}

/// The report on the configuration files and the API key, and the exit code: 1 without a key.
pub fn doctor_report(config_files: &Vec<String>, problem: Option<&str>, env_file: &str) -> (r: (
    String,
    i32,
))
    ensures
        r.0@ == doctor_text(
            texts(config_files@),
            match problem {
                Some(text) => Some(text@),
                None => None,
            },
            env_file@,
        ),
        r.1 == if problem is Some {
            1i32
        } else {
            0i32
        },
{
    let ghost all = texts(config_files@);
    let mut out = chars_of("config: ok\nconfig files:\n");
    let ghost head = out@;
    if config_files.len() == 0 {
        push_str(&mut out, "  none\n");
    } else {
        let mut i: usize = 0;
        assert(out@ =~= head + path_lines(all.take(0)));
        while i < config_files.len()
            invariant
                i <= config_files@.len(),
                all == texts(config_files@),
                out@ == head + path_lines(all.take(i as int)),
            decreases config_files.len() - i,
        {
            let ghost before = path_lines(all.take(i as int));
            assert(all.take(i + 1).drop_last() =~= all.take(i as int));
            assert(all.take(i + 1).last() == config_files@[i as int]@);
            push_str(&mut out, "  ");
            push_str(&mut out, config_files[i].as_str());
            push_str(&mut out, "\n");
            assert(out@ =~= head + (before + "  "@ + config_files@[i as int]@ + "\n"@));
            i += 1;
        }
        assert(all.take(i as int) =~= all);
    }
    let ghost files = out@;
    match problem {
        Some(text) => {
            push_str(&mut out, "auth: error: ");
            push_str(&mut out, text);
            push_str(&mut out, "\n");
            assert(out@ =~= files + ("auth: error: "@ + text@ + "\n"@));
        },
        None => push_str(&mut out, "auth: ok\n"),
    }
    push_str(&mut out, "env file: ");
    push_str(&mut out, env_file);
    push_str(&mut out, "\n");
    (
        string_of(&out),
        if problem.is_some() {
            1
        } else {
            0
        },
    )
}

// ---- Laws ----

proof fn lemma_to_process_alone(pdfs: Seq<Seq<char>>, a: Seq<bool>, b: Seq<bool>, overwrite: bool)
    requires
        pdfs.len() <= a.len(),
        pdfs.len() <= b.len(),
        forall|i: int| 0 <= i < pdfs.len() ==> #[trigger] a[i] == b[i],
    ensures
        to_process(pdfs, a, overwrite) == to_process(pdfs, b, overwrite),
    decreases pdfs.len(),
{
    if pdfs.len() > 0 {
        assert(a[pdfs.len() - 1] == b[pdfs.len() - 1]);
        lemma_to_process_alone(pdfs.drop_last(), a, b, overwrite);
    }
}

/// A paper that is done is left out, unless all are processed anew; every other one is processed,
/// in the order given.
pub proof fn law_only_papers_that_are_done_are_skipped(
    pdfs: Seq<Seq<char>>,
    done: Seq<bool>,
    pdf: Seq<char>,
    is_done: bool,
    overwrite: bool,
)
    requires
        pdfs.len() == done.len(),
    ensures
        to_process(Seq::empty(), Seq::empty(), overwrite).len() == 0,
        to_process(pdfs.push(pdf), done.push(is_done), overwrite) == if is_done && !overwrite {
            to_process(pdfs, done, overwrite)
        } else {
            to_process(pdfs, done, overwrite).push(pdf)
        },
{
    let more = done.push(is_done);
    assert(pdfs.push(pdf).drop_last() =~= pdfs);
    assert(more[pdfs.len() as int] == is_done);
    lemma_to_process_alone(pdfs, more, done, overwrite);
}

/// No more is done at a time than either number says, but always one; and as much as that allows.
pub proof fn law_workers_are_limited_by_both(a: nat, b: nat, n: nat)
    ensures
        capped(a, b) >= 1,
        a >= 1 && b >= 1 ==> capped(a, b) <= a && capped(a, b) <= b,
        n <= a && n <= b ==> n <= capped(a, b),
        a == 0 || b == 0 ==> capped(a, b) == 1,
{
}

/// A paper that was processed counts as one, with its figures; one that failed counts for neither.
pub proof fn law_each_result_is_counted(results: Seq<Option<usize>>, n: usize)
    ensures
        successes(Seq::empty()) == 0,
        figure_sum(Seq::empty()) == 0,
        successes(results.push(Some(n))) == successes(results) + 1,
        figure_sum(results.push(Some(n))) == figure_sum(results) + n,
        successes(results.push(None)) == successes(results),
        figure_sum(results.push(None)) == figure_sum(results),
{
    assert(results.push(Some(n)).drop_last() =~= results);
    assert(results.push(None).drop_last() =~= results);
}

/// A path is shown as seen from the working directory if it lies there; else by its name, and whole
/// if it has none.
pub proof fn law_paths_are_shown_from_here(style: PathStyle, path: Seq<char>, cwd: Seq<char>)
    ensures
        without_prefix(style, path, cwd) is Some ==> Some(shown_path(style, path, Some(cwd)))
            == without_prefix(style, path, cwd),
        without_prefix(style, path, cwd) is None && file_name(style, path) is Some ==> Some(
            shown_path(style, path, Some(cwd)),
        ) == file_name(style, path),
        file_name(style, path) is Some ==> Some(shown_path(style, path, None)) == file_name(
            style,
            path,
        ),
        file_name(style, path) is None ==> shown_path(style, path, None) == path,
{
}

/// Each occurrence is replaced, from the left; the text between them stays as it is.
pub proof fn law_all_occurrences_are_replaced(
    s: Seq<char>,
    i: int,
    needle: Seq<char>,
    with: Seq<char>,
    p: int,
)
    requires
        0 <= i <= p <= s.len(),
        needle.len() > 0,
        forall|q: int| i <= q < p ==> !#[trigger] stands_at(s, q, needle),
    ensures
        stands_at(s, p, needle) ==> replaced_all(s, i, needle, with) == s.subrange(i, p) + with
            + replaced_all(s, p + needle.len(), needle, with),
        p == s.len() ==> replaced_all(s, i, needle, with) == s.skip(i),
    decreases p - i,
{
    if i < p {
        assert(!stands_at(s, i, needle));
        law_all_occurrences_are_replaced(s, i + 1, needle, with, p);
        assert(seq![s[i]] + s.skip(i + 1) =~= s.skip(i));
        let behind = replaced_all(s, p + needle.len(), needle, with);
        assert(seq![s[i]] + (s.subrange(i + 1, p) + with + behind) =~= s.subrange(i, p) + with
            + behind);
    } else {
        let behind = replaced_all(s, p + needle.len(), needle, with);
        assert(s.subrange(i, p) + with + behind =~= with + behind);
    }
}

/// Whether `text` holds `part`.
pub open spec fn tells(text: Seq<char>, part: Seq<char>) -> bool {
    exists|i: int| 0 <= i && #[trigger] stands_at(text, i, part)
}

proof fn lemma_tells(text: Seq<char>, a: Seq<char>, part: Seq<char>, b: Seq<char>)
    requires
        text == a + part + b,
    ensures
        tells(text, part),
{
    assert(text.subrange(a.len() as int, (a.len() + part.len()) as int) =~= part);
    assert(stands_at(text, a.len() as int, part));
}

/// The report of a batch has each number behind its name.
pub proof fn law_report_of_a_batch_has_all_numbers(counts: BatchAccounting)
    ensures
        ({
            let text = batch_text(counts, false);
            &&& tells(text, "processed: "@ + decimal(counts.processed as nat) + " "@)
            &&& tells(text, "skipped: "@ + decimal(counts.skipped as nat) + " "@)
            &&& tells(text, "failed: "@ + decimal(counts.failed as nat) + " "@)
            &&& tells(text, "figures: "@ + decimal(counts.figures as nat))
        }),
        ({
            let text = batch_text(counts, true);
            &&& tells(text, "processed: \x1b[1m"@ + decimal(counts.processed as nat) + "\x1b"@)
            &&& tells(text, "skipped: \x1b[1m"@ + decimal(counts.skipped as nat) + "\x1b"@)
            &&& tells(text, "failed: \x1b[1m"@ + decimal(counts.failed as nat) + "\x1b"@)
            &&& tells(text, "figures: \x1b[1m"@ + decimal(counts.figures as nat) + "\x1b"@)
            &&& counts.failed == 0 <==> has_prefix(text, "\x1b[1;32m"@)
        }),
{
    lemma_plain_report(counts);
    lemma_coloured_report(counts);
}

proof fn lemma_plain_report(counts: BatchAccounting)
    ensures
        ({
            let text = batch_text(counts, false);
            &&& tells(text, "processed: "@ + decimal(counts.processed as nat) + " "@)
            &&& tells(text, "skipped: "@ + decimal(counts.skipped as nat) + " "@)
            &&& tells(text, "failed: "@ + decimal(counts.failed as nat) + " "@)
            &&& tells(text, "figures: "@ + decimal(counts.figures as nat))
        }),
{
    reveal_strlit("Batch Complete processed: ");
    reveal_strlit("Batch Complete ");
    reveal_strlit("processed: ");
    reveal_strlit(" skipped: ");
    reveal_strlit("skipped: ");
    reveal_strlit(" failed: ");
    reveal_strlit("failed: ");
    reveal_strlit(" figures: ");
    reveal_strlit("figures: ");
    reveal_strlit(" ");
    let text = batch_text(counts, false);
    let p = decimal(counts.processed as nat);
    let s = decimal(counts.skipped as nat);
    let f = decimal(counts.failed as nat);
    let g = decimal(counts.figures as nat);
    assert("Batch Complete processed: "@ =~= "Batch Complete "@ + "processed: "@);
    assert(" skipped: "@ =~= " "@ + "skipped: "@);
    assert(" failed: "@ =~= " "@ + "failed: "@);
    assert(" figures: "@ =~= " "@ + "figures: "@);
    let a1 = "Batch Complete "@;
    let p1 = "processed: "@ + p + " "@;
    let p2 = "skipped: "@ + s + " "@;
    let p3 = "failed: "@ + f + " "@;
    let p4 = "figures: "@ + g;
    assert(text =~= a1 + p1 + p2 + p3 + p4);
    assert(text =~= a1 + p1 + (p2 + p3 + p4));
    lemma_tells(text, a1, p1, p2 + p3 + p4);
    assert(text =~= (a1 + p1) + p2 + (p3 + p4));
    lemma_tells(text, a1 + p1, p2, p3 + p4);
    assert(text =~= (a1 + p1 + p2) + p3 + p4);
    lemma_tells(text, a1 + p1 + p2, p3, p4);
    assert(text =~= (a1 + p1 + p2 + p3) + p4 + Seq::empty());
    lemma_tells(text, a1 + p1 + p2 + p3, p4, Seq::empty());
}

proof fn lemma_coloured_report(counts: BatchAccounting)
    ensures
        ({
            let text = batch_text(counts, true);
            &&& tells(text, "processed: \x1b[1m"@ + decimal(counts.processed as nat) + "\x1b"@)
            &&& tells(text, "skipped: \x1b[1m"@ + decimal(counts.skipped as nat) + "\x1b"@)
            &&& tells(text, "failed: \x1b[1m"@ + decimal(counts.failed as nat) + "\x1b"@)
            &&& tells(text, "figures: \x1b[1m"@ + decimal(counts.figures as nat) + "\x1b"@)
            &&& counts.failed == 0 <==> has_prefix(text, "\x1b[1;32m"@)
        }),
{
    reveal_strlit("\x1b[1;32m");
    reveal_strlit("\x1b[1;33m");
    reveal_strlit("Batch Complete\x1b[0m processed: \x1b[1m");
    reveal_strlit("Batch Complete\x1b[0m ");
    reveal_strlit("processed: \x1b[1m");
    reveal_strlit("\x1b[0m skipped: \x1b[1m");
    reveal_strlit("[0m ");
    reveal_strlit("skipped: \x1b[1m");
    reveal_strlit("\x1b[0m failed: \x1b[1m");
    reveal_strlit("failed: \x1b[1m");
    reveal_strlit("\x1b[0m figures: \x1b[1m");
    reveal_strlit("figures: \x1b[1m");
    reveal_strlit("\x1b[0m");
    reveal_strlit("\x1b");
    reveal_strlit("[0m");
    let text = batch_text(counts, true);
    let p = decimal(counts.processed as nat);
    let s = decimal(counts.skipped as nat);
    let f = decimal(counts.failed as nat);
    let g = decimal(counts.figures as nat);
    let colour = if counts.failed == 0 {
        "\x1b[1;32m"@
    } else {
        "\x1b[1;33m"@
    };
    let esc = "\x1b"@;
    let mid = "[0m "@;
    assert("Batch Complete\x1b[0m processed: \x1b[1m"@ =~= "Batch Complete\x1b[0m "@
        + "processed: \x1b[1m"@);
    assert("\x1b[0m skipped: \x1b[1m"@ =~= esc + mid + "skipped: \x1b[1m"@);
    assert("\x1b[0m failed: \x1b[1m"@ =~= esc + mid + "failed: \x1b[1m"@);
    assert("\x1b[0m figures: \x1b[1m"@ =~= esc + mid + "figures: \x1b[1m"@);
    assert("\x1b[0m"@ =~= esc + "[0m"@);
    let a1 = colour + "Batch Complete\x1b[0m "@;
    let p1 = "processed: \x1b[1m"@ + p + esc;
    let p2 = "skipped: \x1b[1m"@ + s + esc;
    let p3 = "failed: \x1b[1m"@ + f + esc;
    let p4 = "figures: \x1b[1m"@ + g + esc;
    let z = "[0m"@;
    assert(text =~= a1 + p1 + mid + p2 + mid + p3 + mid + p4 + z);
    assert(text =~= a1 + p1 + (mid + p2 + mid + p3 + mid + p4 + z));
    lemma_tells(text, a1, p1, mid + p2 + mid + p3 + mid + p4 + z);
    assert(text =~= (a1 + p1 + mid) + p2 + (mid + p3 + mid + p4 + z));
    lemma_tells(text, a1 + p1 + mid, p2, mid + p3 + mid + p4 + z);
    assert(text =~= (a1 + p1 + mid + p2 + mid) + p3 + (mid + p4 + z));
    lemma_tells(text, a1 + p1 + mid + p2 + mid, p3, mid + p4 + z);
    assert(text =~= (a1 + p1 + mid + p2 + mid + p3 + mid) + p4 + z);
    lemma_tells(text, a1 + p1 + mid + p2 + mid + p3 + mid, p4, z);
    let start = text.subrange(0, 7);
    assert(start =~= colour);
    assert("\x1b[1;32m"@[5] != "\x1b[1;33m"@[5]);
}

/// The report of one paper names its PDF, its text and the number of its figures.
pub proof fn law_report_of_a_paper_names_its_parts(
    pdf: Seq<char>,
    markdown: Seq<char>,
    figures: nat,
)
    ensures
        ({
            let text = single_text(pdf, markdown, figures, false);
            &&& has_prefix(text, "Done "@ + pdf + " "@)
            &&& tells(text, "markdown: "@ + markdown + " "@)
            &&& tells(text, "downloaded figures: "@ + decimal(figures))
        }),
{
    reveal_strlit("Done ");
    reveal_strlit(" | markdown: ");
    reveal_strlit("markdown: ");
    reveal_strlit(" | downloaded figures: ");
    reveal_strlit("downloaded figures: ");
    reveal_strlit(" ");
    reveal_strlit("| ");
    assert(" | markdown: "@ =~= " "@ + "| "@ + "markdown: "@);
    assert(" | downloaded figures: "@ =~= " "@ + "| "@ + "downloaded figures: "@);
    let text = single_text(pdf, markdown, figures, false);
    let p1 = "Done "@ + pdf + " "@;
    let p2 = "markdown: "@ + markdown + " "@;
    let p3 = "downloaded figures: "@ + decimal(figures);
    let bar = "| "@;
    assert(text =~= p1 + bar + p2 + bar + p3);
    assert(text.subrange(0, p1.len() as int) =~= p1);
    assert(text =~= (p1 + bar) + p2 + (bar + p3));
    lemma_tells(text, p1 + bar, p2, bar + p3);
    assert(text =~= (p1 + bar + p2 + bar) + p3 + Seq::empty());
    lemma_tells(text, p1 + bar + p2 + bar, p3, Seq::empty());
}

/// Each configuration file has a line of its own, in the order given.
pub proof fn law_each_configuration_file_has_its_line(paths: Seq<Seq<char>>, path: Seq<char>)
    ensures
        path_lines(Seq::empty()).len() == 0,
        path_lines(paths.push(path)) == path_lines(paths) + seq![' ', ' '] + path + seq!['\n'],
{
    reveal_strlit("  ");
    reveal_strlit("\n");
    assert("  "@ =~= seq![' ', ' ']);
    assert("\n"@ =~= seq!['\n']);
    assert(paths.push(path).drop_last() =~= paths);
}

/// What is found out about the installation tells of the key whether it was found, and why not.
pub proof fn law_diagnosis_tells_of_the_key(
    config_files: Seq<Seq<char>>,
    problem: Seq<char>,
    env_file: Seq<char>,
)
    ensures
        tells(doctor_text(config_files, Some(problem), env_file), "auth: error: "@ + problem),
        tells(doctor_text(config_files, None, env_file), "auth: ok\n"@),
        tells(doctor_text(config_files, None, env_file), "env file: "@ + env_file),
        tells(doctor_text(config_files, Some(problem), env_file), "env file: "@ + env_file),
        config_files.len() > 0 ==> tells(
            doctor_text(config_files, None, env_file),
            path_lines(config_files),
        ),
{
    let files = if config_files.len() == 0 {
        "  none\n"@
    } else {
        path_lines(config_files)
    };
    let a = "config: ok\nconfig files:\n"@;
    let bad = doctor_text(config_files, Some(problem), env_file);
    let good = doctor_text(config_files, None, env_file);
    let lf = "\n"@;
    let told = "auth: error: "@ + problem;
    let fine = "auth: ok\n"@;
    let last = "env file: "@ + env_file;
    assert(bad =~= (a + files) + told + (lf + last + lf));
    lemma_tells(bad, a + files, told, lf + last + lf);
    assert(bad =~= (a + files + told + lf) + last + lf);
    lemma_tells(bad, a + files + told + lf, last, lf);
    assert(good =~= (a + files) + fine + (last + lf));
    lemma_tells(good, a + files, fine, last + lf);
    assert(good =~= (a + files + fine) + last + lf);
    lemma_tells(good, a + files + fine, last, lf);
    assert(good =~= a + files + (fine + last + lf));
    lemma_tells(good, a, files, fine + last + lf);
}

} // verus!
