//! Where the output of a paper goes, and what is logged of it.

use vstd::prelude::*;

use crate::json::{
    field_from, json_compact, json_document, lemma_plain_decimal, named_once, named_values,
    nests_within, no_controls, parse_json, shallow, shallow_field, writable, Json, JsonValue,
};
use crate::number::decimal;
use crate::paths::{
    ends_with_a_name, file_name, file_stem, find_file_stem, is_plain_name, join_name, joined_path,
    law_last_name_counts, law_relative_paths_are_put_behind, parent, posix_rule, PathStyle,
};
use crate::pieces::{lemma_lines_behind, lemma_lines_front, lines, lines_of, texts, without_cr};
use crate::tables::normalize::{Counts, TableStats};
use crate::text::{
    chars_of, copy_string, holds, is_white_space, law_trimming_takes_only_the_ends, lemma_lead_is,
    lemma_trail, push_str, spells, string_of, trail, trim, trim_start, trimmed, CharClass,
};

verus! {

// ---- Paths ----

/// Why a paper has no place in the output.
#[derive(Debug)]
pub enum OutputError {
    /// The path has no name.
    InvalidName { path: String },
    /// The name is no name of a directory.
    InvalidStem { stem: String },
}

/// An error in words.
pub open spec fn output_error_text(e: OutputError) -> Seq<char> {
    match e {
        OutputError::InvalidName { path } => "Invalid PDF filename: "@ + path@,
        OutputError::InvalidStem { stem } => "Invalid output stem: "@ + stem@,
    }
}

impl OutputError {
    /// The error in words.
    pub fn message(&self) -> (r: String)
        ensures
            r@ == output_error_text(*self),
    {
        match self {
            OutputError::InvalidName { path } => {
                let mut out = chars_of("Invalid PDF filename: ");
                push_str(&mut out, path.as_str());
                string_of(&out)
            },
            OutputError::InvalidStem { stem } => {
                let mut out = chars_of("Invalid output stem: ");
                push_str(&mut out, stem.as_str());
                string_of(&out)
            },
        }
    }
}

/// Whether `stem` is the name of a directory: not empty, not `.` or `..`, and without slashes.
pub open spec fn valid_stem(stem: Seq<char>) -> bool {
    stem.len() > 0 && stem != "."@ && stem != ".."@ && !stem.contains('/') && !stem.contains('\\')
}

/// Whether `stem` is the name of a directory.
pub fn validate_output_stem(stem: &str) -> (r: Result<(), OutputError>)
    ensures
        r is Ok <==> valid_stem(stem@),
        r is Err ==> (r matches Err(OutputError::InvalidStem { stem: s }) && s@ == stem@),
{
    let chars = chars_of(stem);
    if chars.len() == 0 || spells(&chars, ".") || spells(&chars, "..") || holds(&chars, '/')
        || holds(&chars, '\\') {
        Err(OutputError::InvalidStem { stem: string_of(&chars) })
    } else {
        Ok(())
    }
}

/// Where the output of a paper goes.
#[derive(Debug)]
pub struct PreparedOutputPaths {
    /// The directory of the paper.
    pub output_dir: String,
    /// The directory of its figures.
    pub figures_dir: String,
    /// The directory of its tables, if they are kept.
    pub tables_dir: Option<String>,
    /// Its text.
    pub markdown_path: String,
    /// Its log.
    pub log_path: String,
}

/// The paths of a paper in the directory `dir`.
pub open spec fn paths_in(
    style: PathStyle,
    p: PreparedOutputPaths,
    dir: Seq<char>,
    tables: bool,
) -> bool {
    &&& p.output_dir@ == dir
    &&& p.figures_dir@ == joined_path(style, dir, "figures"@)
    &&& p.markdown_path@ == joined_path(style, dir, "index.md"@)
    &&& p.log_path@ == joined_path(style, dir, "log.jsonl"@)
    &&& match p.tables_dir {
        Some(path) => tables && path@ == joined_path(style, dir, "tables"@),
        None => !tables,
    }
}

/// What an option of text holds.
pub open spec fn list_of(s: Option<String>) -> Seq<Seq<char>> {
    match s {
        Some(text) => seq![text@],
        None => Seq::empty(),
    }
}

/// What is removed before a paper is processed: with `overwrite` its whole directory, else what
/// processing makes anew.
pub open spec fn stale(paths: PreparedOutputPaths, overwrite: bool) -> Seq<Seq<char>> {
    if overwrite {
        seq![paths.output_dir@]
    } else {
        seq![paths.markdown_path@, paths.figures_dir@] + list_of(paths.tables_dir)
    }
}

/// The directories that are made before a paper is processed, in order.
pub open spec fn directories(paths: PreparedOutputPaths) -> Seq<Seq<char>> {
    seq![paths.output_dir@, paths.figures_dir@] + list_of(paths.tables_dir)
}

fn stale_outputs(paths: &PreparedOutputPaths, overwrite: bool) -> (out: Vec<String>)
    ensures
        texts(out@) == stale(*paths, overwrite),
{
    let mut out: Vec<String> = Vec::new();
    if overwrite {
        out.push(copy_string(&paths.output_dir));
        assert(texts(out@) =~= stale(*paths, overwrite));
        return out;
    }
    out.push(copy_string(&paths.markdown_path));
    out.push(copy_string(&paths.figures_dir));
    if let Some(dir) = &paths.tables_dir {
        out.push(copy_string(dir));
    }
    assert(texts(out@) =~= stale(*paths, overwrite));
    out
}

fn output_directories(paths: &PreparedOutputPaths) -> (out: Vec<String>)
    ensures
        texts(out@) == directories(*paths),
{
    let mut out: Vec<String> = Vec::new();
    out.push(copy_string(&paths.output_dir));
    out.push(copy_string(&paths.figures_dir));
    if let Some(dir) = &paths.tables_dir {
        out.push(copy_string(dir));
    }
    assert(texts(out@) =~= directories(*paths));
    out
}

/// What is to be done before a paper is processed.
#[derive(Debug)]
pub struct PreparedOutput {
    /// The name of its directory.
    pub stem: String,
    /// Where its output goes.
    pub paths: PreparedOutputPaths,
    /// What is removed first.
    pub remove: Vec<String>,
    /// The directories that are made, in order.
    pub create: Vec<String>,
}

/// Where the output of the paper `pdf_path` goes: in the directory named like it in
/// `output_root`; and what is removed and made there before.
pub fn prepare_output_paths(
    style: PathStyle,
    output_root: &str,
    pdf_path: &str,
    overwrite: bool,
    normalize_tables: bool,
) -> (r: Result<PreparedOutput, OutputError>)
    ensures
        match file_stem(style, pdf_path@) {
            None => r matches Err(OutputError::InvalidName { path }) && path@ == pdf_path@,
            Some(stem) => if valid_stem(stem) {
                &&& r is Ok
                &&& r->Ok_0.stem@ == stem
                &&& paths_in(
                    style,
                    r->Ok_0.paths,
                    joined_path(style, output_root@, stem),
                    normalize_tables,
                )
                &&& texts(r->Ok_0.remove@) == stale(r->Ok_0.paths, overwrite)
                &&& texts(r->Ok_0.create@) == directories(r->Ok_0.paths)
            } else {
                r matches Err(OutputError::InvalidStem { stem: s }) && s@ == stem
            },
        },
{
    let pdf = chars_of(pdf_path);
    let stem = match find_file_stem(style, &pdf) {
        Some(stem) => string_of(&stem),
        None => {
            return Err(OutputError::InvalidName { path: string_of(&pdf) });
        },
    };
    if let Err(e) = validate_output_stem(stem.as_str()) {
        return Err(e);
    }
    let root = chars_of(output_root);
    let dir = join_name(style, &root, stem.as_str());
    let figures = join_name(style, &dir, "figures");
    let markdown = join_name(style, &dir, "index.md");
    let log = join_name(style, &dir, "log.jsonl");
    let tables_dir = if normalize_tables {
        let tables = join_name(style, &dir, "tables");
        Some(string_of(&tables))
    } else {
        None
    };
    let paths = PreparedOutputPaths {
        output_dir: string_of(&dir),
        figures_dir: string_of(&figures),
        tables_dir,
        markdown_path: string_of(&markdown),
        log_path: string_of(&log),
    };
    let remove = stale_outputs(&paths, overwrite);
    let create = output_directories(&paths);
    Ok(PreparedOutput { stem, paths, remove, create })
}

/// Whether the HTML of tables is kept: where they are rewritten, and in a bundle.
pub fn keeps_tables(normalize_tables: bool, okf: bool) -> (r: bool)
    ensures
        r == (normalize_tables || okf),
{
    normalize_tables || okf
}

/// Where the text of a paper goes: in a bundle it makes room for the index.
pub open spec fn text_place(style: PathStyle, paths: PreparedOutputPaths, okf: bool) -> Seq<char> {
    if okf {
        joined_path(style, paths.output_dir@, "manuscript.md"@)
    } else {
        paths.markdown_path@
    }
}

/// Where the text of a paper goes.
pub fn text_path(style: PathStyle, paths: &PreparedOutputPaths, okf: bool) -> (r: String)
    ensures
        r@ == text_place(style, *paths, okf),
{
    if okf {
        let dir = chars_of(paths.output_dir.as_str());
        let path = join_name(style, &dir, "manuscript.md");
        string_of(&path)
    } else {
        copy_string(&paths.markdown_path)
    }
}

/// Where the layout of a paper goes in a bundle.
pub fn layout_path(style: PathStyle, paths: &PreparedOutputPaths) -> (r: String)
    ensures
        r@ == joined_path(style, paths.output_dir@, "layout.json"@),
{
    let dir = chars_of(paths.output_dir.as_str());
    let path = join_name(style, &dir, "layout.json");
    string_of(&path)
}

// ---- The log ----

/// What is reported of a paper.
#[derive(Debug)]
pub struct PdfSummary {
    pub pdf: String,
    pub output_dir: String,
    pub markdown_path: String,
    pub downloaded_figures: usize,
    pub remote_figure_links: usize,
    pub image_blocks: usize,
    pub usage: Option<Json>,
    pub log_path: String,
}

/// A number as a value.
pub open spec fn count(n: nat) -> JsonValue {
    JsonValue::Number(decimal(n))
}

/// The usage of the service as a value.
pub open spec fn usage_value(usage: Option<Json>) -> JsonValue {
    match usage {
        Some(v) => v@,
        None => JsonValue::Null,
    }
}

/// The log entry of a paper.
pub open spec fn log_entry_value(
    summary: PdfSummary,
    stats: Counts,
    timestamp: Seq<char>,
    timing: JsonValue,
) -> JsonValue {
    JsonValue::Object(
        seq![
            ("downloaded_figures"@, count(summary.downloaded_figures as nat)),
            ("image_blocks"@, count(summary.image_blocks as nat)),
            ("markdown_path"@, JsonValue::Text(summary.markdown_path@)),
            ("output_dir"@, JsonValue::Text(summary.output_dir@)),
            ("pdf_path"@, JsonValue::Text(summary.pdf@)),
            ("remote_figure_links"@, count(summary.remote_figure_links as nat)),
            ("tables_failed_extract"@, count(stats.failed_extract)),
            ("tables_failed_parse"@, count(stats.failed_parse)),
            ("tables_found"@, count(stats.found)),
            ("tables_normalized"@, count(stats.normalized)),
            ("tables_raw_written"@, count(stats.raw_written)),
            ("tables_skipped_in_code"@, count(stats.in_code)),
            ("tables_skipped_nested"@, count(stats.nested)),
            ("tables_skipped_too_large"@, count(stats.too_large)),
            ("timestamp_utc"@, JsonValue::Text(timestamp)),
            ("timing"@, timing),
            ("usage"@, usage_value(summary.usage)),
        ],
    )
}

fn push_field(fields: &mut Vec<(String, Json)>, name: &str, value: Json)
    ensures
        named_values(final(fields)@) == named_values(old(fields)@).push((name@, value@)),
{
    let ghost before = named_values(fields@);
    let chars = chars_of(name);
    fields.push((string_of(&chars), value));
    assert(named_values(fields@) =~= before.push((name@, value@)));
}

/// The log entry of a paper.
pub fn log_entry(summary: &PdfSummary, stats: &TableStats, timestamp: &str, timing: Json) -> (r:
    Json)
    ensures
        r@ == log_entry_value(*summary, stats@, timestamp@, timing@),
{
    let mut fields: Vec<(String, Json)> = Vec::new();
    assert(named_values(fields@) =~= Seq::empty());
    push_field(&mut fields, "downloaded_figures", Json::of_number(summary.downloaded_figures));
    push_field(&mut fields, "image_blocks", Json::of_number(summary.image_blocks));
    push_field(&mut fields, "markdown_path", Json::of_text(summary.markdown_path.as_str()));
    push_field(&mut fields, "output_dir", Json::of_text(summary.output_dir.as_str()));
    push_field(&mut fields, "pdf_path", Json::of_text(summary.pdf.as_str()));
    push_field(&mut fields, "remote_figure_links", Json::of_number(summary.remote_figure_links));
    push_field(
        &mut fields,
        "tables_failed_extract",
        Json::of_number(stats.tables_failed_extract),
    );
    push_field(&mut fields, "tables_failed_parse", Json::of_number(stats.tables_failed_parse));
    push_field(&mut fields, "tables_found", Json::of_number(stats.tables_found));
    push_field(&mut fields, "tables_normalized", Json::of_number(stats.tables_normalized));
    push_field(&mut fields, "tables_raw_written", Json::of_number(stats.tables_raw_written));
    push_field(
        &mut fields,
        "tables_skipped_in_code",
        Json::of_number(stats.tables_skipped_in_code),
    );
    push_field(
        &mut fields,
        "tables_skipped_nested",
        Json::of_number(stats.tables_skipped_nested),
    );
    push_field(
        &mut fields,
        "tables_skipped_too_large",
        Json::of_number(stats.tables_skipped_too_large),
    );
    push_field(&mut fields, "timestamp_utc", Json::of_text(timestamp));
    push_field(&mut fields, "timing", timing);
    let usage = match &summary.usage {
        Some(v) => v.copy(),
        None => Json::Null,
    };
    push_field(&mut fields, "usage", usage);
    let r = Json::object(fields);
    assert(r@->Object_0 =~= log_entry_value(
        *summary,
        stats@,
        timestamp@,
        timing@,
    )->Object_0);
    r
}

// ---- Papers that are done ----

/// What is at the place of a paper's log.
pub enum LogFile {
    /// No file.
    Missing,
    /// A file that cannot be read.
    Unreadable,
    /// A file with this text.
    Text(String),
}

/// The text field `name` of the JSON object that `line` writes: none if `line` is no JSON, and
/// none inside if there is no such field or it is no text.
pub open spec fn json_text_field(line: Seq<char>, name: Seq<char>) -> Option<Option<Seq<char>>> {
    match json_document(line) {
        Some(v) => Some(v.text_field(name)),
        None => None,
    }
}

/// The text field `name` of the JSON object that `line` writes.
fn read_text_field(line: &str, name: &str) -> (r: Option<Option<String>>)
    ensures
        match r {
            Some(Some(text)) => json_text_field(line@, name@) == Some(Some(text@)),
            Some(None) => json_text_field(line@, name@) == Some(None::<Seq<char>>),
            None => json_text_field(line@, name@) is None,
        },
{
    match parse_json(line) {
        Some(v) => match v.get_text(name) {
            Some(text) => Some(Some(copy_string(text))),
            None => Some(None),
        },
        None => None,
    }
}

/// Whether the last entry of a log stands for the paper `pdf`, given the path in that entry: it
/// does unless the entry names another paper.
pub open spec fn marks(entry: Option<Option<Seq<char>>>, pdf: Seq<char>) -> bool {
    match entry {
        Some(Some(path)) => path == pdf,
        _ => true,
    }
}

/// Whether the last entry of a log stands for the paper `pdf`, given the path in that entry.
pub fn entry_marks(entry: &Option<Option<String>>, pdf: &str) -> (r: bool)
    ensures
        r == marks(
            match *entry {
                Some(Some(path)) => Some(Some(path@)),
                Some(None) => Some(None),
                None => None,
            },
            pdf@,
        ),
{
    match entry {
        Some(Some(path)) => {
            let path = chars_of(path.as_str());
            spells(&path, pdf)
        },
        _ => true,
    }
}

/// The last of `ls` that is more than white space.
pub open spec fn last_not_blank(ls: Seq<Seq<char>>) -> Option<Seq<char>>
    decreases ls.len(),
{
    if ls.len() == 0 {
        None
    } else if trim(ls.last(), CharClass::Space).len() > 0 {
        Some(ls.last())
    } else {
        last_not_blank(ls.drop_last())
    }
}

/// The last line of a log that is more than white space.
pub fn last_log_line(contents: &str) -> (r: Option<String>)
    ensures
        match last_not_blank(lines(contents@)) {
            Some(line) => r is Some && r->0@ == line,
            None => r is None,
        },
{
    let chars = chars_of(contents);
    let ls = lines_of(&chars);
    let ghost all = texts(ls@);
    let mut i: usize = ls.len();
    assert(all.take(i as int) =~= all);
    while i > 0
        invariant
            i <= ls@.len(),
            all == texts(ls@),
            all == lines(contents@),
            last_not_blank(all) == last_not_blank(all.take(i as int)),
        decreases i,
    {
        assert(all.take(i as int).last() == ls@[i - 1]@);
        assert(all.take(i as int).drop_last() =~= all.take(i - 1));
        if trimmed(ls[i - 1], CharClass::Space).len() > 0 {
            return Some(string_of(ls[i - 1]));
        }
        i -= 1;
    }
    None
}

/// Whether a log with the text `text` says that `pdf` is done.
pub open spec fn text_marks(text: Seq<char>, pdf: Seq<char>) -> bool {
    match last_not_blank(lines(text)) {
        Some(line) => marks(json_text_field(line, "pdf_path"@), pdf),
        None => true,
    }
}

/// Whether the log of a paper says that `pdf` is done.
pub open spec fn log_marks(log: LogFile, pdf: Seq<char>) -> bool {
    match log {
        LogFile::Missing => false,
        LogFile::Unreadable => true,
        LogFile::Text(text) => text_marks(text@, pdf),
    }
}

/// Whether the log of a paper says that `pdf` is done: there is one, and its last entry names no
/// other paper.
pub fn has_existing_log_marker(log: &LogFile, pdf: &str) -> (r: bool)
    ensures
        r == log_marks(*log, pdf@),
{
    match log {
        LogFile::Missing => false,
        LogFile::Unreadable => true,
        LogFile::Text(text) => match last_log_line(text.as_str()) {
            Some(line) => {
                let entry = read_text_field(line.as_str(), "pdf_path");
                entry_marks(&entry, pdf)
            },
            None => true,
        },
    }
}

/// Where the log of the paper `pdf` is: in the directory named like it in the output root.
pub fn log_path_of(style: PathStyle, output_root: &str, pdf: &str) -> (r: Option<String>)
    ensures
        match file_stem(style, pdf@) {
            Some(stem) => r is Some && r->0@ == joined_path(
                style,
                joined_path(style, output_root@, stem),
                "log.jsonl"@,
            ),
            None => r is None,
        },
{
    let chars = chars_of(pdf);
    match find_file_stem(style, &chars) {
        Some(stem) => {
            let root = chars_of(output_root);
            let stem = string_of(&stem);
            let dir = join_name(style, &root, stem.as_str());
            let path = join_name(style, &dir, "log.jsonl");
            Some(string_of(&path))
        },
        None => None,
    }
}

// ---- What a log entry is for ----

/// Whether `text` is made of whole lines.
pub open spec fn whole_lines(text: Seq<char>) -> bool {
    text.len() > 0 ==> text.last() == '\n'
}

/// Whether a log that `line` was appended to says that `pdf` is done, whatever stood in it
/// before, and, if the line can be read again, that no other paper is.
pub open spec fn line_marks(line: Seq<char>, pdf: Seq<char>) -> bool {
    forall|before: Seq<char>, other: Seq<char>|
        whole_lines(before) ==> #[trigger] text_marks(before + line + seq!['\n'], other) == (other
            == pdf || json_document(line) is None)
}

/// A log whose last line is `line`.
proof fn lemma_last_line(before: Seq<char>, line: Seq<char>)
    requires
        whole_lines(before),
        no_controls(line),
        line.len() > 0,
        line[0] == '{',
    ensures
        last_not_blank(lines(before + line + seq!['\n'])) == Some(line),
{
    let e = Seq::<char>::empty();
    assert(before + line + seq!['\n'] =~= before + (line + seq!['\n'] + e));
    assert(!line.contains('\n')) by {
        if line.contains('\n') {
            let i = choose|i: int| 0 <= i < line.len() && line[i] == '\n';
            assert(line[i] as nat >= 32);
        }
    }
    assert(line[line.len() - 1] as nat >= 32);
    assert(without_cr(line) == line);
    lemma_lines_front(line, e);
    assert(lines(line + seq!['\n'] + e) =~= seq![line]);
    lemma_lines_behind(before, line + seq!['\n'] + e);
    assert((lines(before) + seq![line]).last() == line);
    lemma_lead_is(line, CharClass::Space, 0);
    lemma_trail(trim_start(line, CharClass::Space), CharClass::Space);
    let t = trim_start(line, CharClass::Space);
    assert(t =~= line);
    assert(trim(line, CharClass::Space).len() > 0) by {
        let n = trail(t, CharClass::Space);
        if n == t.len() {
            assert(CharClass::Space.has(t[0]));
        }
    }
}

/// The log entry of a paper as a line of its log; none if a number in it is no number of JSON.
/// Appended to any log, it marks the paper as done, and no other.
pub fn log_line(summary: &PdfSummary, stats: &TableStats, timestamp: &str, timing: Json) -> (r:
    Option<String>)
    ensures
        match json_compact(log_entry_value(*summary, stats@, timestamp@, timing@)) {
            Some(line) => r is Some && r->0@ == line,
            None => r is None,
        },
        r is Some <==> writable(timing@) && writable(usage_value(summary.usage)),
        r matches Some(line) ==> no_controls(line@) && line_marks(line@, summary.pdf@),
        r is Some && shallow_field(timing@) && shallow_field(usage_value(summary.usage))
            ==> json_document(r->0@) is Some,
{
    let ghost timing_value = timing@;
    let entry = log_entry(summary, stats, timestamp, timing);
    let line = entry.compact();
    proof {
        let v = log_entry_value(*summary, stats@, timestamp@, timing_value);
        lemma_writable_entry(*summary, *stats, timestamp@, timing_value);
        lemma_shallow_entry(*summary, stats@, timestamp@, timing_value);
        if line is Some {
            let text = line->0@;
            lemma_pdf_path_once(*summary, stats@, timestamp@, timing_value);
            assert forall|before: Seq<char>, other: Seq<char>| whole_lines(before) implies
                #[trigger] text_marks(before + text + seq!['\n'], other) == (other == summary.pdf@
                || json_document(text) is None) by {
                lemma_last_line(before, text);
                law_log_entry_marks_its_paper(*summary, stats@, timestamp@, timing_value, other);
                if json_document(text) is Some {
                    let d = json_document(text)->0;
                    assert(d.text_field("pdf_path"@) == v.text_field("pdf_path"@));
                }
            }
        }
    }
    line
}

proof fn lemma_writable_entry(
    summary: PdfSummary,
    stats: TableStats,
    timestamp: Seq<char>,
    timing: JsonValue,
)
    ensures
        writable(log_entry_value(summary, stats@, timestamp, timing)) <==> writable(timing)
            && writable(usage_value(summary.usage)),
{
    lemma_plain_decimal(summary.downloaded_figures);
    lemma_plain_decimal(summary.image_blocks);
    lemma_plain_decimal(summary.remote_figure_links);
    lemma_plain_decimal(stats.tables_failed_extract);
    lemma_plain_decimal(stats.tables_failed_parse);
    lemma_plain_decimal(stats.tables_found);
    lemma_plain_decimal(stats.tables_normalized);
    lemma_plain_decimal(stats.tables_raw_written);
    lemma_plain_decimal(stats.tables_skipped_in_code);
    lemma_plain_decimal(stats.tables_skipped_nested);
    lemma_plain_decimal(stats.tables_skipped_too_large);
    let v = log_entry_value(summary, stats@, timestamp, timing);
    assert(v->Object_0[15] == ("timing"@, timing));
    assert(v->Object_0[16] == ("usage"@, usage_value(summary.usage)));
    assert forall|i: int| 0 <= i < 15 implies writable((#[trigger] v->Object_0[i]).1) by {}
}

proof fn lemma_shallow_entry(
    summary: PdfSummary,
    stats: Counts,
    timestamp: Seq<char>,
    timing: JsonValue,
)
    ensures
        shallow_field(timing) && shallow_field(usage_value(summary.usage)) ==> shallow(
            log_entry_value(summary, stats, timestamp, timing),
        ),
{
    if shallow_field(timing) && shallow_field(usage_value(summary.usage)) {
        let v = log_entry_value(summary, stats, timestamp, timing);
        assert(v->Object_0[15] == ("timing"@, timing));
        assert(v->Object_0[16] == ("usage"@, usage_value(summary.usage)));
        assert forall|i: int| 0 <= i < 17 implies nests_within(
            (#[trigger] v->Object_0[i]).1,
            126,
        ) by {
            if i < 15 {
                assert(v->Object_0[i].1 is Number || v->Object_0[i].1 is Text);
            }
        }
    }
}

/// No other field of a log entry is named like that of the paper's path.
proof fn lemma_pdf_path_once(
    summary: PdfSummary,
    stats: Counts,
    timestamp: Seq<char>,
    timing: JsonValue,
)
    ensures
        named_once(log_entry_value(summary, stats, timestamp, timing), "pdf_path"@),
{
    reveal_strlit("downloaded_figures");
    reveal_strlit("image_blocks");
    reveal_strlit("markdown_path");
    reveal_strlit("output_dir");
    reveal_strlit("pdf_path");
    reveal_strlit("remote_figure_links");
    reveal_strlit("tables_failed_extract");
    reveal_strlit("tables_failed_parse");
    reveal_strlit("tables_found");
    reveal_strlit("tables_normalized");
    reveal_strlit("tables_raw_written");
    reveal_strlit("tables_skipped_in_code");
    reveal_strlit("tables_skipped_nested");
    reveal_strlit("tables_skipped_too_large");
    reveal_strlit("timestamp_utc");
    reveal_strlit("timing");
    reveal_strlit("usage");
    let fields = log_entry_value(summary, stats, timestamp, timing)->Object_0;
    assert forall|i: int| 0 <= i < fields.len() && (#[trigger] fields[i]).0 == "pdf_path"@ implies i
        == 4 by {
        assert(i != 4 ==> fields[i].0[0] != 'p');
        assert("pdf_path"@[0] == 'p');
    }
}

/// The log entry of a paper names it: the entry stands for that paper, and for no other.
pub proof fn law_log_entry_marks_its_paper(
    summary: PdfSummary,
    stats: Counts,
    timestamp: Seq<char>,
    timing: JsonValue,
    pdf: Seq<char>,
)
    ensures
        log_entry_value(summary, stats, timestamp, timing).text_field("pdf_path"@) == Some(
            summary.pdf@,
        ),
        marks(
            Some(log_entry_value(summary, stats, timestamp, timing).text_field("pdf_path"@)),
            pdf,
        ) == (pdf == summary.pdf@),
{
    reveal_strlit("downloaded_figures");
    reveal_strlit("image_blocks");
    reveal_strlit("markdown_path");
    reveal_strlit("output_dir");
    reveal_strlit("pdf_path");
    reveal_with_fuel(field_from, 6);
    assert("downloaded_figures"@[0] != "pdf_path"@[0]);
    assert("image_blocks"@[0] != "pdf_path"@[0]);
    assert("markdown_path"@[0] != "pdf_path"@[0]);
    assert("output_dir"@[0] != "pdf_path"@[0]);
    let entry = log_entry_value(summary, stats, timestamp, timing);
    assert(entry.field("pdf_path"@) == Some(JsonValue::Text(summary.pdf@)));
}

/// The log entry of a paper tells all that is known of its processing, each thing under its own
/// name.
pub proof fn law_log_entry_tells_what_was_done(
    summary: PdfSummary,
    stats: Counts,
    timestamp: Seq<char>,
    timing: JsonValue,
)
    ensures
        ({
            let fields = log_entry_value(summary, stats, timestamp, timing)->Object_0;
            &&& log_entry_value(summary, stats, timestamp, timing) is Object
            &&& fields.len() == 17
            &&& fields.contains(
                ("downloaded_figures"@, JsonValue::Number(decimal(summary.downloaded_figures as nat))),
            )
            &&& fields.contains(
                ("image_blocks"@, JsonValue::Number(decimal(summary.image_blocks as nat))),
            )
            &&& fields.contains(("markdown_path"@, JsonValue::Text(summary.markdown_path@)))
            &&& fields.contains(("output_dir"@, JsonValue::Text(summary.output_dir@)))
            &&& fields.contains(("pdf_path"@, JsonValue::Text(summary.pdf@)))
            &&& fields.contains(
                ("remote_figure_links"@, JsonValue::Number(decimal(summary.remote_figure_links as nat))),
            )
            &&& fields.contains(
                ("tables_failed_extract"@, JsonValue::Number(decimal(stats.failed_extract))),
            )
            &&& fields.contains(
                ("tables_failed_parse"@, JsonValue::Number(decimal(stats.failed_parse))),
            )
            &&& fields.contains(("tables_found"@, JsonValue::Number(decimal(stats.found))))
            &&& fields.contains(
                ("tables_normalized"@, JsonValue::Number(decimal(stats.normalized))),
            )
            &&& fields.contains(
                ("tables_raw_written"@, JsonValue::Number(decimal(stats.raw_written))),
            )
            &&& fields.contains(
                ("tables_skipped_in_code"@, JsonValue::Number(decimal(stats.in_code))),
            )
            &&& fields.contains(
                ("tables_skipped_nested"@, JsonValue::Number(decimal(stats.nested))),
            )
            &&& fields.contains(
                ("tables_skipped_too_large"@, JsonValue::Number(decimal(stats.too_large))),
            )
            &&& fields.contains(("timestamp_utc"@, JsonValue::Text(timestamp)))
            &&& fields.contains(("timing"@, timing))
            &&& summary.usage is Some ==> fields.contains(("usage"@, summary.usage->0@))
            &&& summary.usage is None ==> fields.contains(("usage"@, JsonValue::Null))
        }),
{
    let fields = log_entry_value(summary, stats, timestamp, timing)->Object_0;
    assert(fields[0] == (
        "downloaded_figures"@,
        JsonValue::Number(decimal(summary.downloaded_figures as nat)),
    ));
    assert(fields[1] == ("image_blocks"@, JsonValue::Number(decimal(summary.image_blocks as nat))));
    assert(fields[2] == ("markdown_path"@, JsonValue::Text(summary.markdown_path@)));
    assert(fields[3] == ("output_dir"@, JsonValue::Text(summary.output_dir@)));
    assert(fields[4] == ("pdf_path"@, JsonValue::Text(summary.pdf@)));
    assert(fields[5] == (
        "remote_figure_links"@,
        JsonValue::Number(decimal(summary.remote_figure_links as nat)),
    ));
    assert(fields[6] == (
        "tables_failed_extract"@,
        JsonValue::Number(decimal(stats.failed_extract)),
    ));
    assert(fields[7] == ("tables_failed_parse"@, JsonValue::Number(decimal(stats.failed_parse))));
    assert(fields[8] == ("tables_found"@, JsonValue::Number(decimal(stats.found))));
    assert(fields[9] == ("tables_normalized"@, JsonValue::Number(decimal(stats.normalized))));
    assert(fields[10] == ("tables_raw_written"@, JsonValue::Number(decimal(stats.raw_written))));
    assert(fields[11] == ("tables_skipped_in_code"@, JsonValue::Number(decimal(stats.in_code))));
    assert(fields[12] == ("tables_skipped_nested"@, JsonValue::Number(decimal(stats.nested))));
    assert(fields[13] == (
        "tables_skipped_too_large"@,
        JsonValue::Number(decimal(stats.too_large)),
    ));
    assert(fields[14] == ("timestamp_utc"@, JsonValue::Text(timestamp)));
    assert(fields[15] == ("timing"@, timing));
    assert(fields[16] == ("usage"@, usage_value(summary.usage)));
}

/// Whether there is more than white space in `line`.
pub open spec fn is_written(line: Seq<char>) -> bool {
    exists|j: int| 0 <= j < line.len() && !is_white_space(#[trigger] line[j])
}

proof fn lemma_is_written(line: Seq<char>)
    ensures
        is_written(line) <==> trim(line, CharClass::Space).len() > 0,
{
    let class = CharClass::Space;
    law_trimming_takes_only_the_ends(line, class);
    let (a, b) = choose|a: int, b: int|
        0 <= a <= b <= line.len() && trim(line, class) == #[trigger] line.subrange(a, b) && (forall|
            j: int,
        |
            0 <= j < a || b <= j < line.len() ==> class.has(#[trigger] line[j])) && (a < b
            ==> !class.has(line[a]) && !class.has(line[b - 1]));
    if is_written(line) {
        let j = choose|j: int| 0 <= j < line.len() && !is_white_space(#[trigger] line[j]);
        assert(!class.has(line[j]));
        assert(a <= j < b);
    }
    if a < b {
        assert(!is_white_space(line[a]));
    }
}

proof fn lemma_last_not_blank(ls: Seq<Seq<char>>, k: int)
    requires
        -1 <= k < ls.len(),
        k >= 0 ==> is_written(ls[k]),
        forall|j: int| k < j < ls.len() ==> !is_written(#[trigger] ls[j]),
    ensures
        last_not_blank(ls) == if k >= 0 {
            Some(ls[k])
        } else {
            None
        },
    decreases ls.len(),
{
    if ls.len() > 0 {
        lemma_is_written(ls[ls.len() - 1]);
        if k < ls.len() - 1 {
            assert(!is_written(ls[ls.len() - 1]));
            let init = ls.drop_last();
            assert forall|j: int| k < j < init.len() implies !is_written(#[trigger] init[j]) by {
                assert(init[j] == ls[j]);
            }
            lemma_last_not_blank(init, k);
        }
    }
}

/// The last line of a log that is not blank tells whether a paper is done: it is, unless that line
/// names another one. A log without such a line, or that cannot be read, marks any paper; a log
/// that is missing marks none. `k` is the place of that line, or -1.
pub proof fn law_last_line_of_a_log_counts(log: LogFile, pdf: Seq<char>, k: int)
    requires
        log matches LogFile::Text(text) ==> {
            let ls = lines(text@);
            &&& -1 <= k < ls.len()
            &&& k >= 0 ==> is_written(ls[k])
            &&& forall|j: int| k < j < ls.len() ==> !is_written(#[trigger] ls[j])
        },
    ensures
        log is Missing ==> !log_marks(log, pdf),
        log is Unreadable ==> log_marks(log, pdf),
        log matches LogFile::Text(text) ==> {
            let named = if k >= 0 && json_document(lines(text@)[k]) is Some {
                json_document(lines(text@)[k])->0.text_field("pdf_path"@)
            } else {
                None
            };
            log_marks(log, pdf) <==> named is None || named->0 == pdf
        },
{
    if log is Text {
        lemma_last_not_blank(lines(log->Text_0@), k);
    }
}

/// Without overwriting, what processing makes anew is removed: the text, the figures, and the tables
/// if there are to be any; the directory itself, and with it the log, stays. With overwriting the
/// whole directory is removed.
pub proof fn law_only_overwriting_removes_the_directory(paths: PreparedOutputPaths)
    ensures
        stale(paths, true).contains(paths.output_dir@),
        stale(paths, false).contains(paths.markdown_path@),
        stale(paths, false).contains(paths.figures_dir@),
        paths.tables_dir matches Some(dir) ==> stale(paths, false).contains(dir@),
        forall|p: Seq<char>| #[trigger]
            stale(paths, false).contains(p) ==> p == paths.markdown_path@ || p
                == paths.figures_dir@ || (paths.tables_dir is Some && p == paths.tables_dir->0@),
        directories(paths).contains(paths.output_dir@),
        directories(paths).contains(paths.figures_dir@),
        paths.tables_dir matches Some(dir) ==> directories(paths).contains(dir@),
        directories(paths)[0] == paths.output_dir@,
{
    assert(stale(paths, true)[0] == paths.output_dir@);
    let removed = stale(paths, false);
    assert(removed[0] == paths.markdown_path@);
    assert(removed[1] == paths.figures_dir@);
    let made = directories(paths);
    assert(made[0] == paths.output_dir@);
    assert(made[1] == paths.figures_dir@);
    if paths.tables_dir is Some {
        assert(removed[2] == paths.tables_dir->0@);
        assert(made[2] == paths.tables_dir->0@);
    }
}

/// A stem is the name of a directory if it holds no slash of either kind, and is neither empty nor
/// one of the two names that every directory has.
pub proof fn law_stems_are_single_names(stem: Seq<char>)
    ensures
        valid_stem(stem) <==> {
            &&& stem.len() > 0
            &&& !(stem.len() == 1 && stem[0] == '.')
            &&& !(stem.len() == 2 && stem[0] == '.' && stem[1] == '.')
            &&& forall|j: int| 0 <= j < stem.len() ==> stem[j] != '/' && #[trigger] stem[j] != '\\'
        },
{
    reveal_strlit(".");
    reveal_strlit("..");
    if stem.len() == 1 && stem[0] == '.' {
        assert(stem =~= "."@);
    }
    if stem.len() == 2 && stem[0] == '.' && stem[1] == '.' {
        assert(stem =~= ".."@);
    }
    if valid_stem(stem) {
        assert forall|j: int| 0 <= j < stem.len() implies stem[j] != '/' && #[trigger] stem[j]
            != '\\' by {
            assert(stem.contains(stem[j]));
        }
    }
}

proof fn lemma_within(dir: Seq<char>, name: Seq<char>)
    requires
        is_plain_name(posix_rule(), name),
        dir.len() > 0,
        dir.last() != '/',
    ensures
        file_name(PathStyle::Posix, joined_path(PathStyle::Posix, dir, name)) == Some(name),
        ends_with_a_name(dir) ==> parent(PathStyle::Posix, joined_path(PathStyle::Posix, dir, name))
            == Some(dir),
{
    assert(!posix_rule().separates(name[0]));
    law_relative_paths_are_put_behind(dir, name);
    law_last_name_counts(dir, name);
}

/// What is written of a paper stands in its directory, each thing under its own name; there is a
/// place for tables only if they are asked for, and in a bundle the text goes beside its index.
pub proof fn law_each_output_has_its_place(paths: PreparedOutputPaths, dir: Seq<char>, tables: bool)
    requires
        ends_with_a_name(dir),
        paths_in(PathStyle::Posix, paths, dir, tables),
    ensures
        ({
            let style = PathStyle::Posix;
            let text = text_place(style, paths, true);
            &&& paths.output_dir@ == dir
            &&& file_name(style, paths.markdown_path@) == Some("index.md"@)
            &&& parent(style, paths.markdown_path@) == Some(dir)
            &&& file_name(style, paths.log_path@) == Some("log.jsonl"@)
            &&& parent(style, paths.log_path@) == Some(dir)
            &&& file_name(style, paths.figures_dir@) == Some("figures"@)
            &&& parent(style, paths.figures_dir@) == Some(dir)
            &&& paths.tables_dir is Some <==> tables
            &&& tables ==> file_name(style, paths.tables_dir->0@) == Some("tables"@)
            &&& tables ==> parent(style, paths.tables_dir->0@) == Some(dir)
            &&& file_name(style, text) == Some("manuscript.md"@)
            &&& parent(style, text) == Some(dir)
            &&& text_place(style, paths, false) == paths.markdown_path@
        }),
{
    lemma_plain_names();
    lemma_within(dir, "index.md"@);
    lemma_within(dir, "log.jsonl"@);
    lemma_within(dir, "figures"@);
    lemma_within(dir, "tables"@);
    lemma_within(dir, "manuscript.md"@);
}

#[verifier::spinoff_prover]
proof fn lemma_plain_names()
    ensures
        is_plain_name(posix_rule(), "index.md"@),
        is_plain_name(posix_rule(), "log.jsonl"@),
        is_plain_name(posix_rule(), "figures"@),
        is_plain_name(posix_rule(), "tables"@),
        is_plain_name(posix_rule(), "manuscript.md"@),
{
    reveal_strlit(".");
    reveal_strlit("..");
    assert(is_plain_name(posix_rule(), "index.md"@)) by {
        reveal_strlit("index.md");
        let name = "index.md"@;
        assert(name.len() == 8);
        assert(name[0] == 'i' && name[1] == 'n' && name[2] == 'd' && name[3] == 'e');
        assert(name[4] == 'x' && name[5] == '.' && name[6] == 'm' && name[7] == 'd');
        assert forall|j: int| 0 <= j < 8 implies #[trigger] name[j] != '/' by {
            assert(j == 0 ==> name[j] == 'i');
            assert(j == 1 ==> name[j] == 'n');
            assert(j == 2 ==> name[j] == 'd');
            assert(j == 3 ==> name[j] == 'e');
            assert(j == 4 ==> name[j] == 'x');
            assert(j == 5 ==> name[j] == '.');
            assert(j == 6 ==> name[j] == 'm');
            assert(j == 7 ==> name[j] == 'd');
        }
    }
    assert(is_plain_name(posix_rule(), "log.jsonl"@)) by {
        reveal_strlit("log.jsonl");
        let name = "log.jsonl"@;
        assert(name.len() == 9);
        assert(name[0] == 'l' && name[1] == 'o' && name[2] == 'g' && name[3] == '.');
        assert(name[4] == 'j' && name[5] == 's' && name[6] == 'o' && name[7] == 'n');
        assert(name[8] == 'l');
        assert forall|j: int| 0 <= j < 9 implies #[trigger] name[j] != '/' by {
            assert(j == 0 ==> name[j] == 'l');
            assert(j == 1 ==> name[j] == 'o');
            assert(j == 2 ==> name[j] == 'g');
            assert(j == 3 ==> name[j] == '.');
            assert(j == 4 ==> name[j] == 'j');
            assert(j == 5 ==> name[j] == 's');
            assert(j == 6 ==> name[j] == 'o');
            assert(j == 7 ==> name[j] == 'n');
            assert(j == 8 ==> name[j] == 'l');
        }
    }
    assert(is_plain_name(posix_rule(), "figures"@)) by {
        reveal_strlit("figures");
        let name = "figures"@;
        assert(name.len() == 7);
        assert(name[0] == 'f' && name[1] == 'i' && name[2] == 'g' && name[3] == 'u');
        assert(name[4] == 'r' && name[5] == 'e' && name[6] == 's');
        assert forall|j: int| 0 <= j < 7 implies #[trigger] name[j] != '/' by {
            assert(j == 0 ==> name[j] == 'f');
            assert(j == 1 ==> name[j] == 'i');
            assert(j == 2 ==> name[j] == 'g');
            assert(j == 3 ==> name[j] == 'u');
            assert(j == 4 ==> name[j] == 'r');
            assert(j == 5 ==> name[j] == 'e');
            assert(j == 6 ==> name[j] == 's');
        }
    }
    assert(is_plain_name(posix_rule(), "tables"@)) by {
        reveal_strlit("tables");
        let name = "tables"@;
        assert(name.len() == 6);
        assert(name[0] == 't' && name[1] == 'a' && name[2] == 'b' && name[3] == 'l');
        assert(name[4] == 'e' && name[5] == 's');
        assert forall|j: int| 0 <= j < 6 implies #[trigger] name[j] != '/' by {
            assert(j == 0 ==> name[j] == 't');
            assert(j == 1 ==> name[j] == 'a');
            assert(j == 2 ==> name[j] == 'b');
            assert(j == 3 ==> name[j] == 'l');
            assert(j == 4 ==> name[j] == 'e');
            assert(j == 5 ==> name[j] == 's');
        }
    }
    assert(is_plain_name(posix_rule(), "manuscript.md"@)) by {
        reveal_strlit("manuscript.md");
        let name = "manuscript.md"@;
        assert(name.len() == 13);
        assert(name[0] == 'm' && name[1] == 'a' && name[2] == 'n' && name[3] == 'u');
        assert(name[4] == 's' && name[5] == 'c' && name[6] == 'r' && name[7] == 'i');
        assert(name[8] == 'p' && name[9] == 't' && name[10] == '.' && name[11] == 'm');
        assert(name[12] == 'd');
        assert forall|j: int| 0 <= j < 13 implies #[trigger] name[j] != '/' by {
            assert(j == 0 ==> name[j] == 'm');
            assert(j == 1 ==> name[j] == 'a');
            assert(j == 2 ==> name[j] == 'n');
            assert(j == 3 ==> name[j] == 'u');
            assert(j == 4 ==> name[j] == 's');
            assert(j == 5 ==> name[j] == 'c');
            assert(j == 6 ==> name[j] == 'r');
            assert(j == 7 ==> name[j] == 'i');
            assert(j == 8 ==> name[j] == 'p');
            assert(j == 9 ==> name[j] == 't');
            assert(j == 10 ==> name[j] == '.');
            assert(j == 11 ==> name[j] == 'm');
            assert(j == 12 ==> name[j] == 'd');
        }
    }
}

} // verus!
