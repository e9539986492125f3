//! Tables in Markdown: each HTML table outside code is kept as an artifact, and rewritten as
//! records or left as it is.

use vstd::prelude::*;

use crate::number::{decimal3, decimal3_of, law_decimals_are_read_back};
use crate::scan::{
    backtick_run_len, backticks_at, backticks_from, count_case_insensitive_occurrences,
    fence_end, fence_end_at, fence_start, find_matching_backtick_run, find_tag_end, is_line,
    law_backticks_are_found_first, law_line_ends_behind_its_feed, lemma_backticks_from,
    lemma_fence_end, lemma_line_end, lemma_occurrences, lemma_tag_end, lemma_text_end, line_end,
    line_end_at, occurrences, opened_fence, starts_tag, tag_end, tag_starts, text_end,
    text_end_at,
};
use crate::tables::render::{
    placeholder, render_normalized_table, render_placeholder_block, rewriting, Rewriting,
    TableRewriting,
};
use crate::text::{
    chars_of, lead, lemma_lead, lemma_lead_is, lower, push_all, push_str, stands_at, string_of,
    CharClass,
};

verus! {

// ---- Counts ----

/// How many tables there were, and what became of them.
#[derive(Clone, Copy, Debug, PartialEq, Eq, Structural)]
pub struct TableStats {
    /// Tables outside code.
    pub tables_found: usize,
    /// Tables whose HTML was kept.
    pub tables_raw_written: usize,
    /// Tables that were rewritten.
    pub tables_normalized: usize,
    /// Tables in code, which are left alone.
    pub tables_skipped_in_code: usize,
    /// Tables with a table inside.
    pub tables_skipped_nested: usize,
    /// Tables over a limit.
    pub tables_skipped_too_large: usize,
    /// Tables without an end.
    pub tables_failed_extract: usize,
    /// Tables that cannot be read.
    pub tables_failed_parse: usize,
}

/// The numbers of `TableStats`.
pub struct Counts {
    pub found: nat,
    pub raw_written: nat,
    pub normalized: nat,
    pub in_code: nat,
    pub nested: nat,
    pub too_large: nat,
    pub failed_extract: nat,
    pub failed_parse: nat,
}

impl View for TableStats {
    type V = Counts;

    open spec fn view(&self) -> Counts {
        Counts {
            found: self.tables_found as nat,
            raw_written: self.tables_raw_written as nat,
            normalized: self.tables_normalized as nat,
            in_code: self.tables_skipped_in_code as nat,
            nested: self.tables_skipped_nested as nat,
            too_large: self.tables_skipped_too_large as nat,
            failed_extract: self.tables_failed_extract as nat,
            failed_parse: self.tables_failed_parse as nat,
        }
    }
}

/// Nothing counted.
pub open spec fn no_counts() -> Counts {
    Counts {
        found: 0,
        raw_written: 0,
        normalized: 0,
        in_code: 0,
        nested: 0,
        too_large: 0,
        failed_extract: 0,
        failed_parse: 0,
    }
}

/// Every table that was found was kept or had no end, and every table that was kept was
/// rewritten or left out for one reason.
pub open spec fn counts_add_up(c: Counts) -> bool {
    &&& c.found == c.raw_written + c.failed_extract
    &&& c.raw_written == c.normalized + c.nested + c.too_large + c.failed_parse
}

/// Every table that was found was kept or had no end, and nothing else became of any.
pub open spec fn counts_kept(c: Counts) -> bool {
    &&& c.found == c.raw_written + c.failed_extract
    &&& c.normalized == 0
    &&& c.nested == 0
    &&& c.too_large == 0
    &&& c.failed_parse == 0
}

impl Default for TableStats {
    fn default() -> (r: TableStats)
        ensures
            r@ == no_counts(),
    {
        TableStats {
            tables_found: 0,
            tables_raw_written: 0,
            tables_normalized: 0,
            tables_skipped_in_code: 0,
            tables_skipped_nested: 0,
            tables_skipped_too_large: 0,
            tables_failed_extract: 0,
            tables_failed_parse: 0,
        }
    }
}

// ---- Where a table ends ----

/// The first place at or behind `pos` where a table begins or ends.
pub open spec fn next_table_tag(s: Seq<char>, pos: int) -> Option<int>
    decreases s.len() - pos,
{
    if pos >= s.len() {
        None
    } else if starts_tag(s, pos, "table"@) || starts_tag(s, pos, "/table"@) {
        Some(pos)
    } else {
        next_table_tag(s, pos + 1)
    }
}

proof fn lemma_next_table_tag(s: Seq<char>, pos: int)
    ensures
        next_table_tag(s, pos) matches Some(p) ==> pos <= p < s.len() && (starts_tag(
            s,
            p,
            "table"@,
        ) || starts_tag(s, p, "/table"@)),
    decreases s.len() - pos,
{
    if pos < s.len() && !starts_tag(s, pos, "table"@) && !starts_tag(s, pos, "/table"@) {
        lemma_next_table_tag(s, pos + 1);
    }
}

/// The first place at or behind `start` where a table begins or ends.
pub fn find_next_table_tag(s: &[char], start: usize) -> (r: Option<usize>)
    ensures
        match next_table_tag(s@, start as int) {
            Some(p) => r is Some && r->0 == p && start <= p < s@.len(),
            None => r is None,
        },
{
    let open = chars_of("table");
    let close = chars_of("/table");
    let mut pos: usize = start;
    while pos < s.len()
        invariant
            start <= pos,
            open@ == "table"@,
            close@ == "/table"@,
            next_table_tag(s@, start as int) == next_table_tag(s@, pos as int),
        decreases s.len() - pos,
    {
        if tag_starts(s, pos, &open) || tag_starts(s, pos, &close) {
            return Some(pos);
        }
        pos += 1;
    }
    None
}

/// Where the table ends whose text goes on at `pos`, with `depth` tables open, and whether it
/// holds another one; `nested` tells whether it held one so far.
pub open spec fn table_close(s: Seq<char>, pos: int, depth: nat, nested: bool) -> Option<
    (int, bool),
>
    decreases s.len() - pos,
    via table_close_decreases
{
    match next_table_tag(s, pos) {
        None => None,
        Some(p) => match tag_end(s, p) {
            None => None,
            Some(e) => if starts_tag(s, p, "table"@) {
                table_close(s, e, depth + 1, true)
            } else if depth <= 1 {
                Some((e, nested))
            } else {
                table_close(s, e, (depth - 1) as nat, nested)
            },
        },
    }
}

#[via_fn]
proof fn table_close_decreases(s: Seq<char>, pos: int, depth: nat, nested: bool) {
    lemma_next_table_tag(s, pos);
    match next_table_tag(s, pos) {
        None => {},
        Some(p) => lemma_tag_end(s, p),
    }
}

/// Where the table ends that begins at `start`, and whether it holds another one.
pub open spec fn table_span(s: Seq<char>, start: int) -> Option<(int, bool)> {
    match tag_end(s, start) {
        None => None,
        Some(e) => table_close(s, e, 1, false),
    }
}

proof fn lemma_table_close(s: Seq<char>, pos: int, depth: nat, nested: bool)
    ensures
        table_close(s, pos, depth, nested) matches Some((e, _)) ==> pos < e <= s.len(),
    decreases s.len() - pos,
{
    lemma_next_table_tag(s, pos);
    match next_table_tag(s, pos) {
        None => {},
        Some(p) => {
            lemma_tag_end(s, p);
            match tag_end(s, p) {
                None => {},
                Some(e) => if starts_tag(s, p, "table"@) {
                    lemma_table_close(s, e, depth + 1, true);
                } else if depth > 1 {
                    lemma_table_close(s, e, (depth - 1) as nat, nested);
                },
            }
        },
    }
}

proof fn lemma_table_span(s: Seq<char>, start: int)
    ensures
        table_span(s, start) matches Some((e, _)) ==> start < e <= s.len(),
{
    lemma_tag_end(s, start);
    match tag_end(s, start) {
        None => {},
        Some(e) => lemma_table_close(s, e, 1, false),
    }
}

/// Where the table ends that begins at `start`, and whether it holds another one.
pub fn extract_table_span(s: &[char], start: usize) -> (r: Option<(usize, bool)>)
    ensures
        match table_span(s@, start as int) {
            Some((e, nested)) => r is Some && (r->0).0 == e && (r->0).1 == nested && start < e
                <= s@.len(),
            None => r is None,
        },
{
    let open = chars_of("table");
    let mut pos: usize = match find_tag_end(s, start) {
        Some(e) => e,
        None => {
            return None;
        },
    };
    let mut depth: usize = 1;
    let mut nested: bool = false;
    loop
        invariant
            start < pos <= s@.len(),
            1 <= depth <= pos,
            open@ == "table"@,
            table_span(s@, start as int) == table_close(s@, pos as int, depth as nat, nested),
        decreases s.len() - pos,
    {
        let at = match find_next_table_tag(s, pos) {
            Some(p) => p,
            None => {
                return None;
            },
        };
        let end = match find_tag_end(s, at) {
            Some(e) => e,
            None => {
                return None;
            },
        };
        if tag_starts(s, at, &open) {
            depth += 1;
            nested = true;
        } else {
            if depth == 1 {
                return Some((end, nested));
            }
            depth -= 1;
        }
        pos = end;
    }
}

// ---- The model ----

/// A piece of the Markdown: kept as it is, or a table.
pub enum Piece {
    /// Text that is kept.
    Kept(Seq<char>),
    /// The table number `ordinal`: its HTML, and the text that takes its place.
    Table { ordinal: nat, html: Seq<char>, shown: Seq<char> },
}

impl Piece {
    /// The text that the piece was made from.
    pub open spec fn source(self) -> Seq<char> {
        match self {
            Piece::Kept(text) => text,
            Piece::Table { html, .. } => html,
        }
    }

    /// The text of the piece in the result.
    pub open spec fn shown(self) -> Seq<char> {
        match self {
            Piece::Kept(text) => text,
            Piece::Table { shown, .. } => shown,
        }
    }
}

/// The text that `pieces` were made from.
pub open spec fn source_text(pieces: Seq<Piece>) -> Seq<char>
    decreases pieces.len(),
{
    if pieces.len() == 0 {
        Seq::empty()
    } else {
        source_text(pieces.drop_last()) + pieces.last().source()
    }
}

/// The text that `pieces` make up in the result.
pub open spec fn shown_text(pieces: Seq<Piece>) -> Seq<char>
    decreases pieces.len(),
{
    if pieces.len() == 0 {
        Seq::empty()
    } else {
        shown_text(pieces.drop_last()) + pieces.last().shown()
    }
}

/// The tables among `pieces`: the name of the artifact, and the HTML.
pub open spec fn artifacts(pieces: Seq<Piece>) -> Seq<(Seq<char>, Seq<char>)>
    decreases pieces.len(),
{
    if pieces.len() == 0 {
        Seq::empty()
    } else {
        match pieces.last() {
            Piece::Kept(_) => artifacts(pieces.drop_last()),
            Piece::Table { ordinal, html, .. } => artifacts(pieces.drop_last()).push(
                (artifact_name(ordinal), html),
            ),
        }
    }
}

/// The name of the artifact that keeps the table number `ordinal`.
pub open spec fn artifact_name(ordinal: nat) -> Seq<char> {
    "table_"@ + decimal3(ordinal) + ".html"@
}

/// Where that artifact is, seen from the Markdown.
pub open spec fn artifact_path(ordinal: nat) -> Seq<char> {
    "tables/"@ + artifact_name(ordinal)
}

/// The numbers of the tables among `pieces`.
pub open spec fn ordinals(pieces: Seq<Piece>) -> Seq<nat>
    decreases pieces.len(),
{
    if pieces.len() == 0 {
        Seq::empty()
    } else {
        match pieces.last() {
            Piece::Kept(_) => ordinals(pieces.drop_last()),
            Piece::Table { ordinal, .. } => ordinals(pieces.drop_last()).push(ordinal),
        }
    }
}

/// What was made of the text so far.
pub struct Progress {
    pub pieces: Seq<Piece>,
    pub counts: Counts,
    /// The number of the last table.
    pub index: nat,
}

/// Before anything was made, with `counts` and `index` from what stands before.
pub open spec fn from_there(counts: Counts, index: nat) -> Progress {
    Progress { pieces: Seq::empty(), counts, index }
}

/// What was made of a text and then, from there, of the text behind it.
pub open spec fn followed(st: Progress, next: Progress) -> Progress {
    Progress { pieces: st.pieces + next.pieces, ..next }
}

/// `text` is kept.
pub open spec fn keep(st: Progress, text: Seq<char>) -> Progress {
    Progress { pieces: st.pieces.push(Piece::Kept(text)), ..st }
}

/// `text` is kept because it is code; the tables in it are counted.
pub open spec fn keep_code(st: Progress, text: Seq<char>) -> Progress {
    Progress {
        pieces: st.pieces.push(Piece::Kept(text)),
        counts: Counts {
            in_code: st.counts.in_code + occurrences(lower(text), 0, lower("<table"@)),
            ..st.counts
        },
        index: st.index,
    }
}

/// `text` is kept because the table at its start has no end.
pub open spec fn keep_open_table(st: Progress, text: Seq<char>) -> Progress {
    Progress {
        pieces: st.pieces.push(Piece::Kept(text)),
        counts: Counts {
            found: st.counts.found + 1,
            failed_extract: st.counts.failed_extract + 1,
            ..st.counts
        },
        index: st.index + 1,
    }
}

/// A table is rewritten, or a placeholder takes its place; nothing if its cells cannot be
/// counted.
#[verifier::opaque]
pub open spec fn rewrite_table(st: Progress, html: Seq<char>, nested: bool) -> Option<Progress> {
    let ordinal = st.index + 1;
    let path = artifact_path(ordinal);
    let kept = Counts {
        found: st.counts.found + 1,
        raw_written: st.counts.raw_written + 1,
        ..st.counts
    };
    if nested {
        let shown = placeholder(ordinal, path, "normalization skipped (nested table detected)"@);
        Some(
            Progress {
                pieces: st.pieces.push(Piece::Table { ordinal, html, shown }),
                counts: Counts { nested: kept.nested + 1, ..kept },
                index: ordinal,
            },
        )
    } else {
        match rewriting(html, ordinal, path) {
            Rewriting::Text(shown) => Some(
                Progress {
                    pieces: st.pieces.push(Piece::Table { ordinal, html, shown }),
                    counts: Counts { normalized: kept.normalized + 1, ..kept },
                    index: ordinal,
                },
            ),
            Rewriting::TooLarge => {
                let shown = placeholder(ordinal, path, "normalization skipped (table too large)"@);
                Some(
                    Progress {
                        pieces: st.pieces.push(Piece::Table { ordinal, html, shown }),
                        counts: Counts { too_large: kept.too_large + 1, ..kept },
                        index: ordinal,
                    },
                )
            },
            Rewriting::Failed => {
                let shown = placeholder(ordinal, path, "normalization skipped (parse failed)"@);
                Some(
                    Progress {
                        pieces: st.pieces.push(Piece::Table { ordinal, html, shown }),
                        counts: Counts { failed_parse: kept.failed_parse + 1, ..kept },
                        index: ordinal,
                    },
                )
            },
            Rewriting::Uncountable => None,
        }
    }
}

/// What is done with tables.
#[derive(Clone, Copy, Debug, PartialEq, Eq, Structural)]
pub enum TableMode {
    /// They are rewritten, and kept as artifacts.
    Rewrite,
    /// They stay as they are, and are kept as artifacts too.
    Keep,
}

/// A table stays as it is, and is kept as an artifact.
pub open spec fn keep_table(st: Progress, html: Seq<char>) -> Progress {
    Progress {
        pieces: st.pieces.push(Piece::Table { ordinal: st.index + 1, html, shown: html }),
        counts: Counts {
            found: st.counts.found + 1,
            raw_written: st.counts.raw_written + 1,
            ..st.counts
        },
        index: st.index + 1,
    }
}

/// What becomes of a table; nothing if it is to be rewritten and its cells cannot be counted.
pub open spec fn treat_table(
    mode: TableMode,
    st: Progress,
    html: Seq<char>,
    nested: bool,
) -> Option<Progress> {
    match mode {
        TableMode::Rewrite => rewrite_table(st, html, nested),
        TableMode::Keep => Some(keep_table(st, html)),
    }
}

/// The position behind the code that the backticks at `i` open: behind the next backticks of
/// that number, or the end.
pub open spec fn code_end(c: Seq<char>, i: int) -> int {
    let n = lead(c.skip(i), CharClass::Only('`'));
    match backticks_from(c, i + n, n) {
        Some(p) => p + n,
        None => c.len() as int,
    }
}

/// What becomes of the tables in `c` from `i` on, where no fence is.
pub open spec fn treat_chunk(mode: TableMode, c: Seq<char>, i: int, st: Progress) -> Option<
    Progress,
>
    decreases c.len() - i,
    via treat_chunk_decreases
{
    if i < 0 || i >= c.len() {
        Some(st)
    } else if c[i] == '`' {
        treat_chunk(mode, c, code_end(c, i), keep_code(st, c.subrange(i, code_end(c, i))))
    } else if starts_tag(c, i, "table"@) {
        match table_span(c, i) {
            None => Some(keep_open_table(st, c.skip(i))),
            Some((end, nested)) => match treat_table(mode, st, c.subrange(i, end), nested) {
                None => None,
                Some(next) => treat_chunk(mode, c, end, next),
            },
        }
    } else {
        treat_chunk(mode, c, i + 1, keep(st, seq![c[i]]))
    }
}

#[via_fn]
proof fn treat_chunk_decreases(mode: TableMode, c: Seq<char>, i: int, st: Progress) {
    if 0 <= i < c.len() {
        lemma_code_end(c, i);
        lemma_table_span(c, i);
    }
}

proof fn lemma_code_end(c: Seq<char>, i: int)
    requires
        0 <= i < c.len(),
    ensures
        c[i] == '`' ==> i < code_end(c, i) <= c.len(),
{
    let n = lead(c.skip(i), CharClass::Only('`'));
    assert(c.skip(i)[0] == c[i]);
    lemma_lead(c.skip(i), CharClass::Only('`'));
    lemma_backticks_from(c, i + n, n);
}

/// What becomes of the tables in `m` from `pos` on, where a line begins.
pub open spec fn treat_from(mode: TableMode, m: Seq<char>, pos: int, st: Progress) -> Option<
    Progress,
>
    decreases m.len() - pos,
    via treat_from_decreases
{
    if pos < 0 || pos >= m.len() {
        Some(st)
    } else {
        let next_line = line_end(m, pos);
        match fence_start(m.subrange(pos, next_line)) {
            Some((marker, len)) => {
                let end = fence_end(m, next_line, marker, len);
                treat_from(mode, m, end, keep_code(st, m.subrange(pos, end)))
            },
            None => {
                let end = text_end(m, next_line);
                match treat_chunk(mode, m.subrange(pos, end), 0, from_there(st.counts, st.index)) {
                    None => None,
                    Some(next) => treat_from(mode, m, end, followed(st, next)),
                }
            },
        }
    }
}

#[via_fn]
proof fn treat_from_decreases(mode: TableMode, m: Seq<char>, pos: int, st: Progress) {
    if 0 <= pos < m.len() {
        let next_line = line_end(m, pos);
        lemma_line_end(m, pos);
        lemma_text_end(m, next_line);
        match fence_start(m.subrange(pos, next_line)) {
            Some((marker, len)) => lemma_fence_end(m, next_line, marker, len),
            None => {},
        }
    }
}

/// What becomes of the tables in `m`; nothing if the cells of one of them ask for more rows or
/// columns than a machine can count.
pub open spec fn normalized(m: Seq<char>) -> Option<Progress> {
    treat_from(TableMode::Rewrite, m, 0, from_there(no_counts(), 0))
}

/// What is kept of the tables in `m` where they stay as they are.
pub open spec fn extracted(m: Seq<char>) -> Progress {
    treat_from(TableMode::Keep, m, 0, from_there(no_counts(), 0))->0
}

// ---- What the model keeps ----

/// Whether no count is smaller in `b` than in `a`, nor greater by more than `by`.
pub open spec fn counts_grew(a: Counts, b: Counts, by: nat) -> bool {
    &&& a.found <= b.found <= a.found + by
    &&& a.raw_written <= b.raw_written <= a.raw_written + by
    &&& a.normalized <= b.normalized <= a.normalized + by
    &&& a.in_code <= b.in_code <= a.in_code + by
    &&& a.nested <= b.nested <= a.nested + by
    &&& a.too_large <= b.too_large <= a.too_large + by
    &&& a.failed_extract <= b.failed_extract <= a.failed_extract + by
    &&& a.failed_parse <= b.failed_parse <= a.failed_parse + by
    &&& b.found + b.in_code <= a.found + a.in_code + by
}

/// Whether no count is greater than `bound`.
pub open spec fn counts_within(c: Counts, bound: int) -> bool {
    &&& c.found <= bound
    &&& c.raw_written <= bound
    &&& c.normalized <= bound
    &&& c.in_code <= bound
    &&& c.nested <= bound
    &&& c.too_large <= bound
    &&& c.failed_extract <= bound
    &&& c.failed_parse <= bound
}

/// Whether the numbers in `all` from the place `from` on rise, behind `low` and up to `high`.
pub open spec fn rising(all: Seq<nat>, from: int, low: nat, high: nat) -> bool {
    &&& forall|i: int| from <= i < all.len() ==> low < #[trigger] all[i] <= high
    &&& forall|i: int, j: int| from <= i < j < all.len() ==> #[trigger] all[i] < #[trigger] all[j]
}

/// Whether the counts come out right.
pub open spec fn sums(mode: TableMode, c: Counts) -> bool {
    match mode {
        TableMode::Rewrite => counts_add_up(c),
        TableMode::Keep => counts_kept(c),
    }
}

/// Whether `next` is where `st` leads when `text` is worked on: the text is in the pieces, sums
/// that came out right still do, no count falls, there is an artifact for each table that is
/// kept, and the numbers of the tables go on from there.
#[verifier::opaque]
pub open spec fn goes_on(mode: TableMode, st: Progress, next: Progress, text: Seq<char>) -> bool {
    let before = ordinals(st.pieces);
    let after = ordinals(next.pieces);
    &&& source_text(next.pieces) == source_text(st.pieces) + text
    &&& sums(mode, st.counts) ==> sums(mode, next.counts)
    &&& counts_grew(st.counts, next.counts, text.len())
    &&& next.index - st.index == next.counts.found - st.counts.found
    &&& after.len() - before.len() == next.counts.raw_written - st.counts.raw_written
    &&& after.take(before.len() as int) == before
    &&& rising(after, before.len() as int, st.index, next.index)
}

/// One step after another.
proof fn lemma_goes_on_still(
    mode: TableMode,
    st: Progress,
    mid: Progress,
    next: Progress,
    a: Seq<char>,
    b: Seq<char>,
)
    requires
        goes_on(mode, st, mid, a),
        goes_on(mode, mid, next, b),
    ensures
        goes_on(mode, st, next, a + b),
{
    reveal(goes_on);
    let before = ordinals(st.pieces);
    let amid = ordinals(mid.pieces);
    let after = ordinals(next.pieces);
    assert(source_text(next.pieces) =~= source_text(st.pieces) + (a + b));
    assert forall|i: int| 0 <= i < amid.len() implies after[i] == #[trigger] amid[i] by {
        assert(after.take(amid.len() as int)[i] == after[i]);
    }
    assert(after.take(before.len() as int) =~= amid.take(before.len() as int));
    assert forall|i: int| before.len() <= i < after.len() implies st.index < #[trigger] after[i]
        <= next.index by {
        if i < amid.len() {
            assert(after[i] == amid[i]);
        }
    }
    assert forall|i: int, j: int| before.len() <= i < j < after.len() implies #[trigger] after[i]
        < #[trigger] after[j] by {
        if i < amid.len() {
            assert(after[i] == amid[i]);
            if j < amid.len() {
                assert(after[j] == amid[j]);
            }
        }
    }
}

/// How far the counts and the numbers went.
proof fn lemma_how_far(mode: TableMode, st: Progress, now: Progress, text: Seq<char>)
    requires
        goes_on(mode, st, now, text),
    ensures
        counts_grew(st.counts, now.counts, text.len()),
        now.index <= st.index + text.len(),
{
    reveal(goes_on);
}

proof fn lemma_goes_nowhere(mode: TableMode, st: Progress)
    ensures
        goes_on(mode, st, st, Seq::empty()),
{
    reveal(goes_on);
    assert(source_text(st.pieces) + Seq::<char>::empty() =~= source_text(st.pieces));
    assert(ordinals(st.pieces).take(ordinals(st.pieces).len() as int) =~= ordinals(st.pieces));
}

/// What one step of the model does to the sums.
proof fn lemma_push(pieces: Seq<Piece>, p: Piece)
    ensures
        source_text(pieces.push(p)) == source_text(pieces) + p.source(),
        shown_text(pieces.push(p)) == shown_text(pieces) + p.shown(),
        p is Kept ==> artifacts(pieces.push(p)) == artifacts(pieces),
        p is Table ==> artifacts(pieces.push(p)) == artifacts(pieces).push(
            (artifact_name(p->ordinal), p->html),
        ),
        p is Kept ==> ordinals(pieces.push(p)) == ordinals(pieces),
        p is Table ==> ordinals(pieces.push(p)) == ordinals(pieces).push(p->ordinal),
{
    assert(pieces.push(p).drop_last() =~= pieces);
}

/// What the sums are of pieces one behind the other.
proof fn lemma_concat(a: Seq<Piece>, b: Seq<Piece>)
    ensures
        source_text(a + b) == source_text(a) + source_text(b),
        shown_text(a + b) == shown_text(a) + shown_text(b),
        artifacts(a + b) == artifacts(a) + artifacts(b),
        ordinals(a + b) == ordinals(a) + ordinals(b),
    decreases b.len(),
{
    if b.len() == 0 {
        assert(a + b =~= a);
        assert(source_text(a) + source_text(b) =~= source_text(a));
        assert(shown_text(a) + shown_text(b) =~= shown_text(a));
        assert(artifacts(a) + artifacts(b) =~= artifacts(a));
        assert(ordinals(a) + ordinals(b) =~= ordinals(a));
    } else {
        let p = b.last();
        let rest = b.drop_last();
        lemma_concat(a, rest);
        assert(a + b =~= (a + rest).push(p));
        assert(b =~= rest.push(p));
        lemma_push(a + rest, p);
        lemma_push(rest, p);
        assert(source_text(a) + source_text(rest) + p.source() =~= source_text(a) + (source_text(
            rest,
        ) + p.source()));
        assert(shown_text(a) + shown_text(rest) + p.shown() =~= shown_text(a) + (shown_text(rest)
            + p.shown()));
        assert(artifacts(a + b) =~= artifacts(a) + artifacts(b));
        assert(ordinals(a + b) =~= ordinals(a) + ordinals(b));
    }
}

proof fn lemma_followed(mode: TableMode, st: Progress, next: Progress, text: Seq<char>)
    requires
        goes_on(mode, from_there(st.counts, st.index), next, text),
    ensures
        goes_on(mode, st, followed(st, next), text),
{
    reveal(goes_on);
    lemma_concat(st.pieces, next.pieces);
    let before = ordinals(st.pieces);
    let new = ordinals(next.pieces);
    let after = before + new;
    assert(source_text(next.pieces) =~= text);
    assert(after.take(before.len() as int) =~= before);
    assert forall|i: int| before.len() <= i < after.len() implies st.index < #[trigger] after[i]
        <= next.index by {
        assert(after[i] == new[i - before.len()]);
    }
    assert forall|i: int, j: int| before.len() <= i < j < after.len() implies #[trigger] after[i]
        < #[trigger] after[j] by {
        assert(after[i] == new[i - before.len()]);
        assert(after[j] == new[j - before.len()]);
    }
}

proof fn lemma_names(pieces: Seq<Piece>)
    ensures
        artifacts(pieces).len() == ordinals(pieces).len(),
        forall|i: int|
            0 <= i < ordinals(pieces).len() ==> (#[trigger] artifacts(pieces)[i]).0
                == artifact_name(ordinals(pieces)[i]),
    decreases pieces.len(),
{
    if pieces.len() > 0 {
        lemma_names(pieces.drop_last());
    }
}

/// Tables with different numbers have artifacts with different names.
pub proof fn law_artifact_names_differ(a: nat, b: nat)
    requires
        artifact_name(a) == artifact_name(b),
    ensures
        a == b,
{
    let head = "table_"@;
    let tail = ".html"@;
    let x = decimal3(a);
    let y = decimal3(b);
    assert(artifact_name(a).len() == head.len() + x.len() + tail.len());
    assert(artifact_name(b).len() == head.len() + y.len() + tail.len());
    assert(artifact_name(a).subrange(head.len() as int, (head.len() + x.len()) as int) =~= x);
    assert(artifact_name(b).subrange(head.len() as int, (head.len() + y.len()) as int) =~= y);
    law_decimals_are_read_back(a);
    law_decimals_are_read_back(b);
}

/// Whether `name` is that of an artifact with a number behind `low` and up to `high`.
pub open spec fn numbered_name(name: Seq<char>, low: nat, high: nat) -> bool {
    exists|n: nat| low < n <= high && name == #[trigger] artifact_name(n)
}

/// Whether each of `kept` is named after a number behind `low` and up to `high`, and no two have
/// one name.
pub open spec fn named_apart(kept: Seq<(Seq<char>, Seq<char>)>, low: nat, high: nat) -> bool {
    &&& forall|i: int| 0 <= i < kept.len() ==> numbered_name((#[trigger] kept[i]).0, low, high)
    &&& forall|i: int, j: int|
        0 <= i < j < kept.len() ==> (#[trigger] kept[i]).0 != (#[trigger] kept[j]).0
}

proof fn lemma_named_apart(pieces: Seq<Piece>, low: nat, high: nat)
    requires
        rising(ordinals(pieces), 0, low, high),
    ensures
        named_apart(artifacts(pieces), low, high),
{
    let kept = artifacts(pieces);
    let all = ordinals(pieces);
    lemma_names(pieces);
    assert forall|i: int| 0 <= i < kept.len() implies numbered_name(
        (#[trigger] kept[i]).0,
        low,
        high,
    ) by {
        assert(low < all[i] <= high && kept[i].0 == artifact_name(all[i]));
    }
    assert forall|i: int, j: int| 0 <= i < j < kept.len() implies (#[trigger] kept[i]).0 != (
    #[trigger] kept[j]).0 by {
        assert(all[i] < all[j]);
        if kept[i].0 == kept[j].0 {
            law_artifact_names_differ(all[i], all[j]);
        }
    }
}

proof fn lemma_lower_table()
    ensures
        lower("<table"@) == "<table"@,
        "<table"@ =~= seq!['<', 't', 'a', 'b', 'l', 'e'],
{
    reveal_strlit("<table");
    assert(lower("<table"@) =~= "<table"@);
}

/// Text behind `before`, cut in two at `end`.
proof fn lemma_cut(before: Seq<char>, c: Seq<char>, i: int, end: int)
    requires
        0 <= i <= end <= c.len(),
    ensures
        (before + c.subrange(i, end)) + c.skip(end) == before + c.skip(i),
{
    assert((before + c.subrange(i, end)) + c.skip(end) =~= before + c.skip(i));
}

proof fn lemma_treat_table(mode: TableMode, st: Progress, html: Seq<char>, nested: bool)
    requires
        html.len() > 0,
    ensures
        treat_table(mode, st, html, nested) matches Some(next) ==> goes_on(mode, st, next, html),
{
    reveal(goes_on);
    reveal(rewrite_table);
    match treat_table(mode, st, html, nested) {
        None => {},
        Some(next) => {
            let p = next.pieces.last();
            assert(next.pieces =~= st.pieces.push(p));
            assert(p is Table && p->html == html && p->ordinal == next.index);
            lemma_push(st.pieces, p);
            assert(ordinals(next.pieces).take(ordinals(st.pieces).len() as int) =~= ordinals(
                st.pieces,
            ));
        },
    }
}

proof fn lemma_keep(mode: TableMode, st: Progress, text: Seq<char>)
    ensures
        goes_on(mode, st, keep(st, text), text),
        goes_on(mode, st, keep_code(st, text), text),
        text.len() > 0 ==> goes_on(mode, st, keep_open_table(st, text), text),
{
    reveal(goes_on);
    lemma_push(st.pieces, Piece::Kept(text));
    lemma_occurrences(lower(text), 0, lower("<table"@));
    assert(ordinals(st.pieces).take(ordinals(st.pieces).len() as int) =~= ordinals(st.pieces));
}

/// What is made of a chunk goes on from what was made before, whatever that is: counts that add
/// up still do and none falls, tables are numbered on, and the chunk is in the pieces, word for
/// word.
pub proof fn law_chunk_goes_on(mode: TableMode, c: Seq<char>, i: int, st: Progress)
    requires
        0 <= i <= c.len(),
    ensures
        treat_chunk(mode, c, i, st) matches Some(next) ==> goes_on(mode, st, next, c.skip(i)),
    decreases c.len() - i, 0int,
{
    if i >= c.len() {
        lemma_goes_nowhere(mode, st);
        assert(c.skip(i) =~= Seq::empty());
    } else if c[i] == '`' {
        lemma_code_end(c, i);
        let end = code_end(c, i);
        let code = c.subrange(i, end);
        lemma_keep(mode, st, code);
        lemma_step(mode, c, i, end, st, keep_code(st, code));
    } else if starts_tag(c, i, "table"@) {
        lemma_table_span(c, i);
        match table_span(c, i) {
            None => lemma_keep(mode, st, c.skip(i)),
            Some((end, nested)) => {
                let html = c.subrange(i, end);
                lemma_treat_table(mode, st, html, nested);
                match treat_table(mode, st, html, nested) {
                    None => {},
                    Some(next) => lemma_step(mode, c, i, end, st, next),
                }
            },
        }
    } else {
        assert(c.subrange(i, i + 1) =~= seq![c[i]]);
        lemma_keep(mode, st, seq![c[i]]);
        lemma_step(mode, c, i, i + 1, st, keep(st, seq![c[i]]));
    }
}

proof fn lemma_step(mode: TableMode, c: Seq<char>, i: int, end: int, st: Progress, mid: Progress)
    requires
        0 <= i < end <= c.len(),
        goes_on(mode, st, mid, c.subrange(i, end)),
    ensures
        treat_chunk(mode, c, end, mid) matches Some(next) ==> goes_on(mode, st, next, c.skip(i)),
    decreases c.len() - end, 1int,
{
    law_chunk_goes_on(mode, c, end, mid);
    match treat_chunk(mode, c, end, mid) {
        None => {},
        Some(next) => {
            lemma_goes_on_still(mode, st, mid, next, c.subrange(i, end), c.skip(end));
            assert(c.subrange(i, end) + c.skip(end) =~= c.skip(i));
        },
    }
}

proof fn lemma_treat_from(mode: TableMode, m: Seq<char>, pos: int, st: Progress)
    requires
        0 <= pos <= m.len(),
    ensures
        treat_from(mode, m, pos, st) matches Some(next) ==> goes_on(mode, st, next, m.skip(pos)),
    decreases m.len() - pos, 0int,
{
    if pos >= m.len() {
        lemma_goes_nowhere(mode, st);
        assert(m.skip(pos) =~= Seq::empty());
    } else {
        let next_line = line_end(m, pos);
        lemma_line_end(m, pos);
        match fence_start(m.subrange(pos, next_line)) {
            Some((marker, len)) => {
                lemma_fence_end(m, next_line, marker, len);
                let end = fence_end(m, next_line, marker, len);
                let code = m.subrange(pos, end);
                lemma_keep(mode, st, code);
                lemma_line_step(mode, m, pos, end, st, keep_code(st, code));
            },
            None => {
                lemma_text_end(m, next_line);
                let end = text_end(m, next_line);
                let chunk = m.subrange(pos, end);
                let start = from_there(st.counts, st.index);
                law_chunk_goes_on(mode, chunk, 0, start);
                assert(chunk.skip(0) =~= chunk);
                match treat_chunk(mode, chunk, 0, start) {
                    None => {},
                    Some(next) => {
                        lemma_followed(mode, st, next, chunk);
                        lemma_line_step(mode, m, pos, end, st, followed(st, next));
                    },
                }
            },
        }
    }
}

proof fn lemma_line_step(
    mode: TableMode,
    m: Seq<char>,
    pos: int,
    end: int,
    st: Progress,
    mid: Progress,
)
    requires
        0 <= pos < end <= m.len(),
        goes_on(mode, st, mid, m.subrange(pos, end)),
    ensures
        treat_from(mode, m, end, mid) matches Some(next) ==> goes_on(mode, st, next, m.skip(pos)),
    decreases m.len() - end, 1int,
{
    lemma_treat_from(mode, m, end, mid);
    match treat_from(mode, m, end, mid) {
        None => {},
        Some(next) => {
            lemma_goes_on_still(mode, st, mid, next, m.subrange(pos, end), m.skip(end));
            assert(m.subrange(pos, end) + m.skip(end) =~= m.skip(pos));
        },
    }
}

/// The pieces put together again are the Markdown: all text besides tables stands in the result
/// as it was, and the HTML of every table that is replaced is kept, word for word, as an
/// artifact with a name of its own. The counts add up, and there are as many artifacts as tables
/// that were kept.
pub proof fn law_only_tables_change(m: Seq<char>)
    ensures
        normalized(m) matches Some(done) ==> {
            &&& source_text(done.pieces) == m
            &&& counts_add_up(done.counts)
            &&& artifacts(done.pieces).len() == done.counts.raw_written
            &&& named_apart(artifacts(done.pieces), 0, done.counts.found)
            &&& done.counts.found + done.counts.in_code <= m.len()
        },
{
    reveal(goes_on);
    let start = from_there(no_counts(), 0);
    lemma_treat_from(TableMode::Rewrite, m, 0, start);
    match normalized(m) {
        None => {},
        Some(done) => {
            assert(source_text(start.pieces) + m.skip(0) =~= m);
            lemma_names(done.pieces);
            lemma_named_apart(done.pieces, 0, done.index);
        },
    }
}

proof fn lemma_keep_chunk(c: Seq<char>, i: int, st: Progress)
    requires
        0 <= i <= c.len(),
    ensures
        treat_chunk(TableMode::Keep, c, i, st) is Some,
        shown_text(treat_chunk(TableMode::Keep, c, i, st)->0.pieces) == shown_text(st.pieces)
            + c.skip(i),
    decreases c.len() - i,
{
    let before = shown_text(st.pieces);
    if i >= c.len() {
        assert(before + c.skip(i) =~= before);
    } else if c[i] == '`' {
        lemma_code_end(c, i);
        let end = code_end(c, i);
        let code = c.subrange(i, end);
        lemma_push(st.pieces, Piece::Kept(code));
        lemma_keep_chunk(c, end, keep_code(st, code));
        lemma_cut(before, c, i, end);
    } else if starts_tag(c, i, "table"@) {
        lemma_table_span(c, i);
        match table_span(c, i) {
            None => lemma_push(st.pieces, Piece::Kept(c.skip(i))),
            Some((end, _)) => {
                let html = c.subrange(i, end);
                let next = keep_table(st, html);
                lemma_push(st.pieces, next.pieces.last());
                lemma_keep_chunk(c, end, next);
                lemma_cut(before, c, i, end);
            },
        }
    } else {
        lemma_push(st.pieces, Piece::Kept(seq![c[i]]));
        lemma_keep_chunk(c, i + 1, keep(st, seq![c[i]]));
        assert(c.subrange(i, i + 1) =~= seq![c[i]]);
        lemma_cut(before, c, i, i + 1);
    }
}

proof fn lemma_keep_from(m: Seq<char>, pos: int, st: Progress)
    requires
        0 <= pos <= m.len(),
    ensures
        treat_from(TableMode::Keep, m, pos, st) is Some,
        shown_text(treat_from(TableMode::Keep, m, pos, st)->0.pieces) == shown_text(st.pieces)
            + m.skip(pos),
    decreases m.len() - pos,
{
    let before = shown_text(st.pieces);
    if pos >= m.len() {
        assert(before + m.skip(pos) =~= before);
    } else {
        let next_line = line_end(m, pos);
        lemma_line_end(m, pos);
        match fence_start(m.subrange(pos, next_line)) {
            Some((marker, len)) => {
                lemma_fence_end(m, next_line, marker, len);
                let end = fence_end(m, next_line, marker, len);
                let code = m.subrange(pos, end);
                lemma_push(st.pieces, Piece::Kept(code));
                lemma_keep_from(m, end, keep_code(st, code));
                lemma_cut(before, m, pos, end);
            },
            None => {
                lemma_text_end(m, next_line);
                let end = text_end(m, next_line);
                let chunk = m.subrange(pos, end);
                let start = from_there(st.counts, st.index);
                lemma_keep_chunk(chunk, 0, start);
                let next = treat_chunk(TableMode::Keep, chunk, 0, start)->0;
                assert(chunk.skip(0) =~= chunk);
                assert(shown_text(next.pieces) =~= chunk);
                lemma_concat(st.pieces, next.pieces);
                lemma_keep_from(m, end, followed(st, next));
                lemma_cut(before, m, pos, end);
            },
        }
    }
}

/// Where tables stay as they are, the Markdown does, whatever its tables are; their HTML is kept,
/// word for word, as artifacts with names of their own, and there are as many as tables with an
/// end.
pub proof fn law_keeping_changes_nothing(m: Seq<char>)
    ensures
        treat_from(TableMode::Keep, m, 0, from_there(no_counts(), 0)) == Some(extracted(m)),
        shown_text(extracted(m).pieces) == m,
        source_text(extracted(m).pieces) == m,
        counts_kept(extracted(m).counts),
        artifacts(extracted(m).pieces).len() == extracted(m).counts.raw_written,
        named_apart(artifacts(extracted(m).pieces), 0, extracted(m).counts.found),
        extracted(m).counts.found + extracted(m).counts.in_code <= m.len(),
{
    reveal(goes_on);
    let start = from_there(no_counts(), 0);
    let done = extracted(m);
    lemma_keep_from(m, 0, start);
    lemma_treat_from(TableMode::Keep, m, 0, start);
    assert(shown_text(start.pieces) + m.skip(0) =~= m);
    assert(source_text(start.pieces) + m.skip(0) =~= m);
    lemma_names(done.pieces);
    lemma_named_apart(done.pieces, 0, done.index);
}

/// Whether the same tables were found and kept.
pub open spec fn same_tables(a: Progress, b: Progress) -> bool {
    &&& artifacts(a.pieces) == artifacts(b.pieces)
    &&& a.index == b.index
    &&& a.counts.found == b.counts.found
    &&& a.counts.raw_written == b.counts.raw_written
    &&& a.counts.in_code == b.counts.in_code
    &&& a.counts.failed_extract == b.counts.failed_extract
}

proof fn lemma_same_tables_in_chunk(c: Seq<char>, i: int, a: Progress, b: Progress)
    requires
        0 <= i <= c.len(),
        same_tables(a, b),
        treat_chunk(TableMode::Rewrite, c, i, a) is Some,
    ensures
        treat_chunk(TableMode::Keep, c, i, b) is Some,
        same_tables(
            treat_chunk(TableMode::Rewrite, c, i, a)->0,
            treat_chunk(TableMode::Keep, c, i, b)->0,
        ),
    decreases c.len() - i,
{
    if i < c.len() {
        if c[i] == '`' {
            lemma_code_end(c, i);
            let end = code_end(c, i);
            let code = c.subrange(i, end);
            lemma_push(a.pieces, Piece::Kept(code));
            lemma_push(b.pieces, Piece::Kept(code));
            lemma_same_tables_in_chunk(c, end, keep_code(a, code), keep_code(b, code));
        } else if starts_tag(c, i, "table"@) {
            lemma_table_span(c, i);
            match table_span(c, i) {
                None => {
                    lemma_push(a.pieces, Piece::Kept(c.skip(i)));
                    lemma_push(b.pieces, Piece::Kept(c.skip(i)));
                },
                Some((end, nested)) => {
                    let html = c.subrange(i, end);
                    reveal(rewrite_table);
                    let next = rewrite_table(a, html, nested)->0;
                    let kept = keep_table(b, html);
                    let p = next.pieces.last();
                    assert(next.pieces =~= a.pieces.push(p));
                    assert(p is Table && p->html == html && p->ordinal == next.index);
                    lemma_push(a.pieces, p);
                    lemma_push(b.pieces, kept.pieces.last());
                    lemma_same_tables_in_chunk(c, end, next, kept);
                },
            }
        } else {
            let text = seq![c[i]];
            lemma_push(a.pieces, Piece::Kept(text));
            lemma_push(b.pieces, Piece::Kept(text));
            lemma_same_tables_in_chunk(c, i + 1, keep(a, text), keep(b, text));
        }
    }
}

proof fn lemma_same_tables_from(m: Seq<char>, pos: int, a: Progress, b: Progress)
    requires
        0 <= pos <= m.len(),
        same_tables(a, b),
        treat_from(TableMode::Rewrite, m, pos, a) is Some,
    ensures
        treat_from(TableMode::Keep, m, pos, b) is Some,
        same_tables(
            treat_from(TableMode::Rewrite, m, pos, a)->0,
            treat_from(TableMode::Keep, m, pos, b)->0,
        ),
    decreases m.len() - pos,
{
    if pos < m.len() {
        let next_line = line_end(m, pos);
        lemma_line_end(m, pos);
        match fence_start(m.subrange(pos, next_line)) {
            Some((marker, len)) => {
                lemma_fence_end(m, next_line, marker, len);
                let end = fence_end(m, next_line, marker, len);
                let code = m.subrange(pos, end);
                lemma_push(a.pieces, Piece::Kept(code));
                lemma_push(b.pieces, Piece::Kept(code));
                lemma_same_tables_from(m, end, keep_code(a, code), keep_code(b, code));
            },
            None => {
                lemma_text_end(m, next_line);
                let end = text_end(m, next_line);
                let chunk = m.subrange(pos, end);
                let from_a = from_there(a.counts, a.index);
                let from_b = from_there(b.counts, b.index);
                lemma_same_tables_in_chunk(chunk, 0, from_a, from_b);
                let next = treat_chunk(TableMode::Rewrite, chunk, 0, from_a)->0;
                let kept = treat_chunk(TableMode::Keep, chunk, 0, from_b)->0;
                lemma_concat(a.pieces, next.pieces);
                lemma_concat(b.pieces, kept.pieces);
                lemma_same_tables_from(m, end, followed(a, next), followed(b, kept));
            },
        }
    }
}

/// The same tables are kept, under the same names, whether they are rewritten or stay as they are.
pub proof fn law_both_modes_keep_the_same_tables(m: Seq<char>)
    ensures
        normalized(m) matches Some(done) ==> same_tables(done, extracted(m)),
{
    let start = from_there(no_counts(), 0);
    if normalized(m) is Some {
        lemma_same_tables_from(m, 0, start, start);
    }
}

/// Whether `<table`, in any case, stands nowhere in `s`.
pub open spec fn mentions_no_table(s: Seq<char>) -> bool {
    forall|i: int| 0 <= i <= s.len() ==> !#[trigger] stands_at(lower(s), i, "<table"@)
}

proof fn lemma_part_mentions_no_table(s: Seq<char>, i: int, end: int)
    requires
        mentions_no_table(s),
        0 <= i <= end <= s.len(),
    ensures
        mentions_no_table(s.subrange(i, end)),
{
    let part = s.subrange(i, end);
    let n = "<table"@.len();
    assert forall|k: int| 0 <= k <= part.len() implies !#[trigger] stands_at(
        lower(part),
        k,
        "<table"@,
    ) by {
        if stands_at(lower(part), k, "<table"@) {
            assert(lower(s).subrange(i + k, i + k + n) =~= lower(part).subrange(k, k + n));
            assert(stands_at(lower(s), i + k, "<table"@));
        }
    }
}

proof fn lemma_no_occurrences(s: Seq<char>, pos: int)
    requires
        mentions_no_table(s),
        0 <= pos,
    ensures
        occurrences(lower(s), pos, lower("<table"@)) == 0,
    decreases s.len() - pos,
{
    lemma_lower_table();
    if pos < s.len() {
        assert(!stands_at(lower(s), pos, "<table"@));
        lemma_no_occurrences(s, pos + 1);
    }
}

proof fn lemma_no_tag(s: Seq<char>, at: int)
    requires
        mentions_no_table(s),
        0 <= at < s.len(),
    ensures
        !starts_tag(s, at, "table"@),
{
    if starts_tag(s, at, "table"@) {
        lemma_lower_table();
        reveal_strlit("table");
        let name = s.subrange(at + 1, at + 6);
        assert(lower("table"@) =~= "table"@);
        assert(lower(name) =~= "table"@);
        let found = lower(s).subrange(at, at + 6);
        assert(found[0] == '<');
        assert forall|j: int| 1 <= j < 6 implies found[j] == "<table"@[j] by {
            assert(lower(name)[j - 1] == found[j]);
        }
        assert(found =~= "<table"@);
        assert(stands_at(lower(s), at, "<table"@));
    }
}

proof fn lemma_chunk_unchanged(mode: TableMode, c: Seq<char>, i: int, st: Progress)
    requires
        0 <= i <= c.len(),
        mentions_no_table(c),
    ensures
        treat_chunk(mode, c, i, st) is Some,
        treat_chunk(mode, c, i, st)->0.counts == st.counts,
        shown_text(treat_chunk(mode, c, i, st)->0.pieces) == shown_text(st.pieces) + c.skip(i),
    decreases c.len() - i,
{
    if i >= c.len() {
        assert(shown_text(st.pieces) + c.skip(i) =~= shown_text(st.pieces));
    } else if c[i] == '`' {
        lemma_code_end(c, i);
        let end = code_end(c, i);
        let code = c.subrange(i, end);
        lemma_push(st.pieces, Piece::Kept(code));
        lemma_part_mentions_no_table(c, i, end);
        lemma_no_occurrences(code, 0);
        lemma_chunk_unchanged(mode, c, end, keep_code(st, code));
        lemma_cut(shown_text(st.pieces), c, i, end);
    } else {
        lemma_no_tag(c, i);
        lemma_push(st.pieces, Piece::Kept(seq![c[i]]));
        lemma_chunk_unchanged(mode, c, i + 1, keep(st, seq![c[i]]));
        assert(c.subrange(i, i + 1) =~= seq![c[i]]);
        lemma_cut(shown_text(st.pieces), c, i, i + 1);
    }
}

proof fn lemma_text_unchanged(mode: TableMode, m: Seq<char>, pos: int, st: Progress)
    requires
        0 <= pos <= m.len(),
        mentions_no_table(m),
    ensures
        treat_from(mode, m, pos, st) is Some,
        treat_from(mode, m, pos, st)->0.counts == st.counts,
        shown_text(treat_from(mode, m, pos, st)->0.pieces) == shown_text(st.pieces) + m.skip(pos),
    decreases m.len() - pos,
{
    if pos >= m.len() {
        assert(shown_text(st.pieces) + m.skip(pos) =~= shown_text(st.pieces));
    } else {
        let next_line = line_end(m, pos);
        lemma_line_end(m, pos);
        match fence_start(m.subrange(pos, next_line)) {
            Some((marker, len)) => {
                lemma_fence_end(m, next_line, marker, len);
                let end = fence_end(m, next_line, marker, len);
                let code = m.subrange(pos, end);
                lemma_push(st.pieces, Piece::Kept(code));
                lemma_part_mentions_no_table(m, pos, end);
                lemma_no_occurrences(code, 0);
                lemma_text_unchanged(mode, m, end, keep_code(st, code));
                lemma_cut(shown_text(st.pieces), m, pos, end);
            },
            None => {
                lemma_text_end(m, next_line);
                let end = text_end(m, next_line);
                let chunk = m.subrange(pos, end);
                lemma_part_mentions_no_table(m, pos, end);
                let start = from_there(st.counts, st.index);
                lemma_chunk_unchanged(mode, chunk, 0, start);
                let next = treat_chunk(mode, chunk, 0, start)->0;
                lemma_concat(st.pieces, next.pieces);
                lemma_text_unchanged(mode, m, end, followed(st, next));
                assert(chunk.skip(0) =~= chunk);
                assert(shown_text(next.pieces) =~= chunk);
                lemma_cut(shown_text(st.pieces), m, pos, end);
            },
        }
    }
}

/// Markdown in which `<table` stands nowhere, in any case, comes out as it was, and nothing is
/// counted.
pub proof fn law_text_without_tables_is_unchanged(m: Seq<char>)
    requires
        mentions_no_table(m),
    ensures
        normalized(m) is Some,
        shown_text(normalized(m)->0.pieces) == m,
        normalized(m)->0.counts == no_counts(),
{
    let start = from_there(no_counts(), 0);
    lemma_text_unchanged(TableMode::Rewrite, m, 0, start);
    assert(shown_text(start.pieces) + m.skip(0) =~= m);
}

// ---- Rewriting ----

/// A table that was kept.
pub struct TableArtifact {
    /// The name of the file that keeps it.
    pub name: String,
    /// Its HTML.
    pub html: String,
}

/// The artifacts as pairs of name and HTML.
pub open spec fn artifact_texts(v: Seq<TableArtifact>) -> Seq<(Seq<char>, Seq<char>)> {
    Seq::new(v.len(), |i: int| (v[i].name@, v[i].html@))
}

/// Markdown whose tables were rewritten.
pub struct NormalizedTables {
    pub markdown: String,
    pub stats: TableStats,
    pub artifacts: Vec<TableArtifact>,
}

/// A part of the Markdown whose tables were rewritten.
pub struct RewrittenChunk {
    pub text: Vec<char>,
    pub artifacts: Vec<TableArtifact>,
}

struct Work {
    out: Vec<char>,
    stats: TableStats,
    artifacts: Vec<TableArtifact>,
    table_index: usize,
}

impl Work {
    spec fn models(self, st: Progress) -> bool {
        &&& self.out@ == shown_text(st.pieces)
        &&& self.stats@ == st.counts
        &&& artifact_texts(self.artifacts@) == artifacts(st.pieces)
        &&& self.table_index == st.index
    }
}

fn name_of_artifact(ordinal: usize) -> (name: Vec<char>)
    ensures
        name@ == artifact_name(ordinal as nat),
{
    let mut name: Vec<char> = chars_of("table_");
    let digits = decimal3_of(ordinal);
    push_all(&mut name, &digits);
    push_str(&mut name, ".html");
    name
}

/// Where the artifact that keeps the table number `ordinal` is, seen from the Markdown.
pub fn path_of_artifact(ordinal: usize) -> (path: Vec<char>)
    ensures
        path@ == artifact_path(ordinal as nat),
{
    let mut path: Vec<char> = chars_of("tables/");
    let name = name_of_artifact(ordinal);
    push_all(&mut path, &name);
    path
}

fn push_code(work: &mut Work, code: &[char], Ghost(st): Ghost<Progress>)
    requires
        old(work).models(st),
        st.counts.in_code + code@.len() <= usize::MAX,
    ensures
        final(work).models(keep_code(st, code@)),
{
    let count = count_case_insensitive_occurrences(code, "<table");
    proof {
        lemma_occurrences(lower(code@), 0, lower("<table"@));
        lemma_push(st.pieces, Piece::Kept(code@));
    }
    work.stats.tables_skipped_in_code = work.stats.tables_skipped_in_code + count;
    push_all(&mut work.out, code);
}

/// Puts a table at `work`'s end; whether its cells could be counted, if that is needed.
fn push_table(
    mode: TableMode,
    work: &mut Work,
    html: &[char],
    nested: bool,
    Ghost(st): Ghost<Progress>,
) -> (ok: bool)
    requires
        old(work).models(st),
        st.index < usize::MAX,
        counts_within(st.counts, usize::MAX - 1),
    ensures
        match treat_table(mode, st, html@, nested) {
            Some(next) => ok && final(work).models(next),
            None => !ok,
        },
{
    let ghost before = work.artifacts@;
    let ordinal = work.table_index + 1;
    let name = name_of_artifact(ordinal);
    let path = path_of_artifact(ordinal);
    let ghost mut shown: Seq<char> = Seq::empty();
    if mode == TableMode::Keep {
        push_all(&mut work.out, html);
        proof {
            shown = html@;
        }
    } else if nested {
        let text = render_placeholder_block(
            ordinal,
            &path,
            "normalization skipped (nested table detected)",
        );
        push_all(&mut work.out, &text);
        work.stats.tables_skipped_nested = work.stats.tables_skipped_nested + 1;
        proof {
            shown = text@;
        }
    } else {
        match render_normalized_table(html, ordinal, &path) {
            TableRewriting::Text(text) => {
                push_all(&mut work.out, &text);
                work.stats.tables_normalized = work.stats.tables_normalized + 1;
                proof {
                    shown = text@;
                }
            },
            TableRewriting::TooLarge => {
                let text = render_placeholder_block(
                    ordinal,
                    &path,
                    "normalization skipped (table too large)",
                );
                push_all(&mut work.out, &text);
                work.stats.tables_skipped_too_large = work.stats.tables_skipped_too_large + 1;
                proof {
                    shown = text@;
                }
            },
            TableRewriting::Failed => {
                let text = render_placeholder_block(
                    ordinal,
                    &path,
                    "normalization skipped (parse failed)",
                );
                push_all(&mut work.out, &text);
                work.stats.tables_failed_parse = work.stats.tables_failed_parse + 1;
                proof {
                    shown = text@;
                }
            },
            TableRewriting::Uncountable => {
                reveal(rewrite_table);
                return false;
            },
        }
    }
    work.table_index = ordinal;
    work.stats.tables_found = work.stats.tables_found + 1;
    work.stats.tables_raw_written = work.stats.tables_raw_written + 1;
    let artifact = TableArtifact { name: string_of(&name), html: string_of(html) };
    work.artifacts.push(artifact);
    proof {
        reveal(rewrite_table);
        let p = Piece::Table { ordinal: ordinal as nat, html: html@, shown };
        lemma_push(st.pieces, p);
        assert(artifact_texts(work.artifacts@) =~= artifact_texts(before).push((name@, html@)));
    }
    true
}

/// Works through the tables in `chunk`, where no fence is. Tables are numbered on from
/// `table_index`, and `stats` counts on. Nothing, with both as they were, if a table is to be
/// rewritten whose cells ask for more rows or columns than a machine can count.
fn treat_non_code_chunk(
    mode: TableMode,
    chunk: &[char],
    table_index: &mut usize,
    stats: &mut TableStats,
) -> (r: Option<RewrittenChunk>)
    requires
        *old(table_index) + chunk@.len() <= usize::MAX,
        counts_within(old(stats)@, usize::MAX - chunk@.len()),
    ensures
        match treat_chunk(mode, chunk@, 0, from_there(old(stats)@, *old(table_index) as nat)) {
            Some(next) => {
                &&& r is Some
                &&& r->0.text@ == shown_text(next.pieces)
                &&& artifact_texts(r->0.artifacts@) == artifacts(next.pieces)
                &&& final(stats)@ == next.counts
                &&& *final(table_index) == next.index
            },
            None => r is None && *final(stats) == *old(stats) && *final(table_index) == *old(
                table_index,
            ),
        },
        sums(mode, old(stats)@) ==> sums(mode, final(stats)@),
        counts_grew(old(stats)@, final(stats)@, chunk@.len()),
        *final(table_index) - *old(table_index) == final(stats).tables_found - old(
            stats,
        ).tables_found,
        r is Some ==> r->0.artifacts@.len() == final(stats).tables_raw_written - old(
            stats,
        ).tables_raw_written,
        r is Some ==> named_apart(
            artifact_texts(r->0.artifacts@),
            *old(table_index) as nat,
            *final(table_index) as nat,
        ),
{
    let open = chars_of("table");
    let ghost st = from_there(stats@, *table_index as nat);
    let ghost mut now = st;
    let mut work = Work {
        out: Vec::new(),
        stats: *stats,
        artifacts: Vec::new(),
        table_index: *table_index,
    };
    let mut i: usize = 0;
    proof {
        lemma_goes_nowhere(mode, st);
        assert(chunk@.take(0) =~= Seq::empty());
        assert(artifact_texts(work.artifacts@) =~= artifacts(st.pieces));
        assert(work.out@ =~= shown_text(st.pieces));
    }
    while i < chunk.len()
        invariant
            i <= chunk@.len(),
            open@ == "table"@,
            st == from_there(old(stats)@, *old(table_index) as nat),
            *stats == *old(stats),
            *table_index == *old(table_index),
            st.index + chunk@.len() <= usize::MAX,
            counts_within(st.counts, usize::MAX - chunk@.len()),
            work.models(now),
            goes_on(mode, st, now, chunk@.take(i as int)),
            treat_chunk(mode, chunk@, 0, st) == treat_chunk(mode, chunk@, i as int, now),
        decreases chunk.len() - i,
    {
        let ghost done = chunk@.take(i as int);
        proof {
            lemma_how_far(mode, st, now, done);
        }
        if let Some(run) = backtick_run_len(chunk, i) {
            let end = match find_matching_backtick_run(chunk, i + run, run) {
                Some(p) => p + run,
                None => chunk.len(),
            };
            assert(chunk@.skip(i as int)[0] == chunk@[i as int]);
            proof {
                lemma_lead(chunk@.skip(i as int), CharClass::Only('`'));
            }
            let code = vstd::slice::slice_subrange(chunk, i, end);
            push_code(&mut work, code, Ghost(now));
            proof {
                let next = keep_code(now, code@);
                lemma_keep(mode, now, code@);
                lemma_goes_on_still(mode, st, now, next, done, code@);
                assert(done + code@ =~= chunk@.take(end as int));
                now = next;
            }
            i = end;
        } else if tag_starts(chunk, i, &open) {
            match extract_table_span(chunk, i) {
                None => {
                    let rest = vstd::slice::slice_subrange(chunk, i, chunk.len());
                    assert(rest@ =~= chunk@.skip(i as int));
                    push_all(&mut work.out, rest);
                    work.table_index = work.table_index + 1;
                    work.stats.tables_found = work.stats.tables_found + 1;
                    work.stats.tables_failed_extract = work.stats.tables_failed_extract + 1;
                    proof {
                        lemma_push(now.pieces, Piece::Kept(rest@));
                        let next = keep_open_table(now, rest@);
                        lemma_keep(mode, now, rest@);
                        lemma_goes_on_still(mode, st, now, next, done, rest@);
                        assert(done + rest@ =~= chunk@.take(chunk@.len() as int));
                        now = next;
                    }
                    i = chunk.len();
                },
                Some((end, nested)) => {
                    let html = vstd::slice::slice_subrange(chunk, i, end);
                    proof {
                        lemma_treat_table(mode, now, html@, nested);
                    }
                    if !push_table(mode, &mut work, html, nested, Ghost(now)) {
                        return None;
                    }
                    proof {
                        let next = treat_table(mode, now, html@, nested)->0;
                        lemma_goes_on_still(mode, st, now, next, done, html@);
                        assert(done + html@ =~= chunk@.take(end as int));
                        now = next;
                    }
                    i = end;
                },
            }
        } else {
            let ghost before = work.out@;
            work.out.push(chunk[i]);
            proof {
                let text = seq![chunk@[i as int]];
                assert(work.out@ =~= before + text);
                lemma_push(now.pieces, Piece::Kept(text));
                lemma_keep(mode, now, text);
                lemma_goes_on_still(mode, st, now, keep(now, text), done, text);
                assert(done + text =~= chunk@.take(i + 1));
                now = keep(now, text);
            }
            i += 1;
        }
    }
    proof {
        reveal(goes_on);
        lemma_names(now.pieces);
        lemma_named_apart(now.pieces, st.index, now.index);
    }
    *stats = work.stats;
    *table_index = work.table_index;
    Some(RewrittenChunk { text: work.out, artifacts: work.artifacts })
}

/// Rewrites the tables in `chunk`, where no fence is. Tables are numbered on from `table_index`,
/// and `stats` counts on. Nothing, with both as they were, if the cells of a table ask for more
/// rows or columns than a machine can count.
pub fn rewrite_non_code_chunk(
    chunk: &[char],
    table_index: &mut usize,
    stats: &mut TableStats,
) -> (r: Option<RewrittenChunk>)
    requires
        *old(table_index) + chunk@.len() <= usize::MAX,
        counts_within(old(stats)@, usize::MAX - chunk@.len()),
    ensures
        match treat_chunk(
            TableMode::Rewrite,
            chunk@,
            0,
            from_there(old(stats)@, *old(table_index) as nat),
        ) {
            Some(next) => {
                &&& r is Some
                &&& r->0.text@ == shown_text(next.pieces)
                &&& artifact_texts(r->0.artifacts@) == artifacts(next.pieces)
                &&& final(stats)@ == next.counts
                &&& *final(table_index) == next.index
            },
            None => r is None && *final(stats) == *old(stats) && *final(table_index) == *old(
                table_index,
            ),
        },
        counts_add_up(old(stats)@) ==> counts_add_up(final(stats)@),
        counts_grew(old(stats)@, final(stats)@, chunk@.len()),
        *final(table_index) - *old(table_index) == final(stats).tables_found - old(
            stats,
        ).tables_found,
        r is Some ==> r->0.artifacts@.len() == final(stats).tables_raw_written - old(
            stats,
        ).tables_raw_written,
        r is Some ==> named_apart(
            artifact_texts(r->0.artifacts@),
            *old(table_index) as nat,
            *final(table_index) as nat,
        ),
{
    treat_non_code_chunk(TableMode::Rewrite, chunk, table_index, stats)
}

/// Works through the tables of the Markdown that stand outside code; nothing if one is to be
/// rewritten whose cells ask for more rows or columns than a machine can count.
fn treat_tables(mode: TableMode, markdown: &str) -> (r: Option<NormalizedTables>)
    ensures
        match treat_from(mode, markdown@, 0, from_there(no_counts(), 0)) {
            Some(done) => r is Some && r->0.markdown@ == shown_text(done.pieces) && r->0.stats@
                == done.counts && artifact_texts(r->0.artifacts@) == artifacts(done.pieces),
            None => r is None,
        },
        r is Some ==> sums(mode, r->0.stats@) && r->0.artifacts@.len()
            == r->0.stats.tables_raw_written,
        r is Some ==> named_apart(
            artifact_texts(r->0.artifacts@),
            0,
            r->0.stats.tables_found as nat,
        ),
{
    let text = chars_of(markdown);
    let s: &[char] = &text;
    let ghost start = from_there(no_counts(), 0);
    let ghost mut now = start;
    let mut work = Work {
        out: Vec::new(),
        stats: TableStats::default(),
        artifacts: Vec::new(),
        table_index: 0,
    };
    assert(artifact_texts(work.artifacts@) =~= artifacts(now.pieces));
    assert(work.out@ =~= shown_text(now.pieces));
    assert(s@ == markdown@);
    assert(s@.len() == s.len());
    let mut pos: usize = 0;
    proof {
        lemma_goes_nowhere(mode, start);
        assert(s@.take(0) =~= Seq::empty());
    }
    while pos < s.len()
        invariant
            pos <= s@.len(),
            s@.len() <= usize::MAX,
            s@ == markdown@,
            start == from_there(no_counts(), 0),
            work.models(now),
            goes_on(mode, start, now, s@.take(pos as int)),
            treat_from(mode, s@, 0, start) == treat_from(mode, s@, pos as int, now),
        decreases s.len() - pos,
    {
        let ghost done = s@.take(pos as int);
        proof {
            lemma_how_far(mode, start, now, done);
        }
        let next_line = line_end_at(s, pos);
        match opened_fence(vstd::slice::slice_subrange(s, pos, next_line)) {
            Some((marker, len)) => {
                let end = fence_end_at(s, next_line, marker, len);
                let code = vstd::slice::slice_subrange(s, pos, end);
                push_code(&mut work, code, Ghost(now));
                proof {
                    let next = keep_code(now, code@);
                    lemma_keep(mode, now, code@);
                    lemma_goes_on_still(mode, start, now, next, done, code@);
                    assert(done + code@ =~= s@.take(end as int));
                    now = next;
                }
                pos = end;
            },
            None => {
                let end = text_end_at(s, next_line);
                let chunk = vstd::slice::slice_subrange(s, pos, end);
                let mut made = match treat_non_code_chunk(
                    mode,
                    chunk,
                    &mut work.table_index,
                    &mut work.stats,
                ) {
                    Some(made) => made,
                    None => {
                        return None;
                    },
                };
                proof {
                    let from = from_there(now.counts, now.index);
                    let next = treat_chunk(mode, chunk@, 0, from)->0;
                    law_chunk_goes_on(mode, chunk@, 0, from);
                    assert(chunk@.skip(0) =~= chunk@);
                    lemma_followed(mode, now, next, chunk@);
                    lemma_concat(now.pieces, next.pieces);
                    lemma_goes_on_still(mode, start, now, followed(now, next), done, chunk@);
                    assert(done + chunk@ =~= s@.take(end as int));
                    assert(artifact_texts(work.artifacts@ + made.artifacts@) =~= artifact_texts(
                        work.artifacts@,
                    ) + artifact_texts(made.artifacts@));
                    now = followed(now, next);
                }
                push_all(&mut work.out, &made.text);
                work.artifacts.append(&mut made.artifacts);
                pos = end;
            },
        }
    }
    proof {
        reveal(goes_on);
        lemma_names(now.pieces);
        lemma_named_apart(now.pieces, 0, now.index);
    }
    let markdown = string_of(&work.out);
    Some(NormalizedTables { markdown, stats: work.stats, artifacts: work.artifacts })
}

/// Rewrites each table of the Markdown that stands outside code; nothing if the cells of one of
/// them ask for more rows or columns than a machine can count.
pub fn normalize_tables(markdown: &str) -> (r: Option<NormalizedTables>)
    ensures
        match normalized(markdown@) {
            Some(done) => r is Some && r->0.markdown@ == shown_text(done.pieces) && r->0.stats@
                == done.counts && artifact_texts(r->0.artifacts@) == artifacts(done.pieces),
            None => r is None,
        },
        r is Some ==> counts_add_up(r->0.stats@) && r->0.artifacts@.len()
            == r->0.stats.tables_raw_written,
        r is Some ==> named_apart(
            artifact_texts(r->0.artifacts@),
            0,
            r->0.stats.tables_found as nat,
        ),
{
    treat_tables(TableMode::Rewrite, markdown)
}

/// The Markdown as it is, with the tables that stand outside code kept.
pub fn extract_tables(markdown: &str) -> (r: NormalizedTables)
    ensures
        r.markdown@ == markdown@,
        r.stats@ == extracted(markdown@).counts,
        artifact_texts(r.artifacts@) == artifacts(extracted(markdown@).pieces),
        counts_kept(r.stats@),
        r.artifacts@.len() == r.stats.tables_raw_written,
        named_apart(artifact_texts(r.artifacts@), 0, r.stats.tables_found as nat),
{
    proof {
        law_keeping_changes_nothing(markdown@);
    }
    treat_tables(TableMode::Keep, markdown).unwrap()
}

/// What becomes of the tables of a paper: with `rewrite` they are rewritten and kept, with `keep`
/// alone they are kept and stay in the text, else they are left alone. Nothing if they are to be
/// rewritten and their cells ask for more rows or columns than a machine can count.
pub fn tables_of_paper(markdown: &str, rewrite: bool, keep: bool) -> (r: Option<NormalizedTables>)
    ensures
        if rewrite {
            match normalized(markdown@) {
                Some(done) => {
                    &&& r is Some
                    &&& r->0.markdown@ == shown_text(done.pieces)
                    &&& r->0.stats@ == done.counts
                    &&& artifact_texts(r->0.artifacts@) == artifacts(done.pieces)
                },
                None => r is None,
            }
        } else {
            &&& r is Some
            &&& r->0.markdown@ == markdown@
            &&& if keep {
                &&& r->0.stats@ == extracted(markdown@).counts
                &&& artifact_texts(r->0.artifacts@) == artifacts(extracted(markdown@).pieces)
            } else {
                &&& r->0.stats@ == no_counts()
                &&& r->0.artifacts@.len() == 0
            }
        },
{
    if rewrite {
        normalize_tables(markdown)
    } else if keep {
        Some(extract_tables(markdown))
    } else {
        let unchanged = chars_of(markdown);
        Some(
            NormalizedTables {
                markdown: string_of(&unchanged),
                stats: TableStats::default(),
                artifacts: Vec::new(),
            },
        )
    }
}

// ---- What becomes of tables and of code ----

/// Whether `p` is the first place at or behind `pos` where a table begins or ends.
pub open spec fn first_table_tag(s: Seq<char>, pos: int, p: int) -> bool {
    &&& pos <= p
    &&& starts_tag(s, p, "table"@) || starts_tag(s, p, "/table"@)
    &&& forall|q: int|
        pos <= q < p ==> !(#[trigger] starts_tag(s, q, "table"@)) && !starts_tag(s, q, "/table"@)
}

proof fn lemma_first_table_tag(s: Seq<char>, pos: int, p: int)
    requires
        first_table_tag(s, pos, p),
    ensures
        next_table_tag(s, pos) == Some(p),
    decreases p - pos,
{
    if pos < p {
        assert(!starts_tag(s, pos, "table"@));
        lemma_first_table_tag(s, pos + 1, p);
    }
}

proof fn lemma_no_table_tag(s: Seq<char>, pos: int)
    requires
        forall|q: int|
            pos <= q ==> !(#[trigger] starts_tag(s, q, "table"@)) && !starts_tag(s, q, "/table"@),
    ensures
        next_table_tag(s, pos) is None,
    decreases s.len() - pos,
{
    if pos < s.len() {
        assert(!starts_tag(s, pos, "table"@));
        lemma_no_table_tag(s, pos + 1);
    }
}

/// A table ends with the end tag that belongs to its start tag: each table that begins inside must
/// end before, and such a table makes it a nested one. A table without that end tag has no end.
#[verifier::spinoff_prover]
pub proof fn law_tables_end_with_their_own_end_tag(
    s: Seq<char>,
    pos: int,
    p: int,
    depth: nat,
    nested: bool,
)
    ensures
        (forall|q: int|
            pos <= q ==> !(#[trigger] starts_tag(s, q, "table"@)) && !starts_tag(s, q, "/table"@))
            ==> table_close(s, pos, depth, nested) is None,
        first_table_tag(s, pos, p) && tag_end(s, p) is None ==> table_close(s, pos, depth, nested)
            is None,
        first_table_tag(s, pos, p) && tag_end(s, p) is Some && starts_tag(s, p, "table"@)
            ==> table_close(s, pos, depth, nested) == table_close(
            s,
            tag_end(s, p)->0,
            depth + 1,
            true,
        ),
        first_table_tag(s, pos, p) && tag_end(s, p) is Some && !starts_tag(s, p, "table"@) && depth
            > 1 ==> table_close(s, pos, depth, nested) == table_close(
            s,
            tag_end(s, p)->0,
            (depth - 1) as nat,
            nested,
        ),
        first_table_tag(s, pos, p) && tag_end(s, p) is Some && !starts_tag(s, p, "table"@) && depth
            == 1 ==> table_close(s, pos, depth, nested) == Some((tag_end(s, p)->0, nested)),
{
    if first_table_tag(s, pos, p) {
        lemma_first_table_tag(s, pos, p);
        assert(next_table_tag(s, pos) == Some(p));
        if tag_end(s, p) is Some {
            let e = tag_end(s, p)->0;
            if starts_tag(s, p, "table"@) {
                assert(table_close(s, pos, depth, nested) == table_close(s, e, depth + 1, true));
            } else if depth > 1 {
                let outer = (depth - 1) as nat;
                assert(table_close(s, pos, depth, nested) == table_close(s, e, outer, nested));
            } else {
                assert(table_close(s, pos, depth, nested) == Some((e, nested)));
            }
        } else {
            assert(table_close(s, pos, depth, nested) is None);
        }
    }
    if forall|q: int|
        pos <= q ==> !(#[trigger] starts_tag(s, q, "table"@)) && !starts_tag(s, q, "/table"@) {
        lemma_no_table_tag(s, pos);
        assert(table_close(s, pos, depth, nested) is None);
    }
}

/// A table whose first table tag behind its start tag is an end tag ends there, and is not nested.
pub proof fn law_plain_table_ends_at_the_first_end_tag(s: Seq<char>, start: int, e: int, p: int)
    requires
        tag_end(s, start) == Some(e),
        first_table_tag(s, e, p),
        !starts_tag(s, p, "table"@),
        tag_end(s, p) is Some,
    ensures
        table_span(s, start) == Some((tag_end(s, p)->0, false)),
{
    law_tables_end_with_their_own_end_tag(s, e, p, 1, false);
}

/// Code between backticks is left alone, in either mode: from its backticks to the next of the same
/// number, or to the end if there are none, it stays as it is, and `<table` in it is only counted.
pub proof fn law_code_spans_are_left_alone(
    mode: TableMode,
    c: Seq<char>,
    i: int,
    n: nat,
    p: int,
    st: Progress,
)
    requires
        0 <= i,
        n > 0,
        backticks_at(c, i, n),
        i + n < c.len() ==> c[i + n] != '`',
        i + n <= p,
        p < c.len() ==> backticks_at(c, p, n),
        forall|q: int| i + n <= q < p ==> !#[trigger] backticks_at(c, q, n),
    ensures
        ({
            let e = if p < c.len() {
                p + n
            } else {
                c.len() as int
            };
            let code = c.subrange(i, e);
            let next = Progress {
                pieces: st.pieces.push(Piece::Kept(code)),
                counts: Counts {
                    in_code: st.counts.in_code + occurrences(lower(code), 0, lower("<table"@)),
                    ..st.counts
                },
                index: st.index,
            };
            &&& treat_chunk(mode, c, i, st) == treat_chunk(mode, c, e, next)
            &&& p >= c.len() ==> treat_chunk(mode, c, i, st) == Some(next)
        }),
{
    let class = CharClass::Only('`');
    let t = c.skip(i);
    assert forall|j: int| 0 <= j < n implies class.has(#[trigger] t[j]) by {
        assert(t[j] == c[i + j]);
    }
    if i + n < c.len() {
        assert(t[n as int] == c[i + n]);
    }
    lemma_lead_is(t, class, n);
    assert(c[i] == '`');
    law_backticks_are_found_first(c, i + n, n);
    let found = backticks_from(c, i + n, n);
    if p < c.len() {
        if found is None {
            assert(!backticks_at(c, p, n));
        } else if found->0 < p {
            assert(!backticks_at(c, found->0, n));
        } else if p < found->0 {
            assert(!backticks_at(c, p, n));
        }
    } else if found is Some {
        assert(!backticks_at(c, found->0, n));
    }
}

/// A character at which neither code nor a table begins stays as it is.
pub proof fn law_other_text_stays(mode: TableMode, c: Seq<char>, i: int, st: Progress)
    requires
        0 <= i < c.len(),
        c[i] != '`',
        !starts_tag(c, i, "table"@),
    ensures
        treat_chunk(mode, c, i, st) == treat_chunk(
            mode,
            c,
            i + 1,
            Progress {
                pieces: st.pieces.push(Piece::Kept(seq![c[i]])),
                counts: st.counts,
                index: st.index,
            },
        ),
{
}

/// A table outside code is counted, and kept under the next number. Its HTML takes the place of
/// itself where tables stay as they are. Where they are rewritten, its text does if there is one;
/// else a placeholder that tells why: that it is nested, too large, or cannot be read.
pub proof fn law_tables_outside_code_are_treated(
    mode: TableMode,
    c: Seq<char>,
    i: int,
    e: int,
    nested: bool,
    st: Progress,
)
    requires
        0 <= i < c.len(),
        starts_tag(c, i, "table"@),
        table_span(c, i) == Some((e, nested)),
    ensures
        ({
            let html = c.subrange(i, e);
            let number = st.index + 1;
            let path = "tables/table_"@ + decimal3(number) + ".html"@;
            let counted = Counts {
                found: st.counts.found + 1,
                raw_written: st.counts.raw_written + 1,
                ..st.counts
            };
            let with = |shown: Seq<char>, counts: Counts|
                treat_chunk(
                    mode,
                    c,
                    e,
                    Progress {
                        pieces: st.pieces.push(Piece::Table { ordinal: number, html, shown }),
                        counts,
                        index: number,
                    },
                );
            &&& mode is Keep ==> treat_chunk(mode, c, i, st) == with(html, counted)
            &&& mode is Rewrite && nested ==> treat_chunk(mode, c, i, st) == with(
                placeholder(number, path, "normalization skipped (nested table detected)"@),
                Counts { nested: counted.nested + 1, ..counted },
            )
            &&& mode is Rewrite && !nested ==> match rewriting(html, number, path) {
                Rewriting::Text(text) => treat_chunk(mode, c, i, st) == with(
                    text,
                    Counts { normalized: counted.normalized + 1, ..counted },
                ),
                Rewriting::TooLarge => treat_chunk(mode, c, i, st) == with(
                    placeholder(number, path, "normalization skipped (table too large)"@),
                    Counts { too_large: counted.too_large + 1, ..counted },
                ),
                Rewriting::Failed => treat_chunk(mode, c, i, st) == with(
                    placeholder(number, path, "normalization skipped (parse failed)"@),
                    Counts { failed_parse: counted.failed_parse + 1, ..counted },
                ),
                Rewriting::Uncountable => treat_chunk(mode, c, i, st) is None,
            }
        }),
{
    reveal(rewrite_table);
    let number = st.index + 1;
    lemma_artifact_path(number);
    assert(c[i] == '<');
}

proof fn lemma_artifact_path(number: nat)
    ensures
        artifact_path(number) == "tables/table_"@ + decimal3(number) + ".html"@,
        artifact_name(number) == "table_"@ + decimal3(number) + ".html"@,
{
    reveal_strlit("tables/table_");
    reveal_strlit("tables/");
    reveal_strlit("table_");
    assert("tables/"@ + "table_"@ =~= "tables/table_"@);
    assert(artifact_path(number) =~= "tables/table_"@ + decimal3(number) + ".html"@);
}

/// From a table without an end on, all of the chunk stays as it is; the table is counted, but not
/// kept.
pub proof fn law_open_tables_stay(mode: TableMode, c: Seq<char>, i: int, st: Progress)
    requires
        0 <= i < c.len(),
        starts_tag(c, i, "table"@),
        table_span(c, i) is None,
    ensures
        treat_chunk(mode, c, i, st) == Some(
            Progress {
                pieces: st.pieces.push(Piece::Kept(c.skip(i))),
                counts: Counts {
                    found: st.counts.found + 1,
                    failed_extract: st.counts.failed_extract + 1,
                    ..st.counts
                },
                index: st.index + 1,
            },
        ),
{
    assert(c[i] == '<');
}

/// A fenced block is left alone, in either mode: from the line that opens it to the end of the
/// first line that closes it, or to the end, it stays as it is, and `<table` in it is only counted.
pub proof fn law_fenced_blocks_are_left_alone(
    mode: TableMode,
    m: Seq<char>,
    a: int,
    b: int,
    marker: char,
    len: nat,
    st: Progress,
)
    requires
        is_line(m, a, b),
        fence_start(m.subrange(a, b)) == Some((marker, len)),
    ensures
        ({
            let e = fence_end(m, b, marker, len);
            let block = m.subrange(a, e);
            treat_from(mode, m, a, st) == treat_from(
                mode,
                m,
                e,
                Progress {
                    pieces: st.pieces.push(Piece::Kept(block)),
                    counts: Counts {
                        in_code: st.counts.in_code + occurrences(lower(block), 0, lower("<table"@)),
                        ..st.counts
                    },
                    index: st.index,
                },
            )
        }),
{
    law_line_ends_behind_its_feed(m, a);
}

/// The text up to the next line that opens a fence is treated as one chunk; tables are numbered and
/// counted on from there.
pub proof fn law_text_between_fences_is_one_chunk(
    mode: TableMode,
    m: Seq<char>,
    a: int,
    b: int,
    st: Progress,
)
    requires
        is_line(m, a, b),
        fence_start(m.subrange(a, b)) is None,
    ensures
        ({
            let e = text_end(m, b);
            let done = treat_chunk(
                mode,
                m.subrange(a, e),
                0,
                Progress { pieces: Seq::empty(), counts: st.counts, index: st.index },
            );
            &&& done is None ==> treat_from(mode, m, a, st) is None
            &&& done matches Some(next) ==> treat_from(mode, m, a, st) == treat_from(
                mode,
                m,
                e,
                Progress {
                    pieces: st.pieces + next.pieces,
                    counts: next.counts,
                    index: next.index,
                },
            )
        }),
{
    law_line_ends_behind_its_feed(m, a);
}

/// The text of the result is that of its pieces, one after the other, and the artifacts are the
/// HTML of its tables, each under a name with its number.
pub proof fn law_pieces_are_put_together(pieces: Seq<Piece>, text: Seq<char>, ordinal: nat, html: Seq<
    char,
>, shown: Seq<char>)
    ensures
        shown_text(Seq::empty()) == Seq::<char>::empty(),
        shown_text(pieces.push(Piece::Kept(text))) == shown_text(pieces) + text,
        shown_text(pieces.push(Piece::Table { ordinal, html, shown })) == shown_text(pieces) + shown,
        artifacts(Seq::empty()).len() == 0,
        artifacts(pieces.push(Piece::Kept(text))) == artifacts(pieces),
        artifacts(pieces.push(Piece::Table { ordinal, html, shown })) == artifacts(pieces).push(
            ("table_"@ + decimal3(ordinal) + ".html"@, html),
        ),
        artifact_path(ordinal) == "tables/table_"@ + decimal3(ordinal) + ".html"@,
{
    lemma_artifact_path(ordinal);
    assert(pieces.push(Piece::Kept(text)).drop_last() =~= pieces);
    assert(pieces.push(Piece::Table { ordinal, html, shown }).drop_last() =~= pieces);
}

} // verus!
