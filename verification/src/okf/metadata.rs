//! What the text of a paper tells about it: title, abstract and keywords.

use vstd::prelude::*;

use crate::pieces::{
    collapse_ws, collapsed, complementary, join, joined, lemma_join_front, lemma_lines_hold_no_feed,
    lemma_part_holds_no, lemma_runs_of_two, lemma_runs_trim, lines, lines_of, list_items,
    list_items_of, texts, words,
};
use crate::text::{
    chars_of, copy_of, has_prefix, is_white_space, law_trimmed_text_is_found,
    law_trimming_takes_only_the_ends, lead, lead_len, lemma_lead, lemma_lead_is, lemma_trail,
    lemma_trail_is, lower, lowered, starts_with, string_of, trim, trim_end, trim_start, trimmed,
    trimmed_end, trimmed_start, CharClass,
};

verus! {

/// The number of characters that a title taken from plain text has at most.
pub const TITLE_LIMIT: usize = 300;

/// The first `max` characters of `s`.
pub open spec fn truncated(s: Seq<char>, max: nat) -> Seq<char> {
    if s.len() <= max {
        s
    } else {
        s.take(max as int)
    }
}

/// The first `max` characters of `s`.
pub fn truncate_chars(s: &[char], max: usize) -> (out: Vec<char>)
    ensures
        out@ == truncated(s@, max as nat),
{
    if s.len() <= max {
        copy_of(s)
    } else {
        let part = vstd::slice::slice_subrange(s, 0, max);
        assert(part@ =~= s@.take(max as int));
        copy_of(part)
    }
}

// ---- Title ----

/// The title that a line with one `#` before it gives.
pub open spec fn h1_title(line: Seq<char>) -> Option<Seq<char>> {
    let title = trim(line.skip(2), CharClass::Space);
    if has_prefix(line, "# "@) && title.len() > 0 {
        Some(title)
    } else {
        None
    }
}

/// The title that a line of plain text gives: not one of an image, of HTML or of a table.
pub open spec fn plain_title(line: Seq<char>) -> Option<Seq<char>> {
    let t = trim(line, CharClass::Space);
    if t.len() == 0 || has_prefix(t, "!["@) || t[0] == '<' || t[0] == '|' {
        None
    } else {
        Some(truncated(t, TITLE_LIMIT as nat))
    }
}

/// The first title from a line with one `#`, from the line `i` on.
pub open spec fn first_h1(ls: Seq<Seq<char>>, i: int) -> Option<Seq<char>>
    decreases ls.len() - i,
{
    if i < 0 || i >= ls.len() {
        None
    } else if h1_title(ls[i]) is Some {
        h1_title(ls[i])
    } else {
        first_h1(ls, i + 1)
    }
}

/// The first title from a line of plain text, from the line `i` on.
pub open spec fn first_plain(ls: Seq<Seq<char>>, i: int) -> Option<Seq<char>>
    decreases ls.len() - i,
{
    if i < 0 || i >= ls.len() {
        None
    } else if plain_title(ls[i]) is Some {
        plain_title(ls[i])
    } else {
        first_plain(ls, i + 1)
    }
}

/// The title of a paper: of the first heading with one `#`, else of the first plain line.
pub open spec fn title_of(m: Seq<char>) -> Option<Seq<char>> {
    match first_h1(lines(m), 0) {
        Some(title) => Some(title),
        None => first_plain(lines(m), 0),
    }
}

/// Whether `r` is the text `expected`.
pub open spec fn text_is(r: Option<Vec<char>>, expected: Option<Seq<char>>) -> bool {
    match expected {
        Some(text) => r is Some && r->0@ == text,
        None => r is None,
    }
}

/// Whether `r` is the text `expected`.
pub open spec fn string_is(r: Option<String>, expected: Option<Seq<char>>) -> bool {
    match expected {
        Some(text) => r is Some && r->0@ == text,
        None => r is None,
    }
}

fn read_h1_title(line: &[char]) -> (r: Option<Vec<char>>)
    ensures
        text_is(r, h1_title(line@)),
{
    proof {
        reveal_strlit("# ");
    }
    if !starts_with(line, "# ") {
        return None;
    }
    let rest = vstd::slice::slice_subrange(line, 2, line.len());
    assert(rest@ =~= line@.skip(2));
    let title = trimmed(rest, CharClass::Space);
    if title.len() == 0 {
        None
    } else {
        Some(copy_of(title))
    }
}

fn read_plain_title(line: &[char]) -> (r: Option<Vec<char>>)
    ensures
        text_is(r, plain_title(line@)),
{
    let t = trimmed(line, CharClass::Space);
    if t.len() == 0 || starts_with(t, "![") || t[0] == '<' || t[0] == '|' {
        None
    } else {
        Some(truncate_chars(t, TITLE_LIMIT))
    }
}

fn find_title(ls: &Vec<&[char]>) -> (r: Option<Vec<char>>)
    ensures
        text_is(
            r,
            match first_h1(texts(ls@), 0) {
                Some(title) => Some(title),
                None => first_plain(texts(ls@), 0),
            },
        ),
{
    let ghost all = texts(ls@);
    let mut i: usize = 0;
    while i < ls.len()
        invariant
            i <= ls@.len(),
            all == texts(ls@),
            first_h1(all, 0) == first_h1(all, i as int),
        decreases ls.len() - i,
    {
        let title = read_h1_title(ls[i]);
        assert(all[i as int] == ls@[i as int]@);
        if title.is_some() {
            return title;
        }
        i += 1;
    }
    i = 0;
    while i < ls.len()
        invariant
            i <= ls@.len(),
            all == texts(ls@),
            first_h1(all, 0) is None,
            first_plain(all, 0) == first_plain(all, i as int),
        decreases ls.len() - i,
    {
        let title = read_plain_title(ls[i]);
        assert(all[i as int] == ls@[i as int]@);
        if title.is_some() {
            return title;
        }
        i += 1;
    }
    None
}

/// The title of a paper.
pub fn extract_title(markdown: &str) -> (r: Option<String>)
    ensures
        string_is(r, title_of(markdown@)),
{
    let chars = chars_of(markdown);
    let ls = lines_of(&chars);
    match find_title(&ls) {
        Some(title) => Some(string_of(&title)),
        None => None,
    }
}

// ---- Headings and labels ----

/// The text of a heading: what stands behind one or more `#` and a blank.
pub open spec fn heading(line: Seq<char>) -> Option<Seq<char>> {
    let t = trim_start(line, CharClass::Space);
    let n = lead(t, CharClass::Only('#'));
    let rest = t.skip(n as int);
    if n > 0 && rest.len() > 0 && rest[0] == ' ' {
        Some(trim(rest, CharClass::Space))
    } else {
        None
    }
}

/// The text of a heading.
pub fn heading_text<'a>(line: &'a [char]) -> (r: Option<&'a [char]>)
    ensures
        match heading(line@) {
            Some(text) => r is Some && r->0@ == text,
            None => r is None,
        },
{
    let t = trimmed_start(line, CharClass::Space);
    assert(t@.skip(0) =~= t@);
    let n = lead_len(t, 0, CharClass::Only('#'));
    if n == 0 || n == t.len() || t[n] != ' ' {
        assert(n < t@.len() ==> t@.skip(n as int)[0] == t@[n as int]);
        return None;
    }
    let rest = vstd::slice::slice_subrange(t, n, t.len());
    assert(rest@ =~= t@.skip(n as int));
    Some(trimmed(rest, CharClass::Space))
}

/// Whether a heading announces the abstract.
pub open spec fn abstract_label(text: Seq<char>) -> bool {
    has_prefix(lower(trim(trim(text, CharClass::Space), CharClass::LabelMark)), "abstract"@)
}

/// Whether a heading announces the abstract.
pub fn is_abstract_label(text: &[char]) -> (r: bool)
    ensures
        r == abstract_label(text@),
{
    let cleaned = lowered(trimmed(trimmed(text, CharClass::Space), CharClass::LabelMark));
    starts_with(&cleaned, "abstract")
}

/// `line` without white space and emphasis marks at its start.
pub open spec fn without_lead(line: Seq<char>) -> Seq<char> {
    trim_start(
        trim_start(trim_start(line, CharClass::Space), CharClass::Emphasis),
        CharClass::Space,
    )
}

/// What follows `label` in `t`, in any case, without the marks that surround a label.
pub open spec fn behind_label(t: Seq<char>, label: Seq<char>) -> Option<Seq<char>> {
    if has_prefix(lower(t), label) {
        Some(trim_start(t.skip(label.len() as int), CharClass::LabelMark))
    } else {
        None
    }
}

/// What follows the first of two labels that `line` begins with.
pub open spec fn label_remainder(line: Seq<char>, first: Seq<char>, second: Seq<char>) -> Option<
    Seq<char>,
> {
    let t = without_lead(line);
    if behind_label(t, first) is Some {
        behind_label(t, first)
    } else {
        behind_label(t, second)
    }
}

/// The keywords on a line that lists them.
pub open spec fn keyword_line(line: Seq<char>) -> Option<Seq<char>> {
    label_remainder(line, "keywords:"@, "key words:"@)
}

/// The start of the abstract on a line that begins with the label.
pub open spec fn abstract_line(line: Seq<char>) -> Option<Seq<char>> {
    label_remainder(line, "abstract:"@, "abstract."@)
}

fn strip_leading_emphasis<'a>(line: &'a [char]) -> (r: &'a [char])
    ensures
        r@ == without_lead(line@),
{
    trimmed_start(
        trimmed_start(trimmed_start(line, CharClass::Space), CharClass::Emphasis),
        CharClass::Space,
    )
}

fn read_behind_label<'a>(t: &'a [char], label: &str) -> (r: Option<&'a [char]>)
    ensures
        match behind_label(t@, label@) {
            Some(text) => r is Some && r->0@ == text,
            None => r is None,
        },
{
    let low = lowered(t);
    let n = chars_of(label).len();
    if !starts_with(&low, label) {
        return None;
    }
    let rest = vstd::slice::slice_subrange(t, n, t.len());
    assert(rest@ =~= t@.skip(n as int));
    Some(trimmed_start(rest, CharClass::LabelMark))
}

fn read_label_remainder<'a>(line: &'a [char], first: &str, second: &str) -> (r: Option<&'a [char]>)
    ensures
        match label_remainder(line@, first@, second@) {
            Some(text) => r is Some && r->0@ == text,
            None => r is None,
        },
{
    let t = strip_leading_emphasis(line);
    match read_behind_label(t, first) {
        Some(rest) => Some(rest),
        None => read_behind_label(t, second),
    }
}

/// The keywords on a line that lists them.
pub fn keyword_remainder<'a>(line: &'a [char]) -> (r: Option<&'a [char]>)
    ensures
        match keyword_line(line@) {
            Some(text) => r is Some && r->0@ == text,
            None => r is None,
        },
{
    read_label_remainder(line, "keywords:", "key words:")
}

/// The start of the abstract on a line that begins with the label.
pub fn abstract_line_remainder<'a>(line: &'a [char]) -> (r: Option<&'a [char]>)
    ensures
        match abstract_line(line@) {
            Some(text) => r is Some && r->0@ == text,
            None => r is None,
        },
{
    read_label_remainder(line, "abstract:", "abstract.")
}

// ---- Abstract ----

/// `text` as a list of one, if it is more than white space.
pub open spec fn if_not_blank(text: Seq<char>) -> Seq<Seq<char>> {
    let t = trim(text, CharClass::Space);
    if t.len() > 0 {
        seq![t]
    } else {
        Seq::empty()
    }
}

/// The lines of a section from the line `i` on: up to the next heading or list of keywords.
pub open spec fn section(ls: Seq<Seq<char>>, i: int) -> Seq<Seq<char>>
    decreases ls.len() - i,
{
    if i < 0 || i >= ls.len() || heading(ls[i]) is Some || keyword_line(ls[i]) is Some {
        Seq::empty()
    } else {
        if_not_blank(ls[i]) + section(ls, i + 1)
    }
}

/// The lines of a paragraph from the line `i` on: up to the next blank line.
pub open spec fn paragraph(ls: Seq<Seq<char>>, i: int) -> Seq<Seq<char>>
    decreases ls.len() - i,
{
    if i < 0 || i >= ls.len() || trim(ls[i], CharClass::Space).len() == 0 {
        Seq::empty()
    } else {
        if_not_blank(ls[i]) + paragraph(ls, i + 1)
    }
}

/// Lines as running text.
pub open spec fn running(collected: Seq<Seq<char>>) -> Seq<char> {
    collapse_ws(join(collected, seq![' ']))
}

/// The abstract that the line `i` announces as a heading.
pub open spec fn abstract_section(ls: Seq<Seq<char>>, i: int) -> Option<Seq<char>> {
    let text = running(section(ls, i + 1));
    match heading(ls[i]) {
        Some(label) => if abstract_label(label) && text.len() > 0 {
            Some(text)
        } else {
            None
        },
        None => None,
    }
}

/// The abstract that the line `i` begins with a label.
pub open spec fn abstract_paragraph(ls: Seq<Seq<char>>, i: int) -> Option<Seq<char>> {
    match abstract_line(ls[i]) {
        Some(rest) => {
            let text = running(if_not_blank(rest) + paragraph(ls, i + 1));
            if text.len() > 0 {
                Some(text)
            } else {
                None
            }
        },
        None => None,
    }
}

/// The first abstract that a heading announces, from the line `i` on.
pub open spec fn first_abstract_section(ls: Seq<Seq<char>>, i: int) -> Option<Seq<char>>
    decreases ls.len() - i,
{
    if i < 0 || i >= ls.len() {
        None
    } else if abstract_section(ls, i) is Some {
        abstract_section(ls, i)
    } else {
        first_abstract_section(ls, i + 1)
    }
}

/// The first abstract that begins with a label, from the line `i` on.
pub open spec fn first_abstract_paragraph(ls: Seq<Seq<char>>, i: int) -> Option<Seq<char>>
    decreases ls.len() - i,
{
    if i < 0 || i >= ls.len() {
        None
    } else if abstract_paragraph(ls, i) is Some {
        abstract_paragraph(ls, i)
    } else {
        first_abstract_paragraph(ls, i + 1)
    }
}

/// The abstract of a paper: the section under its heading, else the paragraph with its label.
pub open spec fn abstract_of(m: Seq<char>) -> Option<Seq<char>> {
    match first_abstract_section(lines(m), 0) {
        Some(text) => Some(text),
        None => first_abstract_paragraph(lines(m), 0),
    }
}

fn push_if_not_blank(out: &mut Vec<Vec<char>>, text: &[char])
    ensures
        texts(final(out)@) == texts(old(out)@) + if_not_blank(text@),
{
    let ghost before = texts(out@);
    let t = trimmed(text, CharClass::Space);
    if t.len() > 0 {
        out.push(copy_of(t));
    }
    assert(texts(out@) =~= before + if_not_blank(text@));
}

fn run_together(collected: &Vec<Vec<char>>) -> (r: Option<Vec<char>>)
    ensures
        match r {
            Some(text) => text@ == running(texts(collected@)) && text@.len() > 0,
            None => running(texts(collected@)).len() == 0,
        },
{
    let blank: Vec<char> = vec![' '];
    assert(blank@ =~= seq![' ']);
    let text = collapsed(&joined(collected, &blank));
    if text.len() == 0 {
        None
    } else {
        Some(text)
    }
}

fn read_abstract_section(ls: &Vec<&[char]>, at: usize) -> (r: Option<Vec<char>>)
    requires
        at < ls@.len(),
    ensures
        text_is(r, abstract_section(texts(ls@), at as int)),
{
    let ghost all = texts(ls@);
    assert(at < ls.len());
    assert(all[at as int] == ls@[at as int]@);
    match heading_text(ls[at]) {
        None => None,
        Some(label) => {
            if !is_abstract_label(label) {
                return None;
            }
            let mut collected: Vec<Vec<char>> = Vec::new();
            let mut i: usize = at + 1;
            let ghost wanted = section(all, at + 1);
            assert(texts(collected@) + wanted =~= wanted);
            let mut open: bool = true;
            while open && i < ls.len()
                invariant
                    i <= ls@.len(),
                    all == texts(ls@),
                    wanted == section(all, at + 1),
                    open ==> texts(collected@) + section(all, i as int) == wanted,
                    !open ==> texts(collected@) == wanted,
                decreases ls.len() - i,
            {
                assert(all[i as int] == ls@[i as int]@);
                let ghost before = texts(collected@);
                if heading_text(ls[i]).is_some() || keyword_remainder(ls[i]).is_some() {
                    assert(before + Seq::<Seq<char>>::empty() =~= before);
                    open = false;
                } else {
                    push_if_not_blank(&mut collected, ls[i]);
                    assert(before + (if_not_blank(all[i as int]) + section(all, i + 1))
                        =~= texts(collected@) + section(all, i + 1));
                }
                i += 1;
            }
            assert(texts(collected@) + Seq::<Seq<char>>::empty() =~= texts(collected@));
            run_together(&collected)
        },
    }
}

fn read_abstract_paragraph(ls: &Vec<&[char]>, at: usize) -> (r: Option<Vec<char>>)
    requires
        at < ls@.len(),
    ensures
        text_is(r, abstract_paragraph(texts(ls@), at as int)),
{
    let ghost all = texts(ls@);
    assert(at < ls.len());
    assert(all[at as int] == ls@[at as int]@);
    match abstract_line_remainder(ls[at]) {
        None => None,
        Some(rest) => {
            let mut collected: Vec<Vec<char>> = Vec::new();
            let ghost wanted = if_not_blank(rest@) + paragraph(all, at + 1);
            assert(texts(collected@) =~= Seq::empty());
            push_if_not_blank(&mut collected, rest);
            assert(texts(collected@) =~= if_not_blank(rest@));
            let mut i: usize = at + 1;
            let mut open: bool = true;
            while open && i < ls.len()
                invariant
                    i <= ls@.len(),
                    all == texts(ls@),
                    wanted == if_not_blank(rest@) + paragraph(all, at + 1),
                    open ==> texts(collected@) + paragraph(all, i as int) == wanted,
                    !open ==> texts(collected@) == wanted,
                decreases ls.len() - i,
            {
                assert(all[i as int] == ls@[i as int]@);
                let ghost before = texts(collected@);
                if trimmed(ls[i], CharClass::Space).len() == 0 {
                    assert(before + Seq::<Seq<char>>::empty() =~= before);
                    open = false;
                } else {
                    push_if_not_blank(&mut collected, ls[i]);
                    assert(before + (if_not_blank(all[i as int]) + paragraph(all, i + 1))
                        =~= texts(collected@) + paragraph(all, i + 1));
                }
                i += 1;
            }
            assert(texts(collected@) + Seq::<Seq<char>>::empty() =~= texts(collected@));
            run_together(&collected)
        },
    }
}

/// The abstract of a paper.
pub fn extract_abstract(markdown: &str) -> (r: Option<String>)
    ensures
        string_is(r, abstract_of(markdown@)),
{
    let chars = chars_of(markdown);
    let ls = lines_of(&chars);
    let ghost all = texts(ls@);
    let mut i: usize = 0;
    while i < ls.len()
        invariant
            i <= ls@.len(),
            all == texts(ls@),
            all == lines(markdown@),
            first_abstract_section(all, 0) == first_abstract_section(all, i as int),
        decreases ls.len() - i,
    {
        if let Some(text) = read_abstract_section(&ls, i) {
            return Some(string_of(&text));
        }
        i += 1;
    }
    i = 0;
    while i < ls.len()
        invariant
            i <= ls@.len(),
            all == texts(ls@),
            all == lines(markdown@),
            first_abstract_section(all, 0) is None,
            first_abstract_paragraph(all, 0) == first_abstract_paragraph(all, i as int),
        decreases ls.len() - i,
    {
        if let Some(text) = read_abstract_paragraph(&ls, i) {
            return Some(string_of(&text));
        }
        i += 1;
    }
    None
}

// ---- Keywords ----

/// One keyword of a list, without white space and a full stop at its end.
pub open spec fn keyword(item: Seq<char>) -> Seq<char> {
    trim(trim_end(trim(item, CharClass::Space), CharClass::Only('.')), CharClass::Space)
}

/// The keywords among `items`.
pub open spec fn keywords_in(items: Seq<Seq<char>>) -> Seq<Seq<char>>
    decreases items.len(),
{
    if items.len() == 0 {
        Seq::empty()
    } else if keyword(items.last()).len() == 0 {
        keywords_in(items.drop_last())
    } else {
        keywords_in(items.drop_last()).push(keyword(items.last()))
    }
}

/// The keywords on the first line, from the line `i` on, that lists them.
pub open spec fn first_keywords(ls: Seq<Seq<char>>, i: int) -> Seq<Seq<char>>
    decreases ls.len() - i,
{
    if i < 0 || i >= ls.len() {
        Seq::empty()
    } else {
        match keyword_line(ls[i]) {
            Some(list) => keywords_in(list_items(list)),
            None => first_keywords(ls, i + 1),
        }
    }
}

/// The keywords of a paper.
pub open spec fn keywords_of(m: Seq<char>) -> Seq<Seq<char>> {
    first_keywords(lines(m), 0)
}

fn read_keywords(list: &[char]) -> (out: Vec<String>)
    ensures
        texts(out@) == keywords_in(list_items(list@)),
{
    let items = list_items_of(list);
    let ghost all = texts(items@);
    let mut out: Vec<String> = Vec::new();
    let mut i: usize = 0;
    assert(texts(out@) =~= keywords_in(all.take(0)));
    while i < items.len()
        invariant
            i <= items@.len(),
            all == texts(items@),
            texts(out@) == keywords_in(all.take(i as int)),
        decreases items.len() - i,
    {
        assert(all.take(i + 1).drop_last() =~= all.take(i as int));
        assert(all.take(i + 1).last() == items@[i as int]@);
        let ghost before = out@;
        let word = trimmed(
            trimmed_end(trimmed(items[i], CharClass::Space), CharClass::Only('.')),
            CharClass::Space,
        );
        if word.len() > 0 {
            out.push(string_of(word));
            assert(texts(out@) =~= texts(before).push(word@));
        }
        i += 1;
    }
    assert(all.take(i as int) =~= all);
    out
}

/// The keywords of a paper.
pub fn extract_keywords(markdown: &str) -> (out: Vec<String>)
    ensures
        texts(out@) == keywords_of(markdown@),
{
    let chars = chars_of(markdown);
    let ls = lines_of(&chars);
    let ghost all = texts(ls@);
    let mut i: usize = 0;
    while i < ls.len()
        invariant
            i <= ls@.len(),
            all == texts(ls@),
            all == lines(markdown@),
            first_keywords(all, 0) == first_keywords(all, i as int),
        decreases ls.len() - i,
    {
        assert(all[i as int] == ls@[i as int]@);
        if let Some(list) = keyword_remainder(ls[i]) {
            return read_keywords(list);
        }
        i += 1;
    }
    let out: Vec<String> = Vec::new();
    assert(texts(out@) =~= Seq::empty());
    out
}

proof fn lemma_trimmed_holds_no(s: Seq<char>, class: CharClass, c: char)
    requires
        !s.contains(c),
    ensures
        !trim_start(s, class).contains(c),
        !trim_end(s, class).contains(c),
{
    lemma_lead(s, class);
    lemma_trail(s, class);
    lemma_part_holds_no(s, trim_start(s, class), lead(s, class) as int, c);
    lemma_part_holds_no(s, trim_end(s, class), 0, c);
}

proof fn lemma_trim_holds_no(s: Seq<char>, class: CharClass, c: char)
    requires
        !s.contains(c),
    ensures
        !trim(s, class).contains(c),
{
    lemma_trimmed_holds_no(s, class, c);
    lemma_trimmed_holds_no(trim_start(s, class), class, c);
}

proof fn lemma_keyword_line_holds_no(line: Seq<char>, c: char)
    requires
        !line.contains(c),
    ensures
        keyword_line(line) matches Some(rest) ==> !rest.contains(c),
{
    let a = trim_start(line, CharClass::Space);
    let b = trim_start(a, CharClass::Emphasis);
    let t = trim_start(b, CharClass::Space);
    lemma_trimmed_holds_no(line, CharClass::Space, c);
    lemma_trimmed_holds_no(a, CharClass::Emphasis, c);
    lemma_trimmed_holds_no(b, CharClass::Space, c);
    let first = "keywords:"@;
    let second = "key words:"@;
    if has_prefix(lower(t), first) {
        lemma_part_holds_no(t, t.skip(first.len() as int), first.len() as int, c);
        lemma_trimmed_holds_no(t.skip(first.len() as int), CharClass::LabelMark, c);
    }
    if has_prefix(lower(t), second) {
        lemma_part_holds_no(t, t.skip(second.len() as int), second.len() as int, c);
        lemma_trimmed_holds_no(t.skip(second.len() as int), CharClass::LabelMark, c);
    }
}

proof fn lemma_list_items_hold_no(s: Seq<char>, c: char)
    requires
        !s.contains(c),
    ensures
        forall|i: int| 0 <= i < list_items(s).len() ==> !(#[trigger] list_items(s)[i]).contains(c),
    decreases s.len(),
{
    let n = lead(s, CharClass::ListItem);
    lemma_lead(s, CharClass::ListItem);
    if n < s.len() {
        let rest = s.skip(n as int + 1);
        lemma_part_holds_no(s, s.take(n as int), 0, c);
        lemma_part_holds_no(s, rest, n as int + 1, c);
        lemma_list_items_hold_no(rest, c);
        assert forall|i: int| 0 <= i < list_items(s).len() implies !(#[trigger] list_items(
            s,
        )[i]).contains(c) by {
            if i > 0 {
                assert(list_items(s)[i] == list_items(rest)[i - 1]);
            }
        }
    }
}

proof fn lemma_keywords_hold_no(items: Seq<Seq<char>>, c: char)
    requires
        forall|i: int| 0 <= i < items.len() ==> !(#[trigger] items[i]).contains(c),
    ensures
        forall|i: int|
            0 <= i < keywords_in(items).len() ==> !(#[trigger] keywords_in(items)[i]).contains(c),
    decreases items.len(),
{
    if items.len() > 0 {
        let init = items.drop_last();
        let item = items[items.len() - 1];
        assert forall|i: int| 0 <= i < init.len() implies !(#[trigger] init[i]).contains(c) by {
            assert(init[i] == items[i]);
        }
        lemma_keywords_hold_no(init, c);
        lemma_trim_holds_no(item, CharClass::Space, c);
        let t = trim(item, CharClass::Space);
        lemma_trimmed_holds_no(t, CharClass::Only('.'), c);
        lemma_trim_holds_no(trim_end(t, CharClass::Only('.')), CharClass::Space, c);
        let all = keywords_in(items);
        let most = keywords_in(init);
        assert forall|i: int| 0 <= i < all.len() implies !(#[trigger] all[i]).contains(c) by {
            if i < most.len() {
                assert(all[i] == most[i]);
            }
        }
    }
}

proof fn lemma_first_keywords_hold_no(ls: Seq<Seq<char>>, i: int, c: char)
    requires
        forall|k: int| 0 <= k < ls.len() ==> !(#[trigger] ls[k]).contains(c),
    ensures
        forall|k: int|
            0 <= k < first_keywords(ls, i).len() ==> !(#[trigger] first_keywords(ls, i)[k]).contains(
                c,
            ),
    decreases ls.len() - i,
{
    if 0 <= i < ls.len() {
        lemma_keyword_line_holds_no(ls[i], c);
        match keyword_line(ls[i]) {
            Some(list) => {
                lemma_list_items_hold_no(list, c);
                lemma_keywords_hold_no(list_items(list), c);
                assert(first_keywords(ls, i) == keywords_in(list_items(list)));
            },
            None => {
                lemma_first_keywords_hold_no(ls, i + 1, c);
                assert(first_keywords(ls, i) == first_keywords(ls, i + 1));
            },
        }
    }
}

/// Keywords that were taken from the text hold no line feed.
pub proof fn law_keywords_keep_to_one_line(m: Seq<char>)
    ensures
        forall|i: int|
            0 <= i < keywords_of(m).len() ==> !(#[trigger] keywords_of(m)[i]).contains('\n'),
{
    lemma_lines_hold_no_feed(m);
    lemma_first_keywords_hold_no(lines(m), 0, '\n');
}

// ---- What is found ----

/// Whether there is more than white space in `s`.
pub open spec fn says_something(s: Seq<char>) -> bool {
    exists|j: int| 0 <= j < s.len() && !is_white_space(#[trigger] s[j])
}

/// Whether `line` is a heading of the first level with a text.
pub open spec fn is_h1(line: Seq<char>) -> bool {
    line.len() >= 2 && line[0] == '#' && line[1] == ' ' && says_something(line.skip(2))
}

/// Whether `line` is plain text: it says something, and begins, behind white space, neither as an
/// image nor as HTML nor as a table.
pub open spec fn is_plain(line: Seq<char>) -> bool {
    let t = trim(line, CharClass::Space);
    says_something(line) && t[0] != '<' && t[0] != '|' && !(t.len() >= 2 && t[0] == '!' && t[1]
        == '[')
}

proof fn lemma_says_something(s: Seq<char>)
    ensures
        says_something(s) <==> trim(s, CharClass::Space).len() > 0,
{
    law_trimming_takes_only_the_ends(s, CharClass::Space);
    let (a, b) = choose|a: int, b: int|
        0 <= a <= b <= s.len() && trim(s, CharClass::Space) == #[trigger] s.subrange(a, b) && (
        forall|j: int|
            0 <= j < a || b <= j < s.len() ==> CharClass::Space.has(#[trigger] s[j])) && (a < b
            ==> !CharClass::Space.has(s[a]) && !CharClass::Space.has(s[b - 1]));
    if says_something(s) {
        let j = choose|j: int| 0 <= j < s.len() && !is_white_space(#[trigger] s[j]);
        assert(!CharClass::Space.has(s[j]));
        assert(a <= j < b);
    }
    if a < b {
        assert(!is_white_space(s[a]));
    }
}

proof fn lemma_h1(line: Seq<char>)
    ensures
        h1_title(line) is Some <==> is_h1(line),
        is_h1(line) ==> h1_title(line) == Some(trim(line.skip(2), CharClass::Space)),
{
    reveal_strlit("# ");
    lemma_says_something(line.skip(2));
    if line.len() >= 2 {
        assert(line.subrange(0, 2)[0] == line[0] && line.subrange(0, 2)[1] == line[1]);
        if line[0] == '#' && line[1] == ' ' {
            assert(line.subrange(0, 2) =~= "# "@);
        }
    }
}

proof fn lemma_plain(line: Seq<char>)
    ensures
        plain_title(line) is Some <==> is_plain(line),
        is_plain(line) ==> plain_title(line) == Some(
            truncated(trim(line, CharClass::Space), 300),
        ),
{
    reveal_strlit("![");
    lemma_says_something(line);
    let t = trim(line, CharClass::Space);
    if t.len() >= 2 {
        assert(t.subrange(0, 2)[0] == t[0] && t.subrange(0, 2)[1] == t[1]);
        if t[0] == '!' && t[1] == '[' {
            assert(t.subrange(0, 2) =~= "!["@);
        }
    }
}

proof fn lemma_first_h1(ls: Seq<Seq<char>>, i: int, k: int)
    requires
        0 <= i <= k <= ls.len(),
        forall|j: int| i <= j < k ==> h1_title(#[trigger] ls[j]) is None,
        k < ls.len() ==> h1_title(ls[k]) is Some,
    ensures
        first_h1(ls, i) == if k < ls.len() {
            h1_title(ls[k])
        } else {
            None
        },
    decreases k - i,
{
    if i < k {
        assert(h1_title(ls[i]) is None);
        lemma_first_h1(ls, i + 1, k);
    }
}

proof fn lemma_first_plain(ls: Seq<Seq<char>>, i: int, k: int)
    requires
        0 <= i <= k <= ls.len(),
        forall|j: int| i <= j < k ==> plain_title(#[trigger] ls[j]) is None,
        k < ls.len() ==> plain_title(ls[k]) is Some,
    ensures
        first_plain(ls, i) == if k < ls.len() {
            plain_title(ls[k])
        } else {
            None
        },
    decreases k - i,
{
    if i < k {
        assert(plain_title(ls[i]) is None);
        lemma_first_plain(ls, i + 1, k);
    }
}

/// The first heading of the first level that says something is the title, whatever stands behind
/// it.
pub proof fn law_first_heading_is_the_title(m: Seq<char>, k: int)
    requires
        0 <= k < lines(m).len(),
        is_h1(lines(m)[k]),
        forall|j: int| 0 <= j < k ==> !is_h1(#[trigger] lines(m)[j]),
    ensures
        title_of(m) == Some(trim(lines(m)[k].skip(2), CharClass::Space)),
{
    let ls = lines(m);
    lemma_h1(ls[k]);
    assert forall|j: int| 0 <= j < k implies h1_title(#[trigger] ls[j]) is None by {
        lemma_h1(ls[j]);
    }
    lemma_first_h1(ls, 0, k);
}

/// Without such a heading the first line of plain text is the title, cut off behind 300
/// characters; without plain text there is none.
pub proof fn law_else_the_first_plain_line_is_the_title(m: Seq<char>, k: int)
    requires
        0 <= k <= lines(m).len(),
        forall|j: int| 0 <= j < lines(m).len() ==> !is_h1(#[trigger] lines(m)[j]),
        forall|j: int| 0 <= j < k ==> !is_plain(#[trigger] lines(m)[j]),
        k < lines(m).len() ==> is_plain(lines(m)[k]),
    ensures
        k == lines(m).len() ==> title_of(m) is None,
        k < lines(m).len() ==> ({
            let t = trim(lines(m)[k], CharClass::Space);
            title_of(m) == Some(
                if t.len() <= 300 {
                    t
                } else {
                    t.take(300)
                },
            )
        }),
{
    let ls = lines(m);
    assert forall|j: int| 0 <= j < ls.len() implies h1_title(#[trigger] ls[j]) is None by {
        lemma_h1(ls[j]);
    }
    lemma_first_h1(ls, 0, ls.len() as int);
    assert forall|j: int| 0 <= j < k implies plain_title(#[trigger] ls[j]) is None by {
        lemma_plain(ls[j]);
    }
    if k < ls.len() {
        lemma_plain(ls[k]);
    }
    lemma_first_plain(ls, 0, k);
}

/// A heading is one or more `#`, with nothing but white space before them and a blank behind; its
/// text is what stands behind, trimmed.
pub proof fn law_headings_are_marked_by_hashes(
    before: Seq<char>,
    hashes: Seq<char>,
    rest: Seq<char>,
)
    requires
        forall|j: int| 0 <= j < before.len() ==> is_white_space(#[trigger] before[j]),
        forall|j: int| 0 <= j < hashes.len() ==> #[trigger] hashes[j] == '#',
        rest.len() > 0 ==> rest[0] != '#',
        hashes.len() == 0 && rest.len() > 0 ==> !is_white_space(rest[0]),
    ensures
        heading(before + hashes + rest) == if hashes.len() > 0 && rest.len() > 0 && rest[0] == ' ' {
            Some(trim(rest, CharClass::Space))
        } else {
            None
        },
{
    let line = before + hashes + rest;
    let t = hashes + rest;
    assert forall|j: int| 0 <= j < before.len() implies CharClass::Space.has(
        #[trigger] line[j],
    ) by {
        assert(line[j] == before[j]);
    }
    if t.len() > 0 {
        assert(line[before.len() as int] == t[0]);
        if hashes.len() > 0 {
            assert(t[0] == hashes[0]);
        } else {
            assert(t[0] == rest[0]);
        }
    }
    lemma_lead_is(line, CharClass::Space, before.len());
    assert(trim_start(line, CharClass::Space) =~= t);
    assert forall|j: int| 0 <= j < hashes.len() implies CharClass::Only('#').has(
        #[trigger] t[j],
    ) by {
        assert(t[j] == hashes[j]);
    }
    if rest.len() > 0 {
        assert(t[hashes.len() as int] == rest[0]);
    }
    lemma_lead_is(t, CharClass::Only('#'), hashes.len());
    assert(t.skip(hashes.len() as int) =~= rest);
}

/// Whether `c` is a mark of emphasis.
pub open spec fn is_emphasis(c: char) -> bool {
    c == '*' || c == '_'
}

/// Whether `c` surrounds a label.
pub open spec fn is_label_mark(c: char) -> bool {
    c == '*' || c == '_' || c == ':' || c == ' '
}

/// A line lists keywords if, behind white space and marks of emphasis, it begins with
/// `keywords:` or `key words:` in any case; the list is what stands behind the label and the
/// marks that surround it. In the same way, `abstract:` or `abstract.` begins an abstract.
pub proof fn law_labels_are_found_behind_marks(
    before: Seq<char>,
    marks: Seq<char>,
    space: Seq<char>,
    label: Seq<char>,
    behind: Seq<char>,
    rest: Seq<char>,
)
    requires
        forall|j: int| 0 <= j < before.len() ==> is_white_space(#[trigger] before[j]),
        forall|j: int| 0 <= j < marks.len() ==> is_emphasis(#[trigger] marks[j]),
        forall|j: int| 0 <= j < space.len() ==> is_white_space(#[trigger] space[j]),
        marks.len() == 0 ==> space.len() == 0,
        forall|j: int| 0 <= j < behind.len() ==> is_label_mark(#[trigger] behind[j]),
        rest.len() > 0 ==> !is_label_mark(rest[0]),
    ensures
        lower(label) == "keywords:"@ || lower(label) == "key words:"@ ==> keyword_line(
            before + marks + space + label + behind + rest,
        ) == Some(rest),
        lower(label) == "abstract:"@ || lower(label) == "abstract."@ ==> abstract_line(
            before + marks + space + label + behind + rest,
        ) == Some(rest),
{
    let line = before + marks + space + label + behind + rest;
    reveal_strlit("keywords:");
    reveal_strlit("key words:");
    reveal_strlit("abstract:");
    reveal_strlit("abstract.");
    let known = lower(label) == "keywords:"@ || lower(label) == "key words:"@ || lower(label)
        == "abstract:"@ || lower(label) == "abstract."@;
    if known {
        assert(lower(label)[0] == 'k' || lower(label)[0] == 'a');
        assert(!is_white_space(label[0]) && !is_emphasis(label[0]));
        lemma_lead_of(before, marks + space + label + behind + rest, CharClass::Space);
        assert(before + (marks + space + label + behind + rest) =~= line);
        let t = marks + space + label + behind + rest;
        lemma_lead_of(marks, space + label + behind + rest, CharClass::Emphasis);
        assert(marks + (space + label + behind + rest) =~= t);
        let u = space + label + behind + rest;
        lemma_lead_of(space, label + behind + rest, CharClass::Space);
        assert(space + (label + behind + rest) =~= u);
        let v = label + behind + rest;
        assert(without_lead(line) == v);
        assert(lower(v).subrange(0, label.len() as int) =~= lower(label));
        assert(v.skip(label.len() as int) =~= behind + rest);
        lemma_lead_of(behind, rest, CharClass::LabelMark);
        if lower(label) == "keywords:"@ {
            assert(behind_label(v, "keywords:"@) == Some(rest));
        } else if lower(label) == "key words:"@ {
            assert(lower(v).subrange(0, 10) =~= lower(label));
            assert(lower(v)[3] == lower(label)[3]);
            assert(!has_prefix(lower(v), "keywords:"@)) by {
                if has_prefix(lower(v), "keywords:"@) {
                    assert(lower(v).subrange(0, 9)[3] == "keywords:"@[3]);
                }
            }
            assert(behind_label(v, "key words:"@) == Some(rest));
        } else if lower(label) == "abstract:"@ {
            assert(behind_label(v, "abstract:"@) == Some(rest));
        } else {
            assert(lower(v)[8] == lower(label)[8]);
            assert(!has_prefix(lower(v), "abstract:"@)) by {
                if has_prefix(lower(v), "abstract:"@) {
                    assert(lower(v).subrange(0, 9)[8] == "abstract:"@[8]);
                }
            }
            assert(behind_label(v, "abstract."@) == Some(rest));
        }
    }
}

proof fn lemma_lead_of(a: Seq<char>, b: Seq<char>, class: CharClass)
    requires
        forall|j: int| 0 <= j < a.len() ==> class.has(#[trigger] a[j]),
        b.len() > 0 ==> !class.has(b[0]),
    ensures
        trim_start(a + b, class) == b,
{
    let s = a + b;
    assert forall|j: int| 0 <= j < a.len() implies class.has(#[trigger] s[j]) by {
        assert(s[j] == a[j]);
    }
    if b.len() > 0 {
        assert(s[a.len() as int] == b[0]);
    }
    lemma_lead_is(s, class, a.len());
    assert(trim_start(s, class) =~= b);
}

/// A line that does not hold `abstract:` or `abstract.` in any case begins no abstract, and one
/// that holds neither `keywords:` nor `key words:` lists no keywords.
pub proof fn law_no_label_no_remainder(line: Seq<char>)
    ensures
        keyword_line(line) is Some ==> label_in(line, "keywords:"@) || label_in(
            line,
            "key words:"@,
        ),
        abstract_line(line) is Some ==> label_in(line, "abstract:"@) || label_in(
            line,
            "abstract."@,
        ),
{
    let a = trim_start(line, CharClass::Space);
    lemma_lead(line, CharClass::Space);
    let b = trim_start(a, CharClass::Emphasis);
    lemma_lead(a, CharClass::Emphasis);
    let t = trim_start(b, CharClass::Space);
    lemma_lead(b, CharClass::Space);
    let i = line.len() - t.len();
    assert(t =~= line.skip(i));
    assert(lower(t) =~= lower(line).skip(i));
    assert forall|label: Seq<char>| #[trigger] has_prefix(lower(t), label) implies label_in(
        line,
        label,
    ) by {
        assert(lower(line).subrange(i, i + label.len()) =~= lower(t).subrange(
            0,
            0 + label.len() as int,
        ));
    }
    assert(without_lead(line) == t);
}

/// Whether `label` stands in `line`, in any case.
pub open spec fn label_in(line: Seq<char>, label: Seq<char>) -> bool {
    exists|i: int|
        0 <= i <= line.len() - label.len() && #[trigger] lower(line).subrange(i, i + label.len())
            == label
}

proof fn lemma_words_of_trim(s: Seq<char>)
    ensures
        words(trim(s, CharClass::Space)) == words(s),
{
    let class = CharClass::NonSpace;
    let gap = CharClass::Space;
    let t = trim_start(s, gap);
    lemma_runs_trim(s, class, gap);
    lemma_words_of_trim_end(t);
}

proof fn lemma_words_of_trim_end(t: Seq<char>)
    ensures
        words(trim_end(t, CharClass::Space)) == words(t),
    decreases t.len(),
{
    let class = CharClass::NonSpace;
    let gap = CharClass::Space;
    if t.len() > 0 && gap.has(t.last()) {
        let init = t.drop_last();
        lemma_words_of_trim_end(init);
        lemma_trail(t, gap);
        lemma_trail(init, gap);
        assert(trim_end(t, gap) =~= trim_end(init, gap));
        let none = Seq::<char>::empty();
        assert(complementary(class, gap));
        lemma_runs_of_two(init, t.last(), none, class, gap);
        assert(init + seq![t.last()] + none =~= t);
        assert(trim_start(none, gap) =~= none);
        assert(words(none) =~= Seq::empty());
        assert(words(init) + words(none) =~= words(init));
    } else {
        assert(trim_end(t, gap) =~= t);
    }
}

/// The words of several lines, one line after the other.
spec fn words_of_all(parts: Seq<Seq<char>>) -> Seq<Seq<char>>
    decreases parts.len(),
{
    if parts.len() == 0 {
        Seq::empty()
    } else {
        words(parts[0]) + words_of_all(parts.skip(1))
    }
}

proof fn lemma_words_of_join(parts: Seq<Seq<char>>)
    ensures
        words(join(parts, seq![' '])) == words_of_all(parts),
    decreases parts.len(),
{
    let class = CharClass::NonSpace;
    let gap = CharClass::Space;
    let none = Seq::<char>::empty();
    if parts.len() == 0 {
        assert(trim_start(none, gap) =~= none);
        assert(words(none) =~= Seq::empty());
    } else if parts.len() == 1 {
        assert(words_of_all(parts.skip(1)) =~= Seq::empty());
        assert(words_of_all(parts) =~= words(parts[0]));
    } else {
        lemma_join_front(parts, seq![' ']);
        lemma_words_of_join(parts.skip(1));
        assert(complementary(class, gap));
        lemma_runs_of_two(parts[0], ' ', join(parts.skip(1), seq![' ']), class, gap);
    }
}

proof fn lemma_words_of_all(a: Seq<Seq<char>>, b: Seq<Seq<char>>)
    ensures
        words_of_all(a + b) == words_of_all(a) + words_of_all(b),
    decreases a.len(),
{
    if a.len() == 0 {
        assert(a + b =~= b);
        assert(words_of_all(a) + words_of_all(b) =~= words_of_all(b));
    } else {
        lemma_words_of_all(a.skip(1), b);
        assert((a + b).skip(1) =~= a.skip(1) + b);
        assert((a + b)[0] == a[0]);
        assert(words_of_all(a + b) =~= words_of_all(a) + words_of_all(b));
    }
}

proof fn lemma_words_if_not_blank(line: Seq<char>)
    ensures
        words_of_all(if_not_blank(line)) == words(line),
{
    let t = trim(line, CharClass::Space);
    lemma_words_of_trim(line);
    if t.len() > 0 {
        let one = seq![t];
        assert(one.skip(1) =~= Seq::empty());
        assert(words_of_all(one.skip(1)) =~= Seq::empty());
        assert(words_of_all(one) =~= words(t));
    } else {
        assert(t =~= Seq::empty());
        assert(trim_start(t, CharClass::Space) =~= t);
        assert(words(t) =~= Seq::empty());
    }
}

/// Whether `line` ends a section: it is a heading, or lists keywords.
pub open spec fn ends_section(line: Seq<char>) -> bool {
    heading(line) is Some || keyword_line(line) is Some
}

proof fn lemma_section(ls: Seq<Seq<char>>, i: int, e: int)
    requires
        0 <= i <= e <= ls.len(),
        forall|j: int| i <= j < e ==> !ends_section(#[trigger] ls[j]),
        e < ls.len() ==> ends_section(ls[e]),
    ensures
        words_of_all(section(ls, i)) == words_of_all(ls.subrange(i, e)),
    decreases e - i,
{
    if i < e {
        assert(!ends_section(ls[i]));
        lemma_section(ls, i + 1, e);
        lemma_words_of_all(if_not_blank(ls[i]), section(ls, i + 1));
        lemma_words_if_not_blank(ls[i]);
        assert(ls.subrange(i, e).skip(1) =~= ls.subrange(i + 1, e));
    } else {
        assert(ls.subrange(i, e) =~= Seq::empty());
    }
}

proof fn lemma_paragraph(ls: Seq<Seq<char>>, i: int, e: int)
    requires
        0 <= i <= e <= ls.len(),
        forall|j: int| i <= j < e ==> says_something(#[trigger] ls[j]),
        e < ls.len() ==> !says_something(ls[e]),
    ensures
        words_of_all(paragraph(ls, i)) == words_of_all(ls.subrange(i, e)),
    decreases e - i,
{
    if i < ls.len() {
        lemma_says_something(ls[i]);
    }
    if i < e {
        assert(says_something(ls[i]));
        lemma_paragraph(ls, i + 1, e);
        lemma_words_of_all(if_not_blank(ls[i]), paragraph(ls, i + 1));
        lemma_words_if_not_blank(ls[i]);
        assert(ls.subrange(i, e).skip(1) =~= ls.subrange(i + 1, e));
    } else {
        assert(ls.subrange(i, e) =~= Seq::empty());
    }
}

/// The text of lines, with one blank between each two words.
pub open spec fn running_text(ls: Seq<Seq<char>>) -> Seq<char> {
    collapse_ws(join(ls, seq![' ']))
}

/// Whether `line` is a heading that announces the abstract: behind marks it begins with
/// `abstract`, in any case.
pub open spec fn announces_abstract(line: Seq<char>) -> bool {
    heading(line) matches Some(label) && {
        let cleaned = trim(label, CharClass::LabelMark);
        cleaned.len() >= 8 && lower(cleaned).take(8) == "abstract"@
    }
}

proof fn lemma_announces(ls: Seq<Seq<char>>, k: int, e: int)
    requires
        0 <= k < e <= ls.len(),
        forall|j: int| k < j < e ==> !ends_section(#[trigger] ls[j]),
        e < ls.len() ==> ends_section(ls[e]),
    ensures
        abstract_section(ls, k) == if announces_abstract(ls[k]) && running_text(
            ls.subrange(k + 1, e),
        ).len() > 0 {
            Some(running_text(ls.subrange(k + 1, e)))
        } else {
            None
        },
{
    reveal_strlit("abstract");
    lemma_section(ls, k + 1, e);
    lemma_words_of_join(section(ls, k + 1));
    lemma_words_of_join(ls.subrange(k + 1, e));
    if heading(ls[k]) is Some {
        let label = heading(ls[k])->0;
        let t = trim_start(ls[k], CharClass::Space);
        let n = lead(t, CharClass::Only('#'));
        let rest = t.skip(n as int);
        law_trimming_takes_only_the_ends(rest, CharClass::Space);
        let none = Seq::<char>::empty();
        law_trimmed_text_is_found(none, label, none, CharClass::Space);
        assert(none + label + none =~= label);
        let cleaned = trim(label, CharClass::LabelMark);
        if cleaned.len() >= 8 {
            assert(lower(cleaned).subrange(0, 8) =~= lower(cleaned).take(8));
        }
    }
}

proof fn lemma_first_section(ls: Seq<Seq<char>>, i: int, k: int)
    requires
        0 <= i <= k <= ls.len(),
        forall|j: int| i <= j < k ==> #[trigger] abstract_section(ls, j) is None,
        k < ls.len() ==> abstract_section(ls, k) is Some,
    ensures
        first_abstract_section(ls, i) == if k < ls.len() {
            abstract_section(ls, k)
        } else {
            None
        },
    decreases k - i,
{
    if i < k {
        assert(abstract_section(ls, i) is None);
        lemma_first_section(ls, i + 1, k);
    }
}

proof fn lemma_first_paragraph(ls: Seq<Seq<char>>, i: int, k: int)
    requires
        0 <= i <= k <= ls.len(),
        forall|j: int| i <= j < k ==> #[trigger] abstract_paragraph(ls, j) is None,
        k < ls.len() ==> abstract_paragraph(ls, k) is Some,
    ensures
        first_abstract_paragraph(ls, i) == if k < ls.len() {
            abstract_paragraph(ls, k)
        } else {
            None
        },
    decreases k - i,
{
    if i < k {
        assert(abstract_paragraph(ls, i) is None);
        lemma_first_paragraph(ls, i + 1, k);
    }
}

/// Whether `line` is where an abstract under a heading is found: the heading announces it, and
/// the lines from the next one on, up to the line `e` that ends the section, say something.
pub open spec fn abstract_under(ls: Seq<Seq<char>>, k: int, e: int) -> bool {
    &&& 0 <= k < e <= ls.len()
    &&& announces_abstract(ls[k])
    &&& forall|j: int| k < j < e ==> !ends_section(#[trigger] ls[j])
    &&& e < ls.len() ==> ends_section(ls[e])
    &&& running_text(ls.subrange(k + 1, e)).len() > 0
}

proof fn lemma_section_end(ls: Seq<Seq<char>>, k: int) -> (e: int)
    requires
        0 <= k < ls.len(),
    ensures
        k < e <= ls.len(),
        forall|j: int| k < j < e ==> !ends_section(#[trigger] ls[j]),
        e < ls.len() ==> ends_section(ls[e]),
    decreases ls.len() - k,
{
    if k + 1 >= ls.len() || ends_section(ls[k + 1]) {
        k + 1
    } else {
        lemma_section_end(ls, k + 1)
    }
}

proof fn lemma_no_abstract_under(ls: Seq<Seq<char>>, k: int)
    requires
        0 <= k < ls.len(),
        forall|e: int| !#[trigger] abstract_under(ls, k, e),
    ensures
        abstract_section(ls, k) is None,
{
    let e = lemma_section_end(ls, k);
    lemma_announces(ls, k, e);
    assert(!abstract_under(ls, k, e));
}

/// The abstract is the text under the first heading that announces it and has text under it: the
/// words of all lines up to the next heading or list of keywords.
pub proof fn law_abstract_is_the_text_under_its_heading(m: Seq<char>, k: int, e: int)
    requires
        abstract_under(lines(m), k, e),
        forall|j: int, f: int| 0 <= j < k ==> !#[trigger] abstract_under(lines(m), j, f),
    ensures
        abstract_of(m) == Some(running_text(lines(m).subrange(k + 1, e))),
{
    let ls = lines(m);
    lemma_announces(ls, k, e);
    assert forall|j: int| 0 <= j < k implies #[trigger] abstract_section(ls, j) is None by {
        lemma_no_abstract_under(ls, j);
    }
    lemma_first_section(ls, 0, k);
}

/// Whether an abstract begins with its label on the line `k` and ends before the line `e`, which
/// is blank or the end, and says something.
pub open spec fn abstract_behind_label(ls: Seq<Seq<char>>, k: int, e: int) -> bool {
    &&& 0 <= k < e <= ls.len()
    &&& abstract_line(ls[k]) is Some
    &&& forall|j: int| k < j < e ==> says_something(#[trigger] ls[j])
    &&& e < ls.len() ==> !says_something(ls[e])
    &&& running_text(seq![abstract_line(ls[k])->0] + ls.subrange(k + 1, e)).len() > 0
}

proof fn lemma_paragraph_end(ls: Seq<Seq<char>>, k: int) -> (e: int)
    requires
        0 <= k < ls.len(),
    ensures
        k < e <= ls.len(),
        forall|j: int| k < j < e ==> says_something(#[trigger] ls[j]),
        e < ls.len() ==> !says_something(ls[e]),
    decreases ls.len() - k,
{
    if k + 1 >= ls.len() || !says_something(ls[k + 1]) {
        k + 1
    } else {
        lemma_paragraph_end(ls, k + 1)
    }
}

proof fn lemma_labelled(ls: Seq<Seq<char>>, k: int, e: int)
    requires
        0 <= k < e <= ls.len(),
        abstract_line(ls[k]) is Some,
        forall|j: int| k < j < e ==> says_something(#[trigger] ls[j]),
        e < ls.len() ==> !says_something(ls[e]),
    ensures
        ({
            let text = running_text(seq![abstract_line(ls[k])->0] + ls.subrange(k + 1, e));
            abstract_paragraph(ls, k) == if text.len() > 0 {
                Some(text)
            } else {
                None
            }
        }),
{
    let rest = abstract_line(ls[k])->0;
    let whole = seq![rest] + ls.subrange(k + 1, e);
    let found = if_not_blank(rest) + paragraph(ls, k + 1);
    lemma_paragraph(ls, k + 1, e);
    lemma_words_of_all(if_not_blank(rest), paragraph(ls, k + 1));
    lemma_words_if_not_blank(rest);
    assert(whole.skip(1) =~= ls.subrange(k + 1, e));
    lemma_words_of_join(found);
    lemma_words_of_join(whole);
}

/// Without text under such a heading the abstract is the paragraph that begins with its label,
/// from behind the label to the next blank line; without one there is none.
pub proof fn law_else_the_abstract_is_behind_its_label(m: Seq<char>, k: int, e: int)
    requires
        forall|j: int, f: int| !#[trigger] abstract_under(lines(m), j, f),
        k == lines(m).len() || abstract_behind_label(lines(m), k, e),
        forall|j: int, f: int| 0 <= j < k ==> !#[trigger] abstract_behind_label(lines(m), j, f),
    ensures
        k == lines(m).len() ==> abstract_of(m) is None,
        k < lines(m).len() ==> abstract_of(m) == Some(
            running_text(seq![abstract_line(lines(m)[k])->0] + lines(m).subrange(k + 1, e)),
        ),
{
    let ls = lines(m);
    assert forall|j: int| 0 <= j < ls.len() implies #[trigger] abstract_section(ls, j) is None by {
        lemma_no_abstract_under(ls, j);
    }
    lemma_first_section(ls, 0, ls.len() as int);
    assert forall|j: int| 0 <= j < k implies #[trigger] abstract_paragraph(ls, j) is None by {
        if abstract_line(ls[j]) is Some {
            let f = lemma_paragraph_end(ls, j);
            lemma_labelled(ls, j, f);
            assert(!abstract_behind_label(ls, j, f));
        }
    }
    if k < ls.len() {
        lemma_labelled(ls, k, e);
    }
    lemma_first_paragraph(ls, 0, k);
}

proof fn lemma_first_keywords(ls: Seq<Seq<char>>, i: int, k: int)
    requires
        0 <= i <= k <= ls.len(),
        forall|j: int| i <= j < k ==> keyword_line(#[trigger] ls[j]) is None,
        k < ls.len() ==> keyword_line(ls[k]) is Some,
    ensures
        first_keywords(ls, i) == if k < ls.len() {
            keywords_in(list_items(keyword_line(ls[k])->0))
        } else {
            Seq::empty()
        },
    decreases k - i,
{
    if i < k {
        assert(keyword_line(ls[i]) is None);
        lemma_first_keywords(ls, i + 1, k);
    }
}

/// The keywords are those on the first line that lists any, even if there is none on it; without
/// such a line there are none.
pub proof fn law_first_list_of_keywords_counts(m: Seq<char>, k: int)
    requires
        0 <= k <= lines(m).len(),
        forall|j: int| 0 <= j < k ==> keyword_line(#[trigger] lines(m)[j]) is None,
        k < lines(m).len() ==> keyword_line(lines(m)[k]) is Some,
    ensures
        k == lines(m).len() ==> keywords_of(m).len() == 0,
        k < lines(m).len() ==> keywords_of(m) == list_items(
            keyword_line(lines(m)[k])->0,
        ).map_values(|item: Seq<char>| keyword(item)).filter(|word: Seq<char>| word.len() > 0),
{
    lemma_first_keywords(lines(m), 0, k);
    if k < lines(m).len() {
        lemma_keywords_in(list_items(keyword_line(lines(m)[k])->0));
    }
}

proof fn lemma_keywords_in(items: Seq<Seq<char>>)
    ensures
        keywords_in(items) == items.map_values(|item: Seq<char>| keyword(item)).filter(
            |word: Seq<char>| word.len() > 0,
        ),
    decreases items.len(),
{
    let f = |item: Seq<char>| keyword(item);
    let p = |word: Seq<char>| word.len() > 0;
    reveal(Seq::filter);
    if items.len() > 0 {
        let init = items.drop_last();
        lemma_keywords_in(init);
        assert(items.map_values(f).drop_last() =~= init.map_values(f));
        assert(items.map_values(f).last() == keyword(items.last()));
    }
}

/// A keyword is what stands between separators without the white space around it and the full
/// stops behind it, white space before these included.
pub proof fn law_keywords_are_bare(
    before: Seq<char>,
    word: Seq<char>,
    gap: Seq<char>,
    stops: Seq<char>,
    behind: Seq<char>,
)
    requires
        forall|j: int| 0 <= j < before.len() ==> is_white_space(#[trigger] before[j]),
        forall|j: int| 0 <= j < gap.len() ==> is_white_space(#[trigger] gap[j]),
        forall|j: int| 0 <= j < stops.len() ==> #[trigger] stops[j] == '.',
        forall|j: int| 0 <= j < behind.len() ==> is_white_space(#[trigger] behind[j]),
        stops.len() > 0 || gap.len() == 0,
        word.len() > 0,
        !is_white_space(word[0]),
        !is_white_space(word.last()),
        word.last() != '.',
    ensures
        keyword(before + word + gap + stops + behind) == word,
{
    let none = Seq::<char>::empty();
    let kept = word + gap;
    let inner = kept + stops;
    assert(inner[0] == word[0]);
    assert(inner.last() == if stops.len() > 0 {
        stops.last()
    } else {
        word.last()
    });
    law_trimmed_text_is_found(before, inner, behind, CharClass::Space);
    assert(before + word + gap + stops + behind =~= before + inner + behind);
    assert(trim_end(inner, CharClass::Only('.')) == kept) by {
        assert forall|j: int| inner.len() - stops.len() <= j < inner.len() implies CharClass::Only(
            '.',
        ).has(#[trigger] inner[j]) by {
            assert(inner[j] == stops[j - kept.len()]);
        }
        assert(inner[kept.len() - 1] == kept.last());
        if gap.len() > 0 {
            assert(kept.last() == gap[gap.len() - 1]);
        } else {
            assert(kept.last() == word.last());
        }
        lemma_trail_is(inner, CharClass::Only('.'), stops.len());
        assert(inner.take(kept.len() as int) =~= kept);
    }
    law_trimmed_text_is_found(none, word, gap, CharClass::Space);
    assert(none + word + gap =~= kept);
}

// ---- All of it ----

/// What is known of a paper.
pub struct Metadata {
    pub title: Option<Seq<char>>,
    pub abstract_text: Option<Seq<char>>,
    pub keywords: Seq<Seq<char>>,
}

/// What is known of a paper.
#[derive(Clone, Debug, PartialEq, Eq)]
pub struct PaperMetadata {
    pub title: Option<String>,
    pub abstract_text: Option<String>,
    pub keywords: Vec<String>,
}

/// The text in `s`, if there is any.
pub open spec fn option_text(s: Option<String>) -> Option<Seq<char>> {
    match s {
        Some(text) => Some(text@),
        None => None,
    }
}

impl View for PaperMetadata {
    type V = Metadata;

    open spec fn view(&self) -> Metadata {
        Metadata {
            title: option_text(self.title),
            abstract_text: option_text(self.abstract_text),
            keywords: texts(self.keywords@),
        }
    }
}

impl Default for PaperMetadata {
    fn default() -> (r: PaperMetadata)
        ensures
            r.title is None,
            r.abstract_text is None,
            r.keywords@.len() == 0,
    {
        PaperMetadata { title: None, abstract_text: None, keywords: Vec::new() }
    }
}

/// What the text of a paper tells about it.
pub open spec fn metadata_of(m: Seq<char>) -> Metadata {
    Metadata { title: title_of(m), abstract_text: abstract_of(m), keywords: keywords_of(m) }
}

/// What the text of a paper tells about it.
pub fn extract_metadata(markdown: &str) -> (r: PaperMetadata)
    ensures
        r@ == metadata_of(markdown@),
{
    PaperMetadata {
        title: extract_title(markdown),
        abstract_text: extract_abstract(markdown),
        keywords: extract_keywords(markdown),
    }
}

/// A text is cut off behind as many characters as allowed, and only if it has more.
pub proof fn law_only_long_texts_are_cut_off(s: Seq<char>, max: nat)
    ensures
        s.len() <= max ==> truncated(s, max) == s,
        s.len() > max ==> truncated(s, max).len() == max,
        forall|j: int|
            0 <= j < truncated(s, max).len() ==> #[trigger] truncated(s, max)[j] == s[j],
{
}

} // verus!
