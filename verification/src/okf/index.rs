//! The index of a paper, and the index of all papers.

use vstd::prelude::*;

use crate::number::{decimal, decimal_of};
use crate::okf::metadata::{text_is, truncate_chars, truncated, Metadata, PaperMetadata};
use crate::order::{keyed, law_sorted_is_in_order, sort_by_key, sorted};
use crate::paths::{
    absolute, joined_path, law_prefix_of_joined_path, plain_relative, strip_prefix, without_prefix,
    PathStyle,
};
use crate::pieces::{
    collapse_ws, collapsed, join, lemma_collapsed_has_blanks_only, lemma_lines_front, lines, lines_of,
    texts, without_cr,
};
use crate::text::{
    chars_of, copy_of, copy_string, has_prefix, holds, is_white_space, lead, lemma_lead,
    lemma_lead_is, lemma_trail_is, push_all, push_str, spells, starts_with, string_of, trim,
    trim_end, trim_start, trimmed, CharClass,
};

verus! {

// ---- Quoted text ----

/// A character as it stands in quoted text.
pub open spec fn yaml_char(c: char) -> Seq<char> {
    if c == '\\' || c == '"' {
        seq!['\\', c]
    } else {
        seq![c]
    }
}

/// The characters of `s` as they stand in quoted text.
pub open spec fn yaml_chars(s: Seq<char>) -> Seq<char>
    decreases s.len(),
{
    if s.len() == 0 {
        Seq::empty()
    } else {
        yaml_char(s[0]) + yaml_chars(s.skip(1))
    }
}

/// `s` in quotation marks, on one line.
pub open spec fn yaml_text(s: Seq<char>) -> Seq<char> {
    seq!['"'] + yaml_chars(collapse_ws(s)) + seq!['"']
}

/// `s` in quotation marks, on one line.
pub fn yaml_string(s: &[char]) -> (out: Vec<char>)
    ensures
        out@ == yaml_text(s@),
{
    let text = collapsed(s);
    let mut out: Vec<char> = Vec::new();
    out.push('"');
    let ghost all = seq!['"'] + yaml_chars(text@);
    let mut i: usize = 0;
    assert(text@.skip(0) =~= text@);
    assert(out@ + yaml_chars(text@.skip(0)) =~= all);
    while i < text.len()
        invariant
            i <= text@.len(),
            out@ + yaml_chars(text@.skip(i as int)) == all,
        decreases text.len() - i,
    {
        let ghost before = out@;
        let ghost rest = text@.skip(i as int);
        let c = text[i];
        assert(rest[0] == c);
        assert(rest.skip(1) =~= text@.skip(i + 1));
        if c == '\\' || c == '"' {
            out.push('\\');
        }
        out.push(c);
        assert(before + (yaml_char(c) + yaml_chars(rest.skip(1))) =~= out@ + yaml_chars(
            rest.skip(1),
        ));
        i += 1;
    }
    assert(out@ + Seq::<char>::empty() =~= out@);
    out.push('"');
    assert(out@ =~= all + seq!['"']);
    out
}

/// Quoted text without its escapes.
pub open spec fn unescaped(s: Seq<char>) -> Seq<char>
    decreases s.len(),
{
    if s.len() == 0 {
        Seq::empty()
    } else if s[0] == '\\' {
        if s.len() == 1 {
            seq!['\\']
        } else if s[1] == '"' || s[1] == '\\' {
            seq![s[1]] + unescaped(s.skip(2))
        } else {
            seq!['\\', s[1]] + unescaped(s.skip(2))
        }
    } else {
        seq![s[0]] + unescaped(s.skip(1))
    }
}

/// Quoted text without its escapes.
pub fn unescape_yaml_string(s: &[char]) -> (out: Vec<char>)
    ensures
        out@ == unescaped(s@),
{
    let ghost all = unescaped(s@);
    let mut out: Vec<char> = Vec::new();
    let mut i: usize = 0;
    assert(s@.skip(0) =~= s@);
    assert(out@ + all =~= all);
    while i < s.len()
        invariant
            i <= s@.len(),
            out@ + unescaped(s@.skip(i as int)) == all,
        decreases s.len() - i,
    {
        let ghost before = out@;
        let ghost rest = s@.skip(i as int);
        assert(rest[0] == s@[i as int]);
        if s[i] == '\\' {
            if i + 1 == s.len() {
                out.push('\\');
                assert(out@ =~= before + seq!['\\']);
                assert(s@.skip(i + 1) =~= Seq::empty());
                assert(out@ + unescaped(s@.skip(i + 1)) =~= out@);
                i += 1;
            } else {
                let c = s[i + 1];
                assert(rest[1] == c);
                assert(rest.skip(2) =~= s@.skip(i + 2));
                if c == '"' || c == '\\' {
                    out.push(c);
                    assert(before + (seq![c] + unescaped(rest.skip(2))) =~= out@ + unescaped(
                        rest.skip(2),
                    ));
                } else {
                    out.push('\\');
                    out.push(c);
                    assert(before + (seq!['\\', c] + unescaped(rest.skip(2))) =~= out@ + unescaped(
                        rest.skip(2),
                    ));
                }
                i += 2;
            }
        } else {
            out.push(s[i]);
            assert(rest.skip(1) =~= s@.skip(i + 1));
            assert(before + (seq![s@[i as int]] + unescaped(rest.skip(1))) =~= out@ + unescaped(
                rest.skip(1),
            ));
            i += 1;
        }
    }
    assert(s@.skip(i as int) =~= Seq::empty());
    assert(out@ + Seq::<char>::empty() =~= out@);
    out
}

/// Unescaping undoes escaping.
pub proof fn law_unescape_undoes_escape(s: Seq<char>)
    ensures
        unescaped(yaml_chars(s)) == s,
    decreases s.len(),
{
    if s.len() > 0 {
        let rest = yaml_chars(s.skip(1));
        let all = yaml_char(s[0]) + rest;
        law_unescape_undoes_escape(s.skip(1));
        if s[0] == '\\' || s[0] == '"' {
            assert(all.skip(2) =~= rest);
            assert(all[0] == '\\' && all[1] == s[0]);
        } else {
            assert(all.skip(1) =~= rest);
            assert(all[0] == s[0]);
        }
        assert(seq![s[0]] + s.skip(1) =~= s);
    }
}

// ---- The index of a paper ----

/// The number of characters that a description has at most.
pub const DESCRIPTION_LIMIT: usize = 200;

/// The position behind the first full stop at or behind `i` that ends `s` or stands before a
/// blank; the end of `s` if there is none.
pub open spec fn sentence_end(s: Seq<char>, i: int) -> int
    decreases s.len() - i,
{
    if i < 0 || i >= s.len() {
        s.len() as int
    } else if s[i] == '.' && (i + 1 == s.len() || s[i + 1] == ' ') {
        i + 1
    } else {
        sentence_end(s, i + 1)
    }
}

/// A description: the first sentence of the abstract, cut off at the limit.
pub open spec fn description_of(abstract_text: Seq<char>) -> Seq<char> {
    let text = collapse_ws(abstract_text);
    truncated(text.take(sentence_end(text, 0)), DESCRIPTION_LIMIT as nat)
}

/// A description made from the abstract.
pub fn description_from_abstract(abstract_text: &[char]) -> (out: Vec<char>)
    ensures
        out@ == description_of(abstract_text@),
{
    let text = collapsed(abstract_text);
    let mut i: usize = 0;
    while i < text.len() && !(text[i] == '.' && (i + 1 == text.len() || text[i + 1] == ' '))
        invariant
            i <= text@.len(),
            sentence_end(text@, 0) == sentence_end(text@, i as int),
        decreases text.len() - i,
    {
        i += 1;
    }
    let end = if i < text.len() {
        i + 1
    } else {
        i
    };
    let sentence = vstd::slice::slice_subrange(text.as_slice(), 0, end);
    assert(sentence@ =~= text@.take(end as int));
    truncate_chars(sentence, DESCRIPTION_LIMIT)
}

/// Whether `n` characters of `s` are a sentence: the last of them is a full stop, and a blank or
/// nothing stands behind it.
pub open spec fn sentence_of(s: Seq<char>, n: int) -> bool {
    0 < n <= s.len() && s[n - 1] == '.' && (n == s.len() || s[n] == ' ')
}

proof fn lemma_sentence_end(s: Seq<char>, i: int)
    requires
        0 <= i <= s.len(),
    ensures
        i <= sentence_end(s, i) <= s.len(),
        sentence_end(s, i) < s.len() ==> sentence_of(s, sentence_end(s, i)),
        forall|n: int| i < n < sentence_end(s, i) ==> !#[trigger] sentence_of(s, n),
        sentence_end(s, i) == i ==> i == s.len(),
    decreases s.len() - i,
{
    if i < s.len() && !(s[i] == '.' && (i + 1 == s.len() || s[i + 1] == ' ')) {
        lemma_sentence_end(s, i + 1);
        assert(!sentence_of(s, i + 1));
    }
}

/// A description is the first sentence of the abstract with its white space collapsed, or all of
/// it if there is no sentence, cut off behind 200 characters: a full stop with another character
/// than a blank behind it ends no sentence.
pub proof fn law_description_is_the_first_sentence(abstract_text: Seq<char>, n: int)
    requires
        0 <= n <= collapse_ws(abstract_text).len(),
        n < collapse_ws(abstract_text).len() ==> sentence_of(collapse_ws(abstract_text), n),
        forall|k: int| 0 < k < n ==> !#[trigger] sentence_of(collapse_ws(abstract_text), k),
    ensures
        n <= 200 ==> description_of(abstract_text) == collapse_ws(abstract_text).take(n),
        n > 200 ==> description_of(abstract_text) == collapse_ws(abstract_text).take(200),
{
    let s = collapse_ws(abstract_text);
    lemma_sentence_end(s, 0);
    let e = sentence_end(s, 0);
    if n < e {
        assert(!sentence_of(s, n));
    }
    if e < n {
        assert(sentence_of(s, e));
    }
    if n > 200 {
        assert(s.take(n).take(200) =~= s.take(200));
    }
}

/// Whether a keyword has a character that must be quoted.
pub open spec fn needs_quotes(word: Seq<char>) -> bool {
    word.contains(',') || word.contains(':') || word.contains('"') || word.contains('[')
        || word.contains(']')
}

/// A keyword in a list.
pub open spec fn keyword_text(word: Seq<char>) -> Seq<char> {
    if needs_quotes(word) {
        yaml_text(word)
    } else {
        word
    }
}

/// A keyword in a list.
pub fn render_keyword(word: &[char]) -> (out: Vec<char>)
    ensures
        out@ == keyword_text(word@),
{
    if holds(word, ',') || holds(word, ':') || holds(word, '"') || holds(word, '[') || holds(
        word,
        ']',
    ) {
        yaml_string(word)
    } else {
        copy_of(word)
    }
}

/// The first `n` keywords, with a comma and a blank between each two.
pub open spec fn keyword_list(words: Seq<Seq<char>>, n: nat) -> Seq<char>
    decreases n,
{
    if n == 0 {
        Seq::empty()
    } else {
        keyword_list(words, (n - 1) as nat) + (if n > 1 {
            ", "@
        } else {
            Seq::empty()
        }) + keyword_text(words[n - 1])
    }
}

/// A line with a name and a value.
pub open spec fn field(name: Seq<char>, value: Seq<char>) -> Seq<char> {
    name + value
}

/// The lines of the front matter that tell about the abstract and the keywords.
pub open spec fn optional_lines(meta: Metadata) -> Seq<Seq<char>> {
    (match meta.abstract_text {
        Some(text) => seq![
            field("description: "@, yaml_text(description_of(text))),
            field("abstract: "@, yaml_text(text)),
        ],
        None => Seq::empty(),
    }) + (if meta.keywords.len() > 0 {
        seq!["keywords: ["@ + keyword_list(meta.keywords, meta.keywords.len()) + "]"@]
    } else {
        Seq::empty()
    })
}

/// The title of a paper: its stem if it has none.
pub open spec fn shown_title(meta: Metadata, stem: Seq<char>) -> Seq<char> {
    match meta.title {
        Some(title) => title,
        None => stem,
    }
}

/// The lines of the front matter.
pub open spec fn front_lines(
    meta: Metadata,
    stem: Seq<char>,
    source: Seq<char>,
    timestamp: Seq<char>,
) -> Seq<Seq<char>> {
    seq!["---"@, "type: Article"@, field("title: "@, yaml_text(shown_title(meta, stem)))]
        + optional_lines(meta) + seq![
        field("source: "@, yaml_text(source)),
        field("timestamp: "@, timestamp),
        "---"@,
    ]
}

/// Lines, each with a line feed behind it.
pub open spec fn with_feeds(ls: Seq<Seq<char>>) -> Seq<char>
    decreases ls.len(),
{
    if ls.len() == 0 {
        Seq::empty()
    } else {
        with_feeds(ls.drop_last()) + ls.last() + seq!['\n']
    }
}

/// What a paper's directory holds.
pub open spec fn contents(figures: nat, tables: nat) -> Seq<char> {
    "\n# Contents\n\n"@ + "* [Manuscript](manuscript.md) - Full parsed text of the manuscript.\n"@
        + "* [figures/](figures/) - "@ + decimal(figures) + " downloaded figure file(s).\n"@
        + "* [tables/](tables/) - "@ + decimal(tables) + " extracted table artifact(s).\n"@
}

/// The index of a paper: front matter, and what its directory holds.
pub open spec fn paper_index(
    meta: Metadata,
    stem: Seq<char>,
    source: Seq<char>,
    timestamp: Seq<char>,
    figures: nat,
    tables: nat,
) -> Seq<char> {
    with_feeds(front_lines(meta, stem, source, timestamp)) + contents(figures, tables)
}

proof fn lemma_with_feeds_append(a: Seq<Seq<char>>, b: Seq<Seq<char>>)
    ensures
        with_feeds(a + b) == with_feeds(a) + with_feeds(b),
    decreases b.len(),
{
    if b.len() == 0 {
        assert(a + b =~= a);
        assert(with_feeds(a) + with_feeds(b) =~= with_feeds(a));
    } else {
        assert((a + b).drop_last() =~= a + b.drop_last());
        lemma_with_feeds_append(a, b.drop_last());
        assert(with_feeds(a) + with_feeds(b.drop_last()) + b.last() + seq!['\n'] =~= with_feeds(a)
            + with_feeds(b));
    }
}

proof fn lemma_with_feeds_one(line: Seq<char>)
    ensures
        with_feeds(seq![line]) == line + seq!['\n'],
{
    assert(seq![line].drop_last() =~= Seq::empty());
    assert(with_feeds(Seq::<Seq<char>>::empty()) =~= Seq::empty());
    assert(with_feeds(seq![line]) =~= line + seq!['\n']);
}

/// Appends a line with a name and a quoted value.
fn push_quoted(out: &mut Vec<char>, name: &str, value: &[char], Ghost(ls): Ghost<Seq<Seq<char>>>)
    requires
        old(out)@ == with_feeds(ls),
    ensures
        final(out)@ == with_feeds(ls.push(field(name@, yaml_text(value@)))),
{
    push_str(out, name);
    let quoted = yaml_string(value);
    push_all(out, &quoted);
    out.push('\n');
    proof {
        let line = field(name@, yaml_text(value@));
        assert(ls.push(line).drop_last() =~= ls);
        assert(out@ =~= with_feeds(ls) + line + seq!['\n']);
    }
}

fn push_keywords(out: &mut Vec<char>, words: &Vec<String>)
    ensures
        final(out)@ == old(out)@ + keyword_list(texts(words@), words@.len()),
{
    let ghost start = out@;
    let ghost all = texts(words@);
    let mut i: usize = 0;
    assert(out@ =~= start + keyword_list(all, 0));
    while i < words.len()
        invariant
            i <= words@.len(),
            all == texts(words@),
            out@ == start + keyword_list(all, i as nat),
        decreases words.len() - i,
    {
        if i > 0 {
            push_str(out, ", ");
        }
        let word = chars_of(words[i].as_str());
        let shown = render_keyword(&word);
        push_all(out, &shown);
        i += 1;
        assert(out@ =~= start + keyword_list(all, i as nat));
    }
}

/// The index of a paper: front matter, and what its directory holds.
pub fn render_paper_index(
    meta: &PaperMetadata,
    stem: &str,
    source_rel: &str,
    timestamp: &str,
    figures_count: usize,
    tables_count: usize,
) -> (r: String)
    ensures
        r@ == paper_index(
            meta@,
            stem@,
            source_rel@,
            timestamp@,
            figures_count as nat,
            tables_count as nat,
        ),
{
    let ghost m = meta@;
    let title = match &meta.title {
        Some(title) => chars_of(title.as_str()),
        None => chars_of(stem),
    };
    let mut out: Vec<char> = chars_of("---");
    out.push('\n');
    push_str(&mut out, "type: Article");
    out.push('\n');
    let ghost mut ls: Seq<Seq<char>> = seq!["---"@, "type: Article"@];
    proof {
        lemma_with_feeds_one("---"@);
        lemma_with_feeds_one("type: Article"@);
        lemma_with_feeds_append(seq!["---"@], seq!["type: Article"@]);
        assert(ls =~= seq!["---"@] + seq!["type: Article"@]);
        assert(out@ =~= with_feeds(ls));
    }
    push_quoted(&mut out, "title: ", &title, Ghost(ls));
    proof {
        ls = ls.push(field("title: "@, yaml_text(shown_title(m, stem@))));
    }
    let ghost head = ls;
    match &meta.abstract_text {
        Some(text) => {
            let text = chars_of(text.as_str());
            let description = description_from_abstract(&text);
            push_quoted(&mut out, "description: ", &description, Ghost(ls));
            proof {
                ls = ls.push(field("description: "@, yaml_text(description_of(text@))));
            }
            push_quoted(&mut out, "abstract: ", &text, Ghost(ls));
            proof {
                ls = ls.push(field("abstract: "@, yaml_text(text@)));
            }
        },
        None => {},
    }
    if meta.keywords.len() > 0 {
        push_str(&mut out, "keywords: [");
        push_keywords(&mut out, &meta.keywords);
        push_str(&mut out, "]");
        out.push('\n');
        proof {
            let line = "keywords: ["@ + keyword_list(m.keywords, m.keywords.len()) + "]"@;
            assert(out@ =~= with_feeds(ls) + line + seq!['\n']);
            assert(ls.push(line).drop_last() =~= ls);
            ls = ls.push(line);
        }
    }
    assert(ls =~= head + optional_lines(m));
    let source = chars_of(source_rel);
    push_quoted(&mut out, "source: ", &source, Ghost(ls));
    proof {
        ls = ls.push(field("source: "@, yaml_text(source_rel@)));
    }
    push_str(&mut out, "timestamp: ");
    push_str(&mut out, timestamp);
    out.push('\n');
    proof {
        let line = field("timestamp: "@, timestamp@);
        assert(out@ =~= with_feeds(ls) + line + seq!['\n']);
        assert(ls.push(line).drop_last() =~= ls);
        ls = ls.push(line);
    }
    push_str(&mut out, "---");
    out.push('\n');
    proof {
        assert(out@ =~= with_feeds(ls) + "---"@ + seq!['\n']);
        assert(ls.push("---"@).drop_last() =~= ls);
        ls = ls.push("---"@);
        assert(ls =~= front_lines(m, stem@, source_rel@, timestamp@));
    }
    let ghost front = out@;
    push_str(&mut out, "\n# Contents\n\n");
    push_str(&mut out, "* [Manuscript](manuscript.md) - Full parsed text of the manuscript.\n");
    push_str(&mut out, "* [figures/](figures/) - ");
    let figures = decimal_of(figures_count);
    push_all(&mut out, &figures);
    push_str(&mut out, " downloaded figure file(s).\n");
    push_str(&mut out, "* [tables/](tables/) - ");
    let tables = decimal_of(tables_count);
    push_all(&mut out, &tables);
    push_str(&mut out, " extracted table artifact(s).\n");
    assert(out@ =~= front + contents(figures_count as nat, tables_count as nat));
    string_of(&out)
}

// ---- Reading an index back ----

/// A value in front matter: what stands between quotation marks, or the bare text.
pub open spec fn front_value(value: Seq<char>) -> Seq<char> {
    let t = trim(value, CharClass::Space);
    if t.len() >= 2 && t[0] == '"' && t.last() == '"' {
        unescaped(t.subrange(1, t.len() - 1))
    } else {
        t
    }
}

/// A value in front matter.
pub fn parse_frontmatter_value(value: &[char]) -> (out: Vec<char>)
    ensures
        out@ == front_value(value@),
{
    let t = trimmed(value, CharClass::Space);
    if t.len() >= 2 && t[0] == '"' && t[t.len() - 1] == '"' {
        unescape_yaml_string(vstd::slice::slice_subrange(t, 1, t.len() - 1))
    } else {
        copy_of(t)
    }
}

/// Title and description in the front matter from the line `i` on, where `title` and
/// `description` stand before; the last of each counts.
pub open spec fn summary_from(
    ls: Seq<Seq<char>>,
    i: int,
    title: Option<Seq<char>>,
    description: Option<Seq<char>>,
) -> Option<(Seq<char>, Seq<char>)>
    decreases ls.len() - i,
{
    if i < 0 || i >= ls.len() || ls[i] == "---"@ {
        match title {
            Some(title) => Some(
                (
                    title,
                    match description {
                        Some(text) => text,
                        None => Seq::empty(),
                    },
                ),
            ),
            None => None,
        }
    } else if has_prefix(ls[i], "title:"@) {
        summary_from(ls, i + 1, Some(front_value(ls[i].skip(6))), description)
    } else if has_prefix(ls[i], "description:"@) {
        summary_from(ls, i + 1, title, Some(front_value(ls[i].skip(12))))
    } else {
        summary_from(ls, i + 1, title, description)
    }
}

/// Title and description in the front matter of an index, if it has a title.
pub open spec fn summary_of(content: Seq<char>) -> Option<(Seq<char>, Seq<char>)> {
    let ls = lines(content);
    if ls.len() == 0 || ls[0] != "---"@ {
        None
    } else {
        summary_from(ls, 1, None, None)
    }
}

/// Title and description in the front matter of an index, if it has a title.
pub fn parse_frontmatter_summary(content: &str) -> (r: Option<(String, String)>)
    ensures
        match summary_of(content@) {
            Some((title, description)) => r is Some && (r->0).0@ == title && (r->0).1@
                == description,
            None => r is None,
        },
{
    let chars = chars_of(content);
    let ls = lines_of(&chars);
    let ghost all = texts(ls@);
    if ls.len() == 0 {
        return None;
    }
    assert(all[0] == ls@[0]@);
    if !spells(ls[0], "---") {
        return None;
    }
    let mut title: Option<Vec<char>> = None;
    let mut description: Option<Vec<char>> = None;
    let mut i: usize = 1;
    let ghost mut t: Option<Seq<char>> = None;
    let ghost mut d: Option<Seq<char>> = None;
    let mut open: bool = true;
    proof {
        reveal_strlit("title:");
        reveal_strlit("description:");
    }
    while open && i < ls.len()
        invariant
            i <= ls@.len(),
            all == texts(ls@),
            "title:"@.len() == 6,
            "description:"@.len() == 12,
            text_is(title, t),
            text_is(description, d),
            open ==> summary_of(content@) == summary_from(all, i as int, t, d),
            !open ==> summary_of(content@) == summary_from(all, all.len() as int, t, d),
        decreases ls.len() - i,
    {
        let line = ls[i];
        assert(all[i as int] == line@);
        if spells(line, "---") {
            open = false;
        } else if starts_with(line, "title:") {
            let value = vstd::slice::slice_subrange(line, 6, line.len());
            assert(value@ =~= line@.skip(6));
            title = Some(parse_frontmatter_value(value));
            proof {
                t = Some(front_value(line@.skip(6)));
            }
        } else if starts_with(line, "description:") {
            let value = vstd::slice::slice_subrange(line, 12, line.len());
            assert(value@ =~= line@.skip(12));
            description = Some(parse_frontmatter_value(value));
            proof {
                d = Some(front_value(line@.skip(12)));
            }
        }
        i += 1;
    }
    match title {
        None => None,
        Some(title) => {
            let shown = match description {
                Some(text) => string_of(&text),
                None => String::new(),
            };
            assert(description is None ==> shown@ =~= Seq::empty());
            Some((string_of(&title), shown))
        },
    }
}

// ---- What is read back ----

/// Text in quotation marks keeps to its line.
proof fn lemma_yaml_text(s: Seq<char>)
    ensures
        !yaml_text(s).contains('\n'),
        yaml_text(s).len() >= 2,
        yaml_text(s)[0] == '"',
        yaml_text(s).last() == '"',
{
    lemma_collapsed_has_blanks_only(s);
    lemma_yaml_chars(collapse_ws(s));
    let t = yaml_text(s);
    let inner = yaml_chars(collapse_ws(s));
    if t.contains('\n') {
        let j = choose|j: int| 0 <= j < t.len() && t[j] == '\n';
        assert(t[j] == inner[j - 1]);
        assert(inner.contains('\n'));
    }
}

proof fn lemma_yaml_chars(s: Seq<char>)
    requires
        forall|j: int| 0 <= j < s.len() ==> (#[trigger] s[j]) == ' ' || !is_white_space(s[j]),
    ensures
        !yaml_chars(s).contains('\n'),
    decreases s.len(),
{
    if s.len() > 0 {
        let rest = s.skip(1);
        assert forall|j: int| 0 <= j < rest.len() implies (#[trigger] rest[j]) == ' '
            || !is_white_space(rest[j]) by {
            assert(rest[j] == s[j + 1]);
        }
        lemma_yaml_chars(rest);
        let all = yaml_chars(s);
        let n = yaml_char(s[0]).len();
        if all.contains('\n') {
            let j = choose|j: int| 0 <= j < all.len() && all[j] == '\n';
            if j < n {
                assert(all[j] == yaml_char(s[0])[j]);
            } else {
                assert(all[j] == yaml_chars(rest)[j - n]);
                assert(yaml_chars(rest).contains('\n'));
            }
        }
    }
}

/// A quoted value behind a blank is read back with its white space collapsed.
proof fn lemma_quoted_value(name: Seq<char>, s: Seq<char>)
    requires
        name.len() > 0,
        name.last() == ' ',
    ensures
        front_value(field(name, yaml_text(s)).skip(name.len() - 1)) == collapse_ws(s),
{
    let q = yaml_text(s);
    let v = field(name, q).skip(name.len() - 1);
    lemma_yaml_text(s);
    assert(v =~= seq![' '] + q);
    lemma_lead_is(v, CharClass::Space, 1);
    let t = trim_start(v, CharClass::Space);
    assert(t =~= q);
    lemma_trail_is(q, CharClass::Space, 0);
    assert(trim_end(q, CharClass::Space) =~= q);
    assert(q.subrange(1, q.len() - 1) =~= yaml_chars(collapse_ws(s)));
    law_unescape_undoes_escape(collapse_ws(s));
}

proof fn lemma_concat_holds_no(a: Seq<char>, b: Seq<char>, c: char)
    requires
        !a.contains(c),
        !b.contains(c),
    ensures
        !(a + b).contains(c),
{
    let s = a + b;
    if s.contains(c) {
        let j = choose|j: int| 0 <= j < s.len() && s[j] == c;
        if j < a.len() {
            assert(a[j] == c);
        } else {
            assert(b[j - a.len()] == c);
        }
    }
}

/// Whether a line begins at `p` in `x`.
pub open spec fn line_begins(x: Seq<char>, p: int) -> bool {
    0 <= p <= x.len() && (p == 0 || x[p - 1] == '\n')
}

/// Whether the text at `p` would be read as a title or a description.
pub open spec fn tells(x: Seq<char>, p: int) -> bool {
    has_prefix(x.skip(p), "title:"@) || has_prefix(x.skip(p), "description:"@)
}

/// Whether the line at `p` ends the front matter.
pub open spec fn closes(x: Seq<char>, p: int) -> bool {
    without_cr(x.skip(p).take(lead(x.skip(p), CharClass::Except('\n')) as int)) == "---"@
}

/// Whether no line of `x` is read as a title or a description, unless one before it ends the
/// front matter.
pub open spec fn quiet(x: Seq<char>) -> bool {
    forall|p: int|
        line_begins(x, p) && #[trigger] tells(x, p) ==> exists|q: int|
            q < p && line_begins(x, q) && #[trigger] closes(x, q)
}

/// What is read where the front matter ends.
spec fn heard(title: Option<Seq<char>>, description: Option<Seq<char>>) -> Option<
    (Seq<char>, Seq<char>),
> {
    summary_from(Seq::empty(), 0, title, description)
}

/// Reading depends on the lines from `i` on alone.
proof fn lemma_summary_behind(
    a: Seq<Seq<char>>,
    b: Seq<Seq<char>>,
    i: int,
    title: Option<Seq<char>>,
    description: Option<Seq<char>>,
)
    requires
        0 <= i <= b.len(),
    ensures
        summary_from(a + b, a.len() + i, title, description) == summary_from(
            b,
            i,
            title,
            description,
        ),
    decreases b.len() - i,
{
    let at = a.len() + i;
    if i < b.len() {
        assert((a + b)[at] == b[i]);
        let line = b[i];
        if line != "---"@ {
            if has_prefix(line, "title:"@) {
                lemma_summary_behind(a, b, i + 1, Some(front_value(line.skip(6))), description);
            } else if has_prefix(line, "description:"@) {
                lemma_summary_behind(a, b, i + 1, title, Some(front_value(line.skip(12))));
            } else {
                lemma_summary_behind(a, b, i + 1, title, description);
            }
        }
    }
}

/// A line begins with `prefix` if the text that it begins does; a carriage return at its end is
/// no part of it.
proof fn lemma_line_prefix(x: Seq<char>, n: int, prefix: Seq<char>)
    requires
        0 <= n <= x.len(),
        prefix.len() > 0,
        has_prefix(without_cr(x.take(n)), prefix),
    ensures
        has_prefix(x, prefix),
{
    let line = without_cr(x.take(n));
    assert(x.subrange(0, prefix.len() as int) =~= line.subrange(0, prefix.len() as int));
}

/// Quiet text changes nothing of what is read.
proof fn lemma_quiet_text(
    x: Seq<char>,
    after: Seq<char>,
    title: Option<Seq<char>>,
    description: Option<Seq<char>>,
)
    requires
        quiet(x),
        summary_from(lines(after), 0, title, description) == heard(title, description),
    ensures
        summary_from(lines(x + seq!['\n'] + after), 0, title, description) == heard(
            title,
            description,
        ),
    decreases x.len(),
{
    let class = CharClass::Except('\n');
    let n = lead(x, class) as int;
    let line = x.take(n);
    lemma_lead(x, class);
    assert(!line.contains('\n')) by {
        if line.contains('\n') {
            let j = choose|j: int| 0 <= j < line.len() && line[j] == '\n';
            assert(class.has(x[j]));
        }
    }
    let behind = if n < x.len() {
        x.skip(n + 1) + seq!['\n'] + after
    } else {
        after
    };
    assert(x + seq!['\n'] + after =~= line + seq!['\n'] + behind);
    lemma_lines_front(line, behind);
    let ls = lines(x + seq!['\n'] + after);
    let first = without_cr(line);
    assert(ls == seq![first] + lines(behind));
    assert(x.skip(0) =~= x);
    if first != "---"@ {
        reveal_strlit("title:");
        reveal_strlit("description:");
        assert(!closes(x, 0));
        assert(!tells(x, 0)) by {
            assert(line_begins(x, 0));
        }
        if has_prefix(first, "title:"@) {
            lemma_line_prefix(x, n, "title:"@);
        }
        if has_prefix(first, "description:"@) {
            lemma_line_prefix(x, n, "description:"@);
        }
        lemma_summary_behind(seq![first], lines(behind), 0, title, description);
        if n < x.len() {
            let rest = x.skip(n + 1);
            assert forall|p: int| line_begins(rest, p) && #[trigger] tells(rest, p) implies exists|
                q: int,
            | q < p && line_begins(rest, q) && #[trigger] closes(rest, q) by {
                assert(rest.skip(p) =~= x.skip(n + 1 + p));
                assert(tells(x, n + 1 + p));
                assert(line_begins(x, n + 1 + p));
                let q = choose|q: int|
                    q < n + 1 + p && line_begins(x, q) && #[trigger] closes(x, q);
                assert(q > n) by {
                    if 0 < q <= n {
                        assert(class.has(x[q - 1]));
                    }
                }
                assert(rest.skip(q - n - 1) =~= x.skip(q));
                assert(closes(rest, q - n - 1));
                assert(line_begins(rest, q - n - 1));
            }
            lemma_quiet_text(rest, after, title, description);
        }
    }
}

/// Text on one line is quiet if it begins with another name.
proof fn lemma_quiet_line(name: Seq<char>, value: Seq<char>, k: int)
    requires
        0 <= k < 5,
        k < name.len(),
        name[0] != 'd',
        name[k] != "title:"@[k],
        !(name + value).contains('\n'),
    ensures
        quiet(name + value),
{
    let x = name + value;
    reveal_strlit("title:");
    reveal_strlit("description:");
    assert forall|p: int| line_begins(x, p) implies !#[trigger] tells(x, p) by {
        if p > 0 {
            assert(x.contains(x[p - 1]));
        }
        assert(x.skip(0) =~= x);
        lemma_other_prefix(x, "title:"@, k);
        lemma_other_prefix(x, "description:"@, 0);
    }
}

/// Whether a comma or a closing bracket stands in `x` at or behind `p`, with no colon between.
spec fn ends_before_colon(x: Seq<char>, p: int) -> bool {
    exists|q: int|
        p <= q < x.len() && (#[trigger] x[q] == ',' || x[q] == ']') && forall|j: int|
            p <= j < q ==> #[trigger] x[j] != ':'
}

/// Whether that holds of every line of `x` but the first.
spec fn lines_end_before_colon(x: Seq<char>) -> bool {
    forall|p: int| 0 < p <= x.len() && #[trigger] x[p - 1] == '\n' ==> ends_before_colon(x, p)
}

proof fn lemma_ends_before_colon(x: Seq<char>, p: int)
    requires
        0 <= p <= x.len(),
        ends_before_colon(x, p),
    ensures
        !tells(x, p),
{
    let q = choose|q: int|
        p <= q < x.len() && (#[trigger] x[q] == ',' || x[q] == ']') && forall|j: int|
            p <= j < q ==> #[trigger] x[j] != ':';
    let t = x.skip(p);
    reveal_strlit("title:");
    reveal_strlit("description:");
    if has_prefix(t, "title:"@) {
        assert forall|j: int| 0 <= j < 6 implies #[trigger] t[j] == "title:"@[j] by {
            assert(t.subrange(0, 6)[j] == t[j]);
        }
        if q > p + 5 {
            assert(x[p + 5] == t[5]);
        } else {
            assert(x[q] == t[q - p]);
        }
    }
    if has_prefix(t, "description:"@) {
        assert forall|j: int| 0 <= j < 12 implies #[trigger] t[j] == "description:"@[j] by {
            assert(t.subrange(0, 12)[j] == t[j]);
        }
        if q > p + 11 {
            assert(x[p + 11] == t[11]);
        } else {
            assert(x[q] == t[q - p]);
        }
    }
}

/// A keyword behind a text, with a comma or a closing bracket behind it.
proof fn lemma_keyword_behind(before: Seq<char>, word: Seq<char>, end: char)
    requires
        lines_end_before_colon(before),
        before.len() > 0 ==> before.last() != '\n',
        end == ',' || end == ']',
    ensures
        lines_end_before_colon(before + keyword_text(word) + seq![end]),
{
    let text = keyword_text(word);
    let x = before + text + seq![end];
    let n = before.len() as int;
    let m = n + text.len();
    assert(x[m] == end);
    assert forall|p: int| 0 < p <= x.len() && #[trigger] x[p - 1] == '\n' implies
        ends_before_colon(x, p) by {
        if p <= n {
            assert(before[p - 1] == x[p - 1]);
            let q = choose|q: int|
                p <= q < before.len() && (#[trigger] before[q] == ',' || before[q] == ']')
                    && forall|j: int| p <= j < q ==> #[trigger] before[j] != ':';
            assert(x[q] == before[q]);
            assert forall|j: int| p <= j < q implies #[trigger] x[j] != ':' by {
                assert(x[j] == before[j]);
            }
        } else {
            assert(p <= m);
            assert(text[p - 1 - n] == '\n');
            assert(text.contains('\n'));
            lemma_yaml_text(word);
            assert(!needs_quotes(word));
            assert forall|j: int| p <= j < m implies #[trigger] x[j] != ':' by {
                assert(x[j] == word[j - n]);
                assert(word.contains(word[j - n]));
            }
        }
    }
}

proof fn lemma_keyword_list(before: Seq<char>, words: Seq<Seq<char>>, n: nat, end: char)
    requires
        lines_end_before_colon(before),
        before.len() > 0 && before.last() != '\n',
        0 < n <= words.len(),
        end == ',' || end == ']',
    ensures
        lines_end_before_colon(before + keyword_list(words, n) + seq![end]),
    decreases n,
{
    reveal_strlit(", ");
    let word = words[n - 1];
    if n == 1 {
        assert(keyword_list(words, 0) =~= Seq::empty());
        assert(keyword_list(words, 1) =~= keyword_text(word));
        lemma_keyword_behind(before, word, end);
    } else {
        let list = keyword_list(words, (n - 1) as nat);
        lemma_keyword_list(before, words, (n - 1) as nat, ',');
        let head = before + list + seq![','];
        let more = head + seq![' '];
        assert forall|p: int| 0 < p <= more.len() && #[trigger] more[p - 1] == '\n' implies
            ends_before_colon(more, p) by {
            assert(head[p - 1] == more[p - 1]);
            let q = choose|q: int|
                p <= q < head.len() && (#[trigger] head[q] == ',' || head[q] == ']')
                    && forall|j: int| p <= j < q ==> #[trigger] head[j] != ':';
            assert(more[q] == head[q]);
            assert forall|j: int| p <= j < q implies #[trigger] more[j] != ':' by {
                assert(more[j] == head[j]);
            }
        }
        lemma_keyword_behind(more, word, end);
        assert(before + keyword_list(words, n) + seq![end] =~= more + keyword_text(word)
            + seq![end]);
    }
}

/// The line of the keywords is quiet, whatever they hold.
proof fn lemma_quiet_keywords(words: Seq<Seq<char>>)
    requires
        words.len() > 0,
    ensures
        quiet("keywords: ["@ + keyword_list(words, words.len()) + "]"@),
{
    let name = "keywords: ["@;
    let x = name + keyword_list(words, words.len()) + "]"@;
    reveal_strlit("keywords: [");
    reveal_strlit("]");
    reveal_strlit("title:");
    reveal_strlit("description:");
    assert(lines_end_before_colon(name));
    lemma_keyword_list(name, words, words.len(), ']');
    assert("]"@ =~= seq![']']);
    assert forall|p: int| line_begins(x, p) implies !#[trigger] tells(x, p) by {
        if p == 0 {
            assert(x.skip(0) =~= x);
            assert(x[0] == 'k');
            lemma_other_prefix(x, "title:"@, 0);
            lemma_other_prefix(x, "description:"@, 0);
        } else {
            assert(x[p - 1] == '\n');
            lemma_ends_before_colon(x, p);
        }
    }
}

/// A line that differs from `prefix` at `k` does not begin with it.
proof fn lemma_other_prefix(line: Seq<char>, prefix: Seq<char>, k: int)
    requires
        0 <= k < prefix.len(),
        k < line.len() ==> line[k] != prefix[k],
    ensures
        !has_prefix(line, prefix),
{
    if has_prefix(line, prefix) {
        assert(line.subrange(0, prefix.len() as int)[k] == line[k]);
    }
}

/// Text on one line, read by itself.
proof fn lemma_one_line(
    line: Seq<char>,
    after: Seq<char>,
    title: Option<Seq<char>>,
    description: Option<Seq<char>>,
)
    requires
        !line.contains('\n'),
        line.len() > 0 && line.last() != '\r',
        line != "---"@,
    ensures
        summary_from(lines(line + seq!['\n'] + after), 0, title, description) == if has_prefix(
            line,
            "title:"@,
        ) {
            summary_from(lines(after), 0, Some(front_value(line.skip(6))), description)
        } else if has_prefix(line, "description:"@) {
            summary_from(lines(after), 0, title, Some(front_value(line.skip(12))))
        } else {
            summary_from(lines(after), 0, title, description)
        },
{
    lemma_lines_front(line, after);
    let ls = lines(line + seq!['\n'] + after);
    assert(ls[0] == line);
    let t = Some(front_value(line.skip(6)));
    let d = Some(front_value(line.skip(12)));
    lemma_summary_behind(seq![line], lines(after), 0, t, description);
    lemma_summary_behind(seq![line], lines(after), 0, title, d);
    lemma_summary_behind(seq![line], lines(after), 0, title, description);
}

/// Lines that are quiet, up to the end of the front matter.
proof fn lemma_quiet_lines(
    ls: Seq<Seq<char>>,
    tail: Seq<char>,
    title: Option<Seq<char>>,
    description: Option<Seq<char>>,
)
    requires
        forall|i: int| 0 <= i < ls.len() ==> quiet(#[trigger] ls[i]),
    ensures
        summary_from(lines(with_feeds(ls) + ("---"@ + seq!['\n'] + tail)), 0, title, description)
            == heard(title, description),
    decreases ls.len(),
{
    let end = "---"@ + seq!['\n'] + tail;
    if ls.len() == 0 {
        reveal_strlit("---");
        assert(with_feeds(ls) + end =~= end);
        lemma_lines_front("---"@, tail);
        assert(lines(end)[0] == "---"@);
    } else {
        let rest = ls.skip(1);
        assert forall|i: int| 0 <= i < rest.len() implies quiet(#[trigger] rest[i]) by {
            assert(rest[i] == ls[i + 1]);
        }
        lemma_quiet_lines(rest, tail, title, description);
        lemma_with_feeds_front(ls, end);
        lemma_quiet_text(ls[0], with_feeds(rest) + end, title, description);
    }
}

/// The first line, and what is behind it.
proof fn lemma_with_feeds_front(ls: Seq<Seq<char>>, tail: Seq<char>)
    requires
        ls.len() > 0,
    ensures
        with_feeds(ls) + tail == ls[0] + seq!['\n'] + (with_feeds(ls.skip(1)) + tail),
{
    assert(ls =~= seq![ls[0]] + ls.skip(1));
    lemma_with_feeds_append(seq![ls[0]], ls.skip(1));
    lemma_with_feeds_one(ls[0]);
    assert(with_feeds(ls) + tail =~= ls[0] + seq!['\n'] + (with_feeds(ls.skip(1)) + tail));
}

/// The lines behind the title and the description.
spec fn quiet_front(meta: Metadata, source: Seq<char>, timestamp: Seq<char>) -> Seq<Seq<char>> {
    (match meta.abstract_text {
        Some(text) => seq![field("abstract: "@, yaml_text(text))],
        None => Seq::empty(),
    }) + (if meta.keywords.len() > 0 {
        seq!["keywords: ["@ + keyword_list(meta.keywords, meta.keywords.len()) + "]"@]
    } else {
        Seq::empty()
    }) + seq![field("source: "@, yaml_text(source)), field("timestamp: "@, timestamp)]
}

proof fn lemma_quiet_front(meta: Metadata, source: Seq<char>, timestamp: Seq<char>)
    requires
        quiet(field("timestamp: "@, timestamp)),
    ensures
        forall|i: int|
            0 <= i < quiet_front(meta, source, timestamp).len() ==> quiet(
                #[trigger] quiet_front(meta, source, timestamp)[i],
            ),
{
    reveal_strlit("abstract: ");
    reveal_strlit("source: ");
    reveal_strlit("title:");
    if meta.abstract_text is Some {
        let text = meta.abstract_text->0;
        lemma_yaml_text(text);
        lemma_concat_holds_no("abstract: "@, yaml_text(text), '\n');
        lemma_quiet_line("abstract: "@, yaml_text(text), 0);
    }
    if meta.keywords.len() > 0 {
        lemma_quiet_keywords(meta.keywords);
    }
    lemma_yaml_text(source);
    lemma_concat_holds_no("source: "@, yaml_text(source), '\n');
    lemma_quiet_line("source: "@, yaml_text(source), 0);
}

/// What is read back of the index of a paper: its title, and the description if it has an
/// abstract, each with its white space collapsed.
pub open spec fn summary_written(meta: Metadata, stem: Seq<char>) -> (Seq<char>, Seq<char>) {
    (
        collapse_ws(shown_title(meta, stem)),
        match meta.abstract_text {
            Some(text) => collapse_ws(description_of(text)),
            None => Seq::empty(),
        },
    )
}

/// The line of the description, if there is one.
spec fn told_front(meta: Metadata) -> Seq<Seq<char>> {
    match meta.abstract_text {
        Some(text) => seq![field("description: "@, yaml_text(description_of(text)))],
        None => Seq::empty(),
    }
}

/// What is read behind the title.
proof fn lemma_told_front(
    meta: Metadata,
    source: Seq<char>,
    timestamp: Seq<char>,
    tail: Seq<char>,
    t: Option<Seq<char>>,
)
    requires
        quiet(field("timestamp: "@, timestamp)),
    ensures
        ({
            let behind = told_front(meta) + quiet_front(meta, source, timestamp);
            let d = match meta.abstract_text {
                Some(text) => Some(collapse_ws(description_of(text))),
                None => None,
            };
            summary_from(
                lines(with_feeds(behind) + ("---"@ + seq!['\n'] + tail)),
                0,
                t,
                None,
            ) == heard(t, d)
        }),
{
    let end = "---"@ + seq!['\n'] + tail;
    let hush = quiet_front(meta, source, timestamp);
    let told = told_front(meta);
    lemma_quiet_front(meta, source, timestamp);
    match meta.abstract_text {
        Some(given) => {
            let text = description_of(given);
            let line = told[0];
            reveal_strlit("---");
            reveal_strlit("title:");
            reveal_strlit("description: ");
            reveal_strlit("description:");
            lemma_quiet_lines(hush, tail, t, Some(collapse_ws(text)));
            lemma_yaml_text(text);
            lemma_concat_holds_no("description: "@, yaml_text(text), '\n');
            lemma_quoted_value("description: "@, text);
            assert(line.subrange(0, 12) =~= "description:"@);
            assert(line[0] == 'd');
            lemma_other_prefix(line, "title:"@, 0);
            assert((told + hush).skip(1) =~= hush);
            lemma_with_feeds_front(told + hush, end);
            lemma_one_line(line, with_feeds(hush) + end, t, None);
        },
        None => {
            assert(told + hush =~= hush);
            lemma_quiet_lines(hush, tail, t, None);
        },
    }
}

/// What is read of the whole.
proof fn lemma_read_from_title(title: Seq<char>, behind: Seq<char>)
    ensures
        ({
            let title_line = field("title: "@, yaml_text(title));
            let content = "---"@ + seq!['\n'] + ("type: Article"@ + seq!['\n'] + (title_line + seq![
                '\n',
            ] + behind));
            summary_of(content) == summary_from(lines(behind), 0, Some(collapse_ws(title)), None)
        }),
{
    let title_line = field("title: "@, yaml_text(title));
    let kind = "type: Article"@;
    let behind_type = title_line + seq!['\n'] + behind;
    let behind_mark = kind + seq!['\n'] + behind_type;
    reveal_strlit("---");
    reveal_strlit("type: Article");
    reveal_strlit("title: ");
    reveal_strlit("title:");
    reveal_strlit("description:");
    lemma_yaml_text(title);
    lemma_concat_holds_no("title: "@, yaml_text(title), '\n');
    lemma_quoted_value("title: "@, title);
    assert(title_line.subrange(0, 6) =~= "title:"@);
    assert(title_line[0] == 't');
    lemma_one_line(title_line, behind, None, None);
    lemma_other_prefix(kind, "title:"@, 1);
    lemma_other_prefix(kind, "description:"@, 0);
    assert(!kind.contains('\n'));
    assert(kind[0] == 't');
    lemma_one_line(kind, behind_type, None, None);
    lemma_lines_front("---"@, behind_mark);
    assert(without_cr("---"@) == "---"@);
    lemma_summary_behind(seq!["---"@], lines(behind_mark), 0, None, None);
}

/// The title and the description that the index of a paper gives are read back from it,
/// whatever quotation marks, backslashes and line feeds they and the keywords hold; only the
/// timestamp, which is written as it is, must not bring a line of its own that reads as one of
/// them.
pub proof fn law_index_is_read_back(
    meta: Metadata,
    stem: Seq<char>,
    source: Seq<char>,
    timestamp: Seq<char>,
    figures: nat,
    tables: nat,
)
    requires
        quiet(field("timestamp: "@, timestamp)),
    ensures
        summary_of(paper_index(meta, stem, source, timestamp, figures, tables)) == Some(
            summary_written(meta, stem),
        ),
{
    let tail = contents(figures, tables);
    let end = "---"@ + seq!['\n'] + tail;
    let content = paper_index(meta, stem, source, timestamp, figures, tables);
    let title = shown_title(meta, stem);
    let head = seq!["---"@, "type: Article"@, field("title: "@, yaml_text(title))];
    let rest = told_front(meta) + quiet_front(meta, source, timestamp);
    let all = head + rest;
    let fs = front_lines(meta, stem, source, timestamp);
    assert(fs =~= all.push("---"@));
    assert(fs.drop_last() =~= all);
    assert(content =~= with_feeds(all) + end);
    assert(all.skip(1).skip(1).skip(1) =~= rest);
    lemma_with_feeds_front(all, end);
    lemma_with_feeds_front(all.skip(1), end);
    lemma_with_feeds_front(all.skip(1).skip(1), end);
    lemma_told_front(meta, source, timestamp, tail, Some(collapse_ws(title)));
    lemma_read_from_title(title, with_feeds(rest) + end);
}

proof fn lemma_summary_from(
    ls: Seq<Seq<char>>,
    i: int,
    e: int,
    title: Option<Seq<char>>,
    description: Option<Seq<char>>,
)
    requires
        0 <= i <= e <= ls.len(),
        forall|j: int| i <= j < e ==> #[trigger] ls[j] != "---"@,
        e < ls.len() ==> ls[e] == "---"@,
    ensures
        summary_from(ls, i, title, description) == heard(
            last_value(ls, i, e, "title:"@, title),
            last_value(ls, i, e, "description:"@, description),
        ),
    decreases e - i,
{
    reveal_strlit("title:");
    reveal_strlit("description:");
    if i < e {
        assert(ls[i] != "---"@);
        let is_title = has_prefix(ls[i], "title:"@);
        let is_description = has_prefix(ls[i], "description:"@);
        if is_title && is_description {
            assert(ls[i].subrange(0, 6)[0] == ls[i][0]);
            assert(ls[i].subrange(0, 12)[0] == ls[i][0]);
        }
        let t = if is_title {
            Some(front_value(ls[i].skip(6)))
        } else {
            title
        };
        let d = if is_description {
            Some(front_value(ls[i].skip(12)))
        } else {
            description
        };
        lemma_summary_from(ls, i + 1, e, t, d);
    }
}

/// The value on the last of the lines from `i` to `e` that begins with `name`; `known` if none
/// does.
spec fn last_value(
    ls: Seq<Seq<char>>,
    i: int,
    e: int,
    name: Seq<char>,
    known: Option<Seq<char>>,
) -> Option<Seq<char>>
    decreases e - i,
{
    if i >= e {
        known
    } else if has_prefix(ls[i], name) {
        last_value(ls, i + 1, e, name, Some(front_value(ls[i].skip(name.len() as int))))
    } else {
        last_value(ls, i + 1, e, name, known)
    }
}

proof fn lemma_last_value(
    ls: Seq<Seq<char>>,
    i: int,
    e: int,
    name: Seq<char>,
    known: Option<Seq<char>>,
    k: int,
)
    requires
        0 <= i <= e <= ls.len(),
        i - 1 <= k < e,
        forall|j: int| k < j < e ==> !has_prefix(#[trigger] ls[j], name),
        i <= k ==> has_prefix(ls[k], name),
    ensures
        last_value(ls, i, e, name, known) == if k < i {
            known
        } else {
            Some(front_value(ls[k].skip(name.len() as int)))
        },
    decreases e - i,
{
    if i < e {
        if has_prefix(ls[i], name) {
            let now = Some(front_value(ls[i].skip(name.len() as int)));
            lemma_last_value(
                ls,
                i + 1,
                e,
                name,
                now,
                if k < i {
                    i
                } else {
                    k
                },
            );
        } else if k < i {
            lemma_last_value(ls, i + 1, e, name, known, i);
        } else {
            lemma_last_value(ls, i + 1, e, name, known, k);
        }
    }
}

/// Title and description are read from the front matter, that is, from the lines between a first
/// line `---` and the next: the last line with each name counts. Without a title nothing is read,
/// and without a description it is empty.
pub proof fn law_front_matter_is_read(content: Seq<char>, e: int, t: int, d: int)
    requires
        lines(content).len() > 0,
        lines(content)[0] == "---"@,
        1 <= e <= lines(content).len(),
        forall|j: int| 1 <= j < e ==> #[trigger] lines(content)[j] != "---"@,
        e < lines(content).len() ==> lines(content)[e] == "---"@,
        0 <= t < e,
        t > 0 ==> has_prefix(lines(content)[t], "title:"@),
        forall|j: int| t < j < e ==> !has_prefix(#[trigger] lines(content)[j], "title:"@),
        0 <= d < e,
        d > 0 ==> has_prefix(lines(content)[d], "description:"@),
        forall|j: int| d < j < e ==> !has_prefix(#[trigger] lines(content)[j], "description:"@),
    ensures
        t == 0 ==> summary_of(content) is None,
        t > 0 ==> summary_of(content) == Some(
            (
                front_value(lines(content)[t].skip(6)),
                if d > 0 {
                    front_value(lines(content)[d].skip(12))
                } else {
                    Seq::empty()
                },
            ),
        ),
{
    let ls = lines(content);
    reveal_strlit("title:");
    reveal_strlit("description:");
    lemma_summary_from(ls, 1, e, None, None);
    lemma_last_value(ls, 1, e, "title:"@, None, t);
    lemma_last_value(ls, 1, e, "description:"@, None, d);
}

/// What does not begin with the line `---` has no front matter.
pub proof fn law_no_front_matter_no_summary(content: Seq<char>)
    requires
        lines(content).len() == 0 || lines(content)[0] != "---"@,
    ensures
        summary_of(content) is None,
{
}

/// Quoted text is read back as it was, but for its white space, which is collapsed.
pub proof fn law_quoted_text_is_read_back(s: Seq<char>)
    ensures
        front_value(yaml_text(s)) == collapse_ws(s),
        !yaml_text(s).contains('\n'),
{
    let blank = seq![' '];
    let q = yaml_text(s);
    lemma_yaml_text(s);
    lemma_quoted_value(blank, s);
    assert(field(blank, q).skip(0) =~= blank + q);
    lemma_lead_is(blank + q, CharClass::Space, 1);
    lemma_lead_is(q, CharClass::Space, 0);
    assert(trim_start(blank + q, CharClass::Space) =~= q);
    assert(trim_start(q, CharClass::Space) =~= q);
}

/// A keyword in a list stands for itself; one with a comma, a colon, a quotation mark or a bracket
/// is quoted, so that it is read back.
pub proof fn law_keywords_in_a_list_are_told_apart(word: Seq<char>)
    ensures
        word.contains(',') || word.contains(':') || word.contains('"') || word.contains('[')
            || word.contains(']') ==> keyword_text(word) == yaml_text(word) && front_value(
            keyword_text(word),
        ) == collapse_ws(word),
        !word.contains(',') && !word.contains(':') && !word.contains('"') && !word.contains('[')
            && !word.contains(']') ==> keyword_text(word) == word,
{
    law_quoted_text_is_read_back(word);
}

proof fn lemma_joined_keywords(words: Seq<Seq<char>>, n: nat)
    requires
        n <= words.len(),
    ensures
        keyword_list(words, n) == join(words.take(n as int).map_values(
            |word: Seq<char>| keyword_text(word),
        ), ", "@),
    decreases n,
{
    let f = |word: Seq<char>| keyword_text(word);
    if n > 0 {
        lemma_joined_keywords(words, (n - 1) as nat);
        let all = words.take(n as int).map_values(f);
        assert(all.drop_last() =~= words.take(n - 1).map_values(f));
        assert(all.last() == keyword_text(words[n - 1]));
        if n == 1 {
            assert(keyword_list(words, 1) =~= all[0]);
        }
    }
}

/// Whether `line` is a line of `text`.
pub open spec fn has_line(text: Seq<char>, line: Seq<char>) -> bool {
    exists|a: Seq<char>, b: Seq<char>|
        text == #[trigger] (a + line + seq!['\n'] + b) && (a.len() > 0 ==> a.last() == '\n')
}

proof fn lemma_has_line(ls: Seq<Seq<char>>, tail: Seq<char>, i: int)
    requires
        0 <= i < ls.len(),
    ensures
        has_line(with_feeds(ls) + tail, ls[i]),
{
    let before = ls.take(i);
    let behind = ls.skip(i + 1);
    let here = seq![ls[i]];
    lemma_with_feeds_append(before, here + behind);
    lemma_with_feeds_append(here, behind);
    lemma_with_feeds_one(ls[i]);
    assert(before + (here + behind) =~= ls);
    let a = with_feeds(before);
    let b = with_feeds(behind) + tail;
    assert(with_feeds(ls) + tail =~= a + ls[i] + seq!['\n'] + b);
    if before.len() > 0 {
        assert(a.last() == '\n');
    }
}

proof fn lemma_contents_lines(front: Seq<char>, figures: nat, tables: nat)
    requires
        front.len() > 0,
        front.last() == '\n',
    ensures
        has_line(
            front + contents(figures, tables),
            "* [figures/](figures/) - "@ + decimal(figures) + " downloaded figure file(s)."@,
        ),
        has_line(
            front + contents(figures, tables),
            "* [tables/](tables/) - "@ + decimal(tables) + " extracted table artifact(s)."@,
        ),
{
    reveal_strlit("* [Manuscript](manuscript.md) - Full parsed text of the manuscript.\n");
    reveal_strlit(" downloaded figure file(s).\n");
    reveal_strlit(" downloaded figure file(s).");
    reveal_strlit(" extracted table artifact(s).\n");
    reveal_strlit(" extracted table artifact(s).");
    let index = front + contents(figures, tables);
    let head = front + ("\n# Contents\n\n"@
        + "* [Manuscript](manuscript.md) - Full parsed text of the manuscript.\n"@);
    let one = "* [figures/](figures/) - "@ + decimal(figures) + " downloaded figure file(s)."@;
    let two = "* [tables/](tables/) - "@ + decimal(tables) + " extracted table artifact(s)."@;
    assert(" downloaded figure file(s).\n"@ =~= " downloaded figure file(s)."@ + seq!['\n']);
    assert(" extracted table artifact(s).\n"@ =~= " extracted table artifact(s)."@ + seq!['\n']);
    let none = Seq::<char>::empty();
    assert(head.last() == '\n');
    assert(index =~= head + one + seq!['\n'] + (two + seq!['\n']));
    let more = head + one + seq!['\n'];
    assert(index =~= more + two + seq!['\n'] + none);
    assert(more.last() == '\n');
}

/// The index of a paper tells all that is known of it, each on a line of its own: the title, or
/// the stem without one; the whole abstract, and the description that is made of it; the keywords
/// in order; the source and the time; and how many figures and tables there are.
pub proof fn law_index_tells_what_is_known(
    meta: Metadata,
    stem: Seq<char>,
    source: Seq<char>,
    timestamp: Seq<char>,
    figures: nat,
    tables: nat,
)
    ensures
        ({
            let index = paper_index(meta, stem, source, timestamp, figures, tables);
            &&& has_prefix(index, "---\n"@)
            &&& has_line(
                index,
                "title: "@ + yaml_text(
                    match meta.title {
                        Some(title) => title,
                        None => stem,
                    },
                ),
            )
            &&& meta.abstract_text matches Some(text) ==> has_line(
                index,
                "abstract: "@ + yaml_text(text),
            ) && has_line(index, "description: "@ + yaml_text(description_of(text)))
            &&& meta.keywords.len() > 0 ==> has_line(
                index,
                "keywords: ["@ + join(
                    meta.keywords.map_values(|word: Seq<char>| keyword_text(word)),
                    ", "@,
                ) + "]"@,
            )
            &&& has_line(index, "source: "@ + yaml_text(source))
            &&& has_line(index, "timestamp: "@ + timestamp)
            &&& has_line(
                index,
                "* [figures/](figures/) - "@ + decimal(figures) + " downloaded figure file(s)."@,
            )
            &&& has_line(
                index,
                "* [tables/](tables/) - "@ + decimal(tables) + " extracted table artifact(s)."@,
            )
        }),
{
    let fs = front_lines(meta, stem, source, timestamp);
    let tail = contents(figures, tables);
    let index = paper_index(meta, stem, source, timestamp, figures, tables);
    let opt = optional_lines(meta);
    let n = opt.len() as int;
    lemma_has_line(fs, tail, 2);
    assert(fs[2] == "title: "@ + yaml_text(shown_title(meta, stem)));
    if meta.abstract_text is Some {
        let text = meta.abstract_text->0;
        assert(opt[0] == "description: "@ + yaml_text(description_of(text)));
        assert(opt[1] == "abstract: "@ + yaml_text(text));
        assert(fs[3] == opt[0] && fs[4] == opt[1]);
        lemma_has_line(fs, tail, 3);
        lemma_has_line(fs, tail, 4);
    }
    if meta.keywords.len() > 0 {
        lemma_joined_keywords(meta.keywords, meta.keywords.len());
        assert(meta.keywords.take(meta.keywords.len() as int) =~= meta.keywords);
        assert(fs[3 + n - 1] == opt[n - 1]);
        lemma_has_line(fs, tail, 3 + n - 1);
    }
    assert(fs[3 + n] == "source: "@ + yaml_text(source));
    lemma_has_line(fs, tail, 3 + n);
    assert(fs[3 + n + 1] == "timestamp: "@ + timestamp);
    lemma_has_line(fs, tail, 3 + n + 1);
    let front = with_feeds(fs);
    reveal_strlit("---");
    reveal_strlit("---\n");
    lemma_with_feeds_append(seq![fs[0]], fs.skip(1));
    lemma_with_feeds_one(fs[0]);
    assert(seq![fs[0]] + fs.skip(1) =~= fs);
    assert(index.subrange(0, 4) =~= "---\n"@);
    assert(front.last() == '\n') by {
        lemma_with_feeds_append(fs.drop_last(), seq![fs.last()]);
        lemma_with_feeds_one(fs.last());
        assert(fs.drop_last() + seq![fs.last()] =~= fs);
    }
    lemma_contents_lines(front, figures, tables);
}

// ---- The index of all papers ----

/// Title and description of a paper.
pub struct PaperSummary {
    pub title: String,
    pub description: String,
}

impl View for PaperSummary {
    type V = (Seq<char>, Seq<char>);

    open spec fn view(&self) -> (Seq<char>, Seq<char>) {
        (self.title@, self.description@)
    }
}

/// The line of a paper: its title, a link to its index, and its description.
pub open spec fn paper_line(dirname: Seq<char>, summary: (Seq<char>, Seq<char>)) -> Seq<char> {
    "* ["@ + summary.0 + "]("@ + dirname + "/index.md)"@ + (if summary.1.len() > 0 {
        " - "@ + summary.1
    } else {
        Seq::empty()
    }) + seq!['\n']
}

/// The lines of papers.
pub open spec fn paper_lines(papers: Seq<(Seq<char>, (Seq<char>, Seq<char>))>) -> Seq<char>
    decreases papers.len(),
{
    if papers.len() == 0 {
        Seq::empty()
    } else {
        paper_lines(papers.drop_last()) + paper_line(papers.last().0, papers.last().1)
    }
}

/// The index of all papers.
pub open spec fn root_index(papers: Seq<(Seq<char>, (Seq<char>, Seq<char>))>) -> Seq<char> {
    "---\nokf_version: \"0.1\"\n---\n\n# Papers\n"@ + (if papers.len() > 0 {
        seq!['\n']
    } else {
        Seq::empty()
    }) + paper_lines(papers)
}

/// The index of all papers, given by directory, in the order given.
pub fn render_root_index(papers: &Vec<(String, PaperSummary)>) -> (r: String)
    ensures
        r@ == root_index(keyed(papers@)),
{
    let ghost all = keyed(papers@);
    let mut out: Vec<char> = chars_of("---\nokf_version: \"0.1\"\n---\n\n# Papers\n");
    let ghost title = out@;
    if papers.len() > 0 {
        out.push('\n');
    }
    let ghost head = out@;
    assert(head =~= title + (if all.len() > 0 {
        seq!['\n']
    } else {
        Seq::empty()
    }));
    let mut i: usize = 0;
    assert(out@ =~= head + paper_lines(all.take(0)));
    while i < papers.len()
        invariant
            i <= papers@.len(),
            all == keyed(papers@),
            out@ == head + paper_lines(all.take(i as int)),
        decreases papers.len() - i,
    {
        let ghost before = paper_lines(all.take(i as int));
        assert(all.take(i + 1).drop_last() =~= all.take(i as int));
        assert(all.take(i + 1).last() == (papers@[i as int].0@, papers@[i as int].1@));
        push_str(&mut out, "* [");
        push_str(&mut out, papers[i].1.title.as_str());
        push_str(&mut out, "](");
        push_str(&mut out, papers[i].0.as_str());
        push_str(&mut out, "/index.md)");
        let description = chars_of(papers[i].1.description.as_str());
        if description.len() > 0 {
            push_str(&mut out, " - ");
            push_all(&mut out, &description);
        }
        out.push('\n');
        assert(out@ =~= head + (before + paper_line(
            papers@[i as int].0@,
            papers@[i as int].1@,
        )));
        i += 1;
    }
    assert(all.take(i as int) =~= all);
    string_of(&out)
}

/// A directory in the output root.
pub struct PaperDir {
    /// Its name.
    pub dirname: String,
    /// Whether `index.md` is a file in it.
    pub has_index: bool,
    /// Whether `manuscript.md` is a file in it.
    pub has_manuscript: bool,
    /// The text of `index.md`, if it could be read.
    pub index_text: Option<String>,
}

/// The entry of a directory: none if it is hidden or holds no paper; the name of the directory
/// is the title of a paper whose index gives none.
pub open spec fn entry_of(dir: PaperDir) -> Option<(Seq<char>, (Seq<char>, Seq<char>))> {
    if (dir.dirname@.len() > 0 && dir.dirname@[0] == '.') || !dir.has_index || !dir.has_manuscript {
        None
    } else {
        let summary = match dir.index_text {
            Some(text) => summary_of(text@),
            None => None,
        };
        Some(
            (
                dir.dirname@,
                match summary {
                    Some(s) => s,
                    None => (dir.dirname@, Seq::empty()),
                },
            ),
        )
    }
}

/// The entries of directories.
pub open spec fn entries_of(dirs: Seq<PaperDir>) -> Seq<(Seq<char>, (Seq<char>, Seq<char>))>
    decreases dirs.len(),
{
    if dirs.len() == 0 {
        Seq::empty()
    } else {
        match entry_of(dirs.last()) {
            Some(entry) => entries_of(dirs.drop_last()).push(entry),
            None => entries_of(dirs.drop_last()),
        }
    }
}

fn read_entry(dir: &PaperDir) -> (r: Option<(String, PaperSummary)>)
    ensures
        match entry_of(*dir) {
            Some(entry) => r is Some && (r->0).0@ == entry.0 && (r->0).1@ == entry.1,
            None => r is None,
        },
{
    let name = chars_of(dir.dirname.as_str());
    if (name.len() > 0 && name[0] == '.') || !dir.has_index || !dir.has_manuscript {
        return None;
    }
    let summary = match &dir.index_text {
        Some(text) => parse_frontmatter_summary(text.as_str()),
        None => None,
    };
    let shown = match summary {
        Some((title, description)) => PaperSummary { title, description },
        None => {
            let description = String::new();
            assert(description@ =~= Seq::empty());
            PaperSummary { title: copy_string(&dir.dirname), description }
        },
    };
    Some((copy_string(&dir.dirname), shown))
}

/// The index of all papers in the directories of the output root, sorted by directory.
pub fn regenerate_root_index(dirs: &Vec<PaperDir>) -> (r: String)
    ensures
        r@ == root_index(sorted(entries_of(dirs@))),
{
    let mut papers: Vec<(String, PaperSummary)> = Vec::new();
    let mut i: usize = 0;
    assert(dirs@.take(0) =~= Seq::empty());
    assert(keyed(papers@) =~= entries_of(dirs@.take(0)));
    while i < dirs.len()
        invariant
            i <= dirs@.len(),
            keyed(papers@) == entries_of(dirs@.take(i as int)),
        decreases dirs.len() - i,
    {
        let ghost before = papers@;
        assert(dirs@.take(i + 1).drop_last() =~= dirs@.take(i as int));
        assert(dirs@.take(i + 1).last() == dirs@[i as int]);
        if let Some(entry) = read_entry(&dirs[i]) {
            papers.push(entry);
            assert(keyed(papers@) =~= keyed(before).push((entry.0@, entry.1@)));
        }
        i += 1;
    }
    assert(dirs@.take(i as int) =~= dirs@);
    let papers = sort_by_key(papers);
    render_root_index(&papers)
}

proof fn lemma_entries_of(dirs: Seq<PaperDir>)
    ensures
        forall|i: int|
            0 <= i < dirs.len() && entry_of(#[trigger] dirs[i]) is Some ==> entries_of(
                dirs,
            ).contains(entry_of(dirs[i])->0),
        forall|e: (Seq<char>, (Seq<char>, Seq<char>))| #[trigger]
            entries_of(dirs).contains(e) ==> exists|i: int|
                0 <= i < dirs.len() && entry_of(#[trigger] dirs[i]) == Some(e),
    decreases dirs.len(),
{
    if dirs.len() > 0 {
        let init = dirs.drop_last();
        let before = entries_of(init);
        let now = entries_of(dirs);
        lemma_entries_of(init);
        assert forall|i: int|
            0 <= i < dirs.len() && entry_of(#[trigger] dirs[i]) is Some implies now.contains(
            entry_of(dirs[i])->0,
        ) by {
            let e = entry_of(dirs[i])->0;
            if i < init.len() {
                assert(init[i] == dirs[i]);
                assert(before.contains(e));
                let k = choose|k: int| 0 <= k < before.len() && before[k] == e;
                assert(now[k] == e);
            } else {
                assert(now[before.len() as int] == e);
            }
        }
        assert forall|e: (Seq<char>, (Seq<char>, Seq<char>))| #[trigger]
            now.contains(e) implies exists|i: int|
            0 <= i < dirs.len() && entry_of(#[trigger] dirs[i]) == Some(e) by {
            let k = choose|k: int| 0 <= k < now.len() && now[k] == e;
            if k < before.len() {
                assert(before[k] == e);
                assert(before.contains(e));
                let i = choose|i: int|
                    0 <= i < init.len() && entry_of(#[trigger] init[i]) == Some(e);
                assert(dirs[i] == init[i]);
            } else {
                assert(entry_of(dirs[dirs.len() - 1]) == Some(e));
            }
        }
    }
}

/// The index of all papers has an entry for each directory that holds `index.md` and
/// `manuscript.md` and whose name does not begin with a full stop, and for no other; it gives the
/// title and the description in `index.md`, or the name of the directory where there is no title.
pub proof fn law_each_paper_is_listed(dirs: Seq<PaperDir>)
    ensures
        forall|i: int|
            0 <= i < dirs.len() ==> {
                let dir = #[trigger] dirs[i];
                let hidden = dir.dirname@.len() > 0 && dir.dirname@[0] == '.';
                &&& !hidden && dir.has_index && dir.has_manuscript && dir.index_text is Some
                    && summary_of(dir.index_text->0@) is Some ==> sorted(entries_of(dirs)).contains(
                    (dir.dirname@, summary_of(dir.index_text->0@)->0),
                )
                &&& !hidden && dir.has_index && dir.has_manuscript && (dir.index_text is None
                    || summary_of(dir.index_text->0@) is None) ==> sorted(
                    entries_of(dirs),
                ).contains((dir.dirname@, (dir.dirname@, Seq::<char>::empty())))
            },
        forall|e: (Seq<char>, (Seq<char>, Seq<char>))| #[trigger]
            sorted(entries_of(dirs)).contains(e) ==> exists|i: int|
                0 <= i < dirs.len() && (#[trigger] dirs[i]).dirname@ == e.0 && dirs[i].has_index
                    && dirs[i].has_manuscript && !(e.0.len() > 0 && e.0[0] == '.'),
{
    let es = entries_of(dirs);
    lemma_entries_of(dirs);
    law_sorted_is_in_order(es);
    assert forall|e: (Seq<char>, (Seq<char>, Seq<char>))|
        es.contains(e) == #[trigger] sorted(es).contains(e) by {
        broadcast use vstd::seq_lib::group_to_multiset_ensures;

        assert(es.contains(e) <==> es.to_multiset().count(e) > 0);
        assert(sorted(es).contains(e) <==> sorted(es).to_multiset().count(e) > 0);
    }
}

proof fn lemma_paper_lines(papers: Seq<(Seq<char>, (Seq<char>, Seq<char>))>, i: int) -> (r: (
    Seq<char>,
    Seq<char>,
))
    requires
        0 <= i < papers.len(),
    ensures
        paper_lines(papers) == r.0 + paper_line(papers[i].0, papers[i].1) + r.1,
        r.0 == paper_lines(papers.take(i)),
        i == papers.len() - 1 ==> r.1.len() == 0,
    decreases papers.len(),
{
    let init = papers.drop_last();
    if i == papers.len() - 1 {
        assert(papers.take(i) =~= init);
        let r = (paper_lines(init), Seq::<char>::empty());
        assert(paper_lines(papers) =~= r.0 + paper_line(papers[i].0, papers[i].1) + r.1);
        r
    } else {
        let r = lemma_paper_lines(init, i);
        let last = paper_line(papers.last().0, papers.last().1);
        assert(init.take(i) =~= papers.take(i));
        assert(paper_lines(papers) =~= r.0 + paper_line(init[i].0, init[i].1) + (r.1 + last));
        (r.0, r.1 + last)
    }
}

/// In the index of all papers each has a line of its own, in the order given: the title, linked to
/// the index in its directory, and the description if there is one.
#[verifier::spinoff_prover]
#[verifier::rlimit(30)]
pub proof fn law_each_entry_has_its_line(papers: Seq<(Seq<char>, (Seq<char>, Seq<char>))>, i: int)
    requires
        0 <= i < papers.len(),
    ensures
        ({
            let so_far = root_index(papers.take(i)) + (if i == 0 {
                seq!['\n']
            } else {
                Seq::empty()
            }) + "* ["@ + papers[i].1.0 + "]("@ + papers[i].0 + "/index.md)"@ + (
            if papers[i].1.1.len() == 0 {
                Seq::empty()
            } else {
                " - "@ + papers[i].1.1
            }) + seq!['\n'];
            &&& has_prefix(root_index(papers), so_far)
            &&& i == papers.len() - 1 ==> root_index(papers) == so_far
        }),
{
    let (a, b) = lemma_paper_lines(papers, i);
    let head = root_index(papers.take(i)) + (if i == 0 {
        seq!['\n']
    } else {
        Seq::empty()
    }) + "* ["@ + papers[i].1.0 + "]("@ + papers[i].0 + "/index.md)"@ + (if papers[i].1.1.len()
        == 0 {
        Seq::empty()
    } else {
        " - "@ + papers[i].1.1
    }) + seq!['\n'];
    assert(root_index(papers) =~= head + b);
    assert(root_index(papers).subrange(0, head.len() as int) =~= head);
}

/// The path of a paper as its index gives it: as seen from the output root if it lies there.
pub open spec fn source_path(style: PathStyle, pdf: Seq<char>, output_root: Seq<char>) -> Seq<char> {
    match without_prefix(style, pdf, output_root) {
        Some(rest) => rest,
        None => pdf,
    }
}

/// The path of a paper as its index gives it.
pub fn source_relative_to_output(style: PathStyle, pdf_path: &str, output_root: &str) -> (r:
    String)
    ensures
        r@ == source_path(style, pdf_path@, output_root@),
{
    let pdf = chars_of(pdf_path);
    let root = chars_of(output_root);
    match strip_prefix(style, &pdf, &root) {
        Some(rest) => string_of(rest),
        None => string_of(&pdf),
    }
}

/// The source of a paper is told as seen from the root of the output if it lies there, else whole.
pub proof fn law_sources_are_told_from_the_root(output_root: Seq<char>, q: Seq<char>, pdf: Seq<char>)
    requires
        absolute(PathStyle::Posix, output_root),
        plain_relative(q),
    ensures
        source_path(
            PathStyle::Posix,
            joined_path(PathStyle::Posix, output_root, q),
            output_root,
        ) == q,
        without_prefix(PathStyle::Posix, pdf, output_root) is None ==> source_path(
            PathStyle::Posix,
            pdf,
            output_root,
        ) == pdf,
{
    law_prefix_of_joined_path(output_root, q);
}

} // verus!
