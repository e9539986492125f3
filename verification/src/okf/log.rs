//! The log of updates: what was added on which day, the latest first.

use vstd::prelude::*;

use crate::pieces::{join, joined, texts};
use crate::scan::{lemma_line_end, line_end, line_end_at};
use crate::text::{
    chars_of, lead, lemma_lead, lemma_lead_is, lemma_trail_is, push_all, push_str, same_text,
    string_of, trim_end, trimmed_end, CharClass,
};

verus! {

/// A paper that was added.
pub struct RootLogEntry {
    pub stem: String,
    pub title: String,
}

impl View for RootLogEntry {
    type V = (Seq<char>, Seq<char>);

    open spec fn view(&self) -> (Seq<char>, Seq<char>) {
        (self.stem@, self.title@)
    }
}

/// Papers by stem and title.
pub open spec fn entry_texts(entries: Seq<RootLogEntry>) -> Seq<(Seq<char>, Seq<char>)> {
    Seq::new(entries.len(), |i: int| entries[i]@)
}

/// The line of a paper in the log, without its line feed.
pub open spec fn bullet(entry: (Seq<char>, Seq<char>)) -> Seq<char> {
    "* **Creation**: Parsed ["@ + entry.1 + "](/"@ + entry.0 + "/index.md)."@
}

/// The lines of papers in the log, without the last line feed.
pub open spec fn bullets(entries: Seq<(Seq<char>, Seq<char>)>) -> Seq<char> {
    join(Seq::new(entries.len(), |i: int| bullet(entries[i])), "\n"@)
}

/// The heading of a day.
pub open spec fn day_heading(today: Seq<char>) -> Seq<char> {
    "## "@ + today
}

/// The log before anything is added: what is there, ended by a line feed, or its title.
pub open spec fn log_base(existing: Option<Seq<char>>) -> Seq<char> {
    let content = if existing is Some && existing->0.len() > 0 {
        existing->0
    } else {
        "# Update Log\n"@
    };
    if content.last() == '\n' {
        content
    } else {
        content.push('\n')
    }
}

/// Where the first line from `pos` on begins that is `heading`.
pub open spec fn heading_at(s: Seq<char>, pos: int, heading: Seq<char>) -> Option<int>
    decreases s.len() - pos,
    via heading_at_decreases
{
    if pos < 0 || pos >= s.len() {
        None
    } else if trim_end(s.subrange(pos, line_end(s, pos)), CharClass::Only('\n')) == heading {
        Some(pos)
    } else {
        heading_at(s, line_end(s, pos), heading)
    }
}

#[via_fn]
proof fn heading_at_decreases(s: Seq<char>, pos: int, heading: Seq<char>) {
    if 0 <= pos < s.len() {
        lemma_line_end(s, pos);
    }
}

/// Where the first line begins that is `heading`.
pub fn find_date_heading(s: &[char], heading: &[char]) -> (r: Option<usize>)
    ensures
        match heading_at(s@, 0, heading@) {
            Some(p) => r is Some && r->0 == p && p < s@.len(),
            None => r is None,
        },
{
    let mut pos: usize = 0;
    while pos < s.len()
        invariant
            pos <= s@.len(),
            heading_at(s@, 0, heading@) == heading_at(s@, pos as int, heading@),
        decreases s.len() - pos,
    {
        let end = line_end_at(s, pos);
        let line = trimmed_end(vstd::slice::slice_subrange(s, pos, end), CharClass::Only('\n'));
        if same_text(line, heading) {
            return Some(pos);
        }
        pos = end;
    }
    None
}

/// Where the entries of the day go: behind its heading, else behind the first line.
pub open spec fn insertion_point(base: Seq<char>, today: Seq<char>) -> int {
    match heading_at(base, 0, day_heading(today)) {
        Some(p) => line_end(base, p),
        None => line_end(base, 0),
    }
}

/// What is added: the entries, under the heading of the day if it is not there.
pub open spec fn added(
    base: Seq<char>,
    today: Seq<char>,
    entries: Seq<(Seq<char>, Seq<char>)>,
) -> Seq<char> {
    (if heading_at(base, 0, day_heading(today)) is Some {
        Seq::empty()
    } else {
        "\n"@ + day_heading(today) + "\n"@
    }) + bullets(entries) + "\n"@
}

/// The log with the entries of the day added.
pub open spec fn log_with(
    base: Seq<char>,
    today: Seq<char>,
    entries: Seq<(Seq<char>, Seq<char>)>,
) -> Seq<char> {
    let at = insertion_point(base, today);
    base.take(at) + added(base, today, entries) + base.skip(at)
}

fn bullet_lines(entries: &Vec<RootLogEntry>) -> (out: Vec<char>)
    ensures
        out@ == bullets(entry_texts(entries@)),
{
    let ghost es = entry_texts(entries@);
    let mut parts: Vec<Vec<char>> = Vec::new();
    let mut i: usize = 0;
    while i < entries.len()
        invariant
            i <= entries@.len(),
            es == entry_texts(entries@),
            parts@.len() == i,
            forall|k: int| 0 <= k < i ==> (#[trigger] parts@[k])@ == bullet(es[k]),
        decreases entries.len() - i,
    {
        let mut line = chars_of("* **Creation**: Parsed [");
        push_str(&mut line, entries[i].title.as_str());
        push_str(&mut line, "](/");
        push_str(&mut line, entries[i].stem.as_str());
        push_str(&mut line, "/index.md).");
        assert(line@ =~= bullet(es[i as int]));
        parts.push(line);
        i += 1;
    }
    assert(texts(parts@) =~= Seq::new(es.len(), |i: int| bullet(es[i])));
    let feed = chars_of("\n");
    joined(&parts, &feed)
}

/// The log of updates with the entries of the day added; none if there is nothing to add.
pub fn append_root_log(existing: Option<&str>, today: &str, entries: &Vec<RootLogEntry>) -> (r:
    Option<String>)
    ensures
        r is None <==> entries@.len() == 0,
        r is Some ==> r->0@ == log_with(
            log_base(
                match existing {
                    Some(text) => Some(text@),
                    None => None,
                },
            ),
            today@,
            entry_texts(entries@),
        ),
{
    if entries.len() == 0 {
        return None;
    }
    let mut base: Vec<char> = match existing {
        Some(text) => chars_of(text),
        None => Vec::new(),
    };
    if base.len() == 0 {
        base = chars_of("# Update Log\n");
    }
    proof {
        reveal_strlit("# Update Log\n");
    }
    if base[base.len() - 1] != '\n' {
        base.push('\n');
    }
    let ghost expected = log_base(
        match existing {
            Some(text) => Some(text@),
            None => None,
        },
    );
    assert(base@ =~= expected);
    let mut heading = chars_of("## ");
    push_str(&mut heading, today);
    let lines = bullet_lines(entries);
    let s: &[char] = &base;
    let mut new: Vec<char> = Vec::new();
    let at = match find_date_heading(s, &heading) {
        Some(p) => line_end_at(s, p),
        None => {
            push_str(&mut new, "\n");
            push_all(&mut new, &heading);
            push_str(&mut new, "\n");
            line_end_at(s, 0)
        },
    };
    push_all(&mut new, &lines);
    push_str(&mut new, "\n");
    assert(new@ =~= added(base@, today@, entry_texts(entries@)));
    let mut out: Vec<char> = Vec::new();
    let first = vstd::slice::slice_subrange(s, 0, at);
    assert(first@ =~= base@.take(at as int));
    push_all(&mut out, first);
    push_all(&mut out, &new);
    let rest = vstd::slice::slice_subrange(s, at, s.len());
    assert(rest@ =~= base@.skip(at as int));
    push_all(&mut out, rest);
    assert(out@ =~= log_with(base@, today@, entry_texts(entries@)));
    Some(string_of(&out))
}

// ---- Laws ----

/// A line ends behind its line feed.
proof fn lemma_line_end_is(s: Seq<char>, pos: int, e: int)
    requires
        0 <= pos < e <= s.len(),
        s[e - 1] == '\n',
        forall|j: int| pos <= j < e - 1 ==> s[j] != '\n',
    ensures
        line_end(s, pos) == e,
{
    let class = CharClass::Except('\n');
    let t = s.skip(pos);
    assert forall|j: int| 0 <= j < e - 1 - pos implies class.has(#[trigger] t[j]) by {
        assert(t[j] == s[pos + j]);
    }
    assert(t[e - 1 - pos] == s[e - 1]);
    lemma_lead_is(t, class, (e - 1 - pos) as nat);
}

/// A line of a text that ends with a line feed ends with one.
proof fn lemma_line_ends_with_feed(s: Seq<char>, pos: int)
    requires
        0 <= pos < s.len(),
        s.last() == '\n',
    ensures
        pos < line_end(s, pos) <= s.len(),
        s[line_end(s, pos) - 1] == '\n',
        forall|j: int| pos <= j < line_end(s, pos) - 1 ==> s[j] != '\n',
{
    let class = CharClass::Except('\n');
    let t = s.skip(pos);
    lemma_lead(t, class);
    let n = lead(t, class);
    if n == t.len() {
        assert(class.has(t[t.len() - 1]));
    }
    assert(t[n as int] == s[pos + n]);
    assert forall|j: int| pos <= j < line_end(s, pos) - 1 implies s[j] != '\n' by {
        assert(class.has(t[j - pos]));
    }
}

/// A heading is found at the same place in a text that begins in the same way.
proof fn lemma_same_heading(a: Seq<char>, b: Seq<char>, pos: int, heading: Seq<char>, p: int)
    requires
        a.len() > 0,
        a.last() == '\n',
        0 <= pos,
        heading_at(a, pos, heading) == Some(p),
        line_end(a, p) <= b.len(),
        forall|j: int| 0 <= j < line_end(a, p) ==> a[j] == b[j],
    ensures
        heading_at(b, pos, heading) == Some(p),
    decreases a.len() - pos,
{
    lemma_heading_at(a, pos, heading);
    lemma_line_ends_with_feed(a, pos);
    lemma_line_ends_with_feed(a, p);
    let e = line_end(a, pos);
    lemma_heading_at(a, e, heading);
    if pos == p {
        lemma_line_end_is(b, pos, e);
        assert(a.subrange(pos, e) =~= b.subrange(pos, e));
    } else {
        assert(heading_at(a, e, heading) == Some(p));
        lemma_line_end_is(b, pos, e);
        assert(a.subrange(pos, e) =~= b.subrange(pos, e));
        lemma_same_heading(a, b, e, heading, p);
    }
}

proof fn lemma_heading_at(s: Seq<char>, pos: int, heading: Seq<char>)
    ensures
        heading_at(s, pos, heading) matches Some(p) ==> pos <= p < s.len() && 0 <= pos,
    decreases s.len() - pos,
{
    if 0 <= pos < s.len() {
        lemma_line_end(s, pos);
        lemma_heading_at(s, line_end(s, pos), heading);
    }
}

/// The log before anything is added is not empty and ends with a line feed.
pub proof fn lemma_log_base(existing: Option<Seq<char>>)
    ensures
        log_base(existing).len() > 0,
        log_base(existing).last() == '\n',
{
    reveal_strlit("# Update Log\n");
}

/// The heading of a day stands in the log once entries of that day were added; if it stood there
/// before it stays the one that is found, so that later entries of the day join the earlier ones.
pub proof fn law_day_has_a_heading(
    existing: Option<Seq<char>>,
    today: Seq<char>,
    entries: Seq<(Seq<char>, Seq<char>)>,
)
    requires
        !today.contains('\n'),
    ensures
        heading_at(log_with(log_base(existing), today, entries), 0, day_heading(today)) == Some(
            match heading_at(log_base(existing), 0, day_heading(today)) {
                Some(p) => p,
                None => line_end(log_base(existing), 0) + 1,
            },
        ),
{
    let base = log_base(existing);
    let heading = day_heading(today);
    let out = log_with(base, today, entries);
    let at = insertion_point(base, today);
    reveal_strlit("## ");
    reveal_strlit("\n");
    lemma_log_base(existing);
    lemma_heading_at(base, 0, heading);
    match heading_at(base, 0, heading) {
        Some(p) => {
            lemma_line_end(base, p);
            assert forall|j: int| 0 <= j < at implies base[j] == out[j] by {
                assert(base.take(at)[j] == base[j]);
            }
            lemma_same_heading(base, out, 0, heading, p);
        },
        None => {
            lemma_line_ends_with_feed(base, 0);
            assert(at == line_end(base, 0));
            let new = added(base, today, entries);
            let day_end = at + 1 + heading.len() + 1;
            assert forall|j: int| 0 <= j < at implies base[j] == out[j] by {
                assert(base.take(at)[j] == base[j]);
            }
            lemma_line_end_is(out, 0, at);
            assert(out.subrange(0, at) =~= base.subrange(0, at));
            assert(out[at] == new[0]);
            lemma_line_end_is(out, at, at + 1);
            let empty_line = out.subrange(at, at + 1);
            assert(trim_end(empty_line, CharClass::Only('\n')).len() == 0) by {
                lemma_trail_is(empty_line, CharClass::Only('\n'), 1);
            }
            assert forall|j: int| 0 <= j < heading.len() implies out[at + 1 + j] == heading[j] by {
                assert(new[1 + j] == heading[j]);
                assert(out[at + 1 + j] == new[1 + j]);
            }
            assert(new[1 + heading.len() as int] == '\n');
            assert(out[day_end - 1] == new[1 + heading.len() as int]);
            assert forall|j: int| at + 1 <= j < day_end - 1 implies out[j] != '\n' by {
                let k = j - at - 1;
                assert(out[at + 1 + k] == heading[k]);
                if k >= 3 {
                    assert(heading[k] == today[k - 3]);
                }
            }
            lemma_line_end_is(out, at + 1, day_end);
            let line = out.subrange(at + 1, day_end);
            assert(line =~= heading.push('\n'));
            assert(heading[heading.len() - 1] != '\n') by {
                if heading.len() > 3 {
                    assert(heading[heading.len() - 1] == today[today.len() - 1]);
                }
            }
            lemma_trail_is(line, CharClass::Only('\n'), 1);
            assert(trim_end(line, CharClass::Only('\n')) =~= heading);
            assert(heading_at(out, at + 1, heading) == Some(at + 1));
            assert(heading_at(out, at, heading) == heading_at(out, at + 1, heading));
            assert(heading_at(base, 0, heading) is None);
            assert(heading_at(out, 0, heading) == heading_at(out, at, heading));
        },
    }
}

/// Whether the line of `s` that begins at `p` is `heading`.
pub open spec fn heading_stands(s: Seq<char>, p: int, heading: Seq<char>) -> bool {
    &&& 0 <= p
    &&& p + heading.len() < s.len()
    &&& p == 0 || s[p - 1] == '\n'
    &&& s.subrange(p, p + heading.len()) == heading
    &&& s[p + heading.len()] == '\n'
}

proof fn lemma_heading_is(s: Seq<char>, pos: int, heading: Seq<char>)
    requires
        s.len() > 0,
        s.last() == '\n',
        0 <= pos < s.len(),
        pos == 0 || s[pos - 1] == '\n',
        !heading.contains('\n'),
        heading.len() > 0,
    ensures
        (trim_end(s.subrange(pos, line_end(s, pos)), CharClass::Only('\n')) == heading)
            == heading_stands(s, pos, heading),
        heading_stands(s, pos, heading) ==> line_end(s, pos) == pos + heading.len() + 1,
{
    lemma_line_ends_with_feed(s, pos);
    let e = line_end(s, pos);
    let line = s.subrange(pos, e);
    let class = CharClass::Only('\n');
    assert(line.last() == '\n');
    if line.len() > 1 {
        assert(line[line.len() - 2] == s[e - 2]);
    }
    lemma_trail_is(line, class, 1);
    let t = trim_end(line, class);
    assert(t =~= s.subrange(pos, e - 1));
    if heading_stands(s, pos, heading) {
        let n = heading.len() as int;
        assert forall|j: int| pos <= j < pos + n implies s[j] != '\n' by {
            assert(s.subrange(pos, pos + n)[j - pos] == heading[j - pos]);
            assert(heading.contains(heading[j - pos]));
        }
        lemma_line_end_is(s, pos, pos + n + 1);
    }
}

proof fn lemma_first_heading(s: Seq<char>, pos: int, heading: Seq<char>)
    requires
        s.len() > 0,
        s.last() == '\n',
        0 <= pos <= s.len(),
        pos == 0 || s[pos - 1] == '\n',
        !heading.contains('\n'),
        heading.len() > 0,
    ensures
        match heading_at(s, pos, heading) {
            Some(p) => pos <= p && heading_stands(s, p, heading) && forall|q: int|
                pos <= q < p ==> !#[trigger] heading_stands(s, q, heading),
            None => forall|q: int| pos <= q ==> !#[trigger] heading_stands(s, q, heading),
        },
    decreases s.len() - pos,
{
    if pos < s.len() {
        lemma_heading_is(s, pos, heading);
        lemma_line_ends_with_feed(s, pos);
        let e = line_end(s, pos);
        if !heading_stands(s, pos, heading) {
            lemma_first_heading(s, e, heading);
            assert forall|q: int| pos <= q < e implies !#[trigger] heading_stands(
                s,
                q,
                heading,
            ) by {
                if q > pos {
                    assert(s[q - 1] != '\n');
                }
            }
        }
    }
}

/// The entries of a day go right behind the first line that is its heading, one line for each, in
/// order. If there is no such line, the heading goes, behind an empty line, right behind the first
/// line of the log, and the entries behind it.
pub proof fn law_entries_go_under_their_day(
    base: Seq<char>,
    today: Seq<char>,
    entries: Seq<(Seq<char>, Seq<char>)>,
    p: int,
    n: int,
)
    requires
        base.len() > 0,
        base.last() == '\n',
        !today.contains('\n'),
        0 <= n < base.len(),
        base[n] == '\n',
        !base.take(n).contains('\n'),
        p >= 0,
        forall|q: int| 0 <= q < p ==> !#[trigger] heading_stands(base, q, "## "@ + today),
        p < base.len() ==> heading_stands(base, p, "## "@ + today),
    ensures
        ({
            let lines_added = join(
                entries.map_values(
                    |e: (Seq<char>, Seq<char>)|
                        "* **Creation**: Parsed ["@ + e.1 + "](/"@ + e.0 + "/index.md)."@,
                ),
                seq!['\n'],
            );
            let behind = p + 3 + today.len() + 1;
            &&& p < base.len() ==> log_with(base, today, entries) == base.take(behind) + lines_added
                + seq!['\n'] + base.skip(behind)
            &&& p >= base.len() ==> log_with(base, today, entries) == base.take(n + 1) + seq!['\n']
                + "## "@ + today + seq!['\n'] + lines_added + seq!['\n'] + base.skip(n + 1)
        }),
{
    let heading = "## "@ + today;
    reveal_strlit("## ");
    reveal_strlit("\n");
    assert(!heading.contains('\n')) by {
        if heading.contains('\n') {
            let j = choose|j: int| 0 <= j < heading.len() && heading[j] == '\n';
            if j >= 3 {
                assert(heading[j] == today[j - 3]);
                assert(today.contains('\n'));
            }
        }
    }
    lemma_first_heading(base, 0, heading);
    let written = entries.map_values(
        |e: (Seq<char>, Seq<char>)|
            "* **Creation**: Parsed ["@ + e.1 + "](/"@ + e.0 + "/index.md)."@,
    );
    assert(Seq::new(entries.len(), |i: int| bullet(entries[i])) =~= written);
    assert("\n"@ =~= seq!['\n']);
    if p < base.len() {
        assert(heading_at(base, 0, heading) == Some(p)) by {
            let found = heading_at(base, 0, heading);
            if found is Some {
                let q = found->0;
                if q < p {
                    assert(!heading_stands(base, q, heading));
                } else if p < q {
                    assert(!heading_stands(base, p, heading));
                }
            } else {
                assert(!heading_stands(base, p, heading));
            }
        }
        lemma_heading_is(base, p, heading);
        assert(log_with(base, today, entries) =~= base.take(p + 3 + today.len() + 1) + join(
            written,
            seq!['\n'],
        ) + seq!['\n'] + base.skip(p + 3 + today.len() + 1));
    } else {
        assert(heading_at(base, 0, heading) is None) by {
            let found = heading_at(base, 0, heading);
            if found is Some {
                assert(!heading_stands(base, found->0, heading));
            }
        }
        assert forall|j: int| 0 <= j < n implies base[j] != '\n' by {
            assert(base.take(n)[j] == base[j]);
            assert(base.take(n).contains(base.take(n)[j]));
        }
        lemma_line_end_is(base, 0, n + 1);
        assert(log_with(base, today, entries) =~= base.take(n + 1) + seq!['\n'] + "## "@ + today
            + seq!['\n'] + join(written, seq!['\n']) + seq!['\n'] + base.skip(n + 1));
    }
}

/// A log that is there is kept, with a line feed at its end; one that is missing or empty begins
/// with its title.
pub proof fn law_log_begins_with_what_is_there(existing: Option<Seq<char>>)
    ensures
        existing is Some && existing->0.len() > 0 && existing->0.last() == '\n' ==> log_base(existing)
            == existing->0,
        existing is Some && existing->0.len() > 0 && existing->0.last() != '\n' ==> log_base(existing)
            == existing->0 + seq!['\n'],
        existing is None || existing->0.len() == 0 ==> log_base(existing) == "# Update Log\n"@,
{
    reveal_strlit("# Update Log\n");
    if existing is Some {
        assert(existing->0.push('\n') =~= existing->0 + seq!['\n']);
    }
}

/// Nothing that stands in the log is lost: what is added goes between two parts of it, and its
/// first line stays the first.
pub proof fn law_log_only_grows(
    existing: Option<Seq<char>>,
    today: Seq<char>,
    entries: Seq<(Seq<char>, Seq<char>)>,
)
    ensures
        ({
            let base = log_base(existing);
            let at = insertion_point(base, today);
            let new = added(base, today, entries);
            let out = log_with(base, today, entries);
            &&& line_end(base, 0) <= at <= base.len()
            &&& out.len() == base.len() + new.len()
            &&& out.take(at) == base.take(at)
            &&& out.subrange(at, at + new.len()) == new
            &&& out.skip(at + new.len()) == base.skip(at)
        }),
{
    let base = log_base(existing);
    let heading = day_heading(today);
    let at = insertion_point(base, today);
    let new = added(base, today, entries);
    let out = log_with(base, today, entries);
    lemma_log_base(existing);
    lemma_line_end(base, 0);
    lemma_heading_at(base, 0, heading);
    match heading_at(base, 0, heading) {
        Some(p) => {
            lemma_line_end(base, p);
            if p > 0 {
                lemma_heading_at(base, line_end(base, 0), heading);
            }
        },
        None => {},
    }
    assert(out.take(at) =~= base.take(at));
    assert(out.subrange(at, at + new.len()) =~= new);
    assert(out.skip(at + new.len()) =~= base.skip(at));
}

} // verus!
