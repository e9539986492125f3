//! Scanning of Markdown and of the HTML in it: where lines, fences, code spans and tags
//! begin and end.

use vstd::prelude::*;

use crate::text::{
    ascii_space, chars_of, found_at, is_ascii_space, is_white_space, lead, lead_len, lemma_lead,
    lemma_lead_is, lower, lowered, same_ignoring_case, stands_at, trim_start, trimmed_start,
    CharClass,
};

verus! {

// ---- Lines ----

/// The position behind the line of `s` that begins at `start`, its line feed included.
pub open spec fn line_end(s: Seq<char>, start: int) -> int {
    let n = start + lead(s.skip(start), CharClass::Except('\n'));
    if n < s.len() {
        n + 1
    } else {
        s.len() as int
    }
}

/// A line behind which text begins is not empty.
pub proof fn lemma_line_end(s: Seq<char>, start: int)
    requires
        0 <= start <= s.len(),
    ensures
        start <= line_end(s, start) <= s.len(),
        start < s.len() ==> start < line_end(s, start),
{
    lemma_lead(s.skip(start), CharClass::Except('\n'));
}

/// The position behind the line that begins at `start`.
pub fn line_end_at(s: &[char], start: usize) -> (end: usize)
    requires
        start <= s@.len(),
    ensures
        end == line_end(s@, start as int),
        start <= end <= s@.len(),
        start < s@.len() ==> start < end,
{
    let n = lead_len(s, start, CharClass::Except('\n'));
    if n < s.len() - start {
        start + n + 1
    } else {
        s.len()
    }
}

// ---- Code fences ----

/// The marker and the length of the code fence that `line` opens: three or more of one of
/// the markers `` ` `` and `~` behind white space.
pub open spec fn fence_start(line: Seq<char>) -> Option<(char, nat)> {
    let t = trim_start(line, CharClass::Space);
    if t.len() > 0 && (t[0] == '`' || t[0] == '~') && lead(t, CharClass::Only(t[0])) >= 3 {
        Some((t[0], lead(t, CharClass::Only(t[0]))))
    } else {
        None
    }
}

/// The code fence that `line` opens.
pub fn opened_fence(line: &[char]) -> (r: Option<(char, usize)>)
    ensures
        match fence_start(line@) {
            Some((marker, len)) => r is Some && (r->0).0 == marker && (r->0).1 == len,
            None => r is None,
        },
{
    let t = trimmed_start(line, CharClass::Space);
    if t.len() == 0 {
        return None;
    }
    let marker = t[0];
    if marker != '`' && marker != '~' {
        return None;
    }
    let len = lead_len(t, 0, CharClass::Only(marker));
    assert(t@.skip(0) =~= t@);
    if len >= 3 {
        Some((marker, len))
    } else {
        None
    }
}

/// Whether `line` closes a fence of `len` markers: at least as many, and white space alone
/// before and behind them.
pub open spec fn closes_fence(line: Seq<char>, marker: char, len: nat) -> bool {
    let t = trim_start(line, CharClass::Space);
    let n = lead(t, CharClass::Only(marker));
    n >= len && lead(t.skip(n as int), CharClass::Space) == t.len() - n
}

/// Whether `line` closes a fence.
pub fn is_closing_fence_line(line: &[char], marker: char, len: usize) -> (r: bool)
    ensures
        r == closes_fence(line@, marker, len as nat),
{
    let t = trimmed_start(line, CharClass::Space);
    let n = lead_len(t, 0, CharClass::Only(marker));
    assert(t@.skip(0) =~= t@);
    let rest = lead_len(t, n, CharClass::Space);
    n >= len && rest == t.len() - n
}

/// The position behind the fenced block whose lines go on at `pos`: behind the line that
/// closes the fence, or the end of the text.
pub open spec fn fence_end(s: Seq<char>, pos: int, marker: char, len: nat) -> int
    decreases s.len() - pos,
    via fence_end_decreases
{
    if pos < 0 || pos >= s.len() {
        s.len() as int
    } else if closes_fence(s.subrange(pos, line_end(s, pos)), marker, len) {
        line_end(s, pos)
    } else {
        fence_end(s, line_end(s, pos), marker, len)
    }
}

#[via_fn]
proof fn fence_end_decreases(s: Seq<char>, pos: int, marker: char, len: nat) {
    if 0 <= pos < s.len() {
        lemma_line_end(s, pos);
    }
}

/// A fenced block ends in the text, not before the place where its lines go on.
pub proof fn lemma_fence_end(s: Seq<char>, pos: int, marker: char, len: nat)
    requires
        0 <= pos <= s.len(),
    ensures
        pos <= fence_end(s, pos, marker, len) <= s.len(),
    decreases s.len() - pos,
{
    if pos < s.len() {
        lemma_line_end(s, pos);
        if !closes_fence(s.subrange(pos, line_end(s, pos)), marker, len) {
            lemma_fence_end(s, line_end(s, pos), marker, len);
        }
    }
}

/// The position behind the fenced block whose lines go on at `start`.
pub fn fence_end_at(s: &[char], start: usize, marker: char, len: usize) -> (end: usize)
    requires
        start <= s@.len(),
    ensures
        end == fence_end(s@, start as int, marker, len as nat),
        start <= end <= s@.len(),
{
    let mut pos: usize = start;
    while pos < s.len()
        invariant
            start <= pos <= s@.len(),
            fence_end(s@, start as int, marker, len as nat) == fence_end(
                s@,
                pos as int,
                marker,
                len as nat,
            ),
        decreases s.len() - pos,
    {
        let end = line_end_at(s, pos);
        if is_closing_fence_line(vstd::slice::slice_subrange(s, pos, end), marker, len) {
            return end;
        }
        pos = end;
    }
    pos
}

/// The position, from `pos` on, of the first line that opens a fence, or the end of the text.
pub open spec fn text_end(s: Seq<char>, pos: int) -> int
    decreases s.len() - pos,
    via text_end_decreases
{
    if pos < 0 || pos >= s.len() {
        s.len() as int
    } else if fence_start(s.subrange(pos, line_end(s, pos))) is Some {
        pos
    } else {
        text_end(s, line_end(s, pos))
    }
}

#[via_fn]
proof fn text_end_decreases(s: Seq<char>, pos: int) {
    if 0 <= pos < s.len() {
        lemma_line_end(s, pos);
    }
}

/// Text without fences ends in the text, not before the place where it goes on.
pub proof fn lemma_text_end(s: Seq<char>, pos: int)
    requires
        0 <= pos <= s.len(),
    ensures
        pos <= text_end(s, pos) <= s.len(),
    decreases s.len() - pos,
{
    if pos < s.len() {
        lemma_line_end(s, pos);
        if fence_start(s.subrange(pos, line_end(s, pos))) is None {
            lemma_text_end(s, line_end(s, pos));
        }
    }
}

/// The position of the first line from `start` on that opens a fence, or the end of the text.
pub fn text_end_at(s: &[char], start: usize) -> (end: usize)
    requires
        start <= s@.len(),
    ensures
        end == text_end(s@, start as int),
        start <= end <= s@.len(),
{
    let mut pos: usize = start;
    while pos < s.len()
        invariant
            start <= pos <= s@.len(),
            text_end(s@, start as int) == text_end(s@, pos as int),
        decreases s.len() - pos,
    {
        let end = line_end_at(s, pos);
        if opened_fence(vstd::slice::slice_subrange(s, pos, end)).is_some() {
            return pos;
        }
        pos = end;
    }
    pos
}

/// Whether a line of `s` begins at `a` and ends before `b`, its line feed included.
pub open spec fn is_line(s: Seq<char>, a: int, b: int) -> bool {
    &&& 0 <= a < b <= s.len()
    &&& a == 0 || s[a - 1] == '\n'
    &&& b == s.len() || s[b - 1] == '\n'
    &&& forall|j: int| a <= j < b - 1 ==> #[trigger] s[j] != '\n'
}

/// The line that begins at a place goes to the next line feed, or to the end.
pub proof fn law_line_ends_behind_its_feed(s: Seq<char>, a: int)
    requires
        0 <= a < s.len(),
        a == 0 || s[a - 1] == '\n',
    ensures
        is_line(s, a, line_end(s, a)),
        forall|b: int| #[trigger] is_line(s, a, b) ==> b == line_end(s, a),
{
    let class = CharClass::Except('\n');
    let t = s.skip(a);
    lemma_lead(t, class);
    let n = lead(t, class);
    let e = line_end(s, a);
    assert forall|j: int| a <= j < e - 1 implies #[trigger] s[j] != '\n' by {
        assert(class.has(t[j - a]));
    }
    if n < t.len() {
        assert(t[n as int] == s[a + n]);
    } else {
        assert(e == s.len());
    }
    assert forall|b: int| #[trigger] is_line(s, a, b) implies b == e by {
        if b < e {
            assert(s[b - 1] != '\n');
        }
        if e < b {
            assert(s[e - 1] == '\n');
        }
    }
}

/// A fence is opened by three or more of one mark, backticks or tildes, with nothing but white
/// space before them; it has that mark and that length, whatever stands behind.
pub proof fn law_fences_are_opened_by_three_marks(
    before: Seq<char>,
    mark: char,
    n: nat,
    rest: Seq<char>,
)
    requires
        forall|j: int| 0 <= j < before.len() ==> is_white_space(#[trigger] before[j]),
        !is_white_space(mark),
        n > 0,
        rest.len() > 0 ==> rest[0] != mark,
    ensures
        fence_start(before + Seq::new(n, |j: int| mark) + rest) == if (mark == '`' || mark == '~')
            && n >= 3 {
            Some((mark, n))
        } else {
            None
        },
        fence_start(before) is None,
{
    let marks = Seq::new(n, |j: int| mark);
    let line = before + marks + rest;
    let t = marks + rest;
    assert forall|j: int| 0 <= j < before.len() implies CharClass::Space.has(
        #[trigger] line[j],
    ) by {
        assert(line[j] == before[j]);
    }
    assert(line[before.len() as int] == mark);
    lemma_lead_is(line, CharClass::Space, before.len());
    assert(trim_start(line, CharClass::Space) =~= t);
    assert(t[0] == mark);
    if rest.len() > 0 {
        assert(t[n as int] == rest[0]);
    }
    lemma_lead_is(t, CharClass::Only(mark), n);
    lemma_lead_is(before, CharClass::Space, before.len());
    assert(trim_start(before, CharClass::Space) =~= Seq::empty());
}

/// A fence is closed by a line of its mark, at least as many as opened it, with nothing but white
/// space before and behind them.
pub proof fn law_fences_are_closed_by_their_mark(
    before: Seq<char>,
    mark: char,
    n: nat,
    rest: Seq<char>,
    len: nat,
)
    requires
        forall|j: int| 0 <= j < before.len() ==> is_white_space(#[trigger] before[j]),
        !is_white_space(mark),
        rest.len() > 0 ==> rest[0] != mark,
        n == 0 && rest.len() > 0 ==> !is_white_space(rest[0]),
    ensures
        closes_fence(before + Seq::new(n, |j: int| mark) + rest, mark, len) <==> n >= len && forall|
            j: int,
        |
            0 <= j < rest.len() ==> is_white_space(#[trigger] rest[j]),
{
    let marks = Seq::new(n, |j: int| mark);
    let line = before + marks + rest;
    let t = marks + rest;
    assert forall|j: int| 0 <= j < before.len() implies CharClass::Space.has(
        #[trigger] line[j],
    ) by {
        assert(line[j] == before[j]);
    }
    if t.len() > 0 {
        assert(line[before.len() as int] == t[0]);
        if n > 0 {
            assert(t[0] == marks[0]);
        } else {
            assert(t[0] == rest[0]);
        }
    }
    lemma_lead_is(line, CharClass::Space, before.len());
    assert(trim_start(line, CharClass::Space) =~= t);
    if rest.len() > 0 {
        assert(t[n as int] == rest[0]);
    }
    assert forall|j: int| 0 <= j < n implies CharClass::Only(mark).has(#[trigger] t[j]) by {
        assert(t[j] == marks[j]);
    }
    lemma_lead_is(t, CharClass::Only(mark), n);
    assert(t.skip(n as int) =~= rest);
    lemma_lead(rest, CharClass::Space);
    if forall|j: int| 0 <= j < rest.len() ==> is_white_space(#[trigger] rest[j]) {
        lemma_lead_is(rest, CharClass::Space, rest.len());
    }
    if lead(rest, CharClass::Space) == rest.len() {
        assert forall|j: int| 0 <= j < rest.len() implies is_white_space(#[trigger] rest[j]) by {
            assert(CharClass::Space.has(rest[j]));
        }
    }
}

/// A fenced block ends behind the first line from `pos` on that closes it, or with the text if
/// there is none.
pub proof fn law_fenced_block_ends_at_the_first_closing_line(
    s: Seq<char>,
    pos: int,
    marker: char,
    len: nat,
)
    requires
        0 <= pos <= s.len(),
        pos == 0 || pos == s.len() || s[pos - 1] == '\n',
    ensures
        ({
            let e = fence_end(s, pos, marker, len);
            &&& pos <= e <= s.len()
            &&& forall|a: int, b: int|
                pos <= a && b < e && #[trigger] is_line(s, a, b) ==> !closes_fence(
                    s.subrange(a, b),
                    marker,
                    len,
                )
            &&& e < s.len() ==> exists|a: int|
                pos <= a && #[trigger] is_line(s, a, e) && closes_fence(
                    s.subrange(a, e),
                    marker,
                    len,
                )
        }),
    decreases s.len() - pos,
{
    let e = fence_end(s, pos, marker, len);
    if pos < s.len() {
        law_line_ends_behind_its_feed(s, pos);
        let next = line_end(s, pos);
        if closes_fence(s.subrange(pos, next), marker, len) {
            assert forall|a: int, b: int|
                pos <= a && b < e && #[trigger] is_line(s, a, b) implies !closes_fence(
                s.subrange(a, b),
                marker,
                len,
            ) by {
                assert(s[b - 1] != '\n');
            }
            assert(is_line(s, pos, e));
        } else {
            law_fenced_block_ends_at_the_first_closing_line(s, next, marker, len);
            assert forall|a: int, b: int|
                pos <= a && b < e && #[trigger] is_line(s, a, b) implies !closes_fence(
                s.subrange(a, b),
                marker,
                len,
            ) by {
                if a < next {
                    if a > pos {
                        assert(s[a - 1] != '\n');
                    }
                    assert(b == next);
                }
            }
        }
    }
}

/// Text without fences ends where the first line from `pos` on begins that opens one, or with the
/// text if there is none.
pub proof fn law_text_ends_at_the_first_opening_line(s: Seq<char>, pos: int)
    requires
        0 <= pos <= s.len(),
        pos == 0 || pos == s.len() || s[pos - 1] == '\n',
    ensures
        ({
            let e = text_end(s, pos);
            &&& pos <= e <= s.len()
            &&& forall|a: int, b: int|
                pos <= a < e && #[trigger] is_line(s, a, b) ==> fence_start(
                    s.subrange(a, b),
                ) is None
            &&& e < s.len() ==> exists|b: int| #[trigger]
                is_line(s, e, b) && fence_start(s.subrange(e, b)) is Some
        }),
    decreases s.len() - pos,
{
    let e = text_end(s, pos);
    if pos < s.len() {
        law_line_ends_behind_its_feed(s, pos);
        let next = line_end(s, pos);
        if fence_start(s.subrange(pos, next)) is Some {
            assert(is_line(s, pos, next));
        } else {
            law_text_ends_at_the_first_opening_line(s, next);
            assert forall|a: int, b: int|
                pos <= a < e && #[trigger] is_line(s, a, b) implies fence_start(
                s.subrange(a, b),
            ) is None by {
                if a < next {
                    if a > pos {
                        assert(s[a - 1] != '\n');
                    }
                    assert(b == next);
                }
            }
        }
    }
}

// ---- Code spans ----

/// The first place at or behind `pos` where `n` backticks stand, and at least one.
pub open spec fn backticks_from(s: Seq<char>, pos: int, n: nat) -> Option<int>
    decreases s.len() - pos,
{
    if pos + n > s.len() || pos >= s.len() {
        None
    } else if s[pos] == '`' && lead(s.skip(pos), CharClass::Only('`')) >= n {
        Some(pos)
    } else {
        backticks_from(s, pos + 1, n)
    }
}

/// Backticks that are found stand in the text, at or behind the place where the search began.
pub proof fn lemma_backticks_from(s: Seq<char>, pos: int, n: nat)
    ensures
        backticks_from(s, pos, n) matches Some(p) ==> pos <= p && p + n <= s.len(),
    decreases s.len() - pos,
{
    if pos + n <= s.len() && pos < s.len() {
        lemma_backticks_from(s, pos + 1, n);
    }
}

/// The length of the run of backticks at `start`, if there is one.
pub fn backtick_run_len(s: &[char], start: usize) -> (r: Option<usize>)
    ensures
        match r {
            Some(n) => n == lead(s@.skip(start as int), CharClass::Only('`')) && n > 0 && start + n
                <= s@.len(),
            None => start >= s@.len() || s@[start as int] != '`',
        },
{
    if start >= s.len() || s[start] != '`' {
        return None;
    }
    let n = lead_len(s, start, CharClass::Only('`'));
    proof {
        let t = s@.skip(start as int);
        lemma_lead(t, CharClass::Only('`'));
        assert(t[0] == s@[start as int]);
    }
    Some(n)
}

/// The first place at or behind `start` where `run_len` backticks stand, and at least one.
pub fn find_matching_backtick_run(s: &[char], start: usize, run_len: usize) -> (r: Option<usize>)
    ensures
        match backticks_from(s@, start as int, run_len as nat) {
            Some(p) => r is Some && r->0 == p && start <= p && p + run_len <= s@.len(),
            None => r is None,
        },
{
    let mut pos: usize = start;
    while pos < s.len() && run_len <= s.len() - pos
        invariant
            start <= pos,
            backticks_from(s@, start as int, run_len as nat) == backticks_from(
                s@,
                pos as int,
                run_len as nat,
            ),
        decreases s.len() - pos,
    {
        if s[pos] == '`' {
            let n = lead_len(s, pos, CharClass::Only('`'));
            if n >= run_len {
                return Some(pos);
            }
        }
        pos += 1;
    }
    None
}

/// Whether `n` backticks stand in `s` at `p`.
pub open spec fn backticks_at(s: Seq<char>, p: int, n: nat) -> bool {
    0 <= p && p + n <= s.len() && forall|j: int| p <= j < p + n ==> #[trigger] s[j] == '`'
}

/// Backticks of a number are found where they stand first, at or behind `pos`.
pub proof fn law_backticks_are_found_first(s: Seq<char>, pos: int, n: nat)
    requires
        0 <= pos,
        n > 0,
    ensures
        match backticks_from(s, pos, n) {
            Some(p) => pos <= p && backticks_at(s, p, n) && forall|q: int|
                pos <= q < p ==> !#[trigger] backticks_at(s, q, n),
            None => forall|q: int| pos <= q ==> !#[trigger] backticks_at(s, q, n),
        },
    decreases s.len() - pos,
{
    if pos + n <= s.len() && pos < s.len() {
        let t = s.skip(pos);
        let class = CharClass::Only('`');
        lemma_lead(t, class);
        assert(t[0] == s[pos]);
        if lead(t, class) >= n {
            assert forall|j: int| pos <= j < pos + n implies #[trigger] s[j] == '`' by {
                assert(class.has(t[j - pos]));
            }
        } else {
            assert(s[pos + lead(t, class)] == t[lead(t, class) as int]);
            assert(!backticks_at(s, pos, n));
        }
        if !(s[pos] == '`' && lead(t, class) >= n) {
            law_backticks_are_found_first(s, pos + 1, n);
        }
    }
}

// ---- Tags ----

/// Whether `c` may follow the name of a tag.
pub open spec fn ends_tag_name(c: char) -> bool {
    is_ascii_space(c) || c == '>' || c == '/'
}

/// Whether a tag with the name `name`, in any case, begins in `s` at `at`.
pub open spec fn starts_tag(s: Seq<char>, at: int, name: Seq<char>) -> bool {
    &&& 0 <= at < s.len()
    &&& s[at] == '<'
    &&& at + 1 + name.len() <= s.len()
    &&& lower(s.subrange(at + 1, at + 1 + name.len())) == lower(name)
    &&& at + 1 + name.len() < s.len() ==> ends_tag_name(s[at + 1 + name.len()])
}

/// Whether a tag with the name `name` begins at `at`.
pub fn tag_starts(s: &[char], at: usize, name: &[char]) -> (r: bool)
    ensures
        r == starts_tag(s@, at as int, name@),
{
    if at >= s.len() || s[at] != '<' || s.len() - at - 1 < name.len() {
        return false;
    }
    let end = at + 1 + name.len();
    if !same_ignoring_case(vstd::slice::slice_subrange(s, at + 1, end), name) {
        return false;
    }
    if end == s.len() {
        return true;
    }
    let c = s[end];
    ascii_space(c) || c == '>' || c == '/'
}

/// The first place at or behind `pos` where a tag with the name `name` begins.
pub open spec fn tag_from(s: Seq<char>, pos: int, name: Seq<char>) -> Option<int>
    decreases s.len() - pos,
{
    if pos >= s.len() {
        None
    } else if starts_tag(s, pos, name) {
        Some(pos)
    } else {
        tag_from(s, pos + 1, name)
    }
}

/// A tag that is found begins in the text, at or behind the place where the search began.
pub proof fn lemma_tag_from(s: Seq<char>, pos: int, name: Seq<char>)
    ensures
        tag_from(s, pos, name) matches Some(p) ==> pos <= p < s.len() && starts_tag(s, p, name),
    decreases s.len() - pos,
{
    if pos < s.len() && !starts_tag(s, pos, name) {
        lemma_tag_from(s, pos + 1, name);
    }
}

/// A tag begins with `<` and its name, in any case; the name ends with the text, or before white
/// space, `>` or `/`.
pub proof fn law_tags_are_known_by_name(a: Seq<char>, name: Seq<char>, written: Seq<char>, c: char, b:
    Seq<char>)
    requires
        written.len() == name.len(),
    ensures
        starts_tag(a + seq!['<'] + written + seq![c] + b, a.len() as int, name) <==> lower(written)
            == lower(name) && (c == ' ' || c == '\t' || c == '\n' || c == '\u{c}' || c == '\r' || c
            == '>' || c == '/'),
        starts_tag(a + seq!['<'] + written, a.len() as int, name) <==> lower(written) == lower(
            name,
        ),
        forall|at: int| 0 <= at < a.len() && #[trigger] a[at] != '<' ==> !starts_tag(a, at, name),
{
    let n = a.len() as int;
    let s = a + seq!['<'] + written + seq![c] + b;
    let t = a + seq!['<'] + written;
    assert(s[n] == '<');
    assert(s.subrange(n + 1, n + 1 + name.len()) =~= written);
    assert(s[n + 1 + name.len()] == c);
    assert(t[n] == '<');
    assert(t.subrange(n + 1, n + 1 + name.len()) =~= written);
}

/// A tag is found where it begins first, at or behind `pos`.
pub proof fn law_tags_are_found_first(s: Seq<char>, pos: int, name: Seq<char>)
    ensures
        match tag_from(s, pos, name) {
            Some(p) => pos <= p && starts_tag(s, p, name) && forall|q: int|
                pos <= q < p ==> !#[trigger] starts_tag(s, q, name),
            None => forall|q: int| pos <= q ==> !#[trigger] starts_tag(s, q, name),
        },
    decreases s.len() - pos,
{
    if pos < s.len() && !starts_tag(s, pos, name) {
        law_tags_are_found_first(s, pos + 1, name);
    }
}

/// The first place at or behind `start` where a tag with the name `name` begins.
pub fn find_tag(s: &[char], start: usize, name: &[char]) -> (r: Option<usize>)
    ensures
        match tag_from(s@, start as int, name@) {
            Some(p) => r is Some && r->0 == p && start <= p < s@.len(),
            None => r is None,
        },
{
    let mut pos: usize = start;
    while pos < s.len()
        invariant
            start <= pos,
            tag_from(s@, start as int, name@) == tag_from(s@, pos as int, name@),
        decreases s.len() - pos,
    {
        if tag_starts(s, pos, name) {
            return Some(pos);
        }
        pos += 1;
    }
    None
}

/// The position behind the `>` that closes a tag, looked for from `pos` on; inside a quotation
/// opened by `quote` no `>` counts, and only the same mark ends it.
pub open spec fn tag_close(s: Seq<char>, pos: int, quote: Option<char>) -> Option<int>
    decreases s.len() - pos,
{
    if pos < 0 || pos >= s.len() {
        None
    } else {
        match quote {
            Some(q) => tag_close(
                s,
                pos + 1,
                if s[pos] == q {
                    None
                } else {
                    quote
                },
            ),
            None => if s[pos] == '>' {
                Some(pos + 1)
            } else if s[pos] == '\'' || s[pos] == '"' {
                tag_close(s, pos + 1, Some(s[pos]))
            } else {
                tag_close(s, pos + 1, None)
            },
        }
    }
}

/// The position behind the tag that begins at `start`.
pub open spec fn tag_end(s: Seq<char>, start: int) -> Option<int> {
    tag_close(s, start + 1, None)
}

proof fn lemma_tag_close(s: Seq<char>, pos: int, quote: Option<char>)
    ensures
        tag_close(s, pos, quote) matches Some(e) ==> pos < e <= s.len() && s[e - 1] == '>',
    decreases s.len() - pos,
{
    if 0 <= pos < s.len() {
        match quote {
            Some(q) => lemma_tag_close(
                s,
                pos + 1,
                if s[pos] == q {
                    None
                } else {
                    quote
                },
            ),
            None => if s[pos] == '>' {
            } else if s[pos] == '\'' || s[pos] == '"' {
                lemma_tag_close(s, pos + 1, Some(s[pos]));
            } else {
                lemma_tag_close(s, pos + 1, None);
            },
        }
    }
}

/// A tag takes at least two characters, and its last is `>`.
pub proof fn lemma_tag_end(s: Seq<char>, start: int)
    ensures
        tag_end(s, start) matches Some(e) ==> start + 1 < e <= s.len() && s[e - 1] == '>',
{
    lemma_tag_close(s, start + 1, None);
}

/// Whether `c` ends a tag or opens a quotation.
pub open spec fn matters_in_tag(c: char) -> bool {
    c == '>' || c == '"' || c == '\''
}

/// A tag ends behind the first `>` outside quotations. A quotation goes from one mark to the next
/// of the same kind, whatever stands between; a tag with an open quotation does not end.
pub proof fn law_tags_end_outside_quotations(s: Seq<char>, pos: int, a: int, b: int)
    requires
        0 <= pos <= a <= s.len(),
        forall|j: int| pos <= j < a ==> !matters_in_tag(#[trigger] s[j]),
        a < s.len() ==> matters_in_tag(s[a]) && a < b <= s.len(),
        forall|j: int| a < j < b ==> #[trigger] s[j] != s[a],
        a < s.len() && b < s.len() ==> s[b] == s[a],
    ensures
        a == s.len() ==> tag_close(s, pos, None) is None,
        a < s.len() && s[a] == '>' ==> tag_close(s, pos, None) == Some(a + 1),
        a < s.len() && s[a] != '>' && b == s.len() ==> tag_close(s, pos, None) is None,
        a < s.len() && s[a] != '>' && b < s.len() ==> tag_close(s, pos, None) == tag_close(
            s,
            b + 1,
            None,
        ),
    decreases a - pos,
{
    if pos < a {
        assert(!matters_in_tag(s[pos]));
        law_tags_end_outside_quotations(s, pos + 1, a, b);
    } else if a < s.len() && s[a] != '>' {
        lemma_quotation_end(s, a + 1, b, s[a]);
    }
}

proof fn lemma_quotation_end(s: Seq<char>, pos: int, b: int, q: char)
    requires
        0 <= pos <= b <= s.len(),
        forall|j: int| pos <= j < b ==> #[trigger] s[j] != q,
        b < s.len() ==> s[b] == q,
    ensures
        b == s.len() ==> tag_close(s, pos, Some(q)) is None,
        b < s.len() ==> tag_close(s, pos, Some(q)) == tag_close(s, b + 1, None),
    decreases b - pos,
{
    if pos < b {
        assert(s[pos] != q);
        lemma_quotation_end(s, pos + 1, b, q);
    }
}

/// Where a tag ends does not depend on what stands before it.
pub proof fn lemma_tag_close_behind(a: Seq<char>, s: Seq<char>, pos: int, quote: Option<char>)
    requires
        0 <= pos,
    ensures
        tag_close(a + s, a.len() + pos, quote) == match tag_close(s, pos, quote) {
            Some(e) => Some(a.len() + e),
            None => None,
        },
    decreases s.len() - pos,
{
    if pos < s.len() {
        let c = s[pos];
        assert((a + s)[a.len() + pos] == c);
        match quote {
            Some(q) => lemma_tag_close_behind(
                a,
                s,
                pos + 1,
                if c == q {
                    None
                } else {
                    quote
                },
            ),
            None => if c == '\'' || c == '"' {
                lemma_tag_close_behind(a, s, pos + 1, Some(c));
            } else if c != '>' {
                lemma_tag_close_behind(a, s, pos + 1, None);
            },
        }
    }
}

/// The position behind the tag that begins at `start`.
pub fn find_tag_end(s: &[char], start: usize) -> (r: Option<usize>)
    ensures
        match tag_end(s@, start as int) {
            Some(e) => r is Some && r->0 == e && start + 1 < e <= s@.len(),
            None => r is None,
        },
{
    if start >= s.len() {
        return None;
    }
    let mut quote: Option<char> = None;
    let mut pos: usize = start + 1;
    while pos < s.len()
        invariant
            start < pos <= s@.len(),
            tag_end(s@, start as int) == tag_close(s@, pos as int, quote),
        decreases s.len() - pos,
    {
        let c = s[pos];
        match quote {
            Some(q) => {
                if c == q {
                    quote = None;
                }
            },
            None => {
                if c == '>' {
                    return Some(pos + 1);
                }
                if c == '\'' || c == '"' {
                    quote = Some(c);
                }
            },
        }
        pos += 1;
    }
    None
}

// ---- Occurrences ----

/// How often `needle` occurs in `s` at or behind `pos`, counted from the left without overlap.
pub open spec fn occurrences(s: Seq<char>, pos: int, needle: Seq<char>) -> nat
    decreases s.len() - pos,
{
    if needle.len() == 0 || pos >= s.len() {
        0
    } else if stands_at(s, pos, needle) {
        1 + occurrences(s, pos + needle.len(), needle)
    } else {
        occurrences(s, pos + 1, needle)
    }
}

/// There are no more occurrences than characters.
pub proof fn lemma_occurrences(s: Seq<char>, pos: int, needle: Seq<char>)
    requires
        pos <= s.len(),
    ensures
        occurrences(s, pos, needle) <= s.len() - pos,
    decreases s.len() - pos,
{
    if needle.len() > 0 && pos < s.len() {
        if stands_at(s, pos, needle) {
            lemma_occurrences(s, pos + needle.len(), needle);
        } else {
            lemma_occurrences(s, pos + 1, needle);
        }
    }
}

/// Occurrences are counted from the left: each one is counted where it stands first behind the
/// one before it.
pub proof fn law_occurrences_are_counted(s: Seq<char>, pos: int, needle: Seq<char>, p: int)
    requires
        0 <= pos <= p,
        needle.len() > 0,
        forall|q: int| pos <= q < p ==> !#[trigger] stands_at(s, q, needle),
    ensures
        stands_at(s, p, needle) ==> occurrences(s, pos, needle) == 1 + occurrences(
            s,
            p + needle.len(),
            needle,
        ),
        p >= s.len() ==> occurrences(s, pos, needle) == 0,
    decreases p - pos,
{
    if pos < p {
        assert(!stands_at(s, pos, needle));
        if pos < s.len() {
            law_occurrences_are_counted(s, pos + 1, needle, p);
        }
    }
}

/// How often `needle` occurs in `text`, in any case of ASCII letters and without overlap.
pub fn count_case_insensitive_occurrences(text: &[char], needle: &str) -> (count: usize)
    ensures
        count == occurrences(lower(text@), 0, lower(needle@)),
{
    let haystack = lowered(text);
    let wanted = chars_of(needle);
    let needle = lowered(&wanted);
    if needle.len() == 0 {
        return 0;
    }
    let mut count: usize = 0;
    let mut pos: usize = 0;
    while pos < haystack.len()
        invariant
            pos <= haystack@.len(),
            count <= pos,
            needle@.len() > 0,
            count + occurrences(haystack@, pos as int, needle@) == occurrences(
                haystack@,
                0,
                needle@,
            ),
        decreases haystack.len() - pos,
    {
        if found_at(&haystack, pos, &needle) {
            count += 1;
            pos += needle.len();
        } else {
            pos += 1;
        }
    }
    count
}

} // verus!
