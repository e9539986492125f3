//! Markdown cut into text, code and the HTML fragments that may be converted, and put together
//! again with what they were converted to.

use vstd::prelude::*;

use crate::html::{
    code_span_end, extract_html_fragment, find_code_span_end, fragment_end, lemma_code_span_end,
    lemma_fragment_end,
};
use crate::pieces::texts;
use crate::scan::{
    fence_end, fence_end_at, fence_start, is_line, law_line_ends_behind_its_feed, lemma_fence_end,
    lemma_line_end, lemma_text_end, line_end, line_end_at, opened_fence, text_end, text_end_at,
};
use crate::text::{
    chars_of, is_white_space, law_trimming_takes_only_the_ends, push_str, string_of, trim, trimmed,
    CharClass,
};

verus! {

/// A part of the Markdown.
pub enum Part {
    /// Text that is kept.
    Text(Seq<char>),
    /// Code, which is kept too.
    Code(Seq<char>),
    /// The HTML fragment number `index`, counted from 0.
    Html { index: nat, raw: Seq<char> },
}

/// A part of the Markdown.
#[derive(Debug)]
pub enum Segment {
    /// Text that is kept.
    Text(String),
    /// Code, which is kept too.
    Code(String),
    /// The HTML fragment number `index`, counted from 0.
    Html { index: usize, raw: String },
}

impl View for Segment {
    type V = Part;

    open spec fn view(&self) -> Part {
        match self {
            Segment::Text(text) => Part::Text(text@),
            Segment::Code(text) => Part::Code(text@),
            Segment::Html { index, raw } => Part::Html { index: *index as nat, raw: raw@ },
        }
    }
}

/// The parts that `segments` stand for.
pub open spec fn parts(segments: Seq<Segment>) -> Seq<Part> {
    Seq::new(segments.len(), |i: int| segments[i]@)
}

// ---- Cutting ----

/// The text between `from` and `to` as a part, if there is any.
pub open spec fn text_part(c: Seq<char>, from: int, to: int) -> Seq<Part> {
    if from < to {
        seq![Part::Text(c.subrange(from, to))]
    } else {
        Seq::empty()
    }
}

/// The parts of `c`, where no fence is, from `i` on; the text from `kept` to `i` belongs to no
/// part yet, and `n` fragments stand before.
pub open spec fn chunk_parts(c: Seq<char>, i: int, kept: int, n: nat) -> Seq<Part>
    decreases c.len() - i,
    via chunk_parts_decreases
{
    if i < 0 || i >= c.len() {
        text_part(c, kept, c.len() as int)
    } else {
        match code_span_end(c, i) {
            Some(e) => text_part(c, kept, i) + seq![Part::Code(c.subrange(i, e))] + chunk_parts(
                c,
                e,
                e,
                n,
            ),
            None => match fragment_end(c, i) {
                Some(e) => text_part(c, kept, i) + seq![
                    Part::Html { index: n, raw: c.subrange(i, e) },
                ] + chunk_parts(c, e, e, n + 1),
                None => chunk_parts(c, i + 1, kept, n),
            },
        }
    }
}

#[via_fn]
proof fn chunk_parts_decreases(c: Seq<char>, i: int, kept: int, n: nat) {
    lemma_code_span_end(c, i);
    lemma_fragment_end(c, i);
}

/// How many of `ps` are HTML fragments.
pub open spec fn html_count(ps: Seq<Part>) -> nat
    decreases ps.len(),
{
    if ps.len() == 0 {
        0
    } else {
        html_count(ps.drop_last()) + (if ps.last() is Html {
            1nat
        } else {
            0nat
        })
    }
}

/// The parts of `m` from `pos` on, where a line begins and `n` fragments stand before.
pub open spec fn parts_from(m: Seq<char>, pos: int, n: nat) -> Seq<Part>
    decreases m.len() - pos,
    via parts_from_decreases
{
    if pos < 0 || pos >= m.len() {
        Seq::empty()
    } else {
        match fence_start(m.subrange(pos, line_end(m, pos))) {
            Some((marker, len)) => {
                let end = fence_end(m, line_end(m, pos), marker, len);
                seq![Part::Code(m.subrange(pos, end))] + parts_from(m, end, n)
            },
            None => {
                let end = text_end(m, line_end(m, pos));
                let ps = chunk_parts(m.subrange(pos, end), 0, 0, n);
                ps + parts_from(m, end, n + html_count(ps))
            },
        }
    }
}

#[via_fn]
proof fn parts_from_decreases(m: Seq<char>, pos: int, n: nat) {
    if 0 <= pos < m.len() {
        let next_line = line_end(m, pos);
        lemma_line_end(m, pos);
        lemma_text_end(m, next_line);
        match fence_start(m.subrange(pos, next_line)) {
            Some((marker, len)) => lemma_fence_end(m, next_line, marker, len),
            None => {},
        }
    }
}

/// The parts of the Markdown `m`.
pub open spec fn parts_of(m: Seq<char>) -> Seq<Part> {
    parts_from(m, 0, 0)
}

// ---- Putting together ----

/// What stands for a part: for an HTML fragment what it was converted to, if it was.
pub open spec fn shown(p: Part, converted: Seq<Option<Seq<char>>>) -> Seq<char> {
    match p {
        Part::Text(text) => text,
        Part::Code(text) => text,
        Part::Html { index, raw } => if index < converted.len() && converted[index as int] is Some {
            converted[index as int]->0
        } else {
            raw
        },
    }
}

/// The parts put together.
pub open spec fn join_parts(ps: Seq<Part>, converted: Seq<Option<Seq<char>>>) -> Seq<char>
    decreases ps.len(),
{
    if ps.len() == 0 {
        Seq::empty()
    } else {
        join_parts(ps.drop_last(), converted) + shown(ps.last(), converted)
    }
}

/// What the fragments were converted to, as text.
pub open spec fn conversions(v: Seq<Option<String>>) -> Seq<Option<Seq<char>>> {
    Seq::new(
        v.len(),
        |i: int|
            match v[i] {
                Some(text) => Some(text@),
                None => None,
            },
    )
}

/// The HTML fragments among the parts, in order.
pub open spec fn fragments(ps: Seq<Part>) -> Seq<Seq<char>>
    decreases ps.len(),
{
    if ps.len() == 0 {
        Seq::empty()
    } else {
        match ps.last() {
            Part::Html { raw, .. } => fragments(ps.drop_last()).push(raw),
            _ => fragments(ps.drop_last()),
        }
    }
}

// ---- Laws ----

proof fn lemma_join_append(a: Seq<Part>, b: Seq<Part>, converted: Seq<Option<Seq<char>>>)
    ensures
        join_parts(a + b, converted) == join_parts(a, converted) + join_parts(b, converted),
    decreases b.len(),
{
    if b.len() == 0 {
        assert(a + b =~= a);
        assert(join_parts(a, converted) + join_parts(b, converted) =~= join_parts(a, converted));
    } else {
        assert((a + b).drop_last() =~= a + b.drop_last());
        lemma_join_append(a, b.drop_last(), converted);
        assert(join_parts(a, converted) + join_parts(b.drop_last(), converted) + shown(
            b.last(),
            converted,
        ) =~= join_parts(a, converted) + join_parts(b, converted));
    }
}

proof fn lemma_join_one(p: Part, converted: Seq<Option<Seq<char>>>)
    ensures
        join_parts(seq![p], converted) == shown(p, converted),
{
    assert(seq![p].drop_last() =~= Seq::empty());
    assert(join_parts(seq![p].drop_last(), converted) =~= Seq::empty());
    assert(join_parts(seq![p], converted) =~= shown(p, converted));
}

proof fn lemma_count_append(a: Seq<Part>, b: Seq<Part>)
    ensures
        html_count(a + b) == html_count(a) + html_count(b),
    decreases b.len(),
{
    if b.len() == 0 {
        assert(a + b =~= a);
    } else {
        assert((a + b).drop_last() =~= a + b.drop_last());
        lemma_count_append(a, b.drop_last());
    }
}

proof fn lemma_count_one(p: Part)
    ensures
        html_count(seq![p]) == if p is Html {
            1nat
        } else {
            0nat
        },
{
    assert(seq![p].drop_last() =~= Seq::empty());
    assert(html_count(Seq::<Part>::empty()) == 0);
}

/// The parts of a chunk put together again, with nothing converted.
proof fn lemma_chunk_parts_join(c: Seq<char>, i: int, kept: int, n: nat)
    requires
        0 <= kept <= i <= c.len(),
    ensures
        join_parts(chunk_parts(c, i, kept, n), Seq::empty()) == c.skip(kept),
    decreases c.len() - i,
{
    lemma_text_part_join(c, kept, i);
    lemma_text_part_join(c, kept, c.len() as int);
    if i >= c.len() {
        assert(c.subrange(kept, c.len() as int) =~= c.skip(kept));
    } else {
        lemma_code_span_end(c, i);
        lemma_fragment_end(c, i);
        match code_span_end(c, i) {
            Some(e) => {
                let p = Part::Code(c.subrange(i, e));
                lemma_chunk_parts_join(c, e, e, n);
                lemma_join_three(c, kept, i, e, p, chunk_parts(c, e, e, n));
            },
            None => match fragment_end(c, i) {
                Some(e) => {
                    let p = Part::Html { index: n, raw: c.subrange(i, e) };
                    lemma_chunk_parts_join(c, e, e, n + 1);
                    lemma_join_three(c, kept, i, e, p, chunk_parts(c, e, e, n + 1));
                },
                None => lemma_chunk_parts_join(c, i + 1, kept, n),
            },
        }
    }
}

proof fn lemma_text_part_join(c: Seq<char>, from: int, to: int)
    requires
        0 <= from <= to <= c.len(),
    ensures
        join_parts(text_part(c, from, to), Seq::empty()) == c.subrange(from, to),
{
    if from < to {
        lemma_join_one(Part::Text(c.subrange(from, to)), Seq::empty());
    } else {
        assert(c.subrange(from, to) =~= Seq::empty());
    }
}

proof fn lemma_join_three(c: Seq<char>, kept: int, i: int, e: int, p: Part, rest: Seq<Part>)
    requires
        0 <= kept <= i <= e <= c.len(),
        shown(p, Seq::empty()) == c.subrange(i, e),
        join_parts(rest, Seq::empty()) == c.skip(e),
    ensures
        join_parts(text_part(c, kept, i) + seq![p] + rest, Seq::empty()) == c.skip(kept),
{
    let none = Seq::<Option<Seq<char>>>::empty();
    lemma_text_part_join(c, kept, i);
    lemma_join_one(p, none);
    lemma_join_append(text_part(c, kept, i), seq![p], none);
    lemma_join_append(text_part(c, kept, i) + seq![p], rest, none);
    assert(c.subrange(kept, i) + c.subrange(i, e) + c.skip(e) =~= c.skip(kept));
}

proof fn lemma_parts_join(m: Seq<char>, pos: int, n: nat)
    requires
        0 <= pos <= m.len(),
    ensures
        join_parts(parts_from(m, pos, n), Seq::empty()) == m.skip(pos),
    decreases m.len() - pos,
{
    let none = Seq::<Option<Seq<char>>>::empty();
    if pos >= m.len() {
        assert(m.skip(pos) =~= Seq::empty());
    } else {
        let next_line = line_end(m, pos);
        lemma_line_end(m, pos);
        match fence_start(m.subrange(pos, next_line)) {
            Some((marker, len)) => {
                lemma_fence_end(m, next_line, marker, len);
                let end = fence_end(m, next_line, marker, len);
                let p = Part::Code(m.subrange(pos, end));
                lemma_parts_join(m, end, n);
                lemma_join_one(p, none);
                lemma_join_append(seq![p], parts_from(m, end, n), none);
                assert(m.subrange(pos, end) + m.skip(end) =~= m.skip(pos));
            },
            None => {
                lemma_text_end(m, next_line);
                let end = text_end(m, next_line);
                let chunk = m.subrange(pos, end);
                let ps = chunk_parts(chunk, 0, 0, n);
                lemma_chunk_parts_join(chunk, 0, 0, n);
                lemma_parts_join(m, end, n + html_count(ps));
                lemma_join_append(ps, parts_from(m, end, n + html_count(ps)), none);
                assert(chunk.skip(0) =~= chunk);
                assert(m.subrange(pos, end) + m.skip(end) =~= m.skip(pos));
            },
        }
    }
}

/// Cutting Markdown into parts loses nothing: put together with nothing converted, the parts
/// are the Markdown.
pub proof fn law_parts_make_up_the_markdown(m: Seq<char>)
    ensures
        join_parts(parts_of(m), Seq::empty()) == m,
{
    lemma_parts_join(m, 0, 0);
    assert(m.skip(0) =~= m);
}

/// Whether the fragments in `ps` are numbered from `n` on, in order.
pub open spec fn numbered_from(ps: Seq<Part>, n: nat) -> bool {
    forall|i: int|
        0 <= i < ps.len() ==> (#[trigger] ps[i] matches Part::Html { index, .. } ==> index == n
            + html_count(ps.take(i)))
}

proof fn lemma_numbered_append(a: Seq<Part>, b: Seq<Part>, n: nat)
    requires
        numbered_from(a, n),
        numbered_from(b, n + html_count(a)),
    ensures
        numbered_from(a + b, n),
{
    let ab = a + b;
    assert forall|i: int| 0 <= i < ab.len() implies (#[trigger] ab[i] matches Part::Html {
        index,
        ..
    } ==> index == n + html_count(ab.take(i))) by {
        if i < a.len() {
            assert(ab[i] == a[i]);
            assert(ab.take(i) =~= a.take(i));
        } else {
            assert(ab[i] == b[i - a.len()]);
            assert(ab.take(i) =~= a + b.take(i - a.len()));
            lemma_count_append(a, b.take(i - a.len()));
        }
    }
}

proof fn lemma_numbered_three(c: Seq<char>, kept: int, i: int, p: Part, rest: Seq<Part>, n: nat)
    requires
        p matches Part::Html { index, .. } ==> index == n,
        numbered_from(rest, n + html_count(seq![p])),
    ensures
        numbered_from(text_part(c, kept, i) + seq![p] + rest, n),
        html_count(text_part(c, kept, i) + seq![p] + rest) == html_count(seq![p]) + html_count(rest),
{
    let t = text_part(c, kept, i);
    lemma_count_one(Part::Text(c.subrange(kept, i)));
    assert(html_count(t) == 0);
    assert(numbered_from(t, n));
    assert(seq![p].take(0) =~= Seq::empty());
    assert(html_count(seq![p].take(0)) == 0);
    assert(numbered_from(seq![p], n));
    lemma_numbered_append(t, seq![p], n);
    lemma_count_append(t, seq![p]);
    lemma_numbered_append(t + seq![p], rest, n);
    lemma_count_append(t + seq![p], rest);
}

proof fn lemma_chunk_numbered(c: Seq<char>, i: int, kept: int, n: nat)
    requires
        0 <= kept <= i <= c.len(),
    ensures
        numbered_from(chunk_parts(c, i, kept, n), n),
        html_count(chunk_parts(c, i, kept, n)) <= c.len() - i,
    decreases c.len() - i,
{
    if i >= c.len() {
        lemma_count_one(Part::Text(c.subrange(kept, c.len() as int)));
        assert(html_count(text_part(c, kept, c.len() as int)) == 0);
    } else {
        lemma_code_span_end(c, i);
        lemma_fragment_end(c, i);
        match code_span_end(c, i) {
            Some(e) => {
                let p = Part::Code(c.subrange(i, e));
                lemma_count_one(p);
                lemma_chunk_numbered(c, e, e, n);
                lemma_numbered_three(c, kept, i, p, chunk_parts(c, e, e, n), n);
            },
            None => match fragment_end(c, i) {
                Some(e) => {
                    let p = Part::Html { index: n, raw: c.subrange(i, e) };
                    lemma_count_one(p);
                    lemma_chunk_numbered(c, e, e, n + 1);
                    lemma_numbered_three(c, kept, i, p, chunk_parts(c, e, e, n + 1), n);
                },
                None => lemma_chunk_numbered(c, i + 1, kept, n),
            },
        }
    }
}

proof fn lemma_parts_numbered(m: Seq<char>, pos: int, n: nat)
    requires
        0 <= pos <= m.len(),
    ensures
        numbered_from(parts_from(m, pos, n), n),
    decreases m.len() - pos,
{
    if pos < m.len() {
        let next_line = line_end(m, pos);
        lemma_line_end(m, pos);
        match fence_start(m.subrange(pos, next_line)) {
            Some((marker, len)) => {
                lemma_fence_end(m, next_line, marker, len);
                let end = fence_end(m, next_line, marker, len);
                let p = Part::Code(m.subrange(pos, end));
                lemma_parts_numbered(m, end, n);
                lemma_count_one(p);
                lemma_numbered_append(seq![p], parts_from(m, end, n), n);
            },
            None => {
                lemma_text_end(m, next_line);
                let end = text_end(m, next_line);
                let chunk = m.subrange(pos, end);
                let ps = chunk_parts(chunk, 0, 0, n);
                lemma_chunk_numbered(chunk, 0, 0, n);
                lemma_parts_numbered(m, end, n + html_count(ps));
                lemma_numbered_append(ps, parts_from(m, end, n + html_count(ps)), n);
            },
        }
    }
}

proof fn lemma_fragments(ps: Seq<Part>)
    ensures
        fragments(ps).len() == html_count(ps),
        forall|i: int|
            0 <= i < ps.len() ==> (#[trigger] ps[i] matches Part::Html { raw, .. } ==> html_count(
                ps.take(i),
            ) < fragments(ps).len() && fragments(ps)[html_count(ps.take(i)) as int] == raw),
    decreases ps.len(),
{
    if ps.len() > 0 {
        let init = ps.drop_last();
        lemma_fragments(init);
        assert forall|i: int| 0 <= i < ps.len() implies (#[trigger] ps[i] matches Part::Html {
            raw,
            ..
        } ==> html_count(ps.take(i)) < fragments(ps).len() && fragments(ps)[html_count(
            ps.take(i),
        ) as int] == raw) by {
            if i < init.len() {
                assert(ps[i] == init[i]);
                assert(ps.take(i) =~= init.take(i));
            } else {
                assert(ps.take(i) =~= init);
            }
        }
    }
}

/// The number of an HTML fragment is its place among the fragments: what the fragment with that
/// place is converted to stands where the fragment stood.
pub proof fn law_fragments_are_found_by_index(m: Seq<char>, i: int)
    requires
        0 <= i < parts_of(m).len(),
    ensures
        parts_of(m)[i] matches Part::Html { index, raw } ==> index < fragments(parts_of(m)).len()
            && fragments(parts_of(m))[index as int] == raw,
{
    lemma_parts_numbered(m, 0, 0);
    lemma_fragments(parts_of(m));
}

// ---- Code ----

fn push_text(out: &mut Vec<Segment>, c: &[char], from: usize, to: usize)
    requires
        from <= to <= c@.len(),
    ensures
        parts(final(out)@) == parts(old(out)@) + text_part(c@, from as int, to as int),
{
    let ghost before = parts(out@);
    if from < to {
        let text = string_of(vstd::slice::slice_subrange(c, from, to));
        out.push(Segment::Text(text));
    }
    assert(parts(out@) =~= before + text_part(c@, from as int, to as int));
}

/// Appends the parts of `chunk`, where no fence is, and gives back the number of fragments.
fn push_chunk(out: &mut Vec<Segment>, chunk: &[char], html_count_before: usize) -> (n: usize)
    requires
        html_count_before + chunk@.len() <= usize::MAX,
    ensures
        parts(final(out)@) == parts(old(out)@) + chunk_parts(
            chunk@,
            0,
            0,
            html_count_before as nat,
        ),
        n == html_count_before + html_count(chunk_parts(chunk@, 0, 0, html_count_before as nat)),
        n <= html_count_before + chunk@.len(),
{
    let ghost c = chunk@;
    let ghost start = parts(out@);
    let ghost all = chunk_parts(c, 0, 0, html_count_before as nat);
    let mut n: usize = html_count_before;
    let mut i: usize = 0;
    let mut kept: usize = 0;
    proof {
        assert(start + all =~= parts(out@) + all);
        lemma_chunk_numbered(c, 0, 0, n as nat);
    }
    while i < chunk.len()
        invariant
            c == chunk@,
            kept <= i <= c.len(),
            n <= html_count_before + i,
            html_count_before + c.len() <= usize::MAX,
            parts(out@) + chunk_parts(c, i as int, kept as int, n as nat) == start + all,
            html_count_before + html_count(all) == n + html_count(
                chunk_parts(c, i as int, kept as int, n as nat),
            ),
        decreases chunk.len() - i,
    {
        let ghost before = parts(out@);
        match find_code_span_end(chunk, i) {
            Some(e) => {
                push_text(out, chunk, kept, i);
                let ghost mid = parts(out@);
                let code = string_of(vstd::slice::slice_subrange(chunk, i, e));
                out.push(Segment::Code(code));
                proof {
                    let p = Part::Code(c.subrange(i as int, e as int));
                    let rest = chunk_parts(c, e as int, e as int, n as nat);
                    assert(parts(out@) =~= mid + seq![p]);
                    assert(before + (text_part(c, kept as int, i as int) + seq![p] + rest)
                        =~= parts(out@) + rest);
                    lemma_count_one(p);
                    lemma_chunk_numbered(c, e as int, e as int, n as nat);
                    lemma_numbered_three(c, kept as int, i as int, p, rest, n as nat);
                }
                i = e;
                kept = e;
            },
            None => match extract_html_fragment(chunk, i) {
                Some(e) => {
                    push_text(out, chunk, kept, i);
                    let ghost mid = parts(out@);
                    let raw = string_of(vstd::slice::slice_subrange(chunk, i, e));
                    out.push(Segment::Html { index: n, raw });
                    proof {
                        let p = Part::Html { index: n as nat, raw: c.subrange(i as int, e as int) };
                        let rest = chunk_parts(c, e as int, e as int, n as nat + 1);
                        assert(parts(out@) =~= mid + seq![p]);
                        assert(before + (text_part(c, kept as int, i as int) + seq![p] + rest)
                            =~= parts(out@) + rest);
                        lemma_count_one(p);
                        lemma_chunk_numbered(c, e as int, e as int, n as nat + 1);
                        lemma_numbered_three(c, kept as int, i as int, p, rest, n as nat);
                    }
                    n += 1;
                    i = e;
                    kept = e;
                },
                None => {
                    i += 1;
                },
            },
        }
    }
    proof {
        lemma_count_one(Part::Text(c.subrange(kept as int, c.len() as int)));
        assert(html_count(text_part(c, kept as int, c.len() as int)) == 0);
    }
    push_text(out, chunk, kept, chunk.len());
    n
}

/// Cuts Markdown into parts: fenced code and code spans, HTML fragments that may be converted,
/// and the text between them.
pub fn split_segments(markdown: &str) -> (out: Vec<Segment>)
    ensures
        parts(out@) == parts_of(markdown@),
{
    let text = chars_of(markdown);
    let s: &[char] = &text;
    let mut out: Vec<Segment> = Vec::new();
    let mut n: usize = 0;
    let mut pos: usize = 0;
    assert(parts(out@) + parts_of(s@) =~= parts_of(s@));
    assert(s@.len() == s.len());
    while pos < s.len()
        invariant
            pos <= s@.len(),
            s@.len() <= usize::MAX,
            s@ == markdown@,
            n <= pos,
            parts(out@) + parts_from(s@, pos as int, n as nat) == parts_of(s@),
        decreases s.len() - pos,
    {
        let ghost before = parts(out@);
        let next_line = line_end_at(s, pos);
        match opened_fence(vstd::slice::slice_subrange(s, pos, next_line)) {
            Some((marker, len)) => {
                let end = fence_end_at(s, next_line, marker, len);
                let code = string_of(vstd::slice::slice_subrange(s, pos, end));
                out.push(Segment::Code(code));
                proof {
                    let p = Part::Code(s@.subrange(pos as int, end as int));
                    let rest = parts_from(s@, end as int, n as nat);
                    assert(parts(out@) =~= before + seq![p]);
                    assert(before + (seq![p] + rest) =~= parts(out@) + rest);
                }
                pos = end;
            },
            None => {
                let end = text_end_at(s, next_line);
                let chunk = vstd::slice::slice_subrange(s, pos, end);
                let count = push_chunk(&mut out, chunk, n);
                proof {
                    let ps = chunk_parts(chunk@, 0, 0, n as nat);
                    let rest = parts_from(s@, end as int, count as nat);
                    assert(before + (ps + rest) =~= parts(out@) + rest);
                }
                n = count;
                pos = end;
            },
        }
    }
    assert(parts(out@) + Seq::<Part>::empty() =~= parts(out@));
    out
}

/// The HTML fragments among the segments, in order.
pub fn html_fragments(segments: &Vec<Segment>) -> (out: Vec<String>)
    ensures
        texts(out@) == fragments(parts(segments@)),
{
    let ghost ps = parts(segments@);
    let mut out: Vec<String> = Vec::new();
    let mut i: usize = 0;
    assert(texts(out@) =~= fragments(ps.take(0)));
    while i < segments.len()
        invariant
            i <= segments@.len(),
            ps == parts(segments@),
            texts(out@) == fragments(ps.take(i as int)),
        decreases segments.len() - i,
    {
        let ghost before = out@;
        assert(ps.take(i + 1).drop_last() =~= ps.take(i as int));
        assert(ps.take(i + 1).last() == segments@[i as int]@);
        match &segments[i] {
            Segment::Html { raw, .. } => {
                let copy = chars_of(raw.as_str());
                let copy = string_of(&copy);
                out.push(copy);
                assert(texts(out@) =~= texts(before).push(raw@));
            },
            _ => {},
        }
        i += 1;
    }
    assert(ps.take(i as int) =~= ps);
    out
}

/// The segments put together: an HTML fragment as what it was converted to, if it was.
pub fn join_segments(segments: &Vec<Segment>, converted: &Vec<Option<String>>) -> (out: String)
    ensures
        out@ == join_parts(parts(segments@), conversions(converted@)),
{
    let ghost ps = parts(segments@);
    let ghost cs = conversions(converted@);
    let mut out: Vec<char> = Vec::new();
    let mut i: usize = 0;
    assert(out@ =~= join_parts(ps.take(0), cs));
    while i < segments.len()
        invariant
            i <= segments@.len(),
            ps == parts(segments@),
            cs == conversions(converted@),
            out@ == join_parts(ps.take(i as int), cs),
        decreases segments.len() - i,
    {
        assert(ps.take(i + 1).drop_last() =~= ps.take(i as int));
        assert(ps.take(i + 1).last() == segments@[i as int]@);
        match &segments[i] {
            Segment::Text(text) => push_str(&mut out, text.as_str()),
            Segment::Code(text) => push_str(&mut out, text.as_str()),
            Segment::Html { index, raw } => {
                if *index < converted.len() {
                    match &converted[*index] {
                        Some(text) => push_str(&mut out, text.as_str()),
                        None => push_str(&mut out, raw.as_str()),
                    }
                } else {
                    push_str(&mut out, raw.as_str());
                }
            },
        }
        i += 1;
    }
    assert(ps.take(i as int) =~= ps);
    string_of(&out)
}

/// What an HTML fragment was converted to, if that is more than white space.
pub fn usable_conversion(converted: String) -> (r: Option<String>)
    ensures
        match usable(converted@) {
            Some(text) => r is Some && r->0@ == text,
            None => r is None,
        },
{
    let chars = chars_of(converted.as_str());
    if trimmed(&chars, CharClass::Space).len() == 0 {
        None
    } else {
        Some(converted)
    }
}

// ---- Converting ----

/// The Markdown that `html2md::rewrite_html_streaming` makes of HTML, in the CommonMark form.
pub uninterp spec fn html_as_markdown(html: Seq<char>) -> Seq<char>;

/// The Markdown for HTML, by `html2md::rewrite_html_streaming`. Claimed are the name of the
/// result, and that it is there at once: the function waits for nothing.
#[verifier::external_body]
fn convert_html(html: &str) -> (r: Option<String>)
    ensures
        r is Some,
        r->0@ == html_as_markdown(html@),
{
    futures::FutureExt::now_or_never(html2md::rewrite_html_streaming(html, true))
}

/// What takes the place of a fragment that was converted to `converted`: nothing if that is
/// white space alone.
pub open spec fn usable(converted: Seq<char>) -> Option<Seq<char>> {
    if trim(converted, CharClass::Space).len() > 0 {
        Some(converted)
    } else {
        None
    }
}

/// What the fragments are converted to.
pub open spec fn converted_fragments(raws: Seq<Seq<char>>) -> Seq<Option<Seq<char>>> {
    Seq::new(raws.len(), |i: int| usable(html_as_markdown(raws[i])))
}

/// What the fragments are converted to, in order.
pub fn convert_html_fragments(raws: &Vec<String>) -> (out: Vec<Option<String>>)
    ensures
        conversions(out@) == converted_fragments(texts(raws@)),
{
    let ghost all = texts(raws@);
    let mut out: Vec<Option<String>> = Vec::new();
    let mut i: usize = 0;
    while i < raws.len()
        invariant
            i <= raws@.len(),
            all == texts(raws@),
            out@.len() == i,
            forall|k: int|
                0 <= k < i ==> #[trigger] conversions(out@)[k] == usable(html_as_markdown(all[k])),
        decreases raws.len() - i,
    {
        let ghost before = out@;
        let converted = convert_html(raws[i].as_str()).unwrap();
        out.push(usable_conversion(converted));
        assert forall|k: int| 0 <= k < i + 1 implies #[trigger] conversions(out@)[k] == usable(
            html_as_markdown(all[k]),
        ) by {
            if k < i {
                assert(conversions(before)[k] == conversions(out@)[k]);
            }
        }
        i += 1;
    }
    assert(conversions(out@) =~= converted_fragments(all));
    out
}

/// Markdown with the HTML fragments that may be converted as Markdown; code and mathematics stay
/// as they are.
pub fn sanitize_html_fragments(markdown: &str) -> (r: String)
    ensures
        r@ == join_parts(
            parts_of(markdown@),
            converted_fragments(fragments(parts_of(markdown@))),
        ),
{
    let segments = split_segments(markdown);
    let raws = html_fragments(&segments);
    let converted = convert_html_fragments(&raws);
    join_segments(&segments, &converted)
}

/// Markdown without a fragment that may be converted stays as it is.
pub proof fn law_markdown_without_fragments_is_unchanged(m: Seq<char>)
    requires
        fragments(parts_of(m)).len() == 0,
    ensures
        join_parts(parts_of(m), converted_fragments(fragments(parts_of(m)))) == m,
{
    assert(converted_fragments(fragments(parts_of(m))) =~= Seq::empty());
    law_parts_make_up_the_markdown(m);
}

// ---- What is a part ----

/// Whether neither code nor an HTML fragment begins in `c` from `i` to `p`.
pub open spec fn plain_until(c: Seq<char>, i: int, p: int) -> bool {
    forall|j: int|
        i <= j < p ==> #[trigger] code_span_end(c, j) is None && fragment_end(c, j) is None
}

proof fn lemma_plain_until(c: Seq<char>, i: int, p: int, kept: int, n: nat)
    requires
        0 <= i <= p <= c.len(),
        plain_until(c, i, p),
    ensures
        chunk_parts(c, i, kept, n) == chunk_parts(c, p, kept, n),
    decreases p - i,
{
    if i < p {
        assert(code_span_end(c, i) is None);
        lemma_plain_until(c, i + 1, p, kept, n);
    }
}

/// Outside fences, text up to the next code span or HTML fragment is one part, and the code span or
/// the fragment, whole, is the next; where both begin, it is code. Fragments are numbered on. What
/// stands behind the last of them is text.
pub proof fn law_parts_of_text(c: Seq<char>, i: int, p: int, n: nat)
    requires
        0 <= i <= p <= c.len(),
        plain_until(c, i, p),
    ensures
        ({
            let before = if i < p {
                seq![Part::Text(c.subrange(i, p))]
            } else {
                Seq::empty()
            };
            let here = chunk_parts(c, i, i, n);
            &&& p == c.len() ==> here == before
            &&& p < c.len() ==> match code_span_end(c, p) {
                Some(e) => here == before + seq![Part::Code(c.subrange(p, e))] + chunk_parts(
                    c,
                    e,
                    e,
                    n,
                ),
                None => match fragment_end(c, p) {
                    Some(e) => here == before + seq![
                        Part::Html { index: n, raw: c.subrange(p, e) },
                    ] + chunk_parts(c, e, e, n + 1),
                    None => true,
                },
            }
        }),
{
    lemma_plain_until(c, i, p, i, n);
}

/// A fenced block is one part, and is code; the text between fences is cut by itself, and its
/// fragments are numbered on.
pub proof fn law_parts_of_markdown(m: Seq<char>, a: int, b: int, n: nat)
    requires
        is_line(m, a, b),
    ensures
        match fence_start(m.subrange(a, b)) {
            Some((marker, len)) => {
                let e = fence_end(m, b, marker, len);
                parts_from(m, a, n) == seq![Part::Code(m.subrange(a, e))] + parts_from(m, e, n)
            },
            None => {
                let e = text_end(m, b);
                let here = chunk_parts(m.subrange(a, e), 0, 0, n);
                parts_from(m, a, n) == here + parts_from(
                    m,
                    e,
                    n + here.filter(|p: Part| p is Html).len(),
                )
            },
        },
{
    law_line_ends_behind_its_feed(m, a);
    lemma_html_count(chunk_parts(m.subrange(a, text_end(m, b)), 0, 0, n));
}

proof fn lemma_html_count(ps: Seq<Part>)
    ensures
        html_count(ps) == ps.filter(|p: Part| p is Html).len(),
    decreases ps.len(),
{
    reveal(Seq::filter);
    if ps.len() > 0 {
        lemma_html_count(ps.drop_last());
    }
}

/// Text and code stay as they are; a fragment stays too if nothing usable came of it, that is, if it
/// was not converted or only white space came of it.
pub proof fn law_only_usable_conversions_are_shown(p: Part, converted: Seq<Option<Seq<char>>>, s: Seq<
    char,
>)
    ensures
        p matches Part::Text(text) ==> shown(p, converted) == text,
        p matches Part::Code(text) ==> shown(p, converted) == text,
        p matches Part::Html { index, raw } ==> {
            &&& index >= converted.len() ==> shown(p, converted) == raw
            &&& index < converted.len() && converted[index as int] is None ==> shown(p, converted)
                == raw
            &&& index < converted.len() && converted[index as int] is Some ==> shown(p, converted)
                == converted[index as int]->0
        },
        (exists|j: int| 0 <= j < s.len() && !is_white_space(#[trigger] s[j])) ==> usable(s) == Some(
            s,
        ),
        (forall|j: int| 0 <= j < s.len() ==> is_white_space(#[trigger] s[j])) ==> usable(s) is None,
{
    let class = CharClass::Space;
    law_trimming_takes_only_the_ends(s, class);
    let (a, b) = choose|a: int, b: int|
        0 <= a <= b <= s.len() && trim(s, class) == #[trigger] s.subrange(a, b) && (forall|j: int|
            0 <= j < a || b <= j < s.len() ==> class.has(#[trigger] s[j])) && (a < b ==> !class.has(
            s[a],
        ) && !class.has(s[b - 1]));
    if exists|j: int| 0 <= j < s.len() && !is_white_space(#[trigger] s[j]) {
        let j = choose|j: int| 0 <= j < s.len() && !is_white_space(#[trigger] s[j]);
        assert(!class.has(s[j]));
        assert(a <= j < b);
    }
    if a < b {
        assert(!is_white_space(s[a]));
    }
}

/// The parts are put together in their order, with nothing between them; the fragments are the HTML
/// parts in their order.
pub proof fn law_parts_are_put_together(
    ps: Seq<Part>,
    p: Part,
    converted: Seq<Option<Seq<char>>>,
)
    ensures
        join_parts(Seq::empty(), converted) == Seq::<char>::empty(),
        join_parts(ps.push(p), converted) == join_parts(ps, converted) + shown(p, converted),
        fragments(Seq::empty()).len() == 0,
        p matches Part::Html { raw, .. } ==> fragments(ps.push(p)) == fragments(ps).push(raw),
        !(p is Html) ==> fragments(ps.push(p)) == fragments(ps),
{
    assert(ps.push(p).drop_last() =~= ps);
}

} // verus!
