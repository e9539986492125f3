//! Text cut into lines, words and list items, and put together again.

use vstd::prelude::*;

use crate::text::{
    copy_of, is_white_space, lead, lead_len, lemma_lead, lemma_lead_is, push_all, trim_start,
    CharClass,
};

verus! {

/// The pieces of text that the elements of `v` stand for.
pub open spec fn texts<T: View<V = Seq<char>>>(v: Seq<T>) -> Seq<Seq<char>> {
    Seq::new(v.len(), |i: int| v[i]@)
}

/// `line` without a carriage return at its end.
pub open spec fn without_cr(line: Seq<char>) -> Seq<char> {
    if line.len() > 0 && line.last() == '\r' {
        line.drop_last()
    } else {
        line
    }
}

/// The lines of `s`: each ends before a line feed, or before a carriage return and a line
/// feed; what stands behind the last line feed is a line if it is not empty.
pub open spec fn lines(s: Seq<char>) -> Seq<Seq<char>>
    decreases s.len(),
{
    let n = lead(s, CharClass::Except('\n'));
    if s.len() == 0 {
        Seq::empty()
    } else if n >= s.len() {
        seq![s]
    } else {
        seq![without_cr(s.take(n as int))] + lines(s.skip(n as int + 1))
    }
}

/// The lines of `s`.
pub fn lines_of<'a>(s: &'a [char]) -> (out: Vec<&'a [char]>)
    ensures
        texts(out@) == lines(s@),
{
    let mut out: Vec<&'a [char]> = Vec::new();
    let mut pos: usize = 0;
    assert(s@.skip(0) =~= s@);
    assert(texts(out@) =~= Seq::empty());
    while pos < s.len()
        invariant
            pos <= s@.len(),
            texts(out@) + lines(s@.skip(pos as int)) == lines(s@),
        decreases s.len() - pos,
    {
        let n = lead_len(s, pos, CharClass::Except('\n'));
        let ghost rest = s@.skip(pos as int);
        let ghost before = out@;
        if n == s.len() - pos {
            let line = vstd::slice::slice_subrange(s, pos, s.len());
            assert(line@ =~= rest);
            out.push(line);
            assert(texts(out@) =~= texts(before).push(line@));
            assert(texts(before) + seq![rest] =~= texts(before).push(rest));
            pos = s.len();
            assert(s@.skip(pos as int) =~= Seq::empty());
        } else {
            let mut end = pos + n;
            assert(rest.take(n as int) =~= s@.subrange(pos as int, pos + n));
            if end > pos && s[end - 1] == '\r' {
                end -= 1;
            }
            let line = vstd::slice::slice_subrange(s, pos, end);
            assert(line@ =~= without_cr(rest.take(n as int)));
            out.push(line);
            assert(texts(out@) =~= texts(before).push(line@));
            assert(rest.skip(n as int + 1) =~= s@.skip(pos + n + 1));
            assert(texts(before) + (seq![line@] + lines(rest.skip(n as int + 1))) =~= texts(
                before,
            ).push(line@) + lines(rest.skip(n as int + 1)));
            pos = pos + n + 1;
        }
    }
    assert(s@.skip(pos as int) =~= Seq::empty());
    assert(texts(out@) + Seq::<Seq<char>>::empty() =~= texts(out@));
    out
}

/// The longest runs of `class` in `s`; the characters of `gap` stand between them.
pub open spec fn runs(s: Seq<char>, class: CharClass, gap: CharClass) -> Seq<Seq<char>>
    decreases s.len(),
    via runs_decreases
{
    let t = trim_start(s, gap);
    let n = lead(t, class);
    if n == 0 {
        Seq::empty()
    } else {
        seq![t.take(n as int)] + runs(t.skip(n as int), class, gap)
    }
}

#[via_fn]
proof fn runs_decreases(s: Seq<char>, class: CharClass, gap: CharClass) {
    lemma_lead(s, gap);
    lemma_lead(trim_start(s, gap), class);
}

/// Whether every character belongs to one of the two classes and to no more.
pub open spec fn complementary(class: CharClass, gap: CharClass) -> bool {
    forall|c: char| #[trigger] class.has(c) != gap.has(c)
}

/// The words of `s`: its longest runs without white space.
pub open spec fn words(s: Seq<char>) -> Seq<Seq<char>> {
    runs(s, CharClass::NonSpace, CharClass::Space)
}

/// `parts` one after the other, with `sep` between each two.
pub open spec fn join(parts: Seq<Seq<char>>, sep: Seq<char>) -> Seq<char>
    decreases parts.len(),
{
    if parts.len() == 0 {
        Seq::empty()
    } else if parts.len() == 1 {
        parts[0]
    } else {
        join(parts.drop_last(), sep) + sep + parts.last()
    }
}

/// `parts` one after the other, with `sep` between each two.
pub fn joined(parts: &Vec<Vec<char>>, sep: &[char]) -> (out: Vec<char>)
    ensures
        out@ == join(texts(parts@), sep@),
{
    let mut out: Vec<char> = Vec::new();
    let mut i: usize = 0;
    assert(texts(parts@).take(0) =~= Seq::empty());
    while i < parts.len()
        invariant
            i <= parts@.len(),
            out@ == join(texts(parts@).take(i as int), sep@),
        decreases parts.len() - i,
    {
        let ghost done = texts(parts@).take(i as int);
        let ghost more = texts(parts@).take(i + 1);
        assert(more.drop_last() =~= done);
        assert(more.last() == parts@[i as int]@);
        if i > 0 {
            push_all(&mut out, sep);
        } else {
            assert(out@ =~= Seq::empty());
            assert(out@ + parts@[i as int]@ =~= parts@[i as int]@);
        }
        push_all(&mut out, &parts[i]);
        i += 1;
    }
    assert(texts(parts@).take(i as int) =~= texts(parts@));
    out
}

/// `s` with every run of white space made one blank, and none at either end.
pub open spec fn collapse_ws(s: Seq<char>) -> Seq<char> {
    join(words(s), seq![' '])
}

/// The characters of `gap` at the start add no run.
pub proof fn lemma_runs_trim(s: Seq<char>, class: CharClass, gap: CharClass)
    ensures
        runs(trim_start(s, gap), class, gap) == runs(s, class, gap),
{
    let t = trim_start(s, gap);
    lemma_lead(s, gap);
    if t.len() > 0 {
        assert(t[0] == s[lead(s, gap) as int]);
    }
    lemma_lead_is(t, gap, 0);
    assert(trim_start(t, gap) =~= t);
}

/// The longest runs of `class` in `s`.
pub fn runs_of(s: &[char], class: CharClass, gap: CharClass) -> (parts: Vec<Vec<char>>)
    requires
        complementary(class, gap),
    ensures
        texts(parts@) == runs(s@, class, gap),
{
    let mut parts: Vec<Vec<char>> = Vec::new();
    let mut pos: usize = lead_len(s, 0, gap);
    proof {
        assert(s@.skip(0) =~= s@);
        assert(texts(parts@) =~= Seq::empty());
        lemma_lead(s@, gap);
        lemma_runs_trim(s@, class, gap);
        assert(texts(parts@) + runs(s@.skip(pos as int), class, gap) =~= runs(s@, class, gap));
    }
    while pos < s.len()
        invariant
            pos <= s@.len(),
            complementary(class, gap),
            pos < s@.len() ==> class.has(s@[pos as int]),
            texts(parts@) + runs(s@.skip(pos as int), class, gap) == runs(s@, class, gap),
        decreases s.len() - pos,
    {
        let n = lead_len(s, pos, class);
        let ghost rest = s@.skip(pos as int);
        let ghost before = parts@;
        proof {
            lemma_lead(rest, class);
            assert(rest[0] == s@[pos as int]);
            lemma_lead_is(rest, gap, 0);
            assert(trim_start(rest, gap) =~= rest);
        }
        let run = copy_of(vstd::slice::slice_subrange(s, pos, pos + n));
        assert(run@ =~= rest.take(n as int));
        parts.push(run);
        let skipped = lead_len(s, pos + n, gap);
        proof {
            let tail = s@.skip(pos + n);
            assert(rest.skip(n as int) =~= tail);
            lemma_lead(tail, gap);
            lemma_runs_trim(tail, class, gap);
            assert(tail.skip(skipped as int) =~= s@.skip(pos + n + skipped));
            if skipped < tail.len() {
                assert(tail[skipped as int] == s@[pos + n + skipped]);
            }
            assert(texts(parts@) =~= texts(before).push(rest.take(n as int)));
            assert(texts(before) + (seq![rest.take(n as int)] + runs(tail, class, gap)) =~= texts(
                parts@,
            ) + runs(tail, class, gap));
        }
        pos = pos + n + skipped;
    }
    proof {
        let end = s@.skip(pos as int);
        assert(end.len() == 0);
        lemma_lead(end, gap);
        lemma_lead(trim_start(end, gap), class);
        assert(runs(end, class, gap) =~= Seq::empty());
        assert(texts(parts@) + runs(end, class, gap) =~= texts(parts@));
    }
    parts
}

/// `s` with every run of white space made one blank, and none at either end.
pub fn collapsed(s: &[char]) -> (out: Vec<char>)
    ensures
        out@ == collapse_ws(s@),
{
    let parts = runs_of(s, CharClass::NonSpace, CharClass::Space);
    let blank: Vec<char> = vec![' '];
    assert(blank@ =~= seq![' ']);
    joined(&parts, &blank)
}

/// The pieces of `s` between the separators `,` and `;`.
pub open spec fn list_items(s: Seq<char>) -> Seq<Seq<char>>
    decreases s.len(),
{
    let n = lead(s, CharClass::ListItem);
    if n >= s.len() {
        seq![s]
    } else {
        seq![s.take(n as int)] + list_items(s.skip(n as int + 1))
    }
}

/// The pieces of `s` between the separators `,` and `;`.
pub fn list_items_of<'a>(s: &'a [char]) -> (out: Vec<&'a [char]>)
    ensures
        texts(out@) == list_items(s@),
{
    let mut out: Vec<&'a [char]> = Vec::new();
    let mut pos: usize = 0;
    let mut n = lead_len(s, pos, CharClass::ListItem);
    assert(s@.skip(0) =~= s@);
    assert(texts(out@) =~= Seq::empty());
    assert(texts(out@) + list_items(s@) =~= list_items(s@));
    while n < s.len() - pos
        invariant
            pos <= s@.len(),
            n == lead(s@.skip(pos as int), CharClass::ListItem),
            pos + n <= s@.len(),
            texts(out@) + list_items(s@.skip(pos as int)) == list_items(s@),
        decreases s.len() - pos,
    {
        let ghost rest = s@.skip(pos as int);
        let ghost before = out@;
        let item = vstd::slice::slice_subrange(s, pos, pos + n);
        assert(item@ =~= rest.take(n as int));
        out.push(item);
        proof {
            assert(texts(out@) =~= texts(before).push(item@));
            assert(rest.skip(n as int + 1) =~= s@.skip(pos + n + 1));
            assert(texts(before) + (seq![item@] + list_items(rest.skip(n as int + 1)))
                =~= texts(out@) + list_items(rest.skip(n as int + 1)));
        }
        pos = pos + n + 1;
        n = lead_len(s, pos, CharClass::ListItem);
    }
    let ghost before = out@;
    let item = vstd::slice::slice_subrange(s, pos, s.len());
    assert(item@ =~= s@.skip(pos as int));
    out.push(item);
    assert(texts(out@) =~= texts(before) + seq![item@]);
    out
}

// ---- What joining and collapsing keep ----

/// Whether `s` is a run of `class`: not empty, and all of its characters belong to it.
pub open spec fn is_run(s: Seq<char>, class: CharClass) -> bool {
    s.len() > 0 && forall|j: int| 0 <= j < s.len() ==> class.has(#[trigger] s[j])
}

/// Whether all of `parts` are runs of `class`.
pub open spec fn are_runs(parts: Seq<Seq<char>>, class: CharClass) -> bool {
    forall|i: int| 0 <= i < parts.len() ==> is_run(#[trigger] parts[i], class)
}

/// The runs of a class are what they are called.
pub proof fn lemma_runs(s: Seq<char>, class: CharClass, gap: CharClass)
    ensures
        are_runs(runs(s, class, gap), class),
    decreases s.len(),
{
    let t = trim_start(s, gap);
    let n = lead(t, class);
    let all = runs(s, class, gap);
    lemma_lead(s, gap);
    lemma_lead(t, class);
    if n > 0 {
        let first = t.take(n as int);
        let rest = runs(t.skip(n as int), class, gap);
        lemma_runs(t.skip(n as int), class, gap);
        assert forall|j: int| 0 <= j < first.len() implies class.has(#[trigger] first[j]) by {
            assert(class.has(t[j]));
        }
        assert forall|i: int| 0 <= i < all.len() implies is_run(#[trigger] all[i], class) by {
            if i > 0 {
                assert(all[i] == rest[i - 1]);
            }
        }
    }
}

/// The first of some parts, and the others behind it.
pub proof fn lemma_join_front(parts: Seq<Seq<char>>, sep: Seq<char>)
    requires
        parts.len() > 1,
    ensures
        join(parts, sep) == parts[0] + sep + join(parts.skip(1), sep),
    decreases parts.len(),
{
    let rest = parts.skip(1);
    if parts.len() == 2 {
        assert(join(parts.drop_last(), sep) == parts[0]);
        assert(join(rest, sep) == parts[1]);
    } else {
        lemma_join_front(parts.drop_last(), sep);
        assert(parts.drop_last().skip(1) =~= rest.drop_last());
        assert(parts[0] + sep + join(rest.drop_last(), sep) + sep + parts.last() =~= parts[0] + sep
            + (join(rest.drop_last(), sep) + sep + rest.last()));
        assert(join(rest, sep) == join(rest.drop_last(), sep) + sep + rest.last());
    }
}

/// A run and what follows it behind a gap.
pub proof fn lemma_runs_front(w: Seq<char>, rest: Seq<char>, class: CharClass, gap: CharClass)
    requires
        complementary(class, gap),
        is_run(w, class),
        rest.len() == 0 || gap.has(rest[0]),
    ensures
        runs(w + rest, class, gap) == seq![w] + runs(rest, class, gap),
{
    let s = w + rest;
    assert(class.has(w[0]));
    assert(s[0] == w[0]);
    lemma_lead_is(s, gap, 0);
    assert(trim_start(s, gap) =~= s);
    assert forall|j: int| 0 <= j < w.len() implies class.has(#[trigger] s[j]) by {
        assert(s[j] == w[j]);
    }
    if rest.len() > 0 {
        assert(s[w.len() as int] == rest[0]);
        assert(class.has(rest[0]) != gap.has(rest[0]));
    }
    lemma_lead_is(s, class, w.len());
    assert(s.take(w.len() as int) =~= w);
    assert(s.skip(w.len() as int) =~= rest);
}

proof fn lemma_no_runs(class: CharClass, gap: CharClass)
    ensures
        runs(Seq::empty(), class, gap) == Seq::<Seq<char>>::empty(),
{
    let e = Seq::<char>::empty();
    assert(trim_start(e, gap) =~= e);
}

/// Runs with one character of the gap between each two are found again.
pub proof fn lemma_runs_of_join(
    parts: Seq<Seq<char>>,
    sep: char,
    class: CharClass,
    gap: CharClass,
)
    requires
        complementary(class, gap),
        are_runs(parts, class),
        gap.has(sep),
    ensures
        runs(join(parts, seq![sep]), class, gap) == parts,
    decreases parts.len(),
{
    let between = seq![sep];
    lemma_no_runs(class, gap);
    if parts.len() == 0 {
        assert(runs(join(parts, between), class, gap) =~= parts);
    } else if parts.len() == 1 {
        let e = Seq::<char>::empty();
        lemma_runs_front(parts[0], e, class, gap);
        assert(parts[0] + e =~= parts[0]);
        assert(seq![parts[0]] + runs(e, class, gap) =~= parts);
    } else {
        let rest = parts.skip(1);
        let tail = join(rest, between);
        lemma_join_front(parts, between);
        assert(are_runs(rest, class)) by {
            assert forall|i: int| 0 <= i < rest.len() implies is_run(
                #[trigger] rest[i],
                class,
            ) by {
                assert(rest[i] == parts[i + 1]);
            }
        }
        lemma_runs_of_join(rest, sep, class, gap);
        assert(parts[0] + between + tail =~= parts[0] + (between + tail));
        lemma_runs_front(parts[0], between + tail, class, gap);
        lemma_gap_before_runs(sep, tail, class, gap);
        assert(seq![parts[0]] + rest =~= parts);
    }
}

proof fn lemma_gap_before_runs(sep: char, s: Seq<char>, class: CharClass, gap: CharClass)
    requires
        gap.has(sep),
    ensures
        runs(seq![sep] + s, class, gap) == runs(s, class, gap),
{
    let t = seq![sep] + s;
    lemma_lead(s, gap);
    let n = lead(s, gap);
    assert forall|j: int| 0 <= j < n + 1 implies gap.has(#[trigger] t[j]) by {
        if j > 0 {
            assert(t[j] == s[j - 1]);
        }
    }
    if n < s.len() {
        assert(t[n as int + 1] == s[n as int]);
    }
    lemma_lead_is(t, gap, n + 1);
    assert(trim_start(t, gap) =~= trim_start(s, gap));
}

/// Collapsing white space once more changes nothing.
pub proof fn law_collapse_is_idempotent(s: Seq<char>)
    ensures
        collapse_ws(collapse_ws(s)) == collapse_ws(s),
{
    lemma_runs(s, CharClass::NonSpace, CharClass::Space);
    lemma_runs_of_join(words(s), ' ', CharClass::NonSpace, CharClass::Space);
}

proof fn lemma_join_no_space(parts: Seq<Seq<char>>)
    requires
        are_runs(parts, CharClass::NonSpace),
    ensures
        forall|j: int|
            0 <= j < join(parts, seq![' ']).len() ==> (#[trigger] join(parts, seq![' '])[j]) == ' '
                || !is_white_space(join(parts, seq![' '])[j]),
    decreases parts.len(),
{
    let sep = seq![' '];
    let all = join(parts, sep);
    if parts.len() == 1 {
        assert(is_run(parts[0], CharClass::NonSpace));
        assert forall|j: int| 0 <= j < all.len() implies !is_white_space(#[trigger] all[j]) by {
            assert(CharClass::NonSpace.has(parts[0][j]));
        }
    } else if parts.len() > 1 {
        let init = parts.drop_last();
        assert(are_runs(init, CharClass::NonSpace)) by {
            assert forall|i: int| 0 <= i < init.len() implies is_run(
                #[trigger] init[i],
                CharClass::NonSpace,
            ) by {
                assert(init[i] == parts[i]);
            }
        }
        lemma_join_no_space(init);
        assert(is_run(parts[parts.len() - 1], CharClass::NonSpace));
        let before = join(init, sep);
        assert forall|j: int| 0 <= j < all.len() implies (#[trigger] all[j]) == ' '
            || !is_white_space(all[j]) by {
            if j < before.len() {
                assert(all[j] == before[j]);
            } else if j > before.len() {
                assert(all[j] == parts.last()[j - before.len() - 1]);
                assert(CharClass::NonSpace.has(all[j]));
            }
        }
    }
}

/// Text with its white space collapsed has no white space but blanks.
pub proof fn lemma_collapsed_has_blanks_only(s: Seq<char>)
    ensures
        forall|j: int|
            0 <= j < collapse_ws(s).len() ==> (#[trigger] collapse_ws(s)[j]) == ' '
                || !is_white_space(collapse_ws(s)[j]),
{
    lemma_runs(s, CharClass::NonSpace, CharClass::Space);
    lemma_join_no_space(words(s));
}

/// White space separates words, and how much of it does not matter: a word stays as it is, white
/// space before and behind words is lost, and what stands between two becomes one blank.
pub proof fn law_white_space_becomes_one_blank(w: Seq<char>, gap: Seq<char>, rest: Seq<char>)
    requires
        w.len() > 0,
        forall|j: int| 0 <= j < w.len() ==> !is_white_space(#[trigger] w[j]),
        gap.len() > 0,
        forall|j: int| 0 <= j < gap.len() ==> is_white_space(#[trigger] gap[j]),
    ensures
        collapse_ws(Seq::empty()) == Seq::<char>::empty(),
        collapse_ws(w) == w,
        collapse_ws(gap + rest) == collapse_ws(rest),
        collapse_ws(w + gap + rest) == if collapse_ws(rest).len() == 0 {
            w
        } else {
            w + seq![' '] + collapse_ws(rest)
        },
{
    let class = CharClass::NonSpace;
    let white = CharClass::Space;
    let none = Seq::<char>::empty();
    lemma_no_runs(class, white);
    assert(is_run(w, class));
    lemma_runs_front(w, none, class, white);
    assert(w + none =~= w);
    assert(words(w) =~= seq![w]);
    lemma_gaps_before_runs(gap, rest, class, white);
    let behind = gap + rest;
    assert(behind[0] == gap[0]);
    lemma_runs_front(w, behind, class, white);
    assert(w + gap + rest =~= w + behind);
    let more = words(rest);
    let all = seq![w] + more;
    lemma_runs(rest, class, white);
    if more.len() == 0 {
        assert(all =~= seq![w]);
    } else {
        lemma_join_front(all, seq![' ']);
        assert(all.skip(1) =~= more);
        lemma_join_not_shorter(more);
    }
}

proof fn lemma_join_not_shorter(parts: Seq<Seq<char>>)
    requires
        parts.len() > 0,
        parts[0].len() > 0,
    ensures
        join(parts, seq![' ']).len() > 0,
{
    if parts.len() > 1 {
        lemma_join_front(parts, seq![' ']);
    }
}

/// Characters of the gap at the start add no run.
pub proof fn lemma_gaps_before_runs(before: Seq<char>, s: Seq<char>, class: CharClass, gap: CharClass)
    requires
        forall|j: int| 0 <= j < before.len() ==> gap.has(#[trigger] before[j]),
    ensures
        runs(before + s, class, gap) == runs(s, class, gap),
    decreases before.len(),
{
    if before.len() == 0 {
        assert(before + s =~= s);
    } else {
        assert(gap.has(before[0]));
        let rest = before.skip(1);
        assert forall|j: int| 0 <= j < rest.len() implies gap.has(#[trigger] rest[j]) by {
            assert(rest[j] == before[j + 1]);
        }
        lemma_gaps_before_runs(rest, s, class, gap);
        lemma_gap_before_runs(before[0], rest + s, class, gap);
        assert(seq![before[0]] + (rest + s) =~= before + s);
    }
}

/// The words on both sides of a separator are the words of both sides.
pub proof fn lemma_runs_of_two(
    a: Seq<char>,
    sep: char,
    b: Seq<char>,
    class: CharClass,
    gap: CharClass,
)
    requires
        complementary(class, gap),
        gap.has(sep),
    ensures
        runs(a + seq![sep] + b, class, gap) == runs(a, class, gap) + runs(b, class, gap),
    decreases a.len(),
{
    let all = a + seq![sep] + b;
    let k = lead(a, gap);
    let t = trim_start(a, gap);
    lemma_lead(a, gap);
    lemma_lead(t, class);
    let before = a.take(k as int);
    assert forall|j: int| 0 <= j < before.len() implies gap.has(#[trigger] before[j]) by {
        assert(before[j] == a[j]);
    }
    lemma_gaps_before_runs(before, t + seq![sep] + b, class, gap);
    assert(before + (t + seq![sep] + b) =~= all);
    lemma_runs_trim(a, class, gap);
    if t.len() == 0 {
        lemma_no_runs(class, gap);
        assert(t =~= Seq::empty());
        lemma_gap_before_runs(sep, b, class, gap);
        assert(t + seq![sep] + b =~= seq![sep] + b);
        assert(runs(a, class, gap) + runs(b, class, gap) =~= runs(b, class, gap));
    } else {
        let n = lead(t, class);
        assert(t[0] == a[k as int]);
        assert(class.has(t[0]) != gap.has(t[0]));
        let w = t.take(n as int);
        let rest = t.skip(n as int);
        assert forall|j: int| 0 <= j < w.len() implies class.has(#[trigger] w[j]) by {
            assert(w[j] == t[j]);
        }
        let behind = rest + seq![sep] + b;
        if rest.len() > 0 {
            assert(behind[0] == t[n as int]);
            assert(class.has(behind[0]) != gap.has(behind[0]));
        }
        lemma_runs_front(w, behind, class, gap);
        assert(w + behind =~= t + seq![sep] + b);
        lemma_runs_of_two(rest, sep, b, class, gap);
        assert(seq![w] + (runs(rest, class, gap) + runs(b, class, gap)) =~= runs(a, class, gap)
            + runs(b, class, gap));
    }
}

/// Text is cut into lines at its line feeds. A carriage return before one does not belong to the
/// line; what stands behind the last one is a line of its own if there is anything.
pub proof fn law_lines_are_cut_at_feeds(line: Seq<char>, rest: Seq<char>)
    requires
        !line.contains('\n'),
    ensures
        lines(Seq::empty()) == Seq::<Seq<char>>::empty(),
        line.len() > 0 ==> lines(line) == seq![line],
        line.len() == 0 || line.last() != '\r' ==> lines(line + seq!['\n'] + rest) == seq![line]
            + lines(rest),
        lines(line + seq!['\r', '\n'] + rest) == seq![line] + lines(rest),
{
    let class = CharClass::Except('\n');
    assert forall|j: int| 0 <= j < line.len() implies class.has(#[trigger] line[j]) by {
        assert(line.contains(line[j]));
    }
    lemma_lead_is(line, class, line.len());
    lemma_lines_front(line, rest);
    let with = line.push('\r');
    assert(!with.contains('\n')) by {
        if with.contains('\n') {
            let j = choose|j: int| 0 <= j < with.len() && with[j] == '\n';
            assert(line.contains(line[j]));
        }
    }
    lemma_lines_front(with, rest);
    assert(with.drop_last() =~= line);
    assert(with + seq!['\n'] + rest =~= line + seq!['\r', '\n'] + rest);
}

/// A list is cut at its commas and semicolons, and nowhere else.
pub proof fn law_lists_are_cut_at_separators(item: Seq<char>, sep: char, rest: Seq<char>)
    requires
        !item.contains(',') && !item.contains(';'),
        sep == ',' || sep == ';',
    ensures
        list_items(item) == seq![item],
        list_items(item + seq![sep] + rest) == seq![item] + list_items(rest),
{
    let class = CharClass::ListItem;
    assert forall|j: int| 0 <= j < item.len() implies class.has(#[trigger] item[j]) by {
        assert(item.contains(item[j]));
    }
    lemma_lead_is(item, class, item.len());
    let s = item + seq![sep] + rest;
    assert forall|j: int| 0 <= j < item.len() implies class.has(#[trigger] s[j]) by {
        assert(s[j] == item[j]);
    }
    assert(s[item.len() as int] == sep);
    lemma_lead_is(s, class, item.len());
    assert(s.take(item.len() as int) =~= item);
    assert(s.skip(item.len() as int + 1) =~= rest);
}

/// A line, its line feed, and the lines behind it.
pub proof fn lemma_lines_front(line: Seq<char>, rest: Seq<char>)
    requires
        !line.contains('\n'),
    ensures
        lines(line + seq!['\n'] + rest) == seq![without_cr(line)] + lines(rest),
{
    let s = line + seq!['\n'] + rest;
    let class = CharClass::Except('\n');
    assert forall|j: int| 0 <= j < line.len() implies class.has(#[trigger] s[j]) by {
        assert(s[j] == line[j]);
        assert(line.contains(line[j]));
    }
    assert(s[line.len() as int] == '\n');
    lemma_lead_is(s, class, line.len());
    assert(s.take(line.len() as int) =~= line);
    assert(s.skip(line.len() as int + 1) =~= rest);
}

/// Whole lines, and the lines of what is behind them.
pub proof fn lemma_lines_behind(a: Seq<char>, b: Seq<char>)
    requires
        a.len() > 0 ==> a.last() == '\n',
    ensures
        lines(a + b) == lines(a) + lines(b),
    decreases a.len(),
{
    let class = CharClass::Except('\n');
    if a.len() == 0 {
        assert(a + b =~= b);
        assert(lines(a) + lines(b) =~= lines(b));
    } else {
        let n = lead(a, class) as int;
        lemma_lead(a, class);
        assert(n < a.len()) by {
            if n == a.len() {
                assert(class.has(a[n - 1]));
            }
        }
        let all = a + b;
        assert forall|j: int| 0 <= j < n implies class.has(#[trigger] all[j]) by {
            assert(all[j] == a[j]);
        }
        assert(all[n] == a[n]);
        lemma_lead_is(all, class, n as nat);
        assert(all.take(n) =~= a.take(n));
        assert(all.skip(n + 1) =~= a.skip(n + 1) + b);
        lemma_lines_behind(a.skip(n + 1), b);
        let first = seq![without_cr(a.take(n))];
        assert(first + (lines(a.skip(n + 1)) + lines(b)) =~= (first + lines(a.skip(n + 1)))
            + lines(b));
    }
}

/// No line holds a line feed.
pub proof fn lemma_lines_hold_no_feed(s: Seq<char>)
    ensures
        forall|i: int| 0 <= i < lines(s).len() ==> !(#[trigger] lines(s)[i]).contains('\n'),
    decreases s.len(),
{
    let class = CharClass::Except('\n');
    let n = lead(s, class);
    lemma_lead(s, class);
    if s.len() > 0 {
        let line = s.take(n as int);
        assert(!line.contains('\n')) by {
            if line.contains('\n') {
                let j = choose|j: int| 0 <= j < line.len() && line[j] == '\n';
                assert(class.has(s[j]));
            }
        }
        if n >= s.len() {
            assert(line =~= s);
        } else {
            lemma_part_holds_no(line, without_cr(line), 0, '\n');
            let rest = lines(s.skip(n as int + 1));
            lemma_lines_hold_no_feed(s.skip(n as int + 1));
            assert forall|i: int| 0 <= i < lines(s).len() implies !(#[trigger] lines(
                s,
            )[i]).contains('\n') by {
                if i > 0 {
                    assert(lines(s)[i] == rest[i - 1]);
                }
            }
        }
    }
}

/// A part of a text holds no character that the text does not hold.
pub proof fn lemma_part_holds_no(s: Seq<char>, part: Seq<char>, at: int, c: char)
    requires
        !s.contains(c),
        0 <= at,
        at + part.len() <= s.len(),
        part =~= s.subrange(at, at + part.len()),
    ensures
        !part.contains(c),
{
    if part.contains(c) {
        let j = choose|j: int| 0 <= j < part.len() && part[j] == c;
        assert(s[at + j] == c);
    }
}

} // verus!
