//! Images in Markdown: addresses that are replaced, and alternative texts that are left out.

use vstd::prelude::*;

use crate::pattern::{
    find_matches, group_at, group_of, groups_of, matches_placed, regex_matches, Groups,
    LINK_URL_PATTERN, SOURCE_URL_PATTERN,
};
use crate::scan::{find_tag_end, lemma_tag_end, starts_tag, tag_end, tag_starts};
use crate::text::{
    chars_of, is_ascii_space, lead, lead_len, lemma_lead, lemma_lead_is, lower, lowered, push_all,
    push_str, same_text, spells, string_of, CharClass,
};

verus! {

// ---- Addresses ----

/// Addresses and what replaces them, as text.
pub open spec fn pairs_of(v: Seq<(String, String)>) -> Seq<(Seq<char>, Seq<char>)> {
    Seq::new(v.len(), |i: int| (v[i].0@, v[i].1@))
}

/// What replaces `url`: the last entry for it counts.
pub open spec fn lookup(pairs: Seq<(Seq<char>, Seq<char>)>, url: Seq<char>) -> Option<Seq<char>>
    decreases pairs.len(),
{
    if pairs.len() == 0 {
        None
    } else if pairs.last().0 == url {
        Some(pairs.last().1)
    } else {
        lookup(pairs.drop_last(), url)
    }
}

/// The last entry for an address tells what replaces it; an address without an entry is not
/// replaced.
pub proof fn law_last_replacement_counts(pairs: Seq<(Seq<char>, Seq<char>)>, url: Seq<char>)
    ensures
        forall|i: int|
            0 <= i < pairs.len() && (#[trigger] pairs[i]).0 == url && (forall|j: int|
                i < j < pairs.len() ==> (#[trigger] pairs[j]).0 != url) ==> lookup(pairs, url)
                == Some(pairs[i].1),
        (forall|i: int| 0 <= i < pairs.len() ==> (#[trigger] pairs[i]).0 != url) ==> lookup(
            pairs,
            url,
        ) is None,
    decreases pairs.len(),
{
    if pairs.len() > 0 && pairs.last().0 != url {
        let init = pairs.drop_last();
        law_last_replacement_counts(init, url);
        assert forall|i: int|
            0 <= i < pairs.len() && (#[trigger] pairs[i]).0 == url && (forall|j: int|
                i < j < pairs.len() ==> (#[trigger] pairs[j]).0 != url) implies lookup(pairs, url)
            == Some(pairs[i].1) by {
            assert(init[i] == pairs[i]);
            assert forall|j: int| i < j < init.len() implies (#[trigger] init[j]).0 != url by {
                assert(init[j] == pairs[j]);
            }
        }
        if forall|i: int| 0 <= i < pairs.len() ==> (#[trigger] pairs[i]).0 != url {
            assert forall|i: int| 0 <= i < init.len() implies (#[trigger] init[i]).0 != url by {
                assert(init[i] == pairs[i]);
            }
        }
    }
}

/// What replaces `url`.
pub fn find_replacement<'a>(pairs: &'a Vec<(String, String)>, url: &[char]) -> (r: Option<
    &'a String,
>)
    ensures
        match lookup(pairs_of(pairs@), url@) {
            Some(text) => r is Some && r->0@ == text,
            None => r is None,
        },
{
    let ghost ps = pairs_of(pairs@);
    let mut i: usize = pairs.len();
    assert(ps.take(i as int) =~= ps);
    while i > 0
        invariant
            i <= pairs@.len(),
            ps == pairs_of(pairs@),
            lookup(ps, url@) == lookup(ps.take(i as int), url@),
        decreases i,
    {
        assert(ps.take(i as int).last() == (pairs@[i - 1].0@, pairs@[i - 1].1@));
        assert(ps.take(i as int).drop_last() =~= ps.take(i - 1));
        let key = chars_of(pairs[i - 1].0.as_str());
        if same_text(&key, url) {
            return Some(&pairs[i - 1].1);
        }
        i -= 1;
    }
    assert(ps.take(0) =~= Seq::empty());
    None
}

/// `s` from `from` on, with the addresses in the group `group` of the matches from `i` on
/// replaced.
pub open spec fn replaced_from(
    s: Seq<char>,
    matches: Seq<Seq<Option<(usize, usize)>>>,
    group: int,
    i: int,
    from: int,
    pairs: Seq<(Seq<char>, Seq<char>)>,
) -> Seq<char>
    decreases matches.len() - i,
{
    if i >= matches.len() {
        s.skip(from)
    } else {
        match group_at(matches[i], group) {
            None => replaced_from(s, matches, group, i + 1, from, pairs),
            Some((a, b)) => {
                let url = s.subrange(a as int, b as int);
                s.subrange(from, a as int) + (match lookup(pairs, url) {
                    Some(text) => text,
                    None => url,
                }) + replaced_from(s, matches, group, i + 1, b as int, pairs)
            },
        }
    }
}

/// `s` with the addresses in the group `group` of the matches replaced.
pub open spec fn replaced(
    s: Seq<char>,
    matches: Seq<Seq<Option<(usize, usize)>>>,
    group: int,
    pairs: Seq<(Seq<char>, Seq<char>)>,
) -> Seq<char> {
    replaced_from(s, matches, group, 0, 0, pairs)
}

/// Replaces the addresses in the group `group` of the matches.
pub fn replace_group(
    s: &[char],
    matches: &Vec<Groups>,
    group: usize,
    replacements: &Vec<(String, String)>,
) -> (out: Vec<char>)
    requires
        matches_placed(groups_of(matches@), s@.len()),
    ensures
        out@ == replaced(s@, groups_of(matches@), group as int, pairs_of(replacements@)),
{
    let ghost ms = groups_of(matches@);
    let ghost ps = pairs_of(replacements@);
    let ghost all = replaced(s@, ms, group as int, ps);
    let mut out: Vec<char> = Vec::new();
    let mut from: usize = 0;
    let mut i: usize = 0;
    assert(out@ + all =~= all);
    while i < matches.len()
        invariant
            i <= matches@.len(),
            ms == groups_of(matches@),
            ps == pairs_of(replacements@),
            matches_placed(ms, s@.len()),
            from <= s@.len(),
            from == 0 || (i > 0 && from <= (ms[i - 1][0]->0).1),
            out@ + replaced_from(s@, ms, group as int, i as int, from as int, ps) == all,
        decreases matches.len() - i,
    {
        let groups = &matches[i];
        let ghost before = out@;
        assert(ms[i as int] == groups@);
        match group_of(groups, group) {
            None => {
                proof {
                    if i > 0 {
                        assert((ms[i - 1][0]->0).1 <= (ms[i as int][0]->0).0);
                    }
                }
            },
            Some((a, b)) => {
                proof {
                    if i > 0 {
                        assert((ms[i - 1][0]->0).1 <= (ms[i as int][0]->0).0);
                    }
                }
                push_all(&mut out, vstd::slice::slice_subrange(s, from, a));
                let url = vstd::slice::slice_subrange(s, a, b);
                match find_replacement(replacements, url) {
                    Some(text) => push_str(&mut out, text.as_str()),
                    None => push_all(&mut out, url),
                }
                proof {
                    let rest = replaced_from(s@, ms, group as int, i + 1, b as int, ps);
                    let shown = match lookup(ps, url@) {
                        Some(text) => text,
                        None => url@,
                    };
                    let gap = s@.subrange(from as int, a as int);
                    assert(before + (gap + shown + rest) =~= before + gap + shown + rest);
                }
                from = b;
            },
        }
        i += 1;
    }
    let tail = vstd::slice::slice_subrange(s, from, s.len());
    assert(tail@ =~= s@.skip(from as int));
    push_all(&mut out, tail);
    out
}

proof fn lemma_nothing_replaced(
    s: Seq<char>,
    matches: Seq<Seq<Option<(usize, usize)>>>,
    group: int,
    i: int,
    from: int,
    pairs: Seq<(Seq<char>, Seq<char>)>,
)
    requires
        matches_placed(matches, s.len()),
        0 <= i <= matches.len(),
        0 <= from <= s.len(),
        from == 0 || (i > 0 && from <= (matches[i - 1][0]->0).1),
        nothing_found(s, matches, group, pairs),
    ensures
        replaced_from(s, matches, group, i, from, pairs) == s.skip(from),
    decreases matches.len() - i,
{
    if i < matches.len() {
        if i > 0 {
            assert((matches[i - 1][0]->0).1 <= (matches[i][0]->0).0);
        }
        match group_at(matches[i], group) {
            None => lemma_nothing_replaced(s, matches, group, i + 1, from, pairs),
            Some((a, b)) => {
                lemma_nothing_replaced(s, matches, group, i + 1, b as int, pairs);
                assert(s.subrange(from, a as int) + s.subrange(a as int, b as int) + s.skip(
                    b as int,
                ) =~= s.skip(from));
            },
        }
    }
}

/// Whether no address that was found is to be replaced.
pub open spec fn nothing_found(
    s: Seq<char>,
    matches: Seq<Seq<Option<(usize, usize)>>>,
    group: int,
    pairs: Seq<(Seq<char>, Seq<char>)>,
) -> bool {
    forall|i: int|
        0 <= i < matches.len() ==> (group_at(#[trigger] matches[i], group) matches Some((a, b))
            ==> lookup(pairs, s.subrange(a as int, b as int)) is None)
}

/// Where none of the addresses that are found is to be replaced, the text stays as it is.
pub proof fn law_unknown_urls_are_kept(
    s: Seq<char>,
    matches: Seq<Seq<Option<(usize, usize)>>>,
    group: int,
    pairs: Seq<(Seq<char>, Seq<char>)>,
)
    requires
        matches_placed(matches, s.len()),
        nothing_found(s, matches, group, pairs),
    ensures
        replaced(s, matches, group, pairs) == s,
{
    lemma_nothing_replaced(s, matches, group, 0, 0, pairs);
    assert(s.skip(0) =~= s);
}

/// `s` with the addresses that `pattern` finds in the group `group` replaced.
pub open spec fn replaced_by_pattern(
    s: Seq<char>,
    pattern: Seq<char>,
    group: int,
    pairs: Seq<(Seq<char>, Seq<char>)>,
) -> Seq<char> {
    replaced(s, regex_matches(pattern, s)->0, group, pairs)
}

/// `m` with the addresses of images replaced: first those of Markdown links, then those of the
/// attribute `src`.
pub open spec fn image_urls_replaced(
    m: Seq<char>,
    pairs: Seq<(Seq<char>, Seq<char>)>,
) -> Seq<char> {
    replaced_by_pattern(
        replaced_by_pattern(m, LINK_URL_PATTERN@, 1, pairs),
        SOURCE_URL_PATTERN@,
        3,
        pairs,
    )
}

/// Replaces the addresses of images in Markdown.
pub fn replace_image_urls(markdown: &str, replacements: &Vec<(String, String)>) -> (out: String)
    ensures
        out@ == image_urls_replaced(markdown@, pairs_of(replacements@)),
        replacements@.len() == 0 ==> out@ == markdown@,
{
    let ghost ps = pairs_of(replacements@);
    let links = find_matches(LINK_URL_PATTERN, markdown).unwrap();
    let text = chars_of(markdown);
    let updated = replace_group(&text, &links, 1, replacements);
    let updated_text = string_of(&updated);
    let sources = find_matches(SOURCE_URL_PATTERN, updated_text.as_str()).unwrap();
    let out = replace_group(&updated, &sources, 3, replacements);
    proof {
        if replacements@.len() == 0 {
            law_unknown_urls_are_kept(text@, groups_of(links@), 1, ps);
            law_unknown_urls_are_kept(updated@, groups_of(sources@), 3, ps);
        }
    }
    string_of(&out)
}

// ---- Alternative texts ----

/// The position behind the attribute of `t` whose name ends at `a`: behind its value, if it has
/// one.
pub open spec fn attribute_end(t: Seq<char>, a: int) -> int {
    let eq = a + lead(t.skip(a), CharClass::AsciiSpace);
    if eq < t.len() && t[eq] == '=' {
        let v = eq + 1 + lead(t.skip(eq + 1), CharClass::AsciiSpace);
        if v < t.len() && (t[v] == '"' || t[v] == '\'') {
            let close = v + 1 + lead(t.skip(v + 1), CharClass::Except(t[v]));
            if close < t.len() {
                close + 1
            } else {
                t.len() as int
            }
        } else {
            v + lead(t.skip(v), CharClass::BareValue)
        }
    } else {
        a
    }
}

proof fn lemma_attribute_end(t: Seq<char>, a: int)
    requires
        0 <= a <= t.len(),
    ensures
        a <= attribute_end(t, a) <= t.len(),
{
    lemma_lead(t.skip(a), CharClass::AsciiSpace);
    let eq = a + lead(t.skip(a), CharClass::AsciiSpace);
    if eq < t.len() {
        lemma_lead(t.skip(eq + 1), CharClass::AsciiSpace);
        let v = eq + 1 + lead(t.skip(eq + 1), CharClass::AsciiSpace);
        lemma_lead(t.skip(v), CharClass::BareValue);
        if v < t.len() {
            lemma_lead(t.skip(v + 1), CharClass::Except(t[v]));
        }
    }
}

fn find_attribute_end(t: &[char], a: usize) -> (end: usize)
    requires
        a <= t@.len(),
    ensures
        end == attribute_end(t@, a as int),
        a <= end <= t@.len(),
{
    assert(a <= t.len());
    let eq = a + lead_len(t, a, CharClass::AsciiSpace);
    if eq < t.len() && t[eq] == '=' {
        let v = eq + 1 + lead_len(t, eq + 1, CharClass::AsciiSpace);
        if v < t.len() && (t[v] == '"' || t[v] == '\'') {
            let close = v + 1 + lead_len(t, v + 1, CharClass::Except(t[v]));
            if close < t.len() {
                close + 1
            } else {
                t.len()
            }
        } else {
            v + lead_len(t, v, CharClass::BareValue)
        }
    } else {
        a
    }
}

/// The tag `t` from `p` on, without attributes named `alt`, in any case, and the white space
/// before them.
pub open spec fn without_alt(t: Seq<char>, p: int) -> Seq<char>
    decreases t.len() - p,
    via without_alt_decreases
{
    let q = p + lead(t.skip(p), CharClass::AsciiSpace);
    let n = lead(t.skip(q), CharClass::AttributeName);
    if p < 0 || p >= t.len() {
        Seq::empty()
    } else if q >= t.len() {
        t.skip(p)
    } else if n == 0 {
        t.subrange(p, q + 1) + without_alt(t, q + 1)
    } else {
        let end = attribute_end(t, q + n);
        if lower(t.subrange(q, q + n)) == "alt"@ {
            without_alt(t, end)
        } else {
            t.subrange(p, end) + without_alt(t, end)
        }
    }
}

#[via_fn]
proof fn without_alt_decreases(t: Seq<char>, p: int) {
    if 0 <= p < t.len() {
        lemma_lead(t.skip(p), CharClass::AsciiSpace);
        let q = p + lead(t.skip(p), CharClass::AsciiSpace);
        lemma_lead(t.skip(q), CharClass::AttributeName);
        lemma_attribute_end(t, q + lead(t.skip(q), CharClass::AttributeName));
    }
}

/// Appends the tag `t` from `start` on, without attributes named `alt`.
fn push_without_alt(out: &mut Vec<char>, t: &[char], start: usize)
    requires
        start <= t@.len(),
    ensures
        final(out)@ == old(out)@ + without_alt(t@, start as int),
{
    let ghost all = out@ + without_alt(t@, start as int);
    let mut p: usize = start;
    while p < t.len()
        invariant
            p <= t@.len(),
            out@ + without_alt(t@, p as int) == all,
        decreases t.len() - p,
    {
        let ghost before = out@;
        let q = p + lead_len(t, p, CharClass::AsciiSpace);
        if q >= t.len() {
            let rest = vstd::slice::slice_subrange(t, p, t.len());
            assert(rest@ =~= t@.skip(p as int));
            push_all(out, rest);
            p = t.len();
            assert(without_alt(t@, p as int) =~= Seq::empty());
            assert(out@ + Seq::<char>::empty() =~= out@);
        } else {
            let n = lead_len(t, q, CharClass::AttributeName);
            if n == 0 {
                push_all(out, vstd::slice::slice_subrange(t, p, q + 1));
                assert(before + (t@.subrange(p as int, q + 1) + without_alt(t@, q + 1)) =~= out@
                    + without_alt(t@, q + 1));
                p = q + 1;
            } else {
                let end = find_attribute_end(t, q + n);
                let name = lowered(vstd::slice::slice_subrange(t, q, q + n));
                if !spells(&name, "alt") {
                    push_all(out, vstd::slice::slice_subrange(t, p, end));
                    assert(before + (t@.subrange(p as int, end as int) + without_alt(
                        t@,
                        end as int,
                    )) =~= out@ + without_alt(t@, end as int));
                }
                p = end;
            }
        }
    }
    assert(out@ + Seq::<char>::empty() =~= out@);
}

/// `m` from `i` on, without the attributes `alt` of the tags `img`.
pub open spec fn alt_stripped(m: Seq<char>, i: int) -> Seq<char>
    decreases m.len() - i,
    via alt_stripped_decreases
{
    if i < 0 || i >= m.len() {
        Seq::empty()
    } else if starts_tag(m, i, "img"@) && tag_end(m, i) is Some {
        let e = tag_end(m, i)->0;
        m.subrange(i, i + 4) + without_alt(m.subrange(i, e), 4) + alt_stripped(m, e)
    } else {
        seq![m[i]] + alt_stripped(m, i + 1)
    }
}

#[via_fn]
proof fn alt_stripped_decreases(m: Seq<char>, i: int) {
    lemma_tag_end(m, i);
}

/// Leaves out the attributes `alt` of the tags `img`.
pub fn strip_html_img_alt_attributes(markdown: &str) -> (out: String)
    ensures
        out@ == alt_stripped(markdown@, 0),
{
    let text = chars_of(markdown);
    let s: &[char] = &text;
    let img = chars_of("img");
    let ghost all = alt_stripped(s@, 0);
    let mut out: Vec<char> = Vec::new();
    let mut i: usize = 0;
    proof {
        reveal_strlit("img");
        assert(out@ + all =~= all);
    }
    while i < s.len()
        invariant
            i <= s@.len(),
            s@ == markdown@,
            img@ == "img"@,
            "img"@.len() == 3,
            all == alt_stripped(s@, 0),
            out@ + alt_stripped(s@, i as int) == all,
        decreases s.len() - i,
    {
        let ghost before = out@;
        let end = if tag_starts(s, i, &img) {
            find_tag_end(s, i)
        } else {
            None
        };
        match end {
            Some(e) => {
                let tag = vstd::slice::slice_subrange(s, i, e);
                proof {
                    lemma_img_tag(s@, i as int);
                }
                push_all(&mut out, vstd::slice::slice_subrange(s, i, i + 4));
                push_without_alt(&mut out, tag, 4);
                assert(before + (s@.subrange(i as int, i + 4) + without_alt(tag@, 4)
                    + alt_stripped(s@, e as int)) =~= out@ + alt_stripped(s@, e as int));
                i = e;
            },
            None => {
                out.push(s[i]);
                assert(before + (seq![s@[i as int]] + alt_stripped(s@, i + 1)) =~= out@
                    + alt_stripped(s@, i + 1));
                i += 1;
            },
        }
    }
    assert(out@ + Seq::<char>::empty() =~= out@);
    string_of(&out)
}

/// The name of an image tag stands before the end of the tag.
proof fn lemma_img_tag(s: Seq<char>, i: int)
    requires
        starts_tag(s, i, "img"@),
        tag_end(s, i) is Some,
    ensures
        tag_end(s, i)->0 >= i + 5,
        tag_end(s, i)->0 <= s.len(),
{
    reveal_strlit("img");
    lemma_tag_end(s, i);
    let e = tag_end(s, i)->0;
    let name = s.subrange(i + 1, i + 4);
    assert(lower("img"@) =~= "img"@);
    assert(lower(name)[0] == 'i' && lower(name)[1] == 'm' && lower(name)[2] == 'g');
    assert(name[0] == s[i + 1] && name[1] == s[i + 2] && name[2] == s[i + 3]);
    assert(s[e - 1] == '>');
}

/// Text in which no tag `img` begins stays as it is.
pub proof fn law_text_without_images_is_unchanged(m: Seq<char>, i: int)
    requires
        0 <= i <= m.len(),
        forall|k: int| i <= k < m.len() ==> !#[trigger] starts_tag(m, k, "img"@),
    ensures
        alt_stripped(m, i) == m.skip(i),
    decreases m.len() - i,
{
    if i < m.len() {
        law_text_without_images_is_unchanged(m, i + 1);
        assert(seq![m[i]] + m.skip(i + 1) =~= m.skip(i));
    } else {
        assert(m.skip(i) =~= Seq::empty());
    }
}

// ---- What is replaced and what is left out ----

/// The address in a match is replaced if there is an entry for it, and stays if not; the text up to
/// it stays as it is, and so does the text behind the last match.
pub proof fn law_addresses_are_replaced_in_place(
    s: Seq<char>,
    matches: Seq<Seq<Option<(usize, usize)>>>,
    group: int,
    i: int,
    from: int,
    pairs: Seq<(Seq<char>, Seq<char>)>,
)
    requires
        0 <= i,
    ensures
        i >= matches.len() ==> replaced_from(s, matches, group, i, from, pairs) == s.skip(from),
        i < matches.len() ==> match group_at(matches[i], group) {
            Some((a, b)) => {
                let url = s.subrange(a as int, b as int);
                let before = s.subrange(from, a as int);
                let behind = replaced_from(s, matches, group, i + 1, b as int, pairs);
                let here = replaced_from(s, matches, group, i, from, pairs);
                &&& (forall|k: int| 0 <= k < pairs.len() ==> (#[trigger] pairs[k]).0 != url) ==> here
                    == before + url + behind
                &&& forall|k: int|
                    0 <= k < pairs.len() && (#[trigger] pairs[k]).0 == url && (forall|j: int|
                        k < j < pairs.len() ==> (#[trigger] pairs[j]).0 != url) ==> here == before
                        + pairs[k].1 + behind
            },
            None => replaced_from(s, matches, group, i, from, pairs) == replaced_from(
                s,
                matches,
                group,
                i + 1,
                from,
                pairs,
            ),
        },
{
    if i < matches.len() {
        match group_at(matches[i], group) {
            Some((a, b)) => {
                law_last_replacement_counts(pairs, s.subrange(a as int, b as int));
            },
            None => {},
        }
    }
}

/// Both ways to give an image are seen: where the text has no `src` with an address, the targets of
/// links are replaced, and where it has no such link, the values of `src` are.
pub proof fn law_links_and_sources_are_replaced(m: Seq<char>, pairs: Seq<(Seq<char>, Seq<char>)>)
    ensures
        ({
            let links = regex_matches(LINK_URL_PATTERN@, m);
            let sources = regex_matches(SOURCE_URL_PATTERN@, m);
            &&& links is Some && links->0.len() == 0 && sources is Some
                ==> image_urls_replaced(m, pairs) == replaced_from(m, sources->0, 3, 0, 0, pairs)
            &&& links is Some ==> {
                let first = replaced_from(m, links->0, 1, 0, 0, pairs);
                let left = regex_matches(SOURCE_URL_PATTERN@, first);
                left is Some && left->0.len() == 0 ==> image_urls_replaced(m, pairs) == first
            }
        }),
{
    assert(m.skip(0) =~= m);
    let links = regex_matches(LINK_URL_PATTERN@, m);
    if links is Some {
        let first = replaced_from(m, links->0, 1, 0, 0, pairs);
        assert(first.skip(0) =~= first);
    }
}

/// Whether `c` may stand in the name of an attribute.
pub open spec fn is_attribute_char(c: char) -> bool {
    !is_ascii_space(c) && c != '=' && c != '>' && c != '/' && c != '"' && c != '\''
}

/// An attribute with a value ends behind it: behind the mark that closes a quoted one, and before
/// white space or `>` for a bare one. White space may stand on both sides of the sign. Without a
/// sign it ends with its name.
pub proof fn law_attributes_end_behind_their_value(
    t: Seq<char>,
    a: int,
    eq: int,
    v: int,
    e: int,
)
    requires
        0 <= a <= eq <= t.len(),
        forall|j: int| a <= j < eq ==> is_ascii_space(#[trigger] t[j]),
        eq < t.len() ==> !is_ascii_space(t[eq]),
        eq < t.len() && t[eq] == '=' ==> eq < v <= t.len(),
        forall|j: int| eq < j < v ==> is_ascii_space(#[trigger] t[j]),
        v < t.len() ==> !is_ascii_space(t[v]),
        v <= e <= t.len(),
    ensures
        eq == t.len() || t[eq] != '=' ==> attribute_end(t, a) == a,
        eq < t.len() && t[eq] == '=' && v < t.len() && (t[v] == '"' || t[v] == '\'') && v < e && (
        forall|j: int| v < j < e ==> #[trigger] t[j] != t[v]) ==> (e == t.len() ==> attribute_end(
            t,
            a,
        ) == t.len()) && (e < t.len() && t[e] == t[v] ==> attribute_end(t, a) == e + 1),
        eq < t.len() && t[eq] == '=' && (v == t.len() || (t[v] != '"' && t[v] != '\'')) && (forall|
            j: int,
        |
            v <= j < e ==> !is_ascii_space(#[trigger] t[j]) && t[j] != '>') && (e == t.len()
            || is_ascii_space(t[e]) || t[e] == '>') ==> attribute_end(t, a) == e,
{
    let space = CharClass::AsciiSpace;
    lemma_lead_at(t, a, eq, space);
    if eq < t.len() && t[eq] == '=' {
        lemma_lead_at(t, eq + 1, v, space);
        if v < t.len() && (t[v] == '"' || t[v] == '\'') {
            if v < e && (forall|j: int| v < j < e ==> #[trigger] t[j] != t[v]) && (e == t.len()
                || t[e] == t[v]) {
                lemma_lead_at(t, v + 1, e, CharClass::Except(t[v]));
            }
        } else if (forall|j: int|
            v <= j < e ==> !is_ascii_space(#[trigger] t[j]) && t[j] != '>') && (e == t.len()
            || is_ascii_space(t[e]) || t[e] == '>') {
            lemma_lead_at(t, v, e, CharClass::BareValue);
        }
    }
}

proof fn lemma_lead_at(t: Seq<char>, from: int, to: int, class: CharClass)
    requires
        0 <= from <= to <= t.len(),
        forall|j: int| from <= j < to ==> class.has(#[trigger] t[j]),
        to < t.len() ==> !class.has(t[to]),
    ensures
        lead(t.skip(from), class) == to - from,
{
    let u = t.skip(from);
    assert forall|j: int| 0 <= j < to - from implies class.has(#[trigger] u[j]) by {
        assert(u[j] == t[from + j]);
    }
    if to < t.len() {
        assert(u[to - from] == t[to]);
    }
    lemma_lead_is(u, class, (to - from) as nat);
}

/// An attribute is left out, with the white space before it, if its name is `alt` in any case;
/// every other one, and what is no attribute, stays as it is.
pub proof fn law_only_alternative_texts_are_left_out(t: Seq<char>, p: int, q: int, e: int)
    requires
        0 <= p <= q <= e <= t.len(),
        p < t.len(),
        forall|j: int| p <= j < q ==> is_ascii_space(#[trigger] t[j]),
        q < t.len() ==> !is_ascii_space(t[q]),
        forall|j: int| q <= j < e ==> is_attribute_char(#[trigger] t[j]),
        e < t.len() ==> !is_attribute_char(t[e]),
    ensures
        q == t.len() ==> without_alt(t, p) == t.skip(p),
        q < t.len() && e == q ==> without_alt(t, p) == t.subrange(p, q + 1) + without_alt(t, q + 1),
        q < e && lower(t.subrange(q, e)) == "alt"@ ==> without_alt(t, p) == without_alt(
            t,
            attribute_end(t, e),
        ),
        q < e && lower(t.subrange(q, e)) != "alt"@ ==> without_alt(t, p) == t.subrange(
            p,
            attribute_end(t, e),
        ) + without_alt(t, attribute_end(t, e)),
{
    lemma_lead_at(t, p, q, CharClass::AsciiSpace);
    lemma_lead_at(t, q, e, CharClass::AttributeName);
}

/// In a tag `img` that ends, attributes are left out behind the name; all other text stays as it is.
pub proof fn law_only_image_tags_change(m: Seq<char>, i: int)
    requires
        0 <= i < m.len(),
    ensures
        starts_tag(m, i, "img"@) && tag_end(m, i) is Some ==> {
            let e = tag_end(m, i)->0;
            alt_stripped(m, i) == m.subrange(i, i + 4) + without_alt(m.subrange(i, e), 4)
                + alt_stripped(m, e)
        },
        !starts_tag(m, i, "img"@) || tag_end(m, i) is None ==> alt_stripped(m, i) == seq![m[i]]
            + alt_stripped(m, i + 1),
        alt_stripped(m, m.len() as int) == Seq::<char>::empty(),
{
}

} // verus!
