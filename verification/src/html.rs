//! HTML in Markdown: tags, the regions they open, and which of those may be converted.

use vstd::prelude::*;

use crate::scan::{
    backtick_run_len, backticks_at, backticks_from, find_matching_backtick_run, find_tag_end,
    law_backticks_are_found_first, lemma_backticks_from, lemma_tag_end, tag_end,
};
use crate::text::{
    is_ascii_space, lead, lead_len, lemma_lead, lemma_lead_is, lemma_trail, lower, lowered,
    same_text, spells, trail, trim_end, trimmed_end, CharClass,
};

verus! {

// ---- Tags ----

/// What a tag does.
#[derive(Clone, Copy, Debug, PartialEq, Eq, Structural)]
pub enum HtmlTagKind {
    /// It opens an element.
    Opening,
    /// It closes an element.
    Closing,
    /// It is a comment, a declaration or an instruction.
    Special,
}

/// A tag.
pub struct Tag {
    pub name: Seq<char>,
    pub kind: HtmlTagKind,
    pub end: int,
    pub self_closing: bool,
}

/// Whether the tag between `start` and `end` has a `/` before its `>`.
pub open spec fn self_closing(s: Seq<char>, start: int, end: int) -> bool {
    trim_end(s.subrange(start, end - 1), CharClass::AsciiSpace).last() == '/'
}

/// The tag that begins at `start`.
pub open spec fn html_tag(s: Seq<char>, start: int) -> Option<Tag> {
    if start < 0 || start >= s.len() || s[start] != '<' {
        None
    } else {
        match tag_end(s, start) {
            None => None,
            Some(end) => if s[start + 1] == '!' || s[start + 1] == '?' {
                Some(
                    Tag {
                        name: Seq::empty(),
                        kind: HtmlTagKind::Special,
                        end,
                        self_closing: false,
                    },
                )
            } else if s[start + 1] == '/' {
                let n = lead(s.skip(start + 2), CharClass::TagName);
                if n == 0 {
                    None
                } else {
                    Some(
                        Tag {
                            name: s.subrange(start + 2, start + 2 + n),
                            kind: HtmlTagKind::Closing,
                            end,
                            self_closing: false,
                        },
                    )
                }
            } else {
                let n = lead(s.skip(start + 1), CharClass::TagName);
                if n == 0 {
                    None
                } else {
                    Some(
                        Tag {
                            name: s.subrange(start + 1, start + 1 + n),
                            kind: HtmlTagKind::Opening,
                            end,
                            self_closing: self_closing(s, start, end),
                        },
                    )
                }
            },
        }
    }
}

/// A tag takes at least two characters.
pub proof fn lemma_html_tag(s: Seq<char>, start: int)
    ensures
        html_tag(s, start) matches Some(t) ==> start + 1 < t.end <= s.len(),
{
    lemma_tag_end(s, start);
}

/// A tag that was found.
pub struct ParsedHtmlTag<'a> {
    pub name: &'a [char],
    pub kind: HtmlTagKind,
    pub end: usize,
    pub self_closing: bool,
}

impl<'a> View for ParsedHtmlTag<'a> {
    type V = Tag;

    open spec fn view(&self) -> Tag {
        Tag {
            name: self.name@,
            kind: self.kind,
            end: self.end as int,
            self_closing: self.self_closing,
        }
    }
}

/// The position behind the name of a tag that begins at `start`.
fn name_end(s: &[char], start: usize) -> (r: Option<usize>)
    requires
        start <= s@.len(),
    ensures
        match r {
            Some(end) => end == start + lead(s@.skip(start as int), CharClass::TagName) && start
                < end <= s@.len(),
            None => lead(s@.skip(start as int), CharClass::TagName) == 0,
        },
{
    let n = lead_len(s, start, CharClass::TagName);
    if n == 0 {
        None
    } else {
        assert(start + n <= s.len());
        Some(start + n)
    }
}

/// Whether the tag between `start` and `end` has a `/` before its `>`.
fn is_self_closing_tag(s: &[char], start: usize, end: usize) -> (r: bool)
    requires
        start + 1 < end <= s@.len(),
        s@[start as int] == '<',
    ensures
        r == self_closing(s@, start as int, end as int),
{
    let inner = vstd::slice::slice_subrange(s, start, end - 1);
    let t = trimmed_end(inner, CharClass::AsciiSpace);
    proof {
        let n = crate::text::trail(inner@, CharClass::AsciiSpace);
        crate::text::lemma_trail(inner@, CharClass::AsciiSpace);
        assert(inner@[0] == '<');
        assert(n < inner@.len());
    }
    t[t.len() - 1] == '/'
}

/// The tag that begins at `start`.
pub fn parse_html_tag<'a>(s: &'a [char], start: usize) -> (r: Option<ParsedHtmlTag<'a>>)
    ensures
        match html_tag(s@, start as int) {
            Some(tag) => r is Some && r->0@ == tag && start + 1 < tag.end <= s@.len(),
            None => r is None,
        },
{
    if start >= s.len() || s[start] != '<' {
        return None;
    }
    let end = match find_tag_end(s, start) {
        Some(end) => end,
        None => {
            return None;
        },
    };
    let c = s[start + 1];
    if c == '!' || c == '?' {
        let name = vstd::slice::slice_subrange(s, start, start);
        assert(name@ =~= Seq::empty());
        return Some(
            ParsedHtmlTag { name, kind: HtmlTagKind::Special, end, self_closing: false },
        );
    }
    if c == '/' {
        return match name_end(s, start + 2) {
            Some(to) => Some(
                ParsedHtmlTag {
                    name: vstd::slice::slice_subrange(s, start + 2, to),
                    kind: HtmlTagKind::Closing,
                    end,
                    self_closing: false,
                },
            ),
            None => None,
        };
    }
    match name_end(s, start + 1) {
        Some(to) => Some(
            ParsedHtmlTag {
                name: vstd::slice::slice_subrange(s, start + 1, to),
                kind: HtmlTagKind::Opening,
                end,
                self_closing: is_self_closing_tag(s, start, end),
            },
        ),
        None => None,
    }
}

// ---- Elements by name ----

/// The elements that may be converted.
pub open spec fn allowlisted(name: Seq<char>) -> bool {
    let n = lower(name);
    ||| n == "img"@
    ||| n == "a"@
    ||| n == "p"@
    ||| n == "div"@
    ||| n == "span"@
    ||| n == "br"@
    ||| n == "hr"@
    ||| n == "h1"@
    ||| n == "h2"@
    ||| n == "h3"@
    ||| n == "h4"@
    ||| n == "h5"@
    ||| n == "h6"@
    ||| n == "ul"@
    ||| n == "ol"@
    ||| n == "li"@
    ||| n == "blockquote"@
    ||| n == "table"@
    ||| n == "thead"@
    ||| n == "tbody"@
    ||| n == "tfoot"@
    ||| n == "tr"@
    ||| n == "th"@
    ||| n == "td"@
    ||| n == "strong"@
    ||| n == "b"@
    ||| n == "em"@
    ||| n == "i"@
    ||| n == "u"@
    ||| n == "s"@
    ||| n == "del"@
    ||| n == "pre"@
    ||| n == "code"@
}

/// The elements of mathematics, which are never converted.
pub open spec fn excluded(name: Seq<char>) -> bool {
    let n = lower(name);
    n == "math"@ || n == "sub"@ || n == "sup"@
}

/// The elements that have no content and no closing tag.
pub open spec fn void_element(name: Seq<char>) -> bool {
    let n = lower(name);
    ||| n == "area"@
    ||| n == "base"@
    ||| n == "br"@
    ||| n == "col"@
    ||| n == "embed"@
    ||| n == "hr"@
    ||| n == "img"@
    ||| n == "input"@
    ||| n == "link"@
    ||| n == "meta"@
    ||| n == "param"@
    ||| n == "source"@
    ||| n == "track"@
    ||| n == "wbr"@
}

/// Whether an element may be converted.
pub fn is_html_allowlisted(name: &[char]) -> (r: bool)
    ensures
        r == allowlisted(name@),
{
    let n = lowered(name);
    spells(&n, "img") || spells(&n, "a") || spells(&n, "p") || spells(&n, "div") || spells(
        &n,
        "span",
    ) || spells(&n, "br") || spells(&n, "hr") || spells(&n, "h1") || spells(&n, "h2") || spells(
        &n,
        "h3",
    ) || spells(&n, "h4") || spells(&n, "h5") || spells(&n, "h6") || spells(&n, "ul") || spells(
        &n,
        "ol",
    ) || spells(&n, "li") || spells(&n, "blockquote") || spells(&n, "table") || spells(&n, "thead")
        || spells(&n, "tbody") || spells(&n, "tfoot") || spells(&n, "tr") || spells(&n, "th")
        || spells(&n, "td") || spells(&n, "strong") || spells(&n, "b") || spells(&n, "em")
        || spells(&n, "i") || spells(&n, "u") || spells(&n, "s") || spells(&n, "del") || spells(
        &n,
        "pre",
    ) || spells(&n, "code")
}

/// Whether an element belongs to mathematics.
pub fn is_html_excluded(name: &[char]) -> (r: bool)
    ensures
        r == excluded(name@),
{
    let n = lowered(name);
    spells(&n, "math") || spells(&n, "sub") || spells(&n, "sup")
}

/// Whether an element has no content and no closing tag.
pub fn is_html_void(name: &[char]) -> (r: bool)
    ensures
        r == void_element(name@),
{
    let n = lowered(name);
    spells(&n, "area") || spells(&n, "base") || spells(&n, "br") || spells(&n, "col") || spells(
        &n,
        "embed",
    ) || spells(&n, "hr") || spells(&n, "img") || spells(&n, "input") || spells(&n, "link")
        || spells(&n, "meta") || spells(&n, "param") || spells(&n, "source") || spells(&n, "track")
        || spells(&n, "wbr")
}

// ---- Regions ----

/// The names of open elements, in lower case, outermost first.
pub open spec fn names(stack: Seq<Vec<char>>) -> Seq<Seq<char>> {
    Seq::new(stack.len(), |i: int| stack[i]@)
}

/// The position, looked for from `i` on, behind the tag that closes the last of the elements
/// `open`; nothing if a tag closes an element that is not the innermost.
pub open spec fn region_end(s: Seq<char>, i: int, open: Seq<Seq<char>>) -> Option<int>
    decreases s.len() - i,
    via region_end_decreases
{
    if i < 0 || i >= s.len() {
        None
    } else {
        match html_tag(s, i) {
            None => region_end(s, i + 1, open),
            Some(tag) => match tag.kind {
                HtmlTagKind::Special => region_end(s, tag.end, open),
                HtmlTagKind::Closing => if open.len() == 0 || open.last() != lower(tag.name) {
                    None
                } else if open.len() == 1 {
                    Some(tag.end)
                } else {
                    region_end(s, tag.end, open.drop_last())
                },
                HtmlTagKind::Opening => region_end(
                    s,
                    tag.end,
                    if tag.self_closing || void_element(tag.name) {
                        open
                    } else {
                        open.push(lower(tag.name))
                    },
                ),
            },
        }
    }
}

#[via_fn]
proof fn region_end_decreases(s: Seq<char>, i: int, open: Seq<Seq<char>>) {
    lemma_html_tag(s, i);
}

/// A region ends in the text, behind the place where the search began.
pub proof fn lemma_region_end(s: Seq<char>, i: int, open: Seq<Seq<char>>)
    ensures
        region_end(s, i, open) matches Some(e) ==> i < e <= s.len(),
    decreases s.len() - i,
{
    if 0 <= i < s.len() {
        lemma_html_tag(s, i);
        match html_tag(s, i) {
            None => lemma_region_end(s, i + 1, open),
            Some(tag) => match tag.kind {
                HtmlTagKind::Special => lemma_region_end(s, tag.end, open),
                HtmlTagKind::Closing => lemma_region_end(s, tag.end, open.drop_last()),
                HtmlTagKind::Opening => {
                    lemma_region_end(s, tag.end, open);
                    lemma_region_end(s, tag.end, open.push(lower(tag.name)));
                },
            },
        }
    }
}

/// The position behind the element `root` that the tag at `start` opens.
pub open spec fn element_end(s: Seq<char>, start: int, root: Seq<char>) -> Option<int> {
    match html_tag(s, start) {
        None => None,
        Some(tag) => if tag.kind == HtmlTagKind::Opening {
            region_end(s, tag.end, seq![lower(root)])
        } else {
            None
        },
    }
}

/// The position behind the element `root` that the tag at `start` opens.
pub fn find_html_region_end(s: &[char], start: usize, root: &[char]) -> (r: Option<usize>)
    ensures
        match element_end(s@, start as int, root@) {
            Some(e) => r is Some && r->0 == e && start < e <= s@.len(),
            None => r is None,
        },
{
    let mut i: usize = match parse_html_tag(s, start) {
        None => {
            return None;
        },
        Some(tag) => {
            if tag.kind != HtmlTagKind::Opening {
                return None;
            }
            tag.end
        },
    };
    let mut stack: Vec<Vec<char>> = Vec::new();
    stack.push(lowered(root));
    assert(names(stack@) =~= seq![lower(root@)]);
    while i < s.len()
        invariant
            start < i <= s@.len(),
            stack@.len() > 0,
            element_end(s@, start as int, root@) == region_end(s@, i as int, names(stack@)),
        decreases s.len() - i,
    {
        match parse_html_tag(s, i) {
            None => {
                i += 1;
            },
            Some(tag) => {
                match tag.kind {
                    HtmlTagKind::Special => {},
                    HtmlTagKind::Closing => {
                        let name = lowered(tag.name);
                        assert(names(stack@).last() == stack@.last()@);
                        if !same_text(&stack[stack.len() - 1], &name) {
                            return None;
                        }
                        if stack.len() == 1 {
                            return Some(tag.end);
                        }
                        let ghost before = stack@;
                        stack.pop();
                        assert(names(stack@) =~= names(before).drop_last());
                    },
                    HtmlTagKind::Opening => {
                        if !(tag.self_closing || is_html_void(tag.name)) {
                            let ghost before = stack@;
                            let name = lowered(tag.name);
                            stack.push(name);
                            assert(names(stack@) =~= names(before).push(name@));
                        }
                    },
                }
                i = tag.end;
            },
        }
    }
    None
}

// ---- What may be converted ----

/// Whether TeX delimiters stand in `s` from `i` on: two dollar signs, none of them behind a
/// backslash; `saw` tells whether one stands before `i`.
pub open spec fn tex_from(s: Seq<char>, i: int, saw: bool) -> bool
    decreases s.len() + 1 - i,
{
    if i < 0 || i >= s.len() {
        false
    } else if s[i] == '\\' {
        tex_from(s, i + 2, saw)
    } else if s[i] == '$' {
        saw || (i + 1 < s.len() && s[i + 1] == '$') || tex_from(s, i + 1, true)
    } else {
        tex_from(s, i + 1, saw)
    }
}

/// Whether TeX delimiters stand in `s`.
pub fn contains_tex_delimiters(s: &[char]) -> (r: bool)
    ensures
        r == tex_from(s@, 0, false),
{
    let mut i: usize = 0;
    let mut saw: bool = false;
    while i < s.len()
        invariant
            i <= s@.len(),
            tex_from(s@, 0, false) == tex_from(s@, i as int, saw),
        decreases s.len() - i,
    {
        if s[i] == '\\' {
            if s.len() - i < 2 {
                assert(!tex_from(s@, i + 2, saw));
                return false;
            }
            i += 2;
        } else if s[i] == '$' {
            if saw || (i + 1 < s.len() && s[i + 1] == '$') {
                return true;
            }
            saw = true;
            i += 1;
        } else {
            i += 1;
        }
    }
    false
}

/// The position behind the code span that begins at `i`: backticks, and the next backticks of
/// the same number.
pub open spec fn code_span_end(s: Seq<char>, i: int) -> Option<int> {
    if i < 0 || i >= s.len() || s[i] != '`' {
        None
    } else {
        let n = lead(s.skip(i), CharClass::Only('`'));
        match backticks_from(s, i + n, n) {
            Some(p) => Some(p + n),
            None => None,
        }
    }
}

/// A code span is not empty and ends in the text.
pub proof fn lemma_code_span_end(s: Seq<char>, i: int)
    ensures
        code_span_end(s, i) matches Some(e) ==> i < e <= s.len(),
{
    if 0 <= i < s.len() && s[i] == '`' {
        let n = lead(s.skip(i), CharClass::Only('`'));
        assert(s.skip(i)[0] == s[i]);
        lemma_lead(s.skip(i), CharClass::Only('`'));
        lemma_backticks_from(s, i + n, n);
    }
}

/// The position behind the code span that begins at `i`.
pub fn find_code_span_end(s: &[char], i: usize) -> (r: Option<usize>)
    requires
        i <= s@.len(),
    ensures
        match code_span_end(s@, i as int) {
            Some(e) => r is Some && r->0 == e && i < e <= s@.len(),
            None => r is None,
        },
{
    proof {
        lemma_code_span_end(s@, i as int);
    }
    match backtick_run_len(s, i) {
        None => None,
        Some(n) => {
            assert(i + n <= s.len());
            assert(s@.skip(i as int)[0] == s@[i as int]);
            proof {
                lemma_lead(s@.skip(i as int), CharClass::Only('`'));
            }
            match find_matching_backtick_run(s, i + n, n) {
                Some(p) => Some(p + n),
                None => None,
            }
        },
    }
}

/// Whether a tag of mathematics stands in `s` from `i` on, outside code spans.
pub open spec fn math_from(s: Seq<char>, i: int) -> bool
    decreases s.len() - i,
    via math_from_decreases
{
    if i < 0 || i >= s.len() {
        false
    } else {
        match code_span_end(s, i) {
            Some(e) => math_from(s, e),
            None => (html_tag(s, i) matches Some(tag) && tag.kind != HtmlTagKind::Special
                && excluded(tag.name)) || math_from(s, i + 1),
        }
    }
}

#[via_fn]
proof fn math_from_decreases(s: Seq<char>, i: int) {
    lemma_code_span_end(s, i);
}

/// Whether a tag of mathematics stands in `s` outside code spans.
pub fn contains_excluded_math_tags(s: &[char]) -> (r: bool)
    ensures
        r == math_from(s@, 0),
{
    let mut i: usize = 0;
    while i < s.len()
        invariant
            i <= s@.len(),
            math_from(s@, 0) == math_from(s@, i as int),
        decreases s.len() - i,
    {
        match find_code_span_end(s, i) {
            Some(e) => {
                i = e;
            },
            None => {
                if let Some(tag) = parse_html_tag(s, i) {
                    if tag.kind != HtmlTagKind::Special && is_html_excluded(tag.name) {
                        return true;
                    }
                }
                i += 1;
            },
        }
    }
    false
}

/// The position behind the HTML fragment at `start` that may be converted: an element of the
/// allowlist, whole, without mathematics in it.
pub open spec fn fragment_end(s: Seq<char>, start: int) -> Option<int> {
    match html_tag(s, start) {
        None => None,
        Some(tag) => {
            let end = if tag.self_closing || void_element(tag.name) {
                Some(tag.end)
            } else {
                element_end(s, start, tag.name)
            };
            if tag.kind != HtmlTagKind::Opening || !allowlisted(tag.name) || excluded(tag.name) {
                None
            } else if end is None || tex_from(s.subrange(start, end->0), 0, false) || math_from(
                s.subrange(start, end->0),
                0,
            ) {
                None
            } else {
                end
            }
        },
    }
}

/// A fragment is not empty and ends in the text.
pub proof fn lemma_fragment_end(s: Seq<char>, start: int)
    ensures
        fragment_end(s, start) matches Some(e) ==> start < e <= s.len(),
{
    lemma_html_tag(s, start);
    match html_tag(s, start) {
        None => {},
        Some(tag) => lemma_region_end(s, tag.end, seq![lower(tag.name)]),
    }
}

/// The position behind the HTML fragment at `start` that may be converted.
pub fn extract_html_fragment(s: &[char], start: usize) -> (r: Option<usize>)
    ensures
        match fragment_end(s@, start as int) {
            Some(e) => r is Some && r->0 == e && start < e <= s@.len(),
            None => r is None,
        },
{
    match parse_html_tag(s, start) {
        None => None,
        Some(tag) => {
            if tag.kind != HtmlTagKind::Opening {
                return None;
            }
            if !is_html_allowlisted(tag.name) || is_html_excluded(tag.name) {
                return None;
            }
            let end = if tag.self_closing || is_html_void(tag.name) {
                tag.end
            } else {
                match find_html_region_end(s, start, tag.name) {
                    Some(e) => e,
                    None => {
                        return None;
                    },
                }
            };
            let fragment = vstd::slice::slice_subrange(s, start, end);
            if contains_tex_delimiters(fragment) || contains_excluded_math_tags(fragment) {
                return None;
            }
            Some(end)
        },
    }
}

// ---- Laws ----

/// Whether `c` may stand in the name of a tag.
pub open spec fn is_name_char(c: char) -> bool {
    'a' <= c <= 'z' || 'A' <= c <= 'Z' || '0' <= c <= '9' || c == '-' || c == ':' || c == '_'
}

/// Whether a `/` stands before the `>` of the tag from `start` to `end`, with nothing but white
/// space between them.
pub open spec fn slash_before_end(s: Seq<char>, start: int, end: int) -> bool {
    exists|k: int|
        start <= k < end - 1 && #[trigger] s[k] == '/' && forall|j: int|
            k < j < end - 1 ==> is_ascii_space(#[trigger] s[j])
}

/// A tag is opened by `<`, and its name is what follows as far as names go; with a `/` before the
/// name it closes an element. It closes itself if a `/` stands before its end. A comment, a
/// declaration or an instruction has no name.
pub proof fn law_tags_are_told_apart(s: Seq<char>, start: int, from: int, n: int, end: int)
    requires
        0 <= start < s.len(),
        s[start] == '<',
        tag_end(s, start) == Some(end),
        from == if s[start + 1] == '/' {
            start + 2
        } else {
            start + 1
        },
        0 <= n,
        from + n <= s.len(),
        forall|j: int| from <= j < from + n ==> is_name_char(#[trigger] s[j]),
        from + n < s.len() ==> !is_name_char(s[from + n]),
    ensures
        ({
            let special = s[start + 1] == '!' || s[start + 1] == '?';
            let closing = s[start + 1] == '/';
            &&& special ==> html_tag(s, start) == Some(
                Tag { name: Seq::empty(), kind: HtmlTagKind::Special, end, self_closing: false },
            )
            &&& !special && n == 0 ==> html_tag(s, start) is None
            &&& !special && n > 0 && closing ==> html_tag(s, start) == Some(
                Tag {
                    name: s.subrange(from, from + n),
                    kind: HtmlTagKind::Closing,
                    end,
                    self_closing: false,
                },
            )
            &&& !special && n > 0 && !closing ==> html_tag(s, start) == Some(
                Tag {
                    name: s.subrange(from, from + n),
                    kind: HtmlTagKind::Opening,
                    end,
                    self_closing: slash_before_end(s, start, end),
                },
            )
        }),
{
    lemma_tag_end(s, start);
    let class = CharClass::TagName;
    let t = s.skip(from);
    assert forall|j: int| 0 <= j < n implies class.has(#[trigger] t[j]) by {
        assert(t[j] == s[from + j]);
    }
    if from + n < s.len() {
        assert(t[n] == s[from + n]);
    }
    lemma_lead_is(t, class, n as nat);
    lemma_self_closing(s, start, end);
}

proof fn lemma_self_closing(s: Seq<char>, start: int, end: int)
    requires
        0 <= start < end - 1,
        end <= s.len(),
        s[start] == '<',
    ensures
        self_closing(s, start, end) == slash_before_end(s, start, end),
{
    let part = s.subrange(start, end - 1);
    let class = CharClass::AsciiSpace;
    lemma_trail(part, class);
    let n = trail(part, class);
    assert(part[0] == '<');
    if n == part.len() {
        assert(class.has(part[0]));
    }
    let k = end - 2 - n;
    assert(s[k] == part[part.len() - n - 1]);
    assert(trim_end(part, class).last() == s[k]);
    assert forall|j: int| k < j < end - 1 implies is_ascii_space(#[trigger] s[j]) by {
        assert(class.has(part[j - start]));
    }
    if slash_before_end(s, start, end) {
        let q = choose|q: int|
            start <= q < end - 1 && #[trigger] s[q] == '/' && forall|j: int|
                q < j < end - 1 ==> is_ascii_space(#[trigger] s[j]);
        if q < k {
            assert(is_ascii_space(s[k]));
        } else if k < q {
            assert(is_ascii_space(s[q]));
        }
    }
}

/// What does not begin with `<`, or is not closed, is no tag.
pub proof fn law_no_tag_without_brackets(s: Seq<char>, start: int)
    requires
        start < 0 || start >= s.len() || s[start] != '<' || tag_end(s, start) is None,
    ensures
        html_tag(s, start) is None,
{
}

/// Whether `p` is the first place at or behind `i` where a tag is that opens or closes an element,
/// and `tag` that tag; what comments and the like hold does not count.
pub open spec fn next_tag(s: Seq<char>, i: int, p: int, tag: Tag) -> bool
    decreases p - i,
{
    0 <= i <= p && if i == p {
        html_tag(s, i) == Some(tag) && tag.kind != HtmlTagKind::Special
    } else {
        match html_tag(s, i) {
            None => next_tag(s, i + 1, p, tag),
            Some(other) => other.kind == HtmlTagKind::Special && i < other.end <= p && next_tag(
                s,
                other.end,
                p,
                tag,
            ),
        }
    }
}

proof fn lemma_next_tag(s: Seq<char>, i: int, p: int, tag: Tag, open: Seq<Seq<char>>)
    requires
        next_tag(s, i, p, tag),
    ensures
        region_end(s, i, open) == region_end(s, p, open),
        0 <= p < s.len(),
        html_tag(s, p) == Some(tag),
    decreases p - i,
{
    if i < p {
        match html_tag(s, i) {
            None => {
                lemma_next_tag(s, i + 1, p, tag, open);
            },
            Some(other) => {
                lemma_next_tag(s, other.end, p, tag, open);
            },
        }
    }
}

/// Elements stand in one another: while `open` elements are open besides the innermost, `name`, all
/// goes on behind its end as it would with them alone.
proof fn lemma_inner_first(s: Seq<char>, i: int, open: Seq<Seq<char>>, inner: Seq<Seq<char>>)
    requires
        open.len() > 0,
        inner.len() > 0,
    ensures
        region_end(s, i, open + inner) == match region_end(s, i, inner) {
            Some(e) => region_end(s, e, open),
            None => None,
        },
    decreases s.len() - i,
{
    let both = open + inner;
    lemma_html_tag(s, i);
    if 0 <= i < s.len() {
        match html_tag(s, i) {
            None => {
                lemma_inner_first(s, i + 1, open, inner);
            },
            Some(tag) => match tag.kind {
                HtmlTagKind::Special => {
                    lemma_inner_first(s, tag.end, open, inner);
                },
                HtmlTagKind::Closing => {
                    assert(both.last() == inner.last());
                    if inner.last() == lower(tag.name) {
                        if inner.len() == 1 {
                            assert(both.drop_last() =~= open);
                        } else {
                            assert(both.drop_last() =~= open + inner.drop_last());
                            lemma_inner_first(s, tag.end, open, inner.drop_last());
                        }
                    }
                },
                HtmlTagKind::Opening => {
                    if tag.self_closing || void_element(tag.name) {
                        lemma_inner_first(s, tag.end, open, inner);
                    } else {
                        assert(both.push(lower(tag.name)) =~= open + inner.push(lower(tag.name)));
                        lemma_inner_first(s, tag.end, open, inner.push(lower(tag.name)));
                    }
                },
            },
        }
    }
}

/// An element ends with the next tag if that closes it, by the same name in any case; if that
/// closes another one, it has no end. An element that begins inside is passed over as a whole, and
/// if it has no end there is none; one without content is passed over too.
pub proof fn law_elements_end_with_their_own_tag(
    s: Seq<char>,
    i: int,
    name: Seq<char>,
    p: int,
    tag: Tag,
)
    requires
        next_tag(s, i, p, tag),
    ensures
        ({
            let here = region_end(s, i, seq![name]);
            &&& tag.kind is Closing && lower(tag.name) == name ==> here == Some(tag.end)
            &&& tag.kind is Closing && lower(tag.name) != name ==> here is None
            &&& tag.kind is Opening && (tag.self_closing || void_element(tag.name)) ==> here
                == region_end(s, tag.end, seq![name])
            &&& tag.kind is Opening && !tag.self_closing && !void_element(tag.name) ==> here
                == match region_end(s, tag.end, seq![lower(tag.name)]) {
                Some(e) => region_end(s, e, seq![name]),
                None => None,
            }
        }),
{
    let one = seq![name];
    lemma_next_tag(s, i, p, tag, one);
    if tag.kind is Opening && !tag.self_closing && !void_element(tag.name) {
        lemma_inner_first(s, tag.end, one, seq![lower(tag.name)]);
        assert(one.push(lower(tag.name)) =~= one + seq![lower(tag.name)]);
    }
}

/// Text without a tag ends no element.
pub proof fn law_no_tag_no_end(s: Seq<char>, i: int, open: Seq<Seq<char>>)
    requires
        0 <= i,
        forall|j: int| i <= j < s.len() ==> html_tag(s, j) is None,
    ensures
        region_end(s, i, open) is None,
    decreases s.len() - i,
{
    if i < s.len() {
        assert(html_tag(s, i) is None);
        law_no_tag_no_end(s, i + 1, open);
    }
}

/// The names of the elements that may be converted.
pub open spec fn convertible_names() -> Seq<Seq<char>> {
    seq![
        "img"@, "a"@, "p"@, "div"@, "span"@, "br"@, "hr"@, "h1"@, "h2"@, "h3"@, "h4"@, "h5"@,
        "h6"@, "ul"@, "ol"@, "li"@, "blockquote"@, "table"@, "thead"@, "tbody"@, "tfoot"@,
        "tr"@, "th"@, "td"@, "strong"@, "b"@, "em"@, "i"@, "u"@, "s"@, "del"@, "pre"@, "code"@,
    ]
}

/// The names of the elements that have no content.
pub open spec fn empty_names() -> Seq<Seq<char>> {
    seq![
        "area"@, "base"@, "br"@, "col"@, "embed"@, "hr"@, "img"@, "input"@, "link"@, "meta"@,
        "param"@, "source"@, "track"@, "wbr"@,
    ]
}


/// The names of elements count in any case. Those that may be converted, those of mathematics, and
/// those without content are the ones listed, and no others.
pub proof fn law_elements_are_known_by_name(name: Seq<char>)
    ensures
        allowlisted(name) <==> convertible_names().contains(lower(name)),
        void_element(name) <==> empty_names().contains(lower(name)),
        excluded(name) <==> seq!["math"@, "sub"@, "sup"@].contains(lower(name)),
{
    assert(convertible_names()[0] == "img"@);
    assert(convertible_names()[1] == "a"@);
    assert(convertible_names()[2] == "p"@);
    assert(convertible_names()[3] == "div"@);
    assert(convertible_names()[4] == "span"@);
    assert(convertible_names()[5] == "br"@);
    assert(convertible_names()[6] == "hr"@);
    assert(convertible_names()[7] == "h1"@);
    assert(convertible_names()[8] == "h2"@);
    assert(convertible_names()[9] == "h3"@);
    assert(convertible_names()[10] == "h4"@);
    assert(convertible_names()[11] == "h5"@);
    assert(convertible_names()[12] == "h6"@);
    assert(convertible_names()[13] == "ul"@);
    assert(convertible_names()[14] == "ol"@);
    assert(convertible_names()[15] == "li"@);
    assert(convertible_names()[16] == "blockquote"@);
    assert(convertible_names()[17] == "table"@);
    assert(convertible_names()[18] == "thead"@);
    assert(convertible_names()[19] == "tbody"@);
    assert(convertible_names()[20] == "tfoot"@);
    assert(convertible_names()[21] == "tr"@);
    assert(convertible_names()[22] == "th"@);
    assert(convertible_names()[23] == "td"@);
    assert(convertible_names()[24] == "strong"@);
    assert(convertible_names()[25] == "b"@);
    assert(convertible_names()[26] == "em"@);
    assert(convertible_names()[27] == "i"@);
    assert(convertible_names()[28] == "u"@);
    assert(convertible_names()[29] == "s"@);
    assert(convertible_names()[30] == "del"@);
    assert(convertible_names()[31] == "pre"@);
    assert(convertible_names()[32] == "code"@);
    assert(empty_names()[0] == "area"@);
    assert(empty_names()[1] == "base"@);
    assert(empty_names()[2] == "br"@);
    assert(empty_names()[3] == "col"@);
    assert(empty_names()[4] == "embed"@);
    assert(empty_names()[5] == "hr"@);
    assert(empty_names()[6] == "img"@);
    assert(empty_names()[7] == "input"@);
    assert(empty_names()[8] == "link"@);
    assert(empty_names()[9] == "meta"@);
    assert(empty_names()[10] == "param"@);
    assert(empty_names()[11] == "source"@);
    assert(empty_names()[12] == "track"@);
    assert(empty_names()[13] == "wbr"@);
    let math = seq!["math"@, "sub"@, "sup"@];
    assert(math[0] == "math"@ && math[1] == "sub"@ && math[2] == "sup"@);
}

proof fn lemma_tex_behind(a: Seq<char>, s: Seq<char>, i: int, saw: bool)
    requires
        0 <= i,
    ensures
        tex_from(a + s, a.len() + i, saw) == tex_from(s, i, saw),
    decreases s.len() + 1 - i,
{
    if i < s.len() {
        let all = a + s;
        assert(all[a.len() + i] == s[i]);
        if i + 1 < s.len() {
            assert(all[a.len() + i + 1] == s[i + 1]);
        }
        if s[i] == '\\' {
            lemma_tex_behind(a, s, i + 2, saw);
        } else if s[i] == '$' {
            lemma_tex_behind(a, s, i + 1, true);
        } else {
            lemma_tex_behind(a, s, i + 1, saw);
        }
    }
}

proof fn lemma_tex_saw(s: Seq<char>, i: int)
    ensures
        tex_from(s, i, false) ==> tex_from(s, i, true),
    decreases s.len() + 1 - i,
{
    if 0 <= i < s.len() {
        if s[i] == '\\' {
            lemma_tex_saw(s, i + 2);
        } else if s[i] != '$' {
            lemma_tex_saw(s, i + 1);
        }
    }
}

/// How TeX delimiters are looked for in `s` behind `a`, which has no backslash.
proof fn lemma_tex_front(a: Seq<char>, s: Seq<char>, saw: bool)
    requires
        !a.contains('\\'),
    ensures
        tex_from(a + s, 0, saw) <==> (exists|i: int, j: int|
            0 <= i < j < a.len() && #[trigger] a[i] == '$' && #[trigger] a[j] == '$') || (saw
            && a.contains('$')) || tex_from(s, 0, saw || a.contains('$')),
    decreases a.len(),
{
    if a.len() == 0 {
        assert(a + s =~= s);
    } else {
        let rest = a.skip(1);
        let one = seq![a[0]];
        assert(a.contains(a[0]));
        assert(a + s =~= one + (rest + s));
        assert((a + s)[0] == a[0]);
        lemma_tex_behind(one, rest + s, 0, saw);
        lemma_tex_behind(one, rest + s, 0, true);
        assert(!rest.contains('\\')) by {
            if rest.contains('\\') {
                let j = choose|j: int| 0 <= j < rest.len() && rest[j] == '\\';
                assert(a[j + 1] == '\\');
            }
        }
        let two = exists|i: int, j: int|
            0 <= i < j < a.len() && #[trigger] a[i] == '$' && #[trigger] a[j] == '$';
        let two_behind = exists|i: int, j: int|
            0 <= i < j < rest.len() && #[trigger] rest[i] == '$' && #[trigger] rest[j] == '$';
        assert(two == (two_behind || (a[0] == '$' && rest.contains('$')))) by {
            if two {
                let (i, j) = choose|i: int, j: int|
                    0 <= i < j < a.len() && #[trigger] a[i] == '$' && #[trigger] a[j] == '$';
                assert(rest[j - 1] == '$');
                if i > 0 {
                    assert(rest[i - 1] == '$');
                }
            }
            if two_behind {
                let (i, j) = choose|i: int, j: int|
                    0 <= i < j < rest.len() && #[trigger] rest[i] == '$' && #[trigger] rest[j]
                        == '$';
                assert(a[i + 1] == '$' && a[j + 1] == '$');
            }
            if a[0] == '$' && rest.contains('$') {
                let j = choose|j: int| 0 <= j < rest.len() && rest[j] == '$';
                assert(a[j + 1] == '$');
            }
        }
        assert(a.contains('$') == (a[0] == '$' || rest.contains('$'))) by {
            if a.contains('$') {
                let j = choose|j: int| 0 <= j < a.len() && a[j] == '$';
                if j > 0 {
                    assert(rest[j - 1] == '$');
                }
            }
            if rest.contains('$') {
                let j = choose|j: int| 0 <= j < rest.len() && rest[j] == '$';
                assert(a[j + 1] == '$');
            }
        }
        if a[0] == '$' {
            lemma_tex_front(rest, s, true);
            if (a + s).len() > 1 && (a + s)[1] == '$' {
                assert((rest + s)[0] == '$');
                if rest.len() > 0 {
                    assert(rest[0] == '$');
                    assert(rest.contains('$'));
                } else {
                    assert(rest + s =~= s);
                }
            }
            if saw {
                lemma_tex_saw(s, 0);
            }
        } else {
            lemma_tex_front(rest, s, saw);
        }
    }
}

/// Two dollar signs are TeX delimiters, wherever they stand; one that stands behind a backslash
/// does not count, nor does a second backslash hide one.
pub proof fn law_two_dollar_signs_are_tex(a: Seq<char>, c: char, b: Seq<char>)
    requires
        !a.contains('\\'),
    ensures
        tex_from(a, 0, false) <==> exists|i: int, j: int|
            0 <= i < j < a.len() && #[trigger] a[i] == '$' && #[trigger] a[j] == '$',
        tex_from(a + seq!['\\', c] + b, 0, false) == tex_from(a + b, 0, false),
{
    let none = Seq::<char>::empty();
    lemma_tex_front(a, none, false);
    assert(a + none =~= a);
    let hidden = seq!['\\', c];
    lemma_tex_front(a, hidden + b, false);
    assert(a + (hidden + b) =~= a + hidden + b);
    lemma_tex_front(a, b, false);
    lemma_tex_behind(hidden, b, 0, false);
    lemma_tex_behind(hidden, b, 0, true);
    assert((hidden + b)[0] == '\\');
}

/// A code span goes from its backticks to the next of the same number; without those there is
/// none.
pub proof fn law_code_spans_end_with_as_many_backticks(s: Seq<char>, i: int, n: nat, p: int)
    requires
        0 <= i,
        n > 0,
        backticks_at(s, i, n),
        i + n < s.len() ==> s[i + n] != '`',
        i + n <= p,
        forall|q: int| i + n <= q < p ==> !#[trigger] backticks_at(s, q, n),
    ensures
        backticks_at(s, p, n) ==> code_span_end(s, i) == Some(p + n),
        p >= s.len() ==> code_span_end(s, i) is None,
{
    let class = CharClass::Only('`');
    let t = s.skip(i);
    assert forall|j: int| 0 <= j < n implies class.has(#[trigger] t[j]) by {
        assert(t[j] == s[i + j]);
    }
    if i + n < s.len() {
        assert(t[n as int] == s[i + n]);
    }
    lemma_lead_is(t, class, n);
    assert(s[i] == '`');
    law_backticks_are_found_first(s, i + n, n);
    let found = backticks_from(s, i + n, n);
    if found is Some && found->0 < p {
        assert(!backticks_at(s, found->0, n));
    }
    if backticks_at(s, p, n) {
        if found is None {
            assert(!backticks_at(s, p, n));
        } else if p < found->0 {
            assert(!backticks_at(s, p, n));
        }
    }
}

/// Whether a tag of mathematics, opening or closing, is in `s` at `i`.
pub open spec fn math_tag_at(s: Seq<char>, i: int) -> bool {
    html_tag(s, i) matches Some(tag) && tag.kind != HtmlTagKind::Special && (lower(tag.name)
        == "math"@ || lower(tag.name) == "sub"@ || lower(tag.name) == "sup"@)
}

/// Mathematics is where a tag of it is, opening or closing, outside code spans.
pub proof fn law_mathematics_is_known_by_its_tags(s: Seq<char>, i: int, p: int)
    requires
        0 <= i <= p <= s.len(),
        forall|j: int| i <= j < p ==> #[trigger] code_span_end(s, j) is None,
    ensures
        (exists|j: int| i <= j < p && #[trigger] math_tag_at(s, j)) ==> math_from(s, i),
        (forall|j: int| i <= j < p ==> !#[trigger] math_tag_at(s, j)) ==> math_from(s, i)
            == math_from(s, p),
        p == s.len() ==> !math_from(s, p),
        p < s.len() && code_span_end(s, p) is Some ==> math_from(s, p) == math_from(
            s,
            code_span_end(s, p)->0,
        ),
    decreases p - i,
{
    if i < p {
        assert(code_span_end(s, i) is None);
        law_mathematics_is_known_by_its_tags(s, i + 1, p);
        if math_tag_at(s, i) {
            assert(math_from(s, i));
        }
    }
}

/// What may be converted is a whole element of the list, or one without content or that closes
/// itself, in which there is neither TeX nor mathematics; nothing else is.
pub proof fn law_whole_elements_may_be_converted(s: Seq<char>, start: int, end: int)
    ensures
        fragment_end(s, start) == Some(end) <==> {
            &&& html_tag(s, start) matches Some(tag) && tag.kind is Opening
                && convertible_names().contains(lower(tag.name)) && (if tag.self_closing
                || empty_names().contains(lower(tag.name)) {
                end == tag.end
            } else {
                region_end(s, tag.end, seq![lower(tag.name)]) == Some(end)
            })
            &&& !tex_from(s.subrange(start, end), 0, false)
            &&& !math_from(s.subrange(start, end), 0)
        },
{
    if html_tag(s, start) is Some {
        let tag = html_tag(s, start)->0;
        law_elements_are_known_by_name(tag.name);
        if allowlisted(tag.name) {
            lemma_not_excluded(tag.name);
        }
    }
}

proof fn lemma_not_excluded(name: Seq<char>)
    requires
        allowlisted(name),
    ensures
        !excluded(name),
{
    reveal_strlit("math");
    reveal_strlit("sub");
    reveal_strlit("sup");
    if lower(name) == "math"@ {
        lemma_not_math(name);
    }
    if lower(name) == "sub"@ || lower(name) == "sup"@ {
        lemma_not_sub(name);
    }
}

proof fn lemma_not_math(name: Seq<char>)
    requires
        lower(name) == "math"@,
    ensures
        !allowlisted(name),
{
    reveal_strlit("img");
    reveal_strlit("a");
    reveal_strlit("p");
    reveal_strlit("div");
    reveal_strlit("span");
    reveal_strlit("br");
    reveal_strlit("hr");
    reveal_strlit("h1");
    reveal_strlit("h2");
    reveal_strlit("h3");
    reveal_strlit("h4");
    reveal_strlit("h5");
    reveal_strlit("h6");
    reveal_strlit("ul");
    reveal_strlit("ol");
    reveal_strlit("li");
    reveal_strlit("blockquote");
    reveal_strlit("table");
    reveal_strlit("thead");
    reveal_strlit("tbody");
    reveal_strlit("tfoot");
    reveal_strlit("tr");
    reveal_strlit("th");
    reveal_strlit("td");
    reveal_strlit("strong");
    reveal_strlit("b");
    reveal_strlit("em");
    reveal_strlit("i");
    reveal_strlit("u");
    reveal_strlit("s");
    reveal_strlit("del");
    reveal_strlit("pre");
    reveal_strlit("code");
    reveal_strlit("math");
    assert("math"@.len() == 4);
    assert("span"@[0] != 'm');
    assert("code"@[0] != 'm');
}

proof fn lemma_not_sub(name: Seq<char>)
    requires
        lower(name) == "sub"@ || lower(name) == "sup"@,
    ensures
        !allowlisted(name),
{
    reveal_strlit("img");
    reveal_strlit("a");
    reveal_strlit("p");
    reveal_strlit("div");
    reveal_strlit("span");
    reveal_strlit("br");
    reveal_strlit("hr");
    reveal_strlit("h1");
    reveal_strlit("h2");
    reveal_strlit("h3");
    reveal_strlit("h4");
    reveal_strlit("h5");
    reveal_strlit("h6");
    reveal_strlit("ul");
    reveal_strlit("ol");
    reveal_strlit("li");
    reveal_strlit("blockquote");
    reveal_strlit("table");
    reveal_strlit("thead");
    reveal_strlit("tbody");
    reveal_strlit("tfoot");
    reveal_strlit("tr");
    reveal_strlit("th");
    reveal_strlit("td");
    reveal_strlit("strong");
    reveal_strlit("b");
    reveal_strlit("em");
    reveal_strlit("i");
    reveal_strlit("u");
    reveal_strlit("s");
    reveal_strlit("del");
    reveal_strlit("pre");
    reveal_strlit("code");
    reveal_strlit("sub");
    reveal_strlit("sup");
    assert(lower(name).len() == 3);
    assert("img"@[0] != 's');
    assert("div"@[0] != 's');
    assert("del"@[0] != 's');
    assert("pre"@[0] != 's');
}

} // verus!
