//! The text of a table cell: its HTML without tags, with its character references decoded.

use vstd::prelude::*;
use vstd::utf8::is_scalar;

use crate::number::{decimal, law_decimals_are_digits, parse_unsigned, read_unsigned};
use crate::scan::{
    find_tag_end, law_tags_end_outside_quotations, lemma_tag_close_behind, lemma_tag_end,
    matters_in_tag, tag_end,
};
use crate::text::{
    copy_of, has_prefix, lead, lead_len, lemma_lead, lemma_lead_is, lower, lowered, push_all, spells,
    starts_with, trim, trimmed, CharClass,
};

verus! {

/// `char::from_u32` of std: the character with the scalar value `i`, if `i` is one.
pub assume_specification[ char::from_u32 ](i: u32) -> (r: Option<char>)
    ensures
        r == (if is_scalar(i) {
            Some(i as char)
        } else {
            None
        }),
;

/// The character that a numeric character reference stands for.
pub open spec fn scalar_text(value: Option<nat>) -> Option<Seq<char>> {
    match value {
        Some(v) => if is_scalar(v as u32) {
            Some(seq![v as u32 as char])
        } else {
            None
        },
        None => None,
    }
}

/// What a character reference stands for, its `&` and `;` included: `&amp;`, `&lt;`, `&gt;`,
/// `&quot;`, or the number of a character in hexadecimal (`&#x27;`) or decimal (`&#39;`).
pub open spec fn reference_text(r: Seq<char>) -> Option<Seq<char>> {
    if r == "&amp;"@ {
        Some("&"@)
    } else if r == "&lt;"@ {
        Some("<"@)
    } else if r == "&gt;"@ {
        Some(">"@)
    } else if r == "&quot;"@ {
        Some("\""@)
    } else if has_prefix(r, "&#x"@) || has_prefix(r, "&#X"@) {
        scalar_text(parse_unsigned(r.subrange(3, r.len() - 1), 16, u32::MAX as nat))
    } else if has_prefix(r, "&#"@) {
        scalar_text(parse_unsigned(r.subrange(2, r.len() - 1), 10, u32::MAX as nat))
    } else {
        None
    }
}

/// The character reference that ends at the first semicolon of `s`: what it stands for, and
/// how many characters it takes.
pub open spec fn decode_entity(s: Seq<char>) -> Option<(Seq<char>, nat)> {
    let end = lead(s, CharClass::Except(';'));
    if end >= s.len() {
        None
    } else {
        match reference_text(s.take(end as int + 1)) {
            Some(text) => Some((text, end + 1)),
            None => None,
        }
    }
}

fn scalar_of(value: Option<u64>) -> (r: Option<Vec<char>>)
    requires
        value is Some ==> value->0 <= u32::MAX,
    ensures
        match value {
            Some(v) => match scalar_text(Some(v as nat)) {
                Some(text) => r is Some && r->0@ == text,
                None => r is None,
            },
            None => r is None,
        },
{
    match value {
        Some(v) => match char::from_u32(v as u32) {
            Some(c) => {
                let mut out: Vec<char> = Vec::new();
                out.push(c);
                assert(out@ =~= seq![c]);
                Some(out)
            },
            None => None,
        },
        None => None,
    }
}

fn text_of_str(s: &str) -> (r: Option<Vec<char>>)
    ensures
        r is Some && r->0@ == s@,
{
    Some(crate::text::chars_of(s))
}

/// What the character reference `r` stands for.
fn reference_of(r: &[char]) -> (out: Option<Vec<char>>)
    requires
        r@.len() > 0,
        r@.last() == ';',
    ensures
        match reference_text(r@) {
            Some(text) => out is Some && out->0@ == text,
            None => out is None,
        },
{
    proof {
        reveal_strlit("&#x");
        reveal_strlit("&#X");
        reveal_strlit("&#");
    }
    let end = r.len() - 1;
    if spells(r, "&amp;") {
        text_of_str("&")
    } else if spells(r, "&lt;") {
        text_of_str("<")
    } else if spells(r, "&gt;") {
        text_of_str(">")
    } else if spells(r, "&quot;") {
        text_of_str("\"")
    } else if starts_with(r, "&#x") || starts_with(r, "&#X") {
        assert(r@.subrange(0, 3)[2] == r@[2]);
        scalar_of(read_unsigned(vstd::slice::slice_subrange(r, 3, end), 16, u32::MAX as u64))
    } else if starts_with(r, "&#") {
        assert(r@.subrange(0, 2)[1] == r@[1]);
        scalar_of(read_unsigned(vstd::slice::slice_subrange(r, 2, end), 10, u32::MAX as u64))
    } else {
        None
    }
}

/// Decodes the character reference that ends at the first semicolon behind `at`.
pub fn decode_html_entity(s: &[char], at: usize) -> (r: Option<(Vec<char>, usize)>)
    requires
        at <= s@.len(),
    ensures
        match decode_entity(s@.skip(at as int)) {
            Some((text, n)) => r is Some && (r->0).0@ == text && (r->0).1 == n && n > 0 && at + n
                <= s@.len(),
            None => r is None,
        },
{
    let n = lead_len(s, at, CharClass::Except(';'));
    if n == s.len() - at {
        return None;
    }
    let reference = vstd::slice::slice_subrange(s, at, at + n + 1);
    proof {
        let rest = s@.skip(at as int);
        lemma_lead(rest, CharClass::Except(';'));
        assert(reference@ =~= rest.take(n + 1));
        assert(reference@.last() == rest[n as int]);
    }
    match reference_of(reference) {
        Some(text) => Some((text, n + 1)),
        None => None,
    }
}

/// Whether a tag breaks the line: `<br>`, and the start or end of a paragraph, a division,
/// a row or a cell. `tag` is what stands between the angle brackets.
pub open spec fn breaks_line(tag: Seq<char>) -> bool {
    let t = lower(trim(tag, CharClass::Space));
    ||| has_prefix(t, "br"@)
    ||| has_prefix(t, "/p"@)
    ||| has_prefix(t, "/div"@)
    ||| has_prefix(t, "/tr"@)
    ||| has_prefix(t, "/td"@)
    ||| has_prefix(t, "/th"@)
    ||| has_prefix(t, "p"@)
    ||| has_prefix(t, "div"@)
}

fn line_breaking(tag: &[char]) -> (r: bool)
    ensures
        r == breaks_line(tag@),
{
    let t = lowered(trimmed(tag, CharClass::Space));
    starts_with(&t, "br") || starts_with(&t, "/p") || starts_with(&t, "/div") || starts_with(
        &t,
        "/tr",
    ) || starts_with(&t, "/td") || starts_with(&t, "/th") || starts_with(&t, "p") || starts_with(
        &t,
        "div",
    )
}

/// The text of the HTML `s` from `pos` on: a tag gives a line feed or nothing, a character
/// reference the character it stands for; a tag that is not closed ends the text.
pub open spec fn text_from(s: Seq<char>, pos: int) -> Seq<char>
    decreases s.len() - pos,
    via text_from_decreases
{
    if pos < 0 || pos >= s.len() {
        Seq::empty()
    } else if s[pos] == '<' {
        match tag_end(s, pos) {
            Some(end) => (if breaks_line(s.subrange(pos + 1, end - 1)) {
                seq!['\n']
            } else {
                Seq::empty()
            }) + text_from(s, end),
            None => Seq::empty(),
        }
    } else if s[pos] == '&' && decode_entity(s.skip(pos)) is Some {
        let (decoded, n) = decode_entity(s.skip(pos))->0;
        decoded + text_from(s, pos + n)
    } else {
        seq![s[pos]] + text_from(s, pos + 1)
    }
}

#[via_fn]
proof fn text_from_decreases(s: Seq<char>, pos: int) {
    lemma_tag_end(s, pos);
}

/// The text does not depend on what stands before.
proof fn lemma_text_behind(a: Seq<char>, s: Seq<char>, pos: int)
    requires
        0 <= pos,
    ensures
        text_from(a + s, a.len() + pos) == text_from(s, pos),
    decreases s.len() - pos,
{
    if pos < s.len() {
        let all = a + s;
        let at = a.len() + pos;
        assert(all[at] == s[pos]);
        lemma_tag_end(s, pos);
        lemma_tag_close_behind(a, s, pos + 1, None);
        assert(all.skip(at) =~= s.skip(pos));
        if s[pos] == '<' {
            if tag_end(s, pos) is Some {
                let end = tag_end(s, pos)->0;
                assert(all.subrange(at + 1, a.len() + end - 1) =~= s.subrange(pos + 1, end - 1));
                lemma_text_behind(a, s, end);
            }
        } else if s[pos] == '&' && decode_entity(s.skip(pos)) is Some {
            let n = (decode_entity(s.skip(pos))->0).1;
            lemma_text_behind(a, s, pos + n);
        } else {
            lemma_text_behind(a, s, pos + 1);
        }
    }
}

/// Text outside tags and character references stays as it is.
pub proof fn law_plain_text_stays(plain: Seq<char>, rest: Seq<char>)
    requires
        forall|j: int| 0 <= j < plain.len() ==> #[trigger] plain[j] != '<' && plain[j] != '&',
    ensures
        text_from(plain + rest, 0) == plain + text_from(rest, 0),
    decreases plain.len(),
{
    if plain.len() == 0 {
        assert(plain + rest =~= rest);
        assert(plain + text_from(rest, 0) =~= text_from(rest, 0));
    } else {
        let one = seq![plain[0]];
        let behind = plain.skip(1) + rest;
        assert(plain + rest =~= one + behind);
        assert((plain + rest)[0] == plain[0]);
        lemma_text_behind(one, behind, 0);
        law_plain_text_stays(plain.skip(1), rest);
        assert(one + (plain.skip(1) + text_from(rest, 0)) =~= plain + text_from(rest, 0));
    }
}

/// A tag is not part of the text. `<br>` and the tags that begin or end a paragraph or a division,
/// or end a row or a cell, break the line; other tags leave nothing. A tag that is not closed ends
/// the text.
pub proof fn law_tags_are_taken_out(body: Seq<char>, rest: Seq<char>)
    requires
        forall|j: int| 0 <= j < body.len() ==> !matters_in_tag(#[trigger] body[j]),
    ensures
        text_from(seq!['<'] + body, 0) == Seq::<char>::empty(),
        ({
            let name = lower(trim(body, CharClass::Space));
            let feeds = has_prefix(name, "br"@) || has_prefix(name, "p"@) || has_prefix(name, "/p"@)
                || has_prefix(name, "div"@) || has_prefix(name, "/div"@) || has_prefix(
                name,
                "/tr"@,
            ) || has_prefix(name, "/td"@) || has_prefix(name, "/th"@);
            text_from(seq!['<'] + body + seq!['>'] + rest, 0) == if feeds {
                seq!['\n'] + text_from(rest, 0)
            } else {
                text_from(rest, 0)
            }
        }),
{
    let open = seq!['<'] + body;
    assert forall|j: int| 1 <= j < open.len() implies !matters_in_tag(#[trigger] open[j]) by {
        assert(open[j] == body[j - 1]);
    }
    law_tags_end_outside_quotations(open, 1, open.len() as int, 0);
    let tag = open + seq!['>'];
    let all = tag + rest;
    let e = tag.len() as int;
    assert forall|j: int| 1 <= j < e - 1 implies !matters_in_tag(#[trigger] all[j]) by {
        assert(all[j] == body[j - 1]);
    }
    assert(all[e - 1] == '>');
    let b = first_mark_behind(all, e);
    law_tags_end_outside_quotations(all, 1, e - 1, b);
    assert(all.subrange(1, e - 1) =~= body);
    lemma_text_behind(tag, rest, 0);
    assert(Seq::<char>::empty() + text_from(rest, 0) =~= text_from(rest, 0));
}

/// The first `>` in `s` from `i` on, or the end.
proof fn first_mark_behind(s: Seq<char>, i: int) -> (b: int)
    requires
        0 <= i <= s.len(),
    ensures
        i <= b <= s.len(),
        forall|j: int| i <= j < b ==> #[trigger] s[j] != '>',
        b < s.len() ==> s[b] == '>',
    decreases s.len() - i,
{
    if i == s.len() || s[i] == '>' {
        i
    } else {
        first_mark_behind(s, i + 1)
    }
}

/// A character reference goes from `&` to the next semicolon. If it is known, it gives what it
/// stands for; if not, the `&` stays, and what stands behind it is read on.
pub proof fn law_references_are_decoded(inner: Seq<char>, rest: Seq<char>)
    requires
        !inner.contains(';'),
    ensures
        ({
            let known = reference_text(seq!['&'] + inner + seq![';']);
            text_from(seq!['&'] + inner + seq![';'] + rest, 0) == match known {
                Some(text) => text + text_from(rest, 0),
                None => seq!['&'] + text_from(inner + seq![';'] + rest, 0),
            }
        }),
        !rest.contains(';') ==> text_from(seq!['&'] + rest, 0) == seq!['&'] + text_from(rest, 0),
{
    let class = CharClass::Except(';');
    let r = seq!['&'] + inner + seq![';'];
    let all = r + rest;
    let n = 1 + inner.len();
    assert forall|j: int| 0 <= j < n implies class.has(#[trigger] all[j]) by {
        if j > 0 {
            assert(all[j] == inner[j - 1]);
            assert(inner.contains(inner[j - 1]));
        }
    }
    assert(all[n as int] == ';');
    lemma_lead_is(all, class, n);
    assert(all.skip(0) =~= all);
    assert(all.take(n as int + 1) =~= r);
    assert(all[0] == '&');
    lemma_text_behind(r, rest, 0);
    let behind = inner + seq![';'] + rest;
    assert(all =~= seq!['&'] + behind);
    lemma_text_behind(seq!['&'], behind, 0);
    if !rest.contains(';') {
        let bare = seq!['&'] + rest;
        assert forall|j: int| 0 <= j < bare.len() implies class.has(#[trigger] bare[j]) by {
            if j > 0 {
                assert(bare[j] == rest[j - 1]);
                assert(rest.contains(rest[j - 1]));
            }
        }
        lemma_lead_is(bare, class, bare.len());
        assert(bare.skip(0) =~= bare);
        lemma_text_behind(seq!['&'], rest, 0);
    }
}

/// A character may be given by its number in decimal.
pub proof fn law_characters_are_known_by_number(n: u32)
    requires
        is_scalar(n),
    ensures
        reference_text(seq!['&', '#'] + decimal(n as nat) + seq![';']) == Some(seq![n as char]),
{
    let d = decimal(n as nat);
    let r = seq!['&', '#'] + d + seq![';'];
    law_decimals_are_digits(n as nat, u32::MAX as nat);
    assert('0' <= d[0] <= '9');
    assert(r[0] == '&' && r[1] == '#' && r[2] == d[0]);
    lemma_no_name(r);
    reveal_strlit("&#x");
    reveal_strlit("&#X");
    reveal_strlit("&#");
    assert(r.subrange(0, 3)[2] == r[2]);
    assert(r.subrange(0, 2) =~= "&#"@);
    assert(r.subrange(2, r.len() - 1) =~= d);
}

/// A character may be given by its number in hexadecimal, behind an `x` in any case.
pub proof fn law_characters_are_known_by_hexadecimal_number(digits: Seq<char>, x: char, n: u32)
    requires
        is_scalar(n),
        x == 'x' || x == 'X',
        parse_unsigned(digits, 16, u32::MAX as nat) == Some(n as nat),
    ensures
        reference_text(seq!['&', '#', x] + digits + seq![';']) == Some(seq![n as char]),
{
    let r = seq!['&', '#', x] + digits + seq![';'];
    assert(r[0] == '&' && r[1] == '#' && r[2] == x);
    lemma_no_name(r);
    reveal_strlit("&#x");
    reveal_strlit("&#X");
    if x == 'x' {
        assert(r.subrange(0, 3) =~= "&#x"@);
    } else {
        assert(r.subrange(0, 3) =~= "&#X"@);
    }
    assert(r.subrange(3, r.len() - 1) =~= digits);
}

proof fn lemma_no_name(r: Seq<char>)
    requires
        r.len() > 1,
        r[1] == '#',
    ensures
        r != "&amp;"@ && r != "&lt;"@ && r != "&gt;"@ && r != "&quot;"@,
{
    reveal_strlit("&amp;");
    reveal_strlit("&lt;");
    reveal_strlit("&gt;");
    reveal_strlit("&quot;");
}

/// What a name stands for.
pub open spec fn named_character(name: Seq<char>) -> Option<char> {
    if name == "amp"@ {
        Some('&')
    } else if name == "lt"@ {
        Some('<')
    } else if name == "gt"@ {
        Some('>')
    } else if name == "quot"@ {
        Some('"')
    } else {
        None
    }
}

/// Four characters may be given by name, and no others.
pub proof fn law_four_characters_are_known_by_name(name: Seq<char>)
    requires
        name.len() > 0,
        name[0] != '#',
    ensures
        reference_text(seq!['&'] + name + seq![';']) == match named_character(name) {
            Some(c) => Some(seq![c]),
            None => None,
        },
{
    let r = seq!['&'] + name + seq![';'];
    reveal_strlit("amp");
    reveal_strlit("lt");
    reveal_strlit("gt");
    reveal_strlit("quot");
    reveal_strlit("&amp;");
    reveal_strlit("&lt;");
    reveal_strlit("&gt;");
    reveal_strlit("&quot;");
    let inner = r.subrange(1, r.len() - 1);
    assert(inner =~= name);
    assert(r == "&amp;"@ <==> name == "amp"@) by {
        if name == "amp"@ {
            assert(r =~= "&amp;"@);
        }
        if r == "&amp;"@ {
            assert(name =~= "amp"@);
        }
    }
    assert(r == "&lt;"@ <==> name == "lt"@) by {
        if name == "lt"@ {
            assert(r =~= "&lt;"@);
        }
        if r == "&lt;"@ {
            assert(name =~= "lt"@);
        }
    }
    assert(r == "&gt;"@ <==> name == "gt"@) by {
        if name == "gt"@ {
            assert(r =~= "&gt;"@);
        }
        if r == "&gt;"@ {
            assert(name =~= "gt"@);
        }
    }
    assert(r == "&quot;"@ <==> name == "quot"@) by {
        if name == "quot"@ {
            assert(r =~= "&quot;"@);
        }
        if r == "&quot;"@ {
            assert(name =~= "quot"@);
        }
    }
    lemma_no_number(r);
    lemma_one_character_texts();
}

proof fn lemma_no_number(r: Seq<char>)
    requires
        r.len() > 1,
        r[1] != '#',
    ensures
        !has_prefix(r, "&#x"@) && !has_prefix(r, "&#X"@) && !has_prefix(r, "&#"@),
{
    reveal_strlit("&#x");
    reveal_strlit("&#X");
    reveal_strlit("&#");
    assert(r.subrange(0, 2)[1] == r[1]);
    if r.len() >= 3 {
        assert(r.subrange(0, 3)[1] == r[1]);
    }
}

proof fn lemma_one_character_texts()
    ensures
        "&"@ == seq!['&'],
        "<"@ == seq!['<'],
        ">"@ == seq!['>'],
        "\""@ == seq!['"'],
{
    reveal_strlit("&");
    reveal_strlit("<");
    reveal_strlit(">");
    reveal_strlit("\"");
    assert("&"@ =~= seq!['&']);
    assert("<"@ =~= seq!['<']);
    assert(">"@ =~= seq!['>']);
    assert("\""@ =~= seq!['"']);
}

/// The text of an HTML fragment, without white space at its ends.
pub open spec fn fragment_text(s: Seq<char>) -> Seq<char> {
    trim(text_from(s, 0), CharClass::Space)
}

/// The text of an HTML fragment.
pub fn html_fragment_to_text(s: &[char]) -> (r: Vec<char>)
    ensures
        r@ == fragment_text(s@),
{
    let mut out: Vec<char> = Vec::new();
    let mut pos: usize = 0;
    assert(out@ + text_from(s@, 0) =~= text_from(s@, 0));
    while pos < s.len()
        invariant
            pos <= s@.len(),
            out@ + text_from(s@, pos as int) == text_from(s@, 0),
        decreases s.len() - pos,
    {
        let ghost before = out@;
        let c = s[pos];
        if c == '<' {
            match find_tag_end(s, pos) {
                Some(end) => {
                    if line_breaking(vstd::slice::slice_subrange(s, pos + 1, end - 1)) {
                        out.push('\n');
                        assert(before + (seq!['\n'] + text_from(s@, end as int)) =~= out@
                            + text_from(s@, end as int));
                    } else {
                        assert(before + (Seq::<char>::empty() + text_from(s@, end as int))
                            =~= out@ + text_from(s@, end as int));
                    }
                    pos = end;
                },
                None => {
                    assert(out@ + Seq::<char>::empty() =~= out@);
                    return copy_of(trimmed(&out, CharClass::Space));
                },
            }
        } else {
            let decoded = if c == '&' {
                decode_html_entity(s, pos)
            } else {
                None
            };
            match decoded {
                Some((text, n)) => {
                    push_all(&mut out, &text);
                    assert(before + (text@ + text_from(s@, pos + n)) =~= out@ + text_from(
                        s@,
                        pos + n,
                    ));
                    pos += n;
                },
                None => {
                    out.push(c);
                    assert(before + (seq![c] + text_from(s@, pos + 1)) =~= out@ + text_from(
                        s@,
                        pos + 1,
                    ));
                    pos += 1;
                },
            }
        }
    }
    assert(out@ + Seq::<char>::empty() =~= out@);
    copy_of(trimmed(&out, CharClass::Space))
}

} // verus!
