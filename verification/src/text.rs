//! Text as a sequence of characters: classes of characters, trimming, lines,
//! words, splitting and joining.

use vstd::prelude::*;
use vstd::utf8::encode_utf8;

verus! {

/// `String::push` of std appends one character.
pub assume_specification[ String::push ](s: &mut String, c: char)
    ensures
        final(s)@ == old(s)@.push(c),
;

/// The characters of `s`, in order.
pub fn chars_of(s: &str) -> (out: Vec<char>)
    ensures
        out@ == s@,
{
    let mut out: Vec<char> = Vec::new();
    for c in it: s.chars()
        invariant
            out@ == it.seq().take(it.index() as int),
            it.seq() == s@,
    {
        out.push(c);
    }
    out
}

/// The string whose characters are `chars`.
pub fn string_of(chars: &[char]) -> (out: String)
    ensures
        out@ == chars@,
{
    let mut out = String::new();
    let mut i: usize = 0;
    while i < chars.len()
        invariant
            i <= chars.len(),
            out@ == chars@.take(i as int),
        decreases chars.len() - i,
    {
        out.push(chars[i]);
        i += 1;
        assert(chars@.take(i as int) =~= chars@.take(i - 1).push(chars@[i - 1]));
    }
    assert(chars@.take(i as int) =~= chars@);
    out
}

/// A copy of `s`.
pub fn copy_string(s: &String) -> (out: String)
    ensures
        out@ == s@,
{
    let chars = chars_of(s.as_str());
    string_of(&chars)
}

/// Number of bytes that `chars` takes in UTF-8.
pub fn byte_len(chars: &[char]) -> (n: usize)
    ensures
        n == encode_utf8(chars@).len(),
{
    let text = string_of(chars);
    text.as_str().as_bytes().len()
}

/// Appends the characters of `s` to `out`.
pub fn push_str(out: &mut Vec<char>, s: &str)
    ensures
        final(out)@ == old(out)@ + s@,
{
    let chars = chars_of(s);
    push_all(out, &chars);
}

/// Appends `chars` to `out`.
pub fn push_all(out: &mut Vec<char>, chars: &[char])
    ensures
        final(out)@ == old(out)@ + chars@,
{
    let mut i: usize = 0;
    while i < chars.len()
        invariant
            i <= chars.len(),
            out@ == old(out)@ + chars@.take(i as int),
        decreases chars.len() - i,
    {
        out.push(chars[i]);
        i += 1;
        assert(chars@.take(i as int) =~= chars@.take(i - 1).push(chars@[i - 1]));
    }
    assert(chars@.take(i as int) =~= chars@);
}

/// A copy of `chars`.
pub fn copy_of(chars: &[char]) -> (out: Vec<char>)
    ensures
        out@ == chars@,
{
    let mut out: Vec<char> = Vec::new();
    push_all(&mut out, chars);
    out
}

/// Whether two pieces of text are the same.
pub fn same_text(a: &[char], b: &[char]) -> (r: bool)
    ensures
        r == (a@ == b@),
{
    if a.len() != b.len() {
        return false;
    }
    let mut i: usize = 0;
    while i < a.len()
        invariant
            i <= a.len(),
            a.len() == b.len(),
            a@.take(i as int) == b@.take(i as int),
        decreases a.len() - i,
    {
        if a[i] != b[i] {
            return false;
        }
        i += 1;
        assert(a@.take(i as int) =~= a@.take(i - 1).push(a@[i - 1]));
        assert(b@.take(i as int) =~= b@.take(i - 1).push(b@[i - 1]));
    }
    assert(a@.take(i as int) =~= a@);
    assert(b@.take(i as int) =~= b@);
    true
}

/// Whether `chars` spells `s`.
pub fn spells(chars: &[char], s: &str) -> (r: bool)
    ensures
        r == (chars@ == s@),
{
    let other = chars_of(s);
    same_text(chars, &other)
}

// ---- Classes of characters ----

/// The characters with the Unicode property `White_Space`.
pub open spec fn is_white_space(c: char) -> bool {
    ||| '\u{9}' <= c <= '\u{d}'
    ||| c == '\u{20}'
    ||| c == '\u{85}'
    ||| c == '\u{a0}'
    ||| c == '\u{1680}'
    ||| '\u{2000}' <= c <= '\u{200a}'
    ||| c == '\u{2028}'
    ||| c == '\u{2029}'
    ||| c == '\u{202f}'
    ||| c == '\u{205f}'
    ||| c == '\u{3000}'
}

/// Whether `c` has the Unicode property `White_Space`.
pub fn white_space(c: char) -> (r: bool)
    ensures
        r == is_white_space(c),
{
    ('\u{9}' <= c && c <= '\u{d}') || c == '\u{20}' || c == '\u{85}' || c == '\u{a0}'
        || c == '\u{1680}' || ('\u{2000}' <= c && c <= '\u{200a}') || c == '\u{2028}'
        || c == '\u{2029}' || c == '\u{202f}' || c == '\u{205f}' || c == '\u{3000}'
}

/// ASCII white space: space, tab, line feed, form feed and carriage return.
pub open spec fn is_ascii_space(c: char) -> bool {
    c == ' ' || c == '\t' || c == '\n' || c == '\u{c}' || c == '\r'
}

/// Whether `c` is ASCII white space.
pub fn ascii_space(c: char) -> (r: bool)
    ensures
        r == is_ascii_space(c),
{
    c == ' ' || c == '\t' || c == '\n' || c == '\u{c}' || c == '\r'
}

/// The ASCII letters and digits.
pub open spec fn is_ascii_alnum(c: char) -> bool {
    'a' <= c <= 'z' || 'A' <= c <= 'Z' || '0' <= c <= '9'
}

/// Whether `c` is an ASCII letter or digit.
pub fn ascii_alnum(c: char) -> (r: bool)
    ensures
        r == is_ascii_alnum(c),
{
    ('a' <= c && c <= 'z') || ('A' <= c && c <= 'Z') || ('0' <= c && c <= '9')
}

/// A set of characters that text is scanned or trimmed by.
#[derive(Clone, Copy)]
pub enum CharClass {
    /// Unicode white space.
    Space,
    /// Everything but Unicode white space.
    NonSpace,
    /// ASCII white space.
    AsciiSpace,
    /// The ASCII letters and digits.
    Alnum,
    /// Everything but the ASCII letters and digits.
    NonAlnum,
    /// The marks of Markdown emphasis, `*` and `_`.
    Emphasis,
    /// Emphasis marks, the colon and the blank: what surrounds a label.
    LabelMark,
    /// What an HTML tag's name is made of.
    TagName,
    /// What the name of an HTML attribute is made of.
    AttributeName,
    /// What the value of an HTML attribute without quotation marks is made of.
    BareValue,
    /// Everything but the separators of a keyword list, `,` and `;`.
    ListItem,
    /// One character.
    Only(char),
    /// Every character but one.
    Except(char),
    /// Two characters.
    Either(char, char),
    /// Every character but two.
    Neither(char, char),
}

impl CharClass {
    /// The members of the class.
    pub open spec fn has(self, c: char) -> bool {
        match self {
            CharClass::Space => is_white_space(c),
            CharClass::NonSpace => !is_white_space(c),
            CharClass::AsciiSpace => is_ascii_space(c),
            CharClass::Alnum => is_ascii_alnum(c),
            CharClass::NonAlnum => !is_ascii_alnum(c),
            CharClass::Emphasis => c == '*' || c == '_',
            CharClass::LabelMark => c == '*' || c == '_' || c == ':' || c == ' ',
            CharClass::TagName => is_ascii_alnum(c) || c == '-' || c == ':' || c == '_',
            CharClass::AttributeName => !is_ascii_space(c) && c != '=' && c != '>' && c != '/' && c
                != '"' && c != '\'',
            CharClass::BareValue => !is_ascii_space(c) && c != '>',
            CharClass::ListItem => c != ',' && c != ';',
            CharClass::Only(x) => c == x,
            CharClass::Except(x) => c != x,
            CharClass::Either(x, y) => c == x || c == y,
            CharClass::Neither(x, y) => c != x && c != y,
        }
    }

    /// Whether `c` is a member.
    pub fn contains(&self, c: char) -> (r: bool)
        ensures
            r == self.has(c),
    {
        match self {
            CharClass::Space => white_space(c),
            CharClass::NonSpace => !white_space(c),
            CharClass::AsciiSpace => ascii_space(c),
            CharClass::Alnum => ascii_alnum(c),
            CharClass::NonAlnum => !ascii_alnum(c),
            CharClass::Emphasis => c == '*' || c == '_',
            CharClass::LabelMark => c == '*' || c == '_' || c == ':' || c == ' ',
            CharClass::TagName => ascii_alnum(c) || c == '-' || c == ':' || c == '_',
            CharClass::AttributeName => !ascii_space(c) && c != '=' && c != '>' && c != '/' && c
                != '"' && c != '\'',
            CharClass::BareValue => !ascii_space(c) && c != '>',
            CharClass::ListItem => c != ',' && c != ';',
            CharClass::Only(x) => c == *x,
            CharClass::Except(x) => c != *x,
            CharClass::Either(x, y) => c == *x || c == *y,
            CharClass::Neither(x, y) => c != *x && c != *y,
        }
    }
}

/// How many characters at the start of `s` belong to `class` before the first that does not.
pub open spec fn lead(s: Seq<char>, class: CharClass) -> nat
    decreases s.len(),
{
    if s.len() == 0 || !class.has(s[0]) {
        0
    } else {
        1 + lead(s.skip(1), class)
    }
}

/// How many characters at the end of `s` belong to `class` behind the last that does not.
pub open spec fn trail(s: Seq<char>, class: CharClass) -> nat
    decreases s.len(),
{
    if s.len() == 0 || !class.has(s.last()) {
        0
    } else {
        1 + trail(s.drop_last(), class)
    }
}

/// `lead` is the one split point with members before it and a non-member, or the end, at it.
pub proof fn lemma_lead(s: Seq<char>, class: CharClass)
    ensures
        lead(s, class) <= s.len(),
        forall|j: int| 0 <= j < lead(s, class) ==> class.has(#[trigger] s[j]),
        lead(s, class) < s.len() ==> !class.has(s[lead(s, class) as int]),
    decreases s.len(),
{
    if s.len() > 0 && class.has(s[0]) {
        lemma_lead(s.skip(1), class);
        assert forall|j: int| 0 <= j < lead(s, class) implies class.has(#[trigger] s[j]) by {
            if j > 0 {
                assert(s[j] == s.skip(1)[j - 1]);
            }
        }
        let n = lead(s.skip(1), class);
        if n < s.skip(1).len() {
            assert(s[n as int + 1] == s.skip(1)[n as int]);
        }
    }
}

/// A split point with members before it and a non-member, or the end, at it is `lead`.
pub proof fn lemma_lead_is(s: Seq<char>, class: CharClass, n: nat)
    requires
        n <= s.len(),
        forall|j: int| 0 <= j < n ==> class.has(#[trigger] s[j]),
        n < s.len() ==> !class.has(s[n as int]),
    ensures
        lead(s, class) == n,
{
    lemma_lead(s, class);
    let m = lead(s, class);
    if m < n {
        assert(class.has(s[m as int]));
    }
    if n < m {
        assert(class.has(s[n as int]));
    }
}

/// `trail` is the one split point from the end with members behind it and a non-member,
/// or the start, before it.
pub proof fn lemma_trail(s: Seq<char>, class: CharClass)
    ensures
        trail(s, class) <= s.len(),
        forall|j: int| s.len() - trail(s, class) <= j < s.len() ==> class.has(#[trigger] s[j]),
        trail(s, class) < s.len() ==> !class.has(s[s.len() - trail(s, class) - 1]),
    decreases s.len(),
{
    if s.len() > 0 && class.has(s.last()) {
        lemma_trail(s.drop_last(), class);
        let n = trail(s.drop_last(), class);
        assert forall|j: int| s.len() - trail(s, class) <= j < s.len() implies class.has(
            #[trigger] s[j],
        ) by {
            if j < s.len() - 1 {
                assert(s[j] == s.drop_last()[j]);
            }
        }
        if n < s.drop_last().len() {
            assert(s[s.len() - n - 2] == s.drop_last()[s.drop_last().len() - n - 1]);
        }
    }
}

/// A split point from the end with members behind it and a non-member, or the start,
/// before it is `trail`.
pub proof fn lemma_trail_is(s: Seq<char>, class: CharClass, n: nat)
    requires
        n <= s.len(),
        forall|j: int| s.len() - n <= j < s.len() ==> class.has(#[trigger] s[j]),
        n < s.len() ==> !class.has(s[s.len() - n - 1]),
    ensures
        trail(s, class) == n,
{
    lemma_trail(s, class);
    let m = trail(s, class);
    if m < n {
        assert(class.has(s[s.len() - m - 1]));
    }
    if n < m {
        assert(class.has(s[s.len() - n - 1]));
    }
}

/// Length of the run of `class` at `from`.
pub fn lead_len(s: &[char], from: usize, class: CharClass) -> (n: usize)
    requires
        from <= s@.len(),
    ensures
        n == lead(s@.skip(from as int), class),
        from + n <= s@.len(),
{
    let mut i: usize = from;
    while i < s.len() && class.contains(s[i])
        invariant
            from <= i <= s@.len(),
            forall|j: int| from <= j < i ==> class.has(#[trigger] s@[j]),
        decreases s.len() - i,
    {
        i += 1;
    }
    proof {
        let t = s@.skip(from as int);
        assert forall|j: int| 0 <= j < i - from implies class.has(#[trigger] t[j]) by {
            assert(t[j] == s@[from + j]);
        }
        if i < s@.len() {
            assert(t[i - from] == s@[i as int]);
        }
        lemma_lead_is(t, class, (i - from) as nat);
    }
    i - from
}

/// Length of the run of `class` at the end.
pub fn trail_len(s: &[char], class: CharClass) -> (n: usize)
    ensures
        n == trail(s@, class),
        n <= s@.len(),
{
    let mut i: usize = s.len();
    while i > 0 && class.contains(s[i - 1])
        invariant
            i <= s@.len(),
            forall|j: int| i <= j < s@.len() ==> class.has(#[trigger] s@[j]),
        decreases i,
    {
        i -= 1;
    }
    proof {
        lemma_trail_is(s@, class, (s@.len() - i) as nat);
    }
    s.len() - i
}

// ---- Trimming ----

/// `s` without the members of `class` at its start.
pub open spec fn trim_start(s: Seq<char>, class: CharClass) -> Seq<char> {
    s.skip(lead(s, class) as int)
}

/// `s` without the members of `class` at its end.
pub open spec fn trim_end(s: Seq<char>, class: CharClass) -> Seq<char> {
    s.take(s.len() - trail(s, class))
}

/// `s` without the members of `class` at both ends.
pub open spec fn trim(s: Seq<char>, class: CharClass) -> Seq<char> {
    trim_end(trim_start(s, class), class)
}

/// Trimming takes away the members of a class at the ends, all of them, and nothing else.
pub proof fn law_trimming_takes_only_the_ends(s: Seq<char>, class: CharClass)
    ensures
        exists|a: int, b: int|
            0 <= a <= b <= s.len() && trim(s, class) == #[trigger] s.subrange(a, b) && (forall|
                j: int,
            |
                0 <= j < a || b <= j < s.len() ==> class.has(#[trigger] s[j])) && (a < b
                ==> !class.has(s[a]) && !class.has(s[b - 1])),
{
    lemma_lead(s, class);
    let t = trim_start(s, class);
    lemma_trail(t, class);
    let a = lead(s, class) as int;
    let b = s.len() - trail(t, class);
    assert(trim(s, class) =~= s.subrange(a, b));
    assert forall|j: int| 0 <= j < a || b <= j < s.len() implies class.has(#[trigger] s[j]) by {
        if j >= a {
            assert(s[j] == t[j - a]);
        }
    }
    if a < b {
        assert(t[0] == s[a]);
        assert(s[b - 1] == t[t.len() - trail(t, class) - 1]);
    }
}

/// Text between members of a class, with others at both of its ends, is what trimming leaves.
pub proof fn law_trimmed_text_is_found(
    before: Seq<char>,
    s: Seq<char>,
    behind: Seq<char>,
    class: CharClass,
)
    requires
        forall|j: int| 0 <= j < before.len() ==> class.has(#[trigger] before[j]),
        forall|j: int| 0 <= j < behind.len() ==> class.has(#[trigger] behind[j]),
        s.len() > 0 ==> !class.has(s[0]) && !class.has(s.last()),
    ensures
        trim(before + s + behind, class) == s,
        s.len() > 0 || behind.len() == 0 ==> trim_start(before + s + behind, class) == s + behind,
        s.len() > 0 || before.len() == 0 ==> trim_end(before + s + behind, class) == before + s,
{
    let all = before + s + behind;
    if s.len() > 0 {
        assert forall|j: int| 0 <= j < before.len() implies class.has(#[trigger] all[j]) by {
            assert(all[j] == before[j]);
        }
        assert(all[before.len() as int] == s[0]);
        lemma_lead_is(all, class, before.len());
        let t = trim_start(all, class);
        assert(t =~= s + behind);
        assert forall|j: int| t.len() - behind.len() <= j < t.len() implies class.has(
            #[trigger] t[j],
        ) by {
            assert(t[j] == behind[j - s.len()]);
        }
        assert(t[s.len() - 1] == s.last());
        lemma_trail_is(t, class, behind.len());
        assert(trim(all, class) =~= s);
        assert forall|j: int| all.len() - behind.len() <= j < all.len() implies class.has(
            #[trigger] all[j],
        ) by {
            assert(all[j] == behind[j - before.len() - s.len()]);
        }
        assert(all[before.len() + s.len() - 1] == s.last());
        lemma_trail_is(all, class, behind.len());
        assert(trim_end(all, class) =~= before + s);
    } else {
        assert forall|j: int| 0 <= j < all.len() implies class.has(#[trigger] all[j]) by {
            if j < before.len() {
                assert(all[j] == before[j]);
            } else {
                assert(all[j] == behind[j - before.len()]);
            }
        }
        lemma_lead_is(all, class, all.len());
        lemma_trail_is(all, class, all.len());
        assert(trim_start(all, class) =~= Seq::empty());
        assert(trim(all, class) =~= s);
        assert(s + behind =~= behind);
        assert(trim_end(all, class) =~= Seq::empty());
    }
}

/// The part of `s` behind its leading members of `class`.
pub fn trimmed_start(s: &[char], class: CharClass) -> (r: &[char])
    ensures
        r@ == trim_start(s@, class),
{
    let n = lead_len(s, 0, class);
    assert(s@.skip(0) =~= s@);
    let r = vstd::slice::slice_subrange(s, n, s.len());
    assert(r@ =~= s@.skip(n as int));
    r
}

/// The part of `s` before its trailing members of `class`.
pub fn trimmed_end(s: &[char], class: CharClass) -> (r: &[char])
    ensures
        r@ == trim_end(s@, class),
{
    let n = trail_len(s, class);
    let r = vstd::slice::slice_subrange(s, 0, s.len() - n);
    assert(r@ =~= s@.take(s@.len() - n));
    r
}

/// The part of `s` between its leading and its trailing members of `class`.
pub fn trimmed(s: &[char], class: CharClass) -> (r: &[char])
    ensures
        r@ == trim(s@, class),
{
    trimmed_end(trimmed_start(s, class), class)
}

// ---- Case ----

/// `c`, in lower case if it is an ASCII letter.
pub open spec fn ascii_lower(c: char) -> char {
    if 'A' <= c <= 'Z' {
        ((c as u8) + 32) as u8 as char
    } else {
        c
    }
}

/// `s` with its ASCII letters in lower case.
pub open spec fn lower(s: Seq<char>) -> Seq<char> {
    Seq::new(s.len(), |i: int| ascii_lower(s[i]))
}

/// Lower case changes the ASCII capitals, each to its small letter, and nothing else.
pub proof fn law_lower_case_changes_only_capitals(s: Seq<char>)
    ensures
        lower(s).len() == s.len(),
        forall|i: int|
            0 <= i < s.len() ==> (#[trigger] lower(s)[i]) as int == s[i] as int + if 65 <= s[i] as int
                <= 90 {
                32int
            } else {
                0int
            },
        lower(lower(s)) == lower(s),
{
    assert(lower(lower(s)) =~= lower(s));
}

/// `c`, in lower case if it is an ASCII letter.
pub fn to_lower(c: char) -> (r: char)
    ensures
        r == ascii_lower(c),
{
    if 'A' <= c && c <= 'Z' {
        ((c as u8) + 32) as char
    } else {
        c
    }
}

/// `s` with its ASCII letters in lower case.
pub fn lowered(s: &[char]) -> (out: Vec<char>)
    ensures
        out@ == lower(s@),
{
    let mut out: Vec<char> = Vec::new();
    let mut i: usize = 0;
    while i < s.len()
        invariant
            i <= s@.len(),
            out@ == lower(s@).take(i as int),
        decreases s.len() - i,
    {
        out.push(to_lower(s[i]));
        i += 1;
        assert(lower(s@).take(i as int) =~= lower(s@).take(i - 1).push(lower(s@)[i - 1]));
    }
    assert(lower(s@).take(i as int) =~= lower(s@));
    out
}

/// Whether `a` and `b` differ at most in the case of ASCII letters.
pub fn same_ignoring_case(a: &[char], b: &[char]) -> (r: bool)
    ensures
        r == (lower(a@) == lower(b@)),
{
    let x = lowered(a);
    let y = lowered(b);
    same_text(&x, &y)
}

// ---- Prefixes ----

/// Whether `prefix` stands in `s` at `at`.
pub open spec fn stands_at(s: Seq<char>, at: int, prefix: Seq<char>) -> bool {
    &&& at + prefix.len() <= s.len()
    &&& s.subrange(at, at + prefix.len()) == prefix
}

/// Whether `s` begins with `prefix`.
pub open spec fn has_prefix(s: Seq<char>, prefix: Seq<char>) -> bool {
    stands_at(s, 0, prefix)
}

/// Whether `prefix` stands in `s` at `at`.
pub fn found_at(s: &[char], at: usize, prefix: &[char]) -> (r: bool)
    requires
        at <= s@.len(),
    ensures
        r == stands_at(s@, at as int, prefix@),
{
    if s.len() - at < prefix.len() {
        return false;
    }
    same_text(vstd::slice::slice_subrange(s, at, at + prefix.len()), prefix)
}

/// Whether `s` begins with `prefix`.
pub fn starts_with(s: &[char], prefix: &str) -> (r: bool)
    ensures
        r == has_prefix(s@, prefix@),
{
    let p = chars_of(prefix);
    found_at(s, 0, &p)
}

/// Whether `s` holds a character equal to `c`.
pub fn holds(s: &[char], c: char) -> (r: bool)
    ensures
        r == s@.contains(c),
{
    let mut i: usize = 0;
    while i < s.len()
        invariant
            i <= s@.len(),
            forall|j: int| 0 <= j < i ==> s@[j] != c,
        decreases s.len() - i,
    {
        if s[i] == c {
            assert(s@[i as int] == c);
            return true;
        }
        i += 1;
    }
    false
}

/// White space is known by its numbers in Unicode.
pub proof fn law_white_space_is_known_by_number(c: char)
    ensures
        is_white_space(c) <==> {
            let n = c as int;
            ||| 9 <= n <= 13
            ||| n == 32
            ||| n == 133
            ||| n == 160
            ||| n == 5760
            ||| 8192 <= n <= 8202
            ||| n == 8232
            ||| n == 8233
            ||| n == 8239
            ||| n == 8287
            ||| n == 12288
        },
        is_ascii_space(c) <==> {
            let n = c as int;
            n == 9 || n == 10 || n == 12 || n == 13 || n == 32
        },
        is_ascii_space(c) ==> is_white_space(c),
{
}

/// Letters and digits of ASCII are known by their numbers; lower case keeps them what they are.
pub proof fn law_letters_and_digits_are_known_by_number(c: char)
    ensures
        is_ascii_alnum(c) <==> {
            let n = c as int;
            48 <= n <= 57 || 65 <= n <= 90 || 97 <= n <= 122
        },
        is_ascii_alnum(ascii_lower(c)) <==> is_ascii_alnum(c),
{
}

/// Each class has the members that its name tells; of two that are opposites, every character is in
/// one.
pub proof fn law_classes_have_their_members(c: char, x: char, y: char)
    ensures
        CharClass::Space.has(c) != CharClass::NonSpace.has(c),
        CharClass::Space.has(c) <==> is_white_space(c),
        CharClass::AsciiSpace.has(c) <==> is_ascii_space(c),
        CharClass::Alnum.has(c) != CharClass::NonAlnum.has(c),
        CharClass::Alnum.has(c) <==> is_ascii_alnum(c),
        CharClass::Only(x).has(c) != CharClass::Except(x).has(c),
        CharClass::Only(x).has(c) <==> c == x,
        CharClass::Either(x, y).has(c) != CharClass::Neither(x, y).has(c),
        CharClass::Either(x, y).has(c) <==> CharClass::Only(x).has(c) || CharClass::Only(y).has(c),
        CharClass::Emphasis.has(c) <==> c as int == 42 || c as int == 95,
        CharClass::LabelMark.has(c) <==> c as int == 42 || c as int == 95 || c as int == 58 || c
            as int == 32,
        CharClass::TagName.has(c) <==> is_ascii_alnum(c) || c as int == 45 || c as int == 58 || c
            as int == 95,
        CharClass::BareValue.has(c) <==> !is_ascii_space(c) && c as int != 62,
        CharClass::AttributeName.has(c) <==> CharClass::BareValue.has(c) && c as int != 61 && c
            as int != 47 && c as int != 34 && c as int != 39,
        CharClass::ListItem.has(c) <==> c as int != 44 && c as int != 59,
{
}

/// Whether `s` ends with `end`.
pub open spec fn has_suffix(s: Seq<char>, end: Seq<char>) -> bool {
    s.len() >= end.len() && s.skip(s.len() - end.len()) == end
}

/// What is put together begins with the first part, and ends with the last.
pub proof fn lemma_parts_at_the_ends(a: Seq<char>, b: Seq<char>, c: Seq<char>)
    ensures
        has_prefix(a + b + c, a + b),
        has_prefix(a + b + c, a),
        has_suffix(a + b + c, c),
        has_suffix(a + b + c, b + c),
{
    let s = a + b + c;
    assert(s.subrange(0, (a.len() + b.len()) as int) =~= a + b);
    assert(s.subrange(0, a.len() as int) =~= a);
    assert(s.skip(s.len() - c.len()) =~= c);
    assert(s.skip(s.len() - (b + c).len()) =~= b + c);
}

} // verus!
