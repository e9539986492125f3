//! Paths as text: names, parents and prefixes, as they are written on POSIX systems and on
//! Windows.

use vstd::prelude::*;

use crate::pieces::{
    complementary, is_run, lemma_gaps_before_runs, lemma_runs_front, runs, runs_of, texts,
};
use crate::text::{
    ascii_lower, chars_of, copy_of, lead, lead_len, lemma_lead, lemma_lead_is, lemma_trail,
    lemma_trail_is, lower, lowered, push_all, same_text, spells, to_lower, trail, trail_len,
    CharClass,
};

verus! {

/// How paths are written on a platform.
#[derive(Clone, Copy, Debug, PartialEq, Eq, Structural)]
pub enum PathStyle {
    /// Names with `/` between them.
    Posix,
    /// Names with `\` or `/` between them, behind a drive, a share or a device.
    Windows,
}

/// How the components of a path are told apart.
#[derive(Clone, Copy)]
pub struct PathRule {
    /// The separator that is written.
    pub main: char,
    /// Another one that is read.
    pub other: char,
    /// Whether a component `.` behind a separator counts for nothing.
    pub dots: bool,
}

impl PathRule {
    /// Whether `c` stands between components.
    pub open spec fn separates(self, c: char) -> bool {
        c == self.main || c == self.other
    }

    /// What components are made of.
    pub open spec fn within(self) -> CharClass {
        CharClass::Neither(self.main, self.other)
    }

    /// Whether `c` stands between components.
    fn is_separator(&self, c: char) -> (r: bool)
        ensures
            r == self.separates(c),
    {
        c == self.main || c == self.other
    }

    /// What components are made of.
    fn component(&self) -> (r: CharClass)
        ensures
            r == self.within(),
    {
        CharClass::Neither(self.main, self.other)
    }
}

// ---- Drives, shares and devices ----

/// Whether `c` is a slash of either kind.
pub open spec fn is_slash(c: char) -> bool {
    c == '\\' || c == '/'
}

fn slash(c: char) -> (r: bool)
    ensures
        r == is_slash(c),
{
    c == '\\' || c == '/'
}

/// Whether `p` names a drive at `i`: a letter and a colon.
pub open spec fn drive_at(p: Seq<char>, i: int) -> bool {
    i + 1 < p.len() && ('a' <= p[i] <= 'z' || 'A' <= p[i] <= 'Z') && p[i + 1] == ':'
}

fn is_drive_at(p: &[char], i: usize) -> (r: bool)
    requires
        i <= p@.len(),
    ensures
        r == drive_at(p@, i as int),
{
    p.len() - i > 1 && (('a' <= p[i] && p[i] <= 'z') || ('A' <= p[i] && p[i] <= 'Z')) && p[i + 1]
        == ':'
}

/// Whether `p` is taken word for word: it begins with `\\?\`.
pub open spec fn is_verbatim(style: PathStyle, p: Seq<char>) -> bool {
    style == PathStyle::Windows && p.len() >= 4 && p[0] == '\\' && p[1] == '\\' && p[2] == '?'
        && p[3] == '\\'
}

fn verbatim(style: PathStyle, p: &[char]) -> (r: bool)
    ensures
        r == is_verbatim(style, p@),
{
    style == PathStyle::Windows && p.len() >= 4 && p[0] == '\\' && p[1] == '\\' && p[2] == '?'
        && p[3] == '\\'
}

/// How components are told apart with `/` between them.
pub open spec fn posix_rule() -> PathRule {
    PathRule { main: '/', other: '/', dots: true }
}

/// How the components of `p` are told apart.
pub open spec fn rule_of(style: PathStyle, p: Seq<char>) -> PathRule {
    if style == PathStyle::Posix {
        posix_rule()
    } else if is_verbatim(style, p) {
        PathRule { main: '\\', other: '\\', dots: false }
    } else {
        PathRule { main: '\\', other: '/', dots: true }
    }
}

fn find_rule(style: PathStyle, p: &[char]) -> (r: PathRule)
    ensures
        r == rule_of(style, p@),
{
    if style == PathStyle::Posix {
        PathRule { main: '/', other: '/', dots: true }
    } else if verbatim(style, p) {
        PathRule { main: '\\', other: '\\', dots: false }
    } else {
        PathRule { main: '\\', other: '/', dots: true }
    }
}

/// Where the component of `p` ends that begins at `i`.
pub open spec fn component_end(rule: PathRule, p: Seq<char>, i: int) -> int {
    if 0 <= i <= p.len() {
        i + lead(p.skip(i), rule.within())
    } else {
        i
    }
}

fn find_component_end(rule: PathRule, p: &[char], i: usize) -> (r: usize)
    requires
        i <= p@.len(),
    ensures
        r == component_end(rule, p@, i as int),
        i <= r <= p@.len(),
{
    proof {
        lemma_lead(p@.skip(i as int), rule.within());
    }
    let n = lead_len(p, i, rule.component());
    assert(i + n <= p.len());
    i + n
}

/// Where the share ends that is named by the components at `i` and behind it: the server, and,
/// unless it is empty, the share.
pub open spec fn share_end(rule: PathRule, p: Seq<char>, i: int) -> int {
    let server = component_end(rule, p, i);
    let share = component_end(rule, p, server + 1);
    if share > server + 1 {
        share
    } else {
        server
    }
}

fn find_share_end(rule: PathRule, p: &[char], i: usize) -> (r: usize)
    requires
        i <= p@.len(),
    ensures
        r == share_end(rule, p@, i as int),
        i <= r <= p@.len(),
{
    let server = find_component_end(rule, p, i);
    if server < p.len() {
        let share = find_component_end(rule, p, server + 1);
        if share > server + 1 {
            return share;
        }
    }
    server
}

/// How many characters at the start of `p` name a drive (`C:`), a share (`\\server\share`) or a
/// device (`\\.\device`), or, word for word, a drive (`\\?\C:`), a share
/// (`\\?\UNC\server\share`) or something else (`\\?\name`).
pub open spec fn prefix_len(style: PathStyle, p: Seq<char>) -> int {
    let rule = rule_of(style, p);
    if style == PathStyle::Posix {
        0
    } else if is_verbatim(style, p) {
        if p.len() >= 8 && p[4] == 'U' && p[5] == 'N' && p[6] == 'C' && is_slash(p[7]) {
            share_end(rule, p, 8)
        } else if drive_at(p, 4) && (p.len() == 6 || is_slash(p[6])) {
            6
        } else {
            component_end(rule, p, 4)
        }
    } else if p.len() >= 2 && is_slash(p[0]) && is_slash(p[1]) {
        if p.len() >= 4 && p[2] == '.' && is_slash(p[3]) {
            component_end(rule, p, 4)
        } else if component_end(rule, p, 2) > 2 && share_end(rule, p, 2) > component_end(
            rule,
            p,
            2,
        ) {
            share_end(rule, p, 2)
        } else {
            0
        }
    } else if drive_at(p, 0) {
        2
    } else {
        0
    }
}

proof fn lemma_prefix_len(style: PathStyle, p: Seq<char>)
    ensures
        0 <= prefix_len(style, p) <= p.len(),
{
    let rule = rule_of(style, p);
    assert forall|i: int| 0 <= i <= p.len() implies i <= #[trigger] component_end(rule, p, i)
        <= p.len() by {
        lemma_lead(p.skip(i), rule.within());
    }
}

fn find_prefix_len(style: PathStyle, p: &[char]) -> (r: usize)
    ensures
        r == prefix_len(style, p@),
        r <= p@.len(),
{
    proof {
        lemma_prefix_len(style, p@);
    }
    let rule = find_rule(style, p);
    if style == PathStyle::Posix {
        0
    } else if verbatim(style, p) {
        if p.len() >= 8 && p[4] == 'U' && p[5] == 'N' && p[6] == 'C' && slash(p[7]) {
            find_share_end(rule, p, 8)
        } else if is_drive_at(p, 4) && (p.len() == 6 || slash(p[6])) {
            6
        } else {
            find_component_end(rule, p, 4)
        }
    } else if p.len() >= 2 && slash(p[0]) && slash(p[1]) {
        if p.len() >= 4 && p[2] == '.' && slash(p[3]) {
            find_component_end(rule, p, 4)
        } else {
            let server = find_component_end(rule, p, 2);
            let share = find_share_end(rule, p, 2);
            if server > 2 && share > server {
                share
            } else {
                0
            }
        }
    } else if is_drive_at(p, 0) {
        2
    } else {
        0
    }
}

/// The drive, share or device at the start of `p`.
pub open spec fn prefix(style: PathStyle, p: Seq<char>) -> Seq<char> {
    p.take(prefix_len(style, p))
}

/// What stands in `p` behind its drive, share or device.
pub open spec fn body(style: PathStyle, p: Seq<char>) -> Seq<char> {
    p.skip(prefix_len(style, p))
}

fn split_prefix<'a>(style: PathStyle, p: &'a [char]) -> (r: (&'a [char], &'a [char]))
    ensures
        r.0@ == prefix(style, p@),
        r.1@ == body(style, p@),
        r.0@.len() + r.1@.len() == p@.len(),
{
    let n = find_prefix_len(style, p);
    let before = vstd::slice::slice_subrange(p, 0, n);
    let behind = vstd::slice::slice_subrange(p, n, p.len());
    assert(before@ =~= prefix(style, p@));
    assert(behind@ =~= body(style, p@));
    (before, behind)
}

/// Whether `p` has a `/` for its root where `/` separates nothing else: behind a drive that is
/// taken word for word.
pub open spec fn has_odd_root(style: PathStyle, p: Seq<char>) -> bool {
    is_verbatim(style, p) && body(style, p).len() > 0 && body(style, p)[0] == '/'
}

/// What stands in `p` before its names: the prefix, and such a root.
pub open spec fn head(style: PathStyle, p: Seq<char>) -> Seq<char> {
    if has_odd_root(style, p) {
        p.take(prefix_len(style, p) + 1)
    } else {
        prefix(style, p)
    }
}

/// What stands in `p` behind that.
pub open spec fn names(style: PathStyle, p: Seq<char>) -> Seq<char> {
    if has_odd_root(style, p) {
        body(style, p).skip(1)
    } else {
        body(style, p)
    }
}

proof fn lemma_head(style: PathStyle, p: Seq<char>)
    ensures
        head(style, p) + names(style, p) == p,
        head(style, p) == p.take(head(style, p).len() as int),
{
    lemma_prefix_len(style, p);
    assert(head(style, p) + names(style, p) =~= p);
}

fn split_head<'a>(style: PathStyle, p: &'a [char]) -> (r: (&'a [char], &'a [char]))
    ensures
        r.0@ == head(style, p@),
        r.1@ == names(style, p@),
        r.0@.len() + r.1@.len() == p@.len(),
{
    let (pre, rest) = split_prefix(style, p);
    proof {
        lemma_prefix_len(style, p@);
    }
    if verbatim(style, p) && rest.len() > 0 && rest[0] == '/' {
        assert(pre.len() + 1 <= p.len());
        let before = vstd::slice::slice_subrange(p, 0, pre.len() + 1);
        let behind = vstd::slice::slice_subrange(rest, 1, rest.len());
        assert(before@ =~= head(style, p@));
        assert(behind@ =~= names(style, p@));
        (before, behind)
    } else {
        (pre, rest)
    }
}

/// Whether `pre` is a plain drive; the other prefixes have a root of their own.
pub open spec fn is_drive(pre: Seq<char>) -> bool {
    pre.len() == 2
}

/// Whether the body of `p` begins with a slash, on Windows of either kind.
pub open spec fn starts_at_root(style: PathStyle, p: Seq<char>) -> bool {
    let b = body(style, p);
    b.len() > 0 && (b[0] == '/' || (style == PathStyle::Windows && b[0] == '\\'))
}

fn rooted(style: PathStyle, p: &[char]) -> (r: bool)
    ensures
        r == starts_at_root(style, p@),
{
    let (_, b) = split_prefix(style, p);
    b.len() > 0 && (b[0] == '/' || (style == PathStyle::Windows && b[0] == '\\'))
}

/// Whether a path says where it is whatever the working directory: it begins at the root, on
/// Windows at that of a drive, a share or a device.
pub open spec fn absolute(style: PathStyle, p: Seq<char>) -> bool {
    let pre = prefix(style, p);
    if style == PathStyle::Posix {
        starts_at_root(style, p)
    } else {
        pre.len() > 0 && (!is_drive(pre) || starts_at_root(style, p))
    }
}

/// Whether a path says where it is whatever the working directory.
pub fn is_absolute(style: PathStyle, p: &[char]) -> (r: bool)
    ensures
        r == absolute(style, p@),
{
    let (pre, _) = split_prefix(style, p);
    if style == PathStyle::Posix {
        rooted(style, p)
    } else {
        pre.len() > 0 && (pre.len() != 2 || rooted(style, p))
    }
}

// ---- Names ----

/// `p` without separators and components `.` at its end; the root stays.
pub open spec fn right_trimmed(rule: PathRule, p: Seq<char>) -> Seq<char>
    decreases p.len(),
{
    if p.len() > 1 && (rule.separates(p.last()) || (rule.dots && p.last() == '.'
        && rule.separates(p[p.len() - 2]))) {
        right_trimmed(rule, p.drop_last())
    } else {
        p
    }
}

proof fn lemma_right_trimmed(rule: PathRule, p: Seq<char>)
    ensures
        right_trimmed(rule, p).len() <= p.len(),
        right_trimmed(rule, p) == p.take(right_trimmed(rule, p).len() as int),
        p.len() > 0 ==> right_trimmed(rule, p).len() > 0,
    decreases p.len(),
{
    if p.len() > 1 && (rule.separates(p.last()) || (rule.dots && p.last() == '.'
        && rule.separates(p[p.len() - 2]))) {
        lemma_right_trimmed(rule, p.drop_last());
        let t = right_trimmed(rule, p.drop_last());
        assert(p.drop_last().take(t.len() as int) =~= p.take(t.len() as int));
    } else {
        assert(p.take(p.len() as int) =~= p);
    }
}

/// `p` without separators and components `.` at its end.
fn trim_right<'a>(rule: PathRule, p: &'a [char]) -> (r: &'a [char])
    ensures
        r@ == right_trimmed(rule, p@),
{
    let mut n: usize = p.len();
    assert(p@.take(n as int) =~= p@);
    while n > 1 && (rule.is_separator(p[n - 1]) || (rule.dots && p[n - 1] == '.'
        && rule.is_separator(p[n - 2])))
        invariant
            n <= p@.len(),
            right_trimmed(rule, p@) == right_trimmed(rule, p@.take(n as int)),
        decreases n,
    {
        let ghost t = p@.take(n as int);
        assert(t.last() == p@[n - 1] && t[n - 2] == p@[n - 2]);
        assert(t.drop_last() =~= p@.take(n - 1));
        n -= 1;
    }
    proof {
        let t = p@.take(n as int);
        if n > 1 {
            assert(t.last() == p@[n - 1] && t[n - 2] == p@[n - 2]);
        }
        assert(right_trimmed(rule, t) == t);
    }
    let r = vstd::slice::slice_subrange(p, 0, n);
    assert(r@ =~= p@.take(n as int));
    r
}

/// The last component of the body `b` of a path, and what stands before it.
pub open spec fn last_component(rule: PathRule, b: Seq<char>) -> (Seq<char>, Seq<char>) {
    let t = right_trimmed(rule, b);
    let n = trail(t, rule.within());
    (t.take(t.len() - n), t.skip(t.len() - n))
}

/// The name at the end of a path; none behind `.`, `..` or the root.
pub open spec fn file_name(style: PathStyle, p: Seq<char>) -> Option<Seq<char>> {
    let name = last_component(rule_of(style, p), names(style, p)).1;
    if name.len() == 0 || name == "."@ || name == ".."@ {
        None
    } else {
        Some(name)
    }
}

/// The path without its last component; none of the root and of the empty path.
pub open spec fn parent(style: PathStyle, p: Seq<char>) -> Option<Seq<char>> {
    let rule = rule_of(style, p);
    let (before, name) = last_component(rule, names(style, p));
    if name.len() == 0 {
        None
    } else {
        Some(head(style, p) + right_trimmed(rule, before))
    }
}

proof fn lemma_parent(style: PathStyle, p: Seq<char>)
    ensures
        parent(style, p) matches Some(q) ==> q.len() < p.len() && q == p.take(q.len() as int),
{
    let rule = rule_of(style, p);
    let b = names(style, p);
    let t = right_trimmed(rule, b);
    let before = last_component(rule, b).0;
    lemma_head(style, p);
    lemma_right_trimmed(rule, b);
    lemma_trail(t, rule.within());
    lemma_right_trimmed(rule, before);
    let n = right_trimmed(rule, before).len();
    assert(before.take(n as int) =~= b.take(n as int));
    assert(head(style, p) + b.take(n as int) =~= (head(style, p) + b).take(
        (head(style, p).len() + n) as int,
    ));
}

fn split_last<'a>(rule: PathRule, b: &'a [char]) -> (r: (&'a [char], &'a [char]))
    ensures
        r.0@ == last_component(rule, b@).0,
        r.1@ == last_component(rule, b@).1,
{
    let t = trim_right(rule, b);
    let n = trail_len(t, rule.component());
    let before = vstd::slice::slice_subrange(t, 0, t.len() - n);
    let name = vstd::slice::slice_subrange(t, t.len() - n, t.len());
    assert(before@ =~= t@.take(t@.len() - n));
    assert(name@ =~= t@.skip(t@.len() - n));
    (before, name)
}

/// The name at the end of a path.
pub fn find_file_name<'a>(style: PathStyle, p: &'a [char]) -> (r: Option<&'a [char]>)
    ensures
        match file_name(style, p@) {
            Some(name) => r is Some && r->0@ == name,
            None => r is None,
        },
{
    let (_, rest) = split_head(style, p);
    let (_, name) = split_last(find_rule(style, p), rest);
    if name.len() == 0 || spells(name, ".") || spells(name, "..") {
        None
    } else {
        Some(name)
    }
}

/// The path without its last component.
pub fn find_parent<'a>(style: PathStyle, p: &'a [char]) -> (r: Option<&'a [char]>)
    ensures
        match parent(style, p@) {
            Some(q) => r is Some && r->0@ == q && q.len() < p@.len(),
            None => r is None,
        },
{
    proof {
        lemma_parent(style, p@);
    }
    let rule = find_rule(style, p);
    let (pre, rest) = split_head(style, p);
    let (before, name) = split_last(rule, rest);
    if name.len() == 0 {
        None
    } else {
        let kept = trim_right(rule, before);
        assert(parent(style, p@)->0.len() == pre@.len() + kept@.len());
        assert(pre.len() + kept.len() <= p.len());
        Some(vstd::slice::slice_subrange(p, 0, pre.len() + kept.len()))
    }
}

/// The parts of a name before and behind its last full stop; a full stop at its start counts
/// for nothing.
pub open spec fn split_extension(name: Seq<char>) -> (Seq<char>, Option<Seq<char>>) {
    let n = trail(name, CharClass::Except('.'));
    let dot = name.len() - n - 1;
    if dot <= 0 {
        (name, None)
    } else {
        (name.take(dot), Some(name.skip(dot + 1)))
    }
}

/// The name at the end of a path without its extension.
pub open spec fn file_stem(style: PathStyle, p: Seq<char>) -> Option<Seq<char>> {
    match file_name(style, p) {
        Some(name) => Some(split_extension(name).0),
        None => None,
    }
}

/// The extension of the name at the end of a path.
pub open spec fn extension(style: PathStyle, p: Seq<char>) -> Option<Seq<char>> {
    match file_name(style, p) {
        Some(name) => split_extension(name).1,
        None => None,
    }
}

fn find_extension_dot(name: &[char]) -> (r: Option<usize>)
    ensures
        match r {
            Some(dot) => dot == name@.len() - trail(name@, CharClass::Except('.')) - 1 && 0 < dot
                < name@.len(),
            None => name@.len() - trail(name@, CharClass::Except('.')) - 1 <= 0,
        },
{
    let n = trail_len(name, CharClass::Except('.'));
    if name.len() - n <= 1 {
        None
    } else {
        Some(name.len() - n - 1)
    }
}

/// The name at the end of a path without its extension.
pub fn find_file_stem(style: PathStyle, p: &[char]) -> (r: Option<Vec<char>>)
    ensures
        match file_stem(style, p@) {
            Some(stem) => r is Some && r->0@ == stem,
            None => r is None,
        },
{
    match find_file_name(style, p) {
        None => None,
        Some(name) => match find_extension_dot(name) {
            Some(dot) => {
                let stem = vstd::slice::slice_subrange(name, 0, dot);
                assert(stem@ =~= name@.take(dot as int));
                Some(copy_of(stem))
            },
            None => Some(copy_of(name)),
        },
    }
}

/// The extension of the name at the end of a path.
pub fn find_extension(style: PathStyle, p: &[char]) -> (r: Option<Vec<char>>)
    ensures
        match extension(style, p@) {
            Some(ext) => r is Some && r->0@ == ext,
            None => r is None,
        },
{
    match find_file_name(style, p) {
        None => None,
        Some(name) => match find_extension_dot(name) {
            Some(dot) => {
                assert(dot < name.len());
                let ext = vstd::slice::slice_subrange(name, dot + 1, name.len());
                assert(ext@ =~= name@.skip(dot + 1));
                Some(copy_of(ext))
            },
            None => None,
        },
    }
}

// ---- Joining ----

/// The components of the body `b` of a path.
pub open spec fn components(rule: PathRule, b: Seq<char>) -> Seq<Seq<char>> {
    runs(b, rule.within(), CharClass::Either(rule.main, rule.other))
}

/// The names in `at` followed by `names`, with `.` left out and `..` for the way up.
pub open spec fn resolved(at: Seq<Seq<char>>, names: Seq<Seq<char>>) -> Seq<Seq<char>>
    decreases names.len(),
{
    if names.len() == 0 {
        at
    } else {
        let before = resolved(at, names.drop_last());
        let name = names.last();
        if name == "."@ {
            before
        } else if name == ".."@ {
            if before.len() > 0 && before.last() != "."@ && before.last() != ".."@ {
                before.drop_last()
            } else {
                before
            }
        } else {
            before.push(name)
        }
    }
}

/// Names with a backslash before each.
pub open spec fn backslashed(names: Seq<Seq<char>>) -> Seq<char>
    decreases names.len(),
{
    if names.len() == 0 {
        Seq::empty()
    } else {
        backslashed(names.drop_last()) + seq!['\\'] + names.last()
    }
}

/// `q` as seen from `p`, which is taken word for word: `q` is resolved, for `.` and `..` have no
/// meaning there.
pub open spec fn joined_verbatim(p: Seq<char>, q: Seq<char>) -> Seq<char> {
    let style = PathStyle::Windows;
    let from_root = starts_at_root(style, q);
    let at = if from_root {
        Seq::empty()
    } else {
        components(rule_of(style, p), names(style, p))
    };
    let all = resolved(at, components(rule_of(style, q), q));
    if all.len() == 0 && (from_root || starts_at_root(style, p)) {
        prefix(style, p) + seq!['\\']
    } else {
        prefix(style, p) + backslashed(all)
    }
}

/// `q` as seen from `p`: alone if it is absolute or on a drive of its own.
pub open spec fn joined_path(style: PathStyle, p: Seq<char>, q: Seq<char>) -> Seq<char> {
    let rule = rule_of(style, p);
    if absolute(style, q) || prefix(style, q).len() > 0 {
        q
    } else if is_verbatim(style, p) && q.len() > 0 {
        joined_verbatim(p, q)
    } else if starts_at_root(style, q) {
        prefix(style, p) + q
    } else if p.len() == 0 || p.last() == '/' || p.last() == rule.main || (is_drive(
        prefix(style, p),
    ) && p.len() == 2) {
        p + q
    } else {
        p + seq![rule.main] + q
    }
}

fn resolve(at: Vec<Vec<char>>, names: &Vec<Vec<char>>) -> (out: Vec<Vec<char>>)
    ensures
        texts(out@) == resolved(texts(at@), texts(names@)),
{
    let ghost start = texts(at@);
    let ghost all = texts(names@);
    let mut out = at;
    let mut i: usize = 0;
    assert(all.take(0) =~= Seq::empty());
    while i < names.len()
        invariant
            i <= names@.len(),
            all == texts(names@),
            texts(out@) == resolved(start, all.take(i as int)),
        decreases names.len() - i,
    {
        let ghost before = texts(out@);
        let name = &names[i];
        assert(all.take(i + 1).drop_last() =~= all.take(i as int));
        assert(all.take(i + 1).last() == name@);
        if spells(name, "..") {
            proof {
                reveal_strlit(".");
                reveal_strlit("..");
            }
            if out.len() > 0 && !spells(&out[out.len() - 1], ".") && !spells(
                &out[out.len() - 1],
                "..",
            ) {
                assert(before.last() == out@[out@.len() - 1]@);
                let _ = out.pop();
                assert(texts(out@) =~= before.drop_last());
            } else if out.len() > 0 {
                assert(before.last() == out@[out@.len() - 1]@);
            }
        } else if !spells(name, ".") {
            out.push(copy_of(name));
            assert(texts(out@) =~= before.push(name@));
        }
        i += 1;
    }
    assert(all.take(i as int) =~= all);
    out
}

fn join_verbatim(p: &[char], q: &[char]) -> (out: Vec<char>)
    ensures
        out@ == joined_verbatim(p@, q@),
{
    let style = PathStyle::Windows;
    let rule = find_rule(style, q);
    let p_rule = find_rule(style, p);
    let (pre, _) = split_prefix(style, p);
    let (_, rest) = split_head(style, p);
    let from_root = rooted(style, q);
    let at_root = rooted(style, p);
    let at = if from_root {
        let none: Vec<Vec<char>> = Vec::new();
        assert(texts(none@) =~= Seq::empty());
        none
    } else {
        runs_of(rest, p_rule.component(), CharClass::Either(p_rule.main, p_rule.other))
    };
    let wanted = runs_of(q, rule.component(), CharClass::Either(rule.main, rule.other));
    let names = resolve(at, &wanted);
    let ghost all = texts(names@);
    let mut out = copy_of(pre);
    if names.len() == 0 && (from_root || at_root) {
        out.push('\\');
        assert(out@ =~= pre@ + seq!['\\']);
        return out;
    }
    let mut i: usize = 0;
    assert(all.take(0) =~= Seq::empty());
    assert(out@ =~= pre@ + backslashed(all.take(0)));
    while i < names.len()
        invariant
            i <= names@.len(),
            all == texts(names@),
            out@ == pre@ + backslashed(all.take(i as int)),
        decreases names.len() - i,
    {
        let ghost done = all.take(i as int);
        assert(all.take(i + 1).drop_last() =~= done);
        assert(all.take(i + 1).last() == names@[i as int]@);
        out.push('\\');
        push_all(&mut out, &names[i]);
        i += 1;
        assert(out@ =~= pre@ + backslashed(all.take(i as int)));
    }
    assert(all.take(i as int) =~= all);
    out
}

/// `q` as seen from `p`.
pub fn join_path(style: PathStyle, p: &[char], q: &[char]) -> (out: Vec<char>)
    ensures
        out@ == joined_path(style, p@, q@),
{
    let rule = find_rule(style, p);
    let (pre, _) = split_prefix(style, p);
    let (q_pre, _) = split_prefix(style, q);
    if is_absolute(style, q) || q_pre.len() > 0 {
        return copy_of(q);
    }
    if verbatim(style, p) && q.len() > 0 {
        return join_verbatim(p, q);
    }
    if rooted(style, q) {
        let mut out = copy_of(pre);
        push_all(&mut out, q);
        return out;
    }
    let mut out = copy_of(p);
    if p.len() > 0 && p[p.len() - 1] != '/' && p[p.len() - 1] != rule.main && !(pre.len() == 2
        && p.len() == 2) {
        out.push(rule.main);
        assert(out@ =~= p@ + seq![rule.main]);
    }
    push_all(&mut out, q);
    out
}

/// `name` as seen from `p`.
pub fn join_name(style: PathStyle, p: &[char], name: &str) -> (out: Vec<char>)
    ensures
        out@ == joined_path(style, p@, name@),
{
    let name = chars_of(name);
    join_path(style, p, &name)
}

// ---- Ancestors ----

/// A path, its parent, the parent of that, and so on.
pub open spec fn ancestors(style: PathStyle, p: Seq<char>) -> Seq<Seq<char>>
    decreases p.len(),
    via ancestors_decreases
{
    match parent(style, p) {
        Some(q) => seq![p] + ancestors(style, q),
        None => seq![p],
    }
}

#[via_fn]
proof fn ancestors_decreases(style: PathStyle, p: Seq<char>) {
    lemma_parent(style, p);
}

/// A path, its parent, the parent of that, and so on.
pub fn ancestors_of(style: PathStyle, p: &[char]) -> (out: Vec<Vec<char>>)
    ensures
        texts(out@) == ancestors(style, p@),
{
    let mut out: Vec<Vec<char>> = Vec::new();
    let mut at = p;
    let mut more: bool = true;
    assert(texts(out@) + ancestors(style, p@) =~= ancestors(style, p@));
    while more
        invariant
            more ==> texts(out@) + ancestors(style, at@) == ancestors(style, p@),
            !more ==> texts(out@) == ancestors(style, p@),
        decreases
                (if more {
                    at@.len() + 1
                } else {
                    0
                }),
    {
        let ghost before = texts(out@);
        out.push(copy_of(at));
        assert(texts(out@) =~= before + seq![at@]);
        match find_parent(style, at) {
            Some(q) => {
                assert(before + (seq![at@] + ancestors(style, q@)) =~= texts(out@) + ancestors(
                    style,
                    q@,
                ));
                at = q;
            },
            None => {
                more = false;
            },
        }
    }
    out
}

// ---- Prefixes ----

/// `p` without separators, and components `.`, at its start.
pub open spec fn left_trimmed(rule: PathRule, p: Seq<char>) -> Seq<char>
    decreases p.len(),
{
    if p.len() == 0 {
        p
    } else if rule.separates(p[0]) {
        left_trimmed(rule, p.skip(1))
    } else if rule.dots && p[0] == '.' && (p.len() == 1 || rule.separates(p[1])) {
        left_trimmed(rule, p.skip(1))
    } else {
        p
    }
}

/// The first component of `p`.
pub open spec fn first_component(rule: PathRule, p: Seq<char>) -> Seq<char> {
    p.take(lead(p, rule.within()) as int)
}

/// What stands behind the first component of `p`.
pub open spec fn behind_first(rule: PathRule, p: Seq<char>) -> Seq<char> {
    left_trimmed(rule, p.skip(lead(p, rule.within()) as int))
}

proof fn lemma_left_trimmed(rule: PathRule, p: Seq<char>)
    ensures
        left_trimmed(rule, p).len() <= p.len(),
        left_trimmed(rule, p) == p.skip(p.len() - left_trimmed(rule, p).len()),
        left_trimmed(rule, p).len() > 0 ==> !rule.separates(left_trimmed(rule, p)[0]),
    decreases p.len(),
{
    if p.len() > 0 && (rule.separates(p[0]) || (rule.dots && p[0] == '.' && (p.len() == 1
        || rule.separates(p[1])))) {
        lemma_left_trimmed(rule, p.skip(1));
        let t = left_trimmed(rule, p.skip(1));
        assert(p.skip(1).skip(p.skip(1).len() - t.len()) =~= p.skip(p.len() - t.len()));
    } else {
        assert(p.skip(0) =~= p);
    }
}

/// What is left of `p` behind the components of `base`, if it begins with them.
pub open spec fn stripped(rule: PathRule, p: Seq<char>, base: Seq<char>) -> Option<Seq<char>>
    decreases base.len(),
    via stripped_decreases
{
    if base.len() == 0 {
        Some(p)
    } else if p.len() == 0 || rule.separates(base[0]) || first_component(rule, p)
        != first_component(rule, base) {
        None
    } else {
        stripped(rule, behind_first(rule, p), behind_first(rule, base))
    }
}

#[via_fn]
proof fn stripped_decreases(rule: PathRule, p: Seq<char>, base: Seq<char>) {
    if base.len() > 0 && !rule.separates(base[0]) {
        let n = lead(base, rule.within());
        lemma_lead(base, rule.within());
        lemma_left_trimmed(rule, base.skip(n as int));
    }
}

/// The prefix of `p` as it is compared: with backslashes, and a drive in lower case; the name
/// in one that is taken word for word stays as it is.
pub open spec fn compared_prefix(style: PathStyle, p: Seq<char>) -> Seq<char> {
    let pre = prefix(style, p);
    if is_drive(pre) {
        seq![ascii_lower(pre[0]), ':']
    } else if is_verbatim(style, p) {
        if pre.len() == 6 && drive_at(pre, 4) {
            pre.update(4, ascii_lower(pre[4]))
        } else if pre.len() >= 8 && pre[4] == 'U' && pre[5] == 'N' && pre[6] == 'C' && is_slash(
            pre[7],
        ) {
            pre.update(7, '\\')
        } else {
            pre
        }
    } else {
        Seq::new(
            pre.len(),
            |i: int|
                if pre[i] == '/' {
                    '\\'
                } else {
                    pre[i]
                },
        )
    }
}

fn compare_prefix(style: PathStyle, p: &[char]) -> (out: Vec<char>)
    ensures
        out@ == compared_prefix(style, p@),
{
    let (pre, _) = split_prefix(style, p);
    let mut out = copy_of(pre);
    if pre.len() == 2 {
        out.set(0, to_lower(pre[0]));
        proof {
            lemma_prefix_len(style, p@);
            lemma_drive(style, p@);
        }
        assert(out@ =~= compared_prefix(style, p@));
        return out;
    }
    if verbatim(style, p) {
        if pre.len() == 6 && is_drive_at(pre, 4) {
            out.set(4, to_lower(pre[4]));
        } else if pre.len() >= 8 && pre[4] == 'U' && pre[5] == 'N' && pre[6] == 'C' && slash(
            pre[7],
        ) {
            out.set(7, '\\');
        }
        return out;
    }
    let mut i: usize = 0;
    while i < pre.len()
        invariant
            i <= pre@.len(),
            out@.len() == pre@.len(),
            forall|k: int|
                0 <= k < pre@.len() ==> #[trigger] out@[k] == if k < i && pre@[k] == '/' {
                    '\\'
                } else {
                    pre@[k]
                },
        decreases pre.len() - i,
    {
        if pre[i] == '/' {
            out.set(i, '\\');
        }
        i += 1;
    }
    assert(out@ =~= compared_prefix(style, p@));
    out
}

/// A prefix of two characters is a drive.
proof fn lemma_drive(style: PathStyle, p: Seq<char>)
    requires
        prefix_len(style, p) == 2,
    ensures
        drive_at(p, 0),
{
    let rule = rule_of(style, p);
    assert forall|i: int| 0 <= i <= p.len() implies i <= #[trigger] component_end(rule, p, i)
        <= p.len() by {
        lemma_lead(p.skip(i), rule.within());
    }
}

/// Whether a path begins at a root, that of a share or a device included.
pub open spec fn has_root(style: PathStyle, p: Seq<char>) -> bool {
    let pre = prefix(style, p);
    starts_at_root(style, p) || (pre.len() > 0 && !is_drive(pre) && !is_verbatim(style, p))
}

/// What is left of the path `p` behind the path `base`, if it begins with it.
pub open spec fn without_prefix(style: PathStyle, p: Seq<char>, base: Seq<char>) -> Option<
    Seq<char>,
> {
    let rule = rule_of(style, p);
    let b = body(style, p);
    let base_body = body(style, base);
    if base.len() == 0 {
        Some(prefix(style, p) + right_trimmed(rule, b))
    } else if compared_prefix(style, p) != compared_prefix(style, base) {
        None
    } else if base_body.len() == 0 && !has_root(style, base) {
        Some(right_trimmed(rule, b))
    } else if has_root(style, p) != has_root(style, base) {
        None
    } else {
        let rest = if has_root(style, p) {
            stripped(
                rule,
                left_trimmed(rule, names(style, p)),
                left_trimmed(rule, names(style, base)),
            )
        } else {
            stripped(rule, b, base_body)
        };
        match rest {
            Some(rest) => Some(right_trimmed(rule, rest)),
            None => None,
        }
    }
}

fn trim_left<'a>(rule: PathRule, p: &'a [char]) -> (r: &'a [char])
    ensures
        r@ == left_trimmed(rule, p@),
{
    let mut n: usize = 0;
    assert(p@.skip(0) =~= p@);
    while n < p.len() && (rule.is_separator(p[n]) || (rule.dots && p[n] == '.' && (n + 1 == p.len()
        || rule.is_separator(p[n + 1]))))
        invariant
            n <= p@.len(),
            left_trimmed(rule, p@) == left_trimmed(rule, p@.skip(n as int)),
        decreases p.len() - n,
    {
        let ghost t = p@.skip(n as int);
        assert(t[0] == p@[n as int]);
        if n + 1 < p.len() {
            assert(t[1] == p@[n + 1]);
        }
        assert(t.skip(1) =~= p@.skip(n + 1));
        n += 1;
    }
    proof {
        let t = p@.skip(n as int);
        if n < p@.len() {
            assert(t[0] == p@[n as int]);
            if n + 1 < p@.len() {
                assert(t[1] == p@[n + 1]);
            }
        }
        assert(left_trimmed(rule, t) == t);
    }
    let r = vstd::slice::slice_subrange(p, n, p.len());
    assert(r@ =~= p@.skip(n as int));
    r
}

fn strip<'a>(rule: PathRule, path: &'a [char], start: &[char]) -> (r: Option<&'a [char]>)
    ensures
        match stripped(rule, path@, start@) {
            Some(rest) => r is Some && r->0@ == rest,
            None => r is None,
        },
{
    let mut p = path;
    let mut base = start;
    while base.len() > 0
        invariant
            stripped(rule, path@, start@) == stripped(rule, p@, base@),
        decreases base@.len(),
    {
        if p.len() == 0 || rule.is_separator(base[0]) {
            return None;
        }
        let n = lead_len(p, 0, rule.component());
        let m = lead_len(base, 0, rule.component());
        assert(p@.skip(0) =~= p@);
        assert(base@.skip(0) =~= base@);
        let first = vstd::slice::slice_subrange(p, 0, n);
        let wanted = vstd::slice::slice_subrange(base, 0, m);
        assert(first@ =~= first_component(rule, p@));
        assert(wanted@ =~= first_component(rule, base@));
        if !same_text(first, wanted) {
            return None;
        }
        proof {
            lemma_lead(base@, rule.within());
            lemma_left_trimmed(rule, base@.skip(m as int));
        }
        let p_rest = vstd::slice::slice_subrange(p, n, p.len());
        let base_rest = vstd::slice::slice_subrange(base, m, base.len());
        assert(p_rest@ =~= p@.skip(n as int));
        assert(base_rest@ =~= base@.skip(m as int));
        p = trim_left(rule, p_rest);
        base = trim_left(rule, base_rest);
    }
    Some(p)
}

fn root_of(style: PathStyle, p: &[char]) -> (r: bool)
    ensures
        r == has_root(style, p@),
{
    let (pre, _) = split_prefix(style, p);
    rooted(style, p) || (pre.len() > 0 && pre.len() != 2 && !verbatim(style, p))
}

/// What is left of the path `p` behind the path `base`, if it begins with it.
pub fn strip_prefix<'a>(style: PathStyle, p: &'a [char], base: &[char]) -> (r: Option<&'a [char]>)
    ensures
        match without_prefix(style, p@, base@) {
            Some(rest) => r is Some && r->0@ == rest,
            None => r is None,
        },
{
    let rule = find_rule(style, p);
    let (pre, b) = split_prefix(style, p);
    if base.len() == 0 {
        let kept = trim_right(rule, b);
        proof {
            lemma_prefix_len(style, p@);
            lemma_right_trimmed(rule, b@);
        }
        assert(pre.len() + kept.len() <= p.len());
        let r = vstd::slice::slice_subrange(p, 0, pre.len() + kept.len());
        assert(r@ =~= pre@ + kept@);
        return Some(r);
    }
    if !same_text(&compare_prefix(style, p), &compare_prefix(style, base)) {
        return None;
    }
    let (_, base_body) = split_prefix(style, base);
    let from_root = root_of(style, p);
    let base_from_root = root_of(style, base);
    if base_body.len() == 0 && !base_from_root {
        return Some(trim_right(rule, b));
    }
    if from_root != base_from_root {
        return None;
    }
    let rest = if from_root {
        let (_, p_names) = split_head(style, p);
        let (_, base_names) = split_head(style, base);
        strip(rule, trim_left(rule, p_names), trim_left(rule, base_names))
    } else {
        strip(rule, b, base_body)
    };
    match rest {
        Some(rest) => Some(trim_right(rule, rest)),
        None => None,
    }
}

// ---- What joining keeps ----

/// Whether `s` may stand between `b` and a relative path: a separator, or nothing if `b` ends
/// with one.
spec fn separates(b: Seq<char>, s: Seq<char>) -> bool {
    s == seq!['/'] || (s.len() == 0 && (b.len() == 0 || b.last() == '/'))
}

/// Whether `q` is a relative path with nothing to trim.
pub open spec fn plain_relative(q: Seq<char>) -> bool {
    q.len() > 0 && left_trimmed(posix_rule(), q) == q && right_trimmed(posix_rule(), q) == q
}

proof fn lemma_trim_before(x: Seq<char>, s: Seq<char>, q: Seq<char>)
    requires
        separates(x, s),
        plain_relative(q),
    ensures
        left_trimmed(posix_rule(), x + s + q) == left_trimmed(
            posix_rule(),
            left_trimmed(posix_rule(), x) + s + q,
        ),
        separates(left_trimmed(posix_rule(), x), s),
    decreases x.len(),
{
    let all = x + s + q;
    if x.len() > 0 && (x[0] == '/' || (x[0] == '.' && (x.len() == 1 || x[1] == '/'))) {
        assert(all[0] == x[0]);
        if x.len() > 1 {
            assert(all[1] == x[1]);
            assert(x.skip(1).last() == x.last());
        } else if x[0] == '.' {
            assert(s == seq!['/']);
            assert(all[1] == '/');
        }
        assert(all.skip(1) =~= x.skip(1) + s + q);
        lemma_trim_before(x.skip(1), s, q);
    }
}

proof fn lemma_strip_joined(b: Seq<char>, s: Seq<char>, q: Seq<char>)
    requires
        separates(b, s),
        plain_relative(q),
        left_trimmed(posix_rule(), b) == b,
    ensures
        stripped(posix_rule(), left_trimmed(posix_rule(), b + s + q), b) == Some(q),
    decreases b.len(),
{
    let class = posix_rule().within();
    let all = b + s + q;
    if b.len() == 0 {
        if s.len() == 0 {
            assert(all =~= q);
        } else {
            assert(all.skip(1) =~= q);
            assert(all[0] == '/');
        }
    } else {
        lemma_left_trimmed(posix_rule(), b);
        lemma_lead(b, class);
        let n = lead(b, class);
        assert(all[0] == b[0]);
        if b.len() > 1 {
            assert(all[1] == b[1]);
        }
        assert(left_trimmed(posix_rule(), all) == all) by {
            if b[0] == '.' {
                assert(b.len() > 1 && b[1] != '/') by {
                    if b.len() == 1 || b[1] == '/' {
                        lemma_left_trimmed(posix_rule(), b.skip(1));
                    }
                }
            }
        }
        assert forall|j: int| 0 <= j < n implies class.has(#[trigger] all[j]) by {
            assert(all[j] == b[j]);
        }
        if n < b.len() {
            assert(all[n as int] == b[n as int]);
        } else {
            assert(class.has(b[b.len() - 1]));
            assert(s == seq!['/']);
            assert(all[n as int] == '/');
        }
        lemma_lead_is(all, class, n);
        assert(first_component(posix_rule(), all) =~= first_component(posix_rule(), b));
        let x = b.skip(n as int);
        assert(all.skip(n as int) =~= x + s + q);
        if x.len() > 0 {
            assert(x.last() == b.last());
        }
        lemma_trim_before(x, s, q);
        lemma_left_trimmed(posix_rule(), x);
        lemma_left_trimmed_twice(x);
        if n == 0 {
            assert(b[0] == '/');
        }
        lemma_strip_joined(left_trimmed(posix_rule(), x), s, q);
    }
}

proof fn lemma_left_trimmed_twice(p: Seq<char>)
    ensures
        left_trimmed(posix_rule(), left_trimmed(posix_rule(), p)) == left_trimmed(posix_rule(), p),
    decreases p.len(),
{
    if p.len() > 0 && (p[0] == '/' || (p[0] == '.' && (p.len() == 1 || p[1] == '/'))) {
        lemma_left_trimmed_twice(p.skip(1));
    }
}

/// With `/` between names, a path joined to an absolute one is what is left of the result behind
/// the absolute one.
pub proof fn law_prefix_of_joined_path(base: Seq<char>, q: Seq<char>)
    requires
        absolute(PathStyle::Posix, base),
        plain_relative(q),
    ensures
        without_prefix(
            PathStyle::Posix,
            joined_path(PathStyle::Posix, base, q),
            base,
        ) == Some(q),
{
    let s = if base.last() == '/' {
        Seq::empty()
    } else {
        seq!['/']
    };
    lemma_left_trimmed(posix_rule(), q);
    let style = PathStyle::Posix;
    let p = joined_path(style, base, q);
    assert(body(style, base) =~= base && body(style, p) =~= p && body(style, q) =~= q);
    assert(prefix(style, base) =~= prefix(style, p));
    assert(p =~= base + s + q);
    assert(absolute(style, p));
    lemma_trim_before(base, s, q);
    lemma_left_trimmed_twice(base);
    lemma_strip_joined(left_trimmed(posix_rule(), base), s, q);
}

/// Whether a path ends with the extension `pdf`, in any case.
pub open spec fn pdf_path(style: PathStyle, p: Seq<char>) -> bool {
    extension(style, p) matches Some(ext) && lower(ext) == "pdf"@
}

/// Whether a path ends with the extension `pdf`, in any case.
pub fn is_pdf_path(style: PathStyle, p: &[char]) -> (r: bool)
    ensures
        r == pdf_path(style, p@),
{
    match find_extension(style, p) {
        Some(ext) => spells(&lowered(&ext), "pdf"),
        None => false,
    }
}

// ---- Laws ----

/// The extension is what stands behind the last full stop; a full stop at the start of a name
/// begins none.
pub proof fn law_extension_is_behind_the_last_full_stop(stem: Seq<char>, ext: Seq<char>)
    requires
        !ext.contains('.'),
    ensures
        stem.len() > 0 ==> split_extension(stem + seq!['.'] + ext) == (stem, Some(ext)),
        split_extension(seq!['.'] + ext) == (seq!['.'] + ext, None::<Seq<char>>),
        split_extension(ext) == (ext, None::<Seq<char>>),
{
    let class = CharClass::Except('.');
    let name = stem + seq!['.'] + ext;
    let hidden = seq!['.'] + ext;
    assert forall|j: int| 0 <= j < ext.len() implies class.has(#[trigger] ext[j]) by {
        assert(ext.contains(ext[j]));
    }
    assert forall|j: int| name.len() - ext.len() <= j < name.len() implies class.has(
        #[trigger] name[j],
    ) by {
        assert(name[j] == ext[j - stem.len() - 1]);
    }
    assert(name[stem.len() as int] == '.');
    lemma_trail_is(name, class, ext.len());
    assert(name.take(stem.len() as int) =~= stem);
    assert(name.skip(stem.len() as int + 1) =~= ext);
    assert forall|j: int| hidden.len() - ext.len() <= j < hidden.len() implies class.has(
        #[trigger] hidden[j],
    ) by {
        assert(hidden[j] == ext[j - 1]);
    }
    lemma_trail_is(hidden, class, ext.len());
    lemma_trail_is(ext, class, ext.len());
}

/// Whether `name` is that of a file or a directory: no separator in it, and neither `.` nor `..`.
pub open spec fn is_plain_name(rule: PathRule, name: Seq<char>) -> bool {
    &&& name.len() > 0
    &&& name != "."@
    &&& name != ".."@
    &&& forall|j: int| 0 <= j < name.len() ==> !rule.separates(#[trigger] name[j])
}

proof fn lemma_last_component(rule: PathRule, before: Seq<char>, name: Seq<char>)
    requires
        is_plain_name(rule, name),
        before.len() > 0 ==> rule.separates(before.last()),
    ensures
        last_component(rule, before + name) == (before, name),
{
    reveal_strlit(".");
    let all = before + name;
    assert(all.last() == name.last());
    assert(!rule.separates(name[name.len() - 1]));
    if all.len() > 1 && name.last() == '.' {
        if name.len() == 1 {
            assert(name =~= "."@);
        } else {
            assert(all[all.len() - 2] == name[name.len() - 2]);
        }
    }
    assert(right_trimmed(rule, all) == all);
    assert forall|j: int| all.len() - name.len() <= j < all.len() implies rule.within().has(
        #[trigger] all[j],
    ) by {
        assert(all[j] == name[j - before.len()]);
    }
    if before.len() > 0 {
        assert(all[before.len() - 1] == before.last());
    }
    lemma_trail_is(all, rule.within(), name.len());
    assert(all.take(before.len() as int) =~= before);
    assert(all.skip(before.len() as int) =~= name);
}

/// Whether `dir` ends with a name, so that nothing at its end is left out.
pub open spec fn ends_with_a_name(dir: Seq<char>) -> bool {
    &&& dir.len() > 0
    &&& dir.last() != '/'
    &&& dir.last() == '.' ==> dir.len() > 1 && dir[dir.len() - 2] != '/'
}

proof fn lemma_trim_separator(dir: Seq<char>)
    requires
        dir.len() > 0,
    ensures
        right_trimmed(posix_rule(), dir + seq!['/']) == right_trimmed(posix_rule(), dir),
        right_trimmed(posix_rule(), dir + seq!['/', '.']) == right_trimmed(posix_rule(), dir),
{
    assert((dir + seq!['/']).drop_last() =~= dir);
    let rule = posix_rule();
    assert(right_trimmed(rule, dir + seq!['/']) == right_trimmed(rule, dir));
    let p = dir + seq!['/', '.'];
    assert(p.last() == '.' && p[p.len() - 2] == '/');
    assert(p.drop_last() =~= dir + seq!['/']);
    assert(right_trimmed(rule, p) == right_trimmed(rule, p.drop_last()));
}

/// With `/` between names, the last of them is the name of a path, and what stands before it the
/// parent; a separator at the end, or one and a `.`, changes neither. There is nothing above the
/// root.
pub proof fn law_last_name_counts(dir: Seq<char>, name: Seq<char>)
    requires
        is_plain_name(posix_rule(), name),
    ensures
        ({
            let style = PathStyle::Posix;
            &&& file_name(style, name) == Some(name)
            &&& parent(style, name) == Some(Seq::<char>::empty())
            &&& file_name(style, dir + seq!['/'] + name) == Some(name)
            &&& file_name(style, dir + seq!['/'] + name + seq!['/']) == Some(name)
            &&& file_name(style, dir + seq!['/'] + name + seq!['/', '.']) == Some(name)
            &&& ends_with_a_name(dir) ==> parent(style, dir + seq!['/'] + name) == Some(dir)
            &&& parent(style, seq!['/'] + name) == Some(seq!['/'])
            &&& file_name(style, seq!['/']) is None
            &&& parent(style, seq!['/']) is None
            &&& file_name(style, Seq::empty()) is None
            &&& parent(style, Seq::empty()) is None
        }),
{
    let style = PathStyle::Posix;
    let before = dir + seq!['/'];
    let p = before + name;
    assert(before.last() == '/');
    let none = Seq::<char>::empty();
    assert(none + name =~= name);
    lemma_name_of(none, name);
    lemma_name_of(before, name);
    lemma_trim_separator(p);
    lemma_no_head(p);
    lemma_no_head(p + seq!['/']);
    lemma_no_head(p + seq!['/', '.']);
    if ends_with_a_name(dir) {
        lemma_trim_separator(dir);
        assert(right_trimmed(posix_rule(), dir) == dir);
    }
    let root = seq!['/'];
    lemma_name_of(root, name);
    lemma_no_head(root);
    lemma_no_head(none);
    lemma_trail(root, posix_rule().within());
    lemma_trail(none, posix_rule().within());
    assert(trail(root, posix_rule().within()) == 0);
}

proof fn lemma_no_head(p: Seq<char>)
    ensures
        names(PathStyle::Posix, p) == p,
        head(PathStyle::Posix, p).len() == 0,
        rule_of(PathStyle::Posix, p) == posix_rule(),
{
    assert(names(PathStyle::Posix, p) =~= p);
}

proof fn lemma_name_of(before: Seq<char>, name: Seq<char>)
    requires
        is_plain_name(posix_rule(), name),
        before.len() > 0 ==> before.last() == '/',
    ensures
        file_name(PathStyle::Posix, before + name) == Some(name),
        parent(PathStyle::Posix, before + name) == Some(right_trimmed(posix_rule(), before)),
{
    let p = before + name;
    lemma_no_head(p);
    lemma_last_component(posix_rule(), before, name);
    let t = right_trimmed(posix_rule(), before);
    assert(head(PathStyle::Posix, p) + t =~= t);
}

/// On Windows a path may be on a drive, and either slash stands between names; the last name is
/// that of the path.
pub proof fn law_last_name_counts_on_a_drive(
    drive: char,
    dir: Seq<char>,
    separator: char,
    name: Seq<char>,
)
    requires
        'a' <= drive <= 'z' || 'A' <= drive <= 'Z',
        separator == '/' || separator == '\\',
        is_plain_name(PathRule { main: '\\', other: '/', dots: true }, name),
    ensures
        file_name(PathStyle::Windows, seq![drive, ':'] + dir + seq![separator] + name) == Some(
            name,
        ),
        prefix(PathStyle::Windows, seq![drive, ':'] + dir) == seq![drive, ':'],
        absolute(PathStyle::Windows, seq![drive, ':', separator] + dir),
        !absolute(PathStyle::Windows, seq![drive, ':'] + name),
{
    let style = PathStyle::Windows;
    let rule = PathRule { main: '\\', other: '/', dots: true };
    let p = seq![drive, ':'] + dir + seq![separator] + name;
    let before = dir + seq![separator];
    assert(p[0] == drive && p[1] == ':');
    assert(names(style, p) =~= before + name);
    lemma_last_component(rule, before, name);
    let q = seq![drive, ':'] + dir;
    assert(q[0] == drive && q[1] == ':');
    assert(prefix(style, q) =~= seq![drive, ':']);
    let r = seq![drive, ':', separator] + dir;
    assert(r[0] == drive && r[1] == ':' && r[2] == separator);
    assert(body(style, r)[0] == separator);
    let t = seq![drive, ':'] + name;
    assert(t[0] == drive && t[1] == ':');
    assert(body(style, t) =~= name);
}

/// With `/` between names, a path that begins with `/` stands for itself wherever it is seen
/// from; another is put behind where it is seen from, with one separator between.
pub proof fn law_relative_paths_are_put_behind(p: Seq<char>, q: Seq<char>)
    ensures
        absolute(PathStyle::Posix, q) <==> q.len() > 0 && q[0] == '/',
        q.len() > 0 && q[0] == '/' ==> joined_path(PathStyle::Posix, p, q) == q,
        (q.len() == 0 || q[0] != '/') && (p.len() == 0 || p.last() == '/') ==> joined_path(
            PathStyle::Posix,
            p,
            q,
        ) == p + q,
        (q.len() == 0 || q[0] != '/') && p.len() > 0 && p.last() != '/' ==> joined_path(
            PathStyle::Posix,
            p,
            q,
        ) == p + seq!['/'] + q,
{
    assert(body(PathStyle::Posix, q) =~= q);
    assert(prefix(PathStyle::Posix, p).len() == 0);
}

/// On Windows, what begins at the root stays on the drive that it is seen from, what is on a drive
/// of its own stands for itself, and the rest is put behind, with a backslash where a separator is
/// missing.
pub proof fn law_relative_paths_are_put_behind_a_drive(
    drive: char,
    dir: Seq<char>,
    q: Seq<char>,
    other: char,
)
    requires
        'a' <= drive <= 'z' || 'A' <= drive <= 'Z',
        'a' <= other <= 'z' || 'A' <= other <= 'Z',
        q.len() > 0,
        q[0] != '/' && q[0] != '\\',
        q.len() > 1 ==> q[1] != ':',
        dir.len() > 0,
        dir.last() != '/' && dir.last() != '\\',
    ensures
        ({
            let style = PathStyle::Windows;
            let p = seq![drive, ':'] + dir;
            &&& joined_path(style, p, q) == p + seq!['\\'] + q
            &&& joined_path(style, p + seq!['\\'], q) == p + seq!['\\'] + q
            &&& joined_path(style, p, seq!['\\'] + q) == seq![drive, ':', '\\'] + q
            &&& joined_path(style, p, seq![other, ':'] + q) == seq![other, ':'] + q
        }),
{
    let style = PathStyle::Windows;
    let p = seq![drive, ':'] + dir;
    let p1 = p + seq!['\\'];
    let q1 = seq!['\\'] + q;
    let q2 = seq![other, ':'] + q;
    assert(p[0] == drive && p[1] == ':' && p.last() == dir.last());
    assert(p1[0] == drive && p1[1] == ':' && p1.last() == '\\');
    assert(q1[0] == '\\' && q1[1] == q[0]);
    assert(q2[0] == other && q2[1] == ':');
    assert(prefix(style, p) =~= seq![drive, ':']);
    assert(prefix(style, p1) =~= seq![drive, ':']);
    assert(prefix(style, q).len() == 0 && body(style, q) =~= q);
    assert(prefix(style, q1).len() == 0 && body(style, q1) =~= q1);
    assert(prefix(style, q2).len() == 2);
    assert(seq![drive, ':'] + q1 =~= seq![drive, ':', '\\'] + q);
}

/// On Windows a share, with its server, is one prefix, and has a root of its own.
pub proof fn law_share_is_a_prefix(
    server: Seq<char>,
    share: Seq<char>,
    separator: char,
    rest: Seq<char>,
)
    requires
        is_plain_name(PathRule { main: '\\', other: '/', dots: true }, server),
        is_plain_name(PathRule { main: '\\', other: '/', dots: true }, share),
        separator == '/' || separator == '\\',
        server != "?"@,
        rest.len() > 0 ==> rest[0] == '/' || rest[0] == '\\',
    ensures
        ({
            let pre = seq![separator, separator] + server + seq![separator] + share;
            &&& prefix(PathStyle::Windows, pre + rest) == pre
            &&& absolute(PathStyle::Windows, pre + rest)
        }),
{
    reveal_strlit(".");
    reveal_strlit("?");
    let rule = PathRule { main: '\\', other: '/', dots: true };
    let style = PathStyle::Windows;
    let pre = seq![separator, separator] + server + seq![separator] + share;
    let p = pre + rest;
    let n = server.len();
    assert(p[0] == separator && p[1] == separator && p[2] == server[0]);
    assert(!rule.separates(server[0]));
    if n == 1 {
        if server[0] == '.' {
            assert(server =~= "."@);
        }
        if server[0] == '?' {
            assert(server =~= "?"@);
        }
    } else {
        assert(p[3] == server[1]);
    }
    let s2 = p.skip(2);
    assert forall|j: int| 0 <= j < n implies rule.within().has(#[trigger] s2[j]) by {
        assert(s2[j] == server[j]);
    }
    assert(s2[n as int] == separator);
    lemma_lead_is(s2, rule.within(), n);
    let s3 = p.skip(3 + n as int);
    let m = share.len();
    assert forall|j: int| 0 <= j < m implies rule.within().has(#[trigger] s3[j]) by {
        assert(s3[j] == share[j]);
    }
    if rest.len() > 0 {
        assert(s3[m as int] == rest[0]);
    }
    lemma_lead_is(s3, rule.within(), m);
    assert(component_end(rule, p, 2) == 2 + n);
    assert(p[2 + n as int] == separator);
    assert(component_end(rule, p, 3 + n as int) == 3 + n + m);
    assert(p.take(pre.len() as int) =~= pre);
}

proof fn lemma_trim_longer(x: Seq<char>, t: Seq<char>)
    requires
        ends_with_a_name(x),
    ensures
        left_trimmed(posix_rule(), x + t) == left_trimmed(posix_rule(), x) + t,
        ends_with_a_name(left_trimmed(posix_rule(), x)),
    decreases x.len(),
{
    let all = x + t;
    assert(all[0] == x[0]);
    if x.len() > 1 {
        assert(all[1] == x[1]);
    }
    if x[0] == '/' || (x[0] == '.' && x[1] == '/') {
        assert(x.len() > 1);
        let y = x.skip(1);
        assert(y.last() == x.last());
        if y.len() > 1 {
            assert(y[y.len() - 2] == x[x.len() - 2]);
        }
        assert(all.skip(1) =~= y + t);
        lemma_trim_longer(y, t);
    }
}

proof fn lemma_longer_name(b: Seq<char>, t: Seq<char>)
    requires
        ends_with_a_name(b),
        b[0] != '/',
        t.len() > 0,
        t[0] != '/',
    ensures
        stripped(posix_rule(), b + t, b) is None,
    decreases b.len(),
{
    let rule = posix_rule();
    let class = rule.within();
    let all = b + t;
    lemma_lead(b, class);
    lemma_lead(all, class);
    let n = lead(b, class);
    if n == b.len() {
        assert(all[n as int] == t[0]);
        assert forall|j: int| 0 <= j <= n implies class.has(#[trigger] all[j]) by {
            if j < n {
                assert(all[j] == b[j]);
            }
        }
        assert(lead(all, class) > n);
        assert(first_component(rule, all).len() > n);
    } else {
        assert forall|j: int| 0 <= j < n implies class.has(#[trigger] all[j]) by {
            assert(all[j] == b[j]);
        }
        assert(all[n as int] == b[n as int]);
        lemma_lead_is(all, class, n);
        let x = b.skip(n as int);
        assert(all.skip(n as int) =~= x + t);
        assert(x.last() == b.last());
        assert(b[n as int] == '/');
        if x.len() == 1 {
            assert(x[0] == b.last());
        } else {
            assert(x[x.len() - 2] == b[b.len() - 2]);
        }
        lemma_trim_longer(x, t);
        lemma_left_trimmed(rule, x);
        assert(n > 0);
        lemma_longer_name(left_trimmed(rule, x), t);
    }
}

/// With `/` between names, a path is within another only name by name: one whose name merely begins
/// with that of the other is not, nor is one that does not begin at the root where the other does.
pub proof fn law_longer_names_are_not_within(base: Seq<char>, t: Seq<char>)
    requires
        ends_with_a_name(base),
        base[0] == '/',
        t.len() > 0,
    ensures
        t[0] != '/' ==> without_prefix(PathStyle::Posix, base + t, base) is None,
        t[0] != '/' ==> without_prefix(PathStyle::Posix, t, base) is None,
        without_prefix(PathStyle::Posix, base, base) == Some(Seq::<char>::empty()),
{
    let style = PathStyle::Posix;
    let rule = posix_rule();
    let p = base + t;
    assert(body(style, base) =~= base && body(style, p) =~= p && body(style, t) =~= t);
    assert(prefix(style, base) =~= prefix(style, p));
    assert(prefix(style, base) =~= prefix(style, t));
    assert(p[0] == '/');
    lemma_trim_longer(base, t);
    lemma_left_trimmed(rule, base);
    let b = left_trimmed(rule, base);
    if t[0] != '/' {
        lemma_longer_name(b, t);
    }
    lemma_strip_all(b);
}

proof fn lemma_strip_all(b: Seq<char>)
    requires
        b.len() > 0 ==> b[0] != '/',
    ensures
        stripped(posix_rule(), b, b) == Some(Seq::<char>::empty()),
    decreases b.len(),
{
    if b.len() > 0 {
        lemma_lead(b, posix_rule().within());
        let n = lead(b, posix_rule().within());
        lemma_left_trimmed(posix_rule(), b.skip(n as int));
        lemma_strip_all(behind_first(posix_rule(), b));
    } else {
        assert(b =~= Seq::empty());
    }
}

/// The ancestors of a path begin with itself; each is followed by its parent, and the last has
/// none.
pub proof fn law_ancestors_lead_to_the_root(style: PathStyle, p: Seq<char>)
    ensures
        ancestors(style, p).len() > 0,
        ancestors(style, p)[0] == p,
        forall|i: int|
            0 <= i < ancestors(style, p).len() - 1 ==> parent(
                style,
                #[trigger] ancestors(style, p)[i],
            ) == Some(ancestors(style, p)[i + 1]),
        parent(style, ancestors(style, p).last()) is None,
    decreases p.len(),
{
    if parent(style, p) is Some {
        let q = parent(style, p)->0;
        lemma_parent(style, p);
        law_ancestors_lead_to_the_root(style, q);
        let all = ancestors(style, p);
        let above = ancestors(style, q);
        assert(all =~= seq![p] + above);
        assert forall|i: int| 0 <= i < all.len() - 1 implies parent(style, #[trigger] all[i])
            == Some(all[i + 1]) by {
            if i > 0 {
                assert(all[i] == above[i - 1]);
                assert(all[i + 1] == above[i]);
            }
        }
        assert(all.last() == above.last());
    }
}

/// The way up undoes the name before it, and there is none from the top; `.` goes nowhere.
pub proof fn law_way_up_undoes_a_name(at: Seq<Seq<char>>, names: Seq<Seq<char>>, name: Seq<char>)
    requires
        name != "."@,
        name != ".."@,
    ensures
        resolved(at, names.push(name).push(".."@)) == resolved(at, names),
        resolved(at, names.push("."@)) == resolved(at, names),
        resolved(at, names.push(name)) == resolved(at, names).push(name),
        resolved(at, names).len() == 0 ==> resolved(at, names.push(".."@)).len() == 0,
        resolved(at, Seq::empty()) == at,
        backslashed(names.push(name)) == backslashed(names) + seq!['\\'] + name,
        backslashed(Seq::empty()).len() == 0,
{
    reveal_strlit(".");
    reveal_strlit("..");
    assert(names.push(name).push(".."@).drop_last() =~= names.push(name));
    assert(names.push(name).drop_last() =~= names);
    assert(names.push("."@).drop_last() =~= names);
    assert(names.push(".."@).drop_last() =~= names);
    assert(".."@.len() == 2 && "."@.len() == 1);
    assert(resolved(at, names).push(name).drop_last() =~= resolved(at, names));
    assert(resolved(at, names.push(name)).last() == name);
    assert(names.push(name).push(".."@).last() == ".."@);
    assert(".."@ != "."@);
}

/// A path is that of a PDF if its name ends with `.pdf`, in any case, behind something.
pub proof fn law_pdfs_are_known_by_their_extension(dir: Seq<char>, stem: Seq<char>, ext: Seq<char>)
    requires
        stem.len() > 0,
        !stem.contains('/'),
        !ext.contains('/'),
        !ext.contains('.'),
        stem != "."@ || ext.len() > 0,
    ensures
        pdf_path(PathStyle::Posix, dir + seq!['/'] + (stem + seq!['.'] + ext)) <==> lower(ext)
            == "pdf"@,
        pdf_path(PathStyle::Posix, stem + seq!['.'] + ext) <==> lower(ext) == "pdf"@,
        ext.len() > 0 ==> !pdf_path(PathStyle::Posix, dir + seq!['/'] + (seq!['.'] + ext)),
{
    reveal_strlit(".");
    reveal_strlit("..");
    let style = PathStyle::Posix;
    let name = stem + seq!['.'] + ext;
    let hidden = seq!['.'] + ext;
    assert(name.len() > 1);
    if name.len() == 2 {
        if name =~= ".."@ {
            assert(stem[0] == name[0]);
            assert(stem =~= "."@);
        }
    }
    assert forall|j: int| 0 <= j < name.len() implies !posix_rule().separates(
        #[trigger] name[j],
    ) by {
        if j < stem.len() {
            assert(stem.contains(stem[j]));
        } else if j > stem.len() {
            assert(name[j] == ext[j - stem.len() - 1]);
            assert(ext.contains(ext[j - stem.len() - 1]));
        }
    }
    law_last_name_counts(dir, name);
    law_extension_is_behind_the_last_full_stop(stem, ext);
    if ext.len() > 0 {
        assert forall|j: int| 0 <= j < hidden.len() implies !posix_rule().separates(
            #[trigger] hidden[j],
        ) by {
            if j > 0 {
                assert(hidden[j] == ext[j - 1]);
                assert(ext.contains(ext[j - 1]));
            }
        }
        assert(hidden[1] == ext[0]);
        assert(ext.contains(ext[0]));
        law_last_name_counts(dir, hidden);
    }
}

/// On Windows the letter of a drive may be written in either case; what is on one drive is never
/// within what is on another.
pub proof fn law_drives_are_known_in_either_case(d: char, e: char, x: Seq<char>, y: Seq<char>)
    requires
        'a' <= d <= 'z' || 'A' <= d <= 'Z',
        'a' <= e <= 'z' || 'A' <= e <= 'Z',
    ensures
        ({
            let style = PathStyle::Windows;
            let p = seq![d, ':'] + x;
            let other = seq![e, ':'] + y;
            &&& ascii_lower(d) == ascii_lower(e) ==> without_prefix(style, p, other)
                == without_prefix(style, p, seq![d, ':'] + y)
            &&& ascii_lower(d) != ascii_lower(e) ==> without_prefix(style, p, other) is None
            &&& ascii_lower(d) == ascii_lower(e) && y.len() == 0 ==> without_prefix(
                style,
                p,
                other,
            ) == Some(right_trimmed(PathRule { main: '\\', other: '/', dots: true }, x))
        }),
{
    let style = PathStyle::Windows;
    let p = seq![d, ':'] + x;
    let other = seq![e, ':'] + y;
    let same = seq![d, ':'] + y;
    assert(p[0] == d && p[1] == ':');
    assert(other[0] == e && other[1] == ':');
    assert(same[0] == d && same[1] == ':');
    assert(body(style, p) =~= x && prefix(style, p) =~= seq![d, ':']);
    assert(body(style, other) =~= y && prefix(style, other) =~= seq![e, ':']);
    assert(body(style, same) =~= y && prefix(style, same) =~= seq![d, ':']);
    assert(compared_prefix(style, p) == seq![ascii_lower(d), ':']);
    assert(compared_prefix(style, other) == seq![ascii_lower(e), ':']);
    assert(compared_prefix(style, same) == seq![ascii_lower(d), ':']);
    assert(seq![ascii_lower(d), ':'][0] == ascii_lower(d));
    assert(seq![ascii_lower(e), ':'][0] == ascii_lower(e));
}

proof fn lemma_single_component(rule: PathRule, name: Seq<char>)
    requires
        name.len() > 0,
        forall|j: int| 0 <= j < name.len() ==> !rule.separates(#[trigger] name[j]),
    ensures
        components(rule, name) == seq![name],
        components(rule, seq![rule.main] + name) == seq![name],
{
    let class = rule.within();
    let gap = CharClass::Either(rule.main, rule.other);
    let none = Seq::<char>::empty();
    assert(complementary(class, gap));
    assert(is_run(name, class)) by {
        assert forall|j: int| 0 <= j < name.len() implies class.has(#[trigger] name[j]) by {
            assert(!rule.separates(name[j]));
        }
    }
    lemma_runs_front(name, none, class, gap);
    assert(name + none =~= name);
    lemma_lead(none, gap);
    assert(runs(none, class, gap).len() == 0);
    assert(seq![name] + runs(none, class, gap) =~= seq![name]);
    lemma_gaps_before_runs(seq![rule.main], name, class, gap);
}

/// Below a drive that is taken word for word, a name goes behind a backslash, and `..` leads up to
/// the root of the drive, for neither it nor `.` would have a meaning there.
pub proof fn law_names_are_resolved_below_a_literal_drive(d: char, at: Seq<char>, name: Seq<char>)
    requires
        'a' <= d <= 'z' || 'A' <= d <= 'Z',
        is_plain_name(PathRule { main: '\\', other: '/', dots: true }, at),
        is_plain_name(PathRule { main: '\\', other: '/', dots: true }, name),
        name.len() > 1 ==> name[1] != ':',
    ensures
        ({
            let style = PathStyle::Windows;
            let drive = seq!['\\', '\\', '?', '\\', d, ':'];
            let p = drive + seq!['\\'] + at;
            &&& joined_path(style, p, name) == p + seq!['\\'] + name
            &&& joined_path(style, p, "."@) == p
            &&& joined_path(style, p, ".."@) == drive + seq!['\\']
        }),
{
    reveal_strlit(".");
    reveal_strlit("..");
    let style = PathStyle::Windows;
    let rule = PathRule { main: '\\', other: '/', dots: true };
    let literal = PathRule { main: '\\', other: '\\', dots: false };
    let drive = seq!['\\', '\\', '?', '\\', d, ':'];
    let p = drive + seq!['\\'] + at;
    assert(p[0] == '\\' && p[1] == '\\' && p[2] == '?' && p[3] == '\\');
    assert(p[4] == d && p[5] == ':' && p[6] == '\\');
    assert(is_verbatim(style, p));
    assert(prefix_len(style, p) == 6);
    assert(prefix(style, p) =~= drive);
    assert(body(style, p) =~= seq!['\\'] + at);
    assert(names(style, p) =~= seq!['\\'] + at);
    assert forall|j: int| 0 <= j < at.len() implies !literal.separates(#[trigger] at[j]) by {
        assert(!rule.separates(at[j]));
    }
    lemma_single_component(literal, at);
    lemma_resolved_below(drive, at, name);
    lemma_resolved_below(drive, at, "."@);
    lemma_resolved_below(drive, at, ".."@);
    lemma_plain_joined(p, name);
    lemma_plain_joined(p, "."@);
    lemma_plain_joined(p, ".."@);
    lemma_single_component(rule, name);
    lemma_single_component(rule, "."@);
    lemma_single_component(rule, ".."@);
    assert(p =~= drive + (seq!['\\'] + at));
}

proof fn lemma_plain_joined(p: Seq<char>, q: Seq<char>)
    requires
        is_verbatim(PathStyle::Windows, p),
        q.len() > 0,
        !is_slash(q[0]),
        q.len() > 1 ==> q[1] != ':',
    ensures
        joined_path(PathStyle::Windows, p, q) == joined_verbatim(p, q),
        !starts_at_root(PathStyle::Windows, q),
        rule_of(PathStyle::Windows, q) == (PathRule { main: '\\', other: '/', dots: true }),
{
    assert(prefix_len(PathStyle::Windows, q) == 0);
    assert(body(PathStyle::Windows, q) =~= q);
}

proof fn lemma_resolved_below(drive: Seq<char>, at: Seq<char>, q: Seq<char>)
    requires
        at != "."@,
        at != ".."@,
    ensures
        q != "."@ && q != ".."@ ==> drive + backslashed(resolved(seq![at], seq![q])) == drive
            + seq!['\\'] + at + seq!['\\'] + q,
        q == "."@ ==> drive + backslashed(resolved(seq![at], seq![q])) == drive + seq!['\\'] + at,
        q == ".."@ ==> resolved(seq![at], seq![q]).len() == 0,
{
    reveal_strlit(".");
    reveal_strlit("..");
    assert(".."@.len() == 2 && "."@.len() == 1);
    let none = Seq::<Seq<char>>::empty();
    assert(seq![q].drop_last() =~= none);
    assert(resolved(seq![at], none) == seq![at]);
    assert(seq![at].drop_last() =~= none);
    assert(backslashed(none).len() == 0);
    assert(backslashed(seq![at]) =~= seq!['\\'] + at);
    let two = seq![at].push(q);
    assert(two.drop_last() =~= seq![at]);
    assert(backslashed(two) =~= seq!['\\'] + at + seq!['\\'] + q);
    assert(drive + backslashed(two) =~= drive + seq!['\\'] + at + seq!['\\'] + q);
    assert(drive + backslashed(seq![at]) =~= drive + seq!['\\'] + at);
    assert(seq![q].last() == q);
}

} // verus!
