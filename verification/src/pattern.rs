//! Search by regular expression.

use vstd::prelude::*;

verus! {

/// The groups of one match: the place of each in the text, counted in characters, where the
/// group took part in the match. The group with the number 0 is the whole match.
pub type Groups = Vec<Option<(usize, usize)>>;

/// What `regex::Regex::captures_iter` yields for `pattern` in `text`: for each match in turn
/// the places of its groups, counted in characters; none if `pattern` does not compile.
pub uninterp spec fn regex_matches(pattern: Seq<char>, text: Seq<char>) -> Option<
    Seq<Seq<Option<(usize, usize)>>>,
>;

/// The place of the group `k`; none if there is no such group or it took no part.
pub open spec fn group_at(groups: Seq<Option<(usize, usize)>>, k: int) -> Option<(usize, usize)> {
    if 0 <= k < groups.len() {
        groups[k]
    } else {
        None
    }
}

/// The place of the group `k`.
pub fn group_of(groups: &Groups, k: usize) -> (r: Option<(usize, usize)>)
    ensures
        r == group_at(groups@, k as int),
{
    if k < groups.len() {
        groups[k]
    } else {
        None
    }
}

/// The groups of each match in `matches`.
pub open spec fn groups_of(matches: Seq<Groups>) -> Seq<Seq<Option<(usize, usize)>>> {
    Seq::new(matches.len(), |i: int| matches[i]@)
}

/// One match in a text of `len` characters: it is in the text, and its groups are in it.
pub open spec fn match_placed(groups: Seq<Option<(usize, usize)>>, len: nat) -> bool {
    &&& groups.len() > 0
    &&& groups[0] is Some
    &&& (groups[0]->0).0 <= (groups[0]->0).1 <= len
    &&& forall|k: int|
        0 <= k < groups.len() && (#[trigger] groups[k]) is Some ==> (groups[0]->0).0
            <= (groups[k]->0).0 <= (groups[k]->0).1 <= (groups[0]->0).1
}

/// The matches are in the text, one behind the other without overlap.
pub open spec fn matches_placed(matches: Seq<Seq<Option<(usize, usize)>>>, len: nat) -> bool {
    &&& forall|i: int| 0 <= i < matches.len() ==> match_placed(#[trigger] matches[i], len)
    &&& forall|i: int, j: int|
        #![trigger matches[i], matches[j]]
        0 <= i < j < matches.len() ==> (matches[i][0]->0).1 <= (matches[j][0]->0).0
}

/// The pattern of a Markdown link target on the web; the group 1 is the address.
pub const LINK_URL_PATTERN: &'static str = "\\((https?://[^)\\s]+)\\)";

/// The pattern of an HTML attribute `src` with an address on the web, which is the group 3.
pub const SOURCE_URL_PATTERN: &'static str =
    "(src\\s*=\\s*)(['\"])(https?://[^'\"]+)(['\"])";

/// All matches of `pattern` in `text`, by `regex::Regex::new` and
/// `regex::Regex::captures_iter`. Claimed are the name of the result, and that the matches
/// stand in the text from left to right without overlap, each around its groups. The two
/// patterns of addresses compile.
#[verifier::external_body]
pub(crate) fn find_matches(pattern: &str, text: &str) -> (r: Option<Vec<Groups>>)
    ensures
        match r {
            Some(matches) => regex_matches(pattern@, text@) == Some(groups_of(matches@)),
            None => regex_matches(pattern@, text@) is None,
        },
        r is Some ==> matches_placed(groups_of(r->0@), text@.len()),
        pattern@ == LINK_URL_PATTERN@ || pattern@ == SOURCE_URL_PATTERN@ ==> r is Some,
{
    let re = regex::Regex::new(pattern).ok()?;
    let index = |at: usize| text[..at].chars().count();
    let matches = re.captures_iter(text).map(|captures| {
        captures.iter().map(|group| group.map(|m| (index(m.start()), index(m.end())))).collect()
    });
    Some(matches.collect())
}

} // verus!
