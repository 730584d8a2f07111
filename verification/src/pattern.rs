//! Regular expressions, behind the four calls that the library makes.

use crate::text;
use vstd::prelude::*;

verus! {

/// What one match captured: group by group, the text of each that took part.
pub open spec fn groups_view(g: Seq<Option<String>>) -> Seq<Option<Seq<char>>> {
    g.map_values(|x: Option<String>| text::opt_view(x))
}

pub open spec fn opt_groups_view(g: Option<Vec<Option<String>>>) -> Option<Seq<Option<Seq<char>>>> {
    match g {
        Some(v) => Some(groups_view(v@)),
        None => None,
    }
}

/// The captures of several matches.
pub open spec fn all_groups_view(g: Seq<Vec<Option<String>>>) -> Seq<Seq<Option<Seq<char>>>> {
    g.map_values(|x: Vec<Option<String>>| groups_view(x@))
}

/// The text of a group, empty where it took no part.
pub open spec fn group_text(g: Seq<Option<Seq<char>>>, i: int) -> Seq<char> {
    if 0 <= i < g.len() {
        match g[i] {
            Some(t) => t,
            None => Seq::empty(),
        }
    } else {
        Seq::empty()
    }
}

/// Whether a group took part in the match.
pub open spec fn has_group(g: Seq<Option<Seq<char>>>, i: int) -> bool {
    0 <= i < g.len() && g[i] is Some
}

/// Whether the pattern matches anywhere in the text.
pub uninterp spec fn regex_matches(pattern: Seq<char>, text: Seq<char>) -> bool;

/// The captures of the leftmost match of the pattern in the text.
pub uninterp spec fn regex_groups(pattern: Seq<char>, text: Seq<char>) -> Option<Seq<Option<Seq<char>>>>;

/// The captures of the successive matches that do not overlap.
pub uninterp spec fn regex_all_groups(pattern: Seq<char>, text: Seq<char>) -> Seq<Seq<Option<Seq<char>>>>;

/// The texts of the successive matches that do not overlap.
pub uninterp spec fn regex_finds(pattern: Seq<char>, text: Seq<char>) -> Seq<Seq<char>>;

/// `regex::Regex::is_match` of the compiled pattern: a function of the pattern
/// and the text. A pattern that does not compile matches nothing.
#[verifier::external_body]
pub(crate) fn is_match(pattern: &str, text: &str) -> (r: bool)
    ensures
        r == regex_matches(pattern@, text@),
{
    regex::Regex::new(pattern).map(|re| re.is_match(text)).unwrap_or(false)
}

/// `regex::Regex::captures` of the compiled pattern on each of the texts: for
/// each a function of the pattern and the text. A pattern that does not compile
/// captures nothing.
#[verifier::external_body]
pub(crate) fn captures_each(pattern: &str, texts: &Vec<String>) -> (r: Vec<Option<Vec<Option<String>>>>)
    ensures
        r@.len() == texts@.len(),
        forall|i: int|
            0 <= i < r@.len() ==> opt_groups_view(#[trigger] r@[i]) == regex_groups(pattern@, texts@[i]@),
{
    let re = regex::Regex::new(pattern).ok();
    let one = |t: &String| {
        let found = re.as_ref()?.captures(t)?;
        Some(found.iter().map(|g| g.map(|m| m.as_str().to_string())).collect())
    };
    texts.iter().map(one).collect()
}

/// `regex::Regex::captures_iter` of the compiled pattern on each of the texts:
/// for each a function of the pattern and the text. A pattern that does not
/// compile captures nothing.
#[verifier::external_body]
pub(crate) fn captures_all_each(pattern: &str, texts: &Vec<String>) -> (r: Vec<Vec<Vec<Option<String>>>>)
    ensures
        r@.len() == texts@.len(),
        forall|i: int|
            0 <= i < r@.len() ==> all_groups_view((#[trigger] r@[i])@) == regex_all_groups(pattern@, texts@[i]@),
{
    let re = regex::Regex::new(pattern).ok();
    let strings = |c: regex::Captures| c.iter().map(|g| g.map(|m| m.as_str().to_string())).collect();
    let one = |t: &String| match &re {
        Some(re) => re.captures_iter(t).map(strings).collect(),
        None => Vec::new(),
    };
    texts.iter().map(one).collect()
}

/// `regex::Regex::find_iter` of the compiled pattern: a function of the pattern
/// and the text. A pattern that does not compile finds nothing.
#[verifier::external_body]
pub(crate) fn find_all(pattern: &str, text: &str) -> (r: Vec<String>)
    ensures
        text::views(r@) == regex_finds(pattern@, text@),
{
    match regex::Regex::new(pattern) {
        Ok(re) => re.find_iter(text).map(|m| m.as_str().to_string()).collect(),
        Err(_) => Vec::new(),
    }
}

/// The text of a group, empty where it took no part.
pub fn group(g: &Vec<Option<String>>, i: usize) -> (r: String)
    ensures
        r@ == group_text(groups_view(g@), i as int),
{
    proof {
        reveal_strlit("");
        assert(""@ =~= Seq::<char>::empty());
    }
    if i < g.len() {
        match &g[i] {
            Some(t) => t.clone(),
            None => "".to_owned(),
        }
    } else {
        "".to_owned()
    }
}

/// Whether a group took part in the match.
pub fn took_part(g: &Vec<Option<String>>, i: usize) -> (r: bool)
    ensures
        r == has_group(groups_view(g@), i as int),
{
    if i < g.len() {
        match &g[i] {
            Some(_) => true,
            None => false,
        }
    } else {
        false
    }
}

} // verus!
