//! What the library relies on from the `regex` crate.
//!
//! Nothing here is proved. Each item names the function that it specifies and
//! says what is taken for granted of it. Which texts an expression matches is
//! not spelled out in general: the outcomes have names, which are functions of
//! the expression and the text alone. It is for expressions of literal text and
//! groups `(?P<name>[^/]+)`.

use regex::Regex;
use vstd::prelude::*;

use crate::pattern::Element;
use crate::plain::{
    finds_beginning, finds_reading, names_close, plain_beginning, plain_names, plain_source,
};
use crate::text::delimits;

verus! {

/// A compiled expression.
#[verifier::external_type_specification]
#[verifier::external_body]
pub struct ExRegex(regex::Regex);

/// The reason why an expression does not compile.
#[verifier::external_type_specification]
#[verifier::external_body]
pub struct ExRegexError(regex::Error);

/// What a compiled expression holds: the text that it was compiled from.
pub uninterp spec fn regex_source(re: regex::Regex) -> Seq<char>;

/// Whether `Regex::new` accepts an expression.
pub uninterp spec fn regex_compiles(source: Seq<char>) -> bool;

/// The names that `Regex::capture_names` lists for an expression, one for each
/// of its groups.
pub uninterp spec fn regex_group_names(source: Seq<char>) -> Seq<Option<Seq<char>>>;

/// What `Regex::captures` finds of an expression in a text: for each group the
/// byte offsets where it starts and ends, if it takes part in the match.
pub uninterp spec fn regex_groups(source: Seq<char>, text: Seq<char>) -> Option<
    Seq<Option<(usize, usize)>>,
>;

/// Whether a character has a meaning of its own in an expression.
pub open spec fn is_meta(c: char) -> bool {
    ||| c == '\\' || c == '.' || c == '+' || c == '*' || c == '?'
    ||| c == '(' || c == ')' || c == '|' || c == '[' || c == ']'
    ||| c == '{' || c == '}' || c == '^' || c == '$'
    ||| c == '#' || c == '&' || c == '-' || c == '~'
}

/// A text with a backslash before each character that has a meaning of its own.
pub open spec fn escaped(s: Seq<char>) -> Seq<char>
    decreases s.len(),
{
    if s.len() == 0 {
        s
    } else if is_meta(s.last()) {
        escaped(s.drop_last()).push('\\').push(s.last())
    } else {
        escaped(s.drop_last()).push(s.last())
    }
}

/// Whether the offsets of a group that takes part in a match delimit a piece of
/// the text.
pub open spec fn is_piece(text: Seq<char>, group: Option<(usize, usize)>) -> bool {
    match group {
        Some((start, end)) => delimits(text, start as int, end as int),
        None => true,
    }
}

/// The texts of a list of optional names.
pub open spec fn optional_texts(names: Seq<Option<String>>) -> Seq<Option<Seq<char>>> {
    Seq::new(
        names.len(),
        |i: int|
            match names[i] {
                Some(name) => Some(name@),
                None => None,
            },
    )
}

/// `regex::escape` puts a backslash before each of the characters that have a
/// meaning in an expression, and changes nothing else.
pub assume_specification[ regex::escape ](pattern: &str) -> (r: String)
    ensures
        r@ == escaped(pattern@),
;

/// `Regex::new` compiles an expression, or says why it cannot. The outcome
/// depends on the text alone.
pub assume_specification[ regex::Regex::new ](re: &str) -> (r: Result<Regex, regex::Error>)
    ensures
        r is Ok <==> regex_compiles(re@),
        r matches Ok(compiled) ==> regex_source(compiled) == re@,
;

/// `Regex::clone` gives an expression that was compiled from the same text.
pub assume_specification[ <regex::Regex as Clone>::clone ](re: &Regex) -> (copy: Regex)
    ensures
        regex_source(copy) == regex_source(*re),
;

/// `Regex::capture_names` lists the names of the groups in the order of their
/// opening parentheses. The first group is the whole match and has no name. In
/// an expression of literal text and groups `(?P<name>[^/]+)`, the others are
/// those, each with the name that is written there.
#[verifier::external_body]
pub(crate) fn group_names(re: &Regex) -> (names: Vec<Option<String>>)
    ensures
        optional_texts(names@) == regex_group_names(regex_source(*re)),
        names@.len() > 0,
        names@[0] is None,
        forall|elements: Seq<Element>|
            regex_source(*re) == #[trigger] plain_source(elements) && names_close(elements)
                ==> optional_texts(names@) == plain_names(elements),
        forall|elements: Seq<Element>|
            regex_source(*re) == #[trigger] plain_beginning(elements) && names_close(elements)
                ==> optional_texts(names@) == plain_names(elements),
{
    re.capture_names().map(|name| name.map(String::from)).collect()
}

/// `Regex::captures` finds the leftmost match and the groups that take part in
/// it. It lists every group of the expression; the first one, the whole match,
/// takes part; and the offsets of those that do delimit a piece of the text.
///
/// Of an expression between `^` and `$` that is made of literal text and of
/// groups `(?P<name>[^/]+)`, the syntax says what it matches: the whole text must
/// be the pieces in order, with one or more characters other than `/` in the
/// place of each group. Such a text is matched, no other is, and the groups are
/// found where those characters are. Without the `$` this holds of a beginning of
/// the text. Which of several ways to part the text is taken, or which of
/// several beginnings, is left open.
#[verifier::external_body]
pub(crate) fn find_groups(re: &Regex, text: &str) -> (found: Option<Vec<Option<(usize, usize)>>>)
    ensures
        match found {
            Some(groups) => {
                &&& regex_groups(regex_source(*re), text@) == Some(groups@)
                &&& groups@.len() == regex_group_names(regex_source(*re)).len()
                &&& groups@.len() > 0
                &&& groups@[0] is Some
                &&& forall|i: int|
                    0 <= i < groups@.len() ==> #[trigger] is_piece(text@, groups@[i])
            },
            None => regex_groups(regex_source(*re), text@) is None,
        },
        forall|elements: Seq<Element>|
            regex_source(*re) == #[trigger] plain_source(elements) && names_close(elements)
                ==> finds_reading(
                elements,
                text@,
                match found {
                    Some(groups) => Some(groups@),
                    None => None,
                },
            ),
        forall|elements: Seq<Element>|
            regex_source(*re) == #[trigger] plain_beginning(elements) && names_close(elements)
                ==> finds_beginning(
                elements,
                text@,
                match found {
                    Some(groups) => Some(groups@),
                    None => None,
                },
            ),
{
    re.captures(text).map(
        |found| found.iter().map(|group| group.map(|m| (m.start(), m.end()))).collect(),
    )
}

} // verus!
