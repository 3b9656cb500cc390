//! Which paths and URLs are generated.

use std::rc::Rc;

use vstd::prelude::*;

use crate::def::{name_texts, DefView, Matcher, ResourceType};
use crate::error::UrlGenerationError;
use crate::info::{url_text, InfoView};
use crate::params::RequestView;
use crate::pattern::{element_views, Element, PatternElement};
use crate::text::{byte_len, lemma_cut_concat, texts};
use crate::urls::url_parsed;

verus! {

/// A definition with other pieces.
pub open spec fn with_pieces(def: DefView, elements: Seq<Element>) -> DefView {
    DefView { elements, ..def }
}

/// A path is generated from the pieces of a pattern one by one, whatever the
/// resource is for: literal text stands for itself, a parameter for the next of
/// the values; where there is none, there is no path.
pub proof fn law_a_path_is_generated_piece_by_piece(
    def: DefView,
    text: Seq<char>,
    name: Seq<char>,
    rest: Seq<Element>,
    value: Seq<char>,
    values: Seq<Seq<char>>,
)
    requires
        def.matcher is Dynamic,
    ensures
        with_pieces(def, Seq::empty()).own_path(values) == Some(Seq::<char>::empty()),
        with_pieces(def, seq![Element::Str(text)] + rest).own_path(values) == match with_pieces(
            def,
            rest,
        ).own_path(values) {
            Some(path) => Some(text + path),
            None => None,
        },
        with_pieces(def, seq![Element::Var(name)] + rest).own_path(Seq::empty()) is None,
        with_pieces(def, seq![Element::Var(name)] + rest).own_path(seq![value] + values)
            == match with_pieces(def, rest).own_path(values) {
            Some(path) => Some(value + path),
            None => None,
        },
{
    assert((seq![Element::Str(text)] + rest).drop_first() =~= rest);
    assert((seq![Element::Var(name)] + rest).drop_first() =~= rest);
    assert((seq![value] + values).drop_first() =~= values);
}

/// Two parameters get two values, each its own.
pub proof fn law_each_parameter_gets_its_own_value(
    def: DefView,
    a: Seq<char>,
    b: Seq<char>,
    names: (Seq<char>, Seq<char>),
    rest: Seq<Element>,
    v: Seq<char>,
    w: Seq<char>,
    others: Seq<Seq<char>>,
)
    requires
        def.matcher is Dynamic,
        def.elements == seq![
            Element::Str(a),
            Element::Var(names.0),
            Element::Str(b),
            Element::Var(names.1),
        ] + rest,
    ensures
        def.own_path(seq![v, w] + others) == match with_pieces(def, rest).own_path(others) {
            Some(path) => Some(a + (v + (b + (w + path)))),
            None => None,
        },
{
    let last = seq![Element::Var(names.1)] + rest;
    let third = seq![Element::Str(b)] + last;
    let second = seq![Element::Var(names.0)] + third;
    assert(def.elements =~= seq![Element::Str(a)] + second);
    assert(with_pieces(def, def.elements) == def);
    let left = seq![w] + others;
    assert(seq![v, w] + others =~= seq![v] + left);
    law_a_path_is_generated_piece_by_piece(def, a, names.0, second, v, seq![v] + left);
    law_a_path_is_generated_piece_by_piece(def, a, names.0, third, v, left);
    law_a_path_is_generated_piece_by_piece(def, b, names.1, last, w, left);
    law_a_path_is_generated_piece_by_piece(def, b, names.1, rest, w, others);
}

/// A definition without parameters generates its own text, whatever the values.
pub proof fn law_a_text_generates_itself(def: DefView, s: Seq<char>, values: Seq<Seq<char>>)
    ensures
        def.matcher == Matcher::Static(s) ==> def.own_path(values) == Some(s),
        def.matcher == Matcher::Prefix(s) ==> def.own_path(values) == Some(s),
{
}

/// What is generated goes below the prefix, with one slash between them that
/// either may bring; of an external resource it is the whole.
pub proof fn law_a_path_goes_below_the_prefix(
    def: DefView,
    values: Seq<Seq<char>>,
    front: Seq<char>,
    back: Seq<char>,
)
    ensures
        ({
            let whole = front + seq!['/'] + back;
            let open = front.len() == 0 || front.last() != '/';
            let bare = back.len() == 0 || back[0] != '/';
            let own = def.own_path(values);
            &&& def.rtype == ResourceType::External ==> def.path_for(values, front) == own
            &&& def.rtype != ResourceType::External ==> {
                &&& own is None ==> def.path_for(values, front) is None
                &&& own == Some(seq!['/'] + back) ==> def.path_for(values, front + seq!['/'])
                    == Some(whole)
                &&& own == Some(seq!['/'] + back) && open ==> def.path_for(values, front) == Some(
                    whole,
                )
                &&& own == Some(back) && bare ==> def.path_for(values, front + seq!['/']) == Some(
                    whole,
                )
                &&& own == Some(back) && bare && open ==> def.path_for(values, front) == Some(whole)
            }
        }),
{
    assert((seq!['/'] + back).drop_first() =~= back);
    assert((front + seq!['/']).drop_last() =~= front);
}

/// What is handed to the URL parser, and what comes of it. `head` is what the
/// router is mounted below: the beginning of the path of the request, as far as
/// the prefix reaches.
pub proof fn law_what_url_is_generated(
    info: InfoView,
    req: RequestView,
    name: Seq<char>,
    values: Seq<Seq<char>>,
    head: Seq<char>,
    left: Seq<char>,
)
    requires
        req.path == head + left,
        info.prefix == byte_len(head),
    ensures
        !info.named.contains_key(name) ==> info.generated_url(req, name, values) == Err::<
            Seq<char>,
            UrlGenerationError,
        >(UrlGenerationError::ResourceNotFound),
        info.named.contains_key(name) ==> match info.named[name].path_for(values, head) {
            None => info.generated_url(req, name, values) == Err::<Seq<char>, UrlGenerationError>(
                UrlGenerationError::NotEnoughElements,
            ),
            Some(path) => {
                let text = if path.len() > 0 && path[0] == '/' {
                    req.scheme + seq![':', '/', '/'] + req.host + path
                } else {
                    path
                };
                &&& url_parsed(text) matches Ok(url) ==> info.generated_url(req, name, values)
                    == Ok::<Seq<char>, UrlGenerationError>(url)
                &&& url_parsed(text) matches Err(e) ==> info.generated_url(req, name, values)
                    == Err::<Seq<char>, UrlGenerationError>(UrlGenerationError::ParseError(e))
            },
        },
{
    lemma_cut_concat(head, left);
}

/// What is handed to the URL parser for a path.
pub proof fn law_the_connection_goes_before_a_path(req: RequestView, path: Seq<char>)
    ensures
        url_text(req, seq!['/'] + path) == req.scheme + seq![':', '/', '/'] + req.host + (seq!['/']
            + path),
        path.len() == 0 || path[0] != '/' ==> url_text(req, path) == path,
{
}

/// The texts of strings, names and pieces are those of each, in order.
pub proof fn law_texts_are_taken_one_by_one(
    strings: Seq<&str>,
    names: Seq<Option<Rc<String>>>,
    pieces: Seq<PatternElement>,
    i: int,
)
    ensures
        texts(strings).len() == strings.len(),
        0 <= i < strings.len() ==> texts(strings)[i] == strings[i]@,
        name_texts(names).len() == names.len(),
        0 <= i < names.len() ==> (names[i] matches Some(name) ==> name_texts(names)[i] == Some(
            name@,
        )),
        0 <= i < names.len() ==> (names[i] is None ==> name_texts(names)[i] is None),
        element_views(pieces).len() == pieces.len(),
        0 <= i < pieces.len() ==> (pieces[i] matches PatternElement::Str(s)
            ==> element_views(pieces)[i] == Element::Str(s@)),
        0 <= i < pieces.len() ==> (pieces[i] matches PatternElement::Var(s)
            ==> element_views(pieces)[i] == Element::Var(s@)),
{
}

} // verus!
