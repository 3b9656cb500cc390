//! Plain patterns: those whose parameters bring no expressions of their own.
//!
//! The expression of a plain pattern is made of literal text and of named
//! groups `(?P<name>[^/]+)`, so it can be said what it matches: the texts that
//! come of putting values in the place of the groups, where a value is one or
//! more characters other than `/`.

use vstd::prelude::*;
use vstd::utf8::{encode_utf8, encode_utf8_decode_utf8};

use crate::def::{
    fill, group_values, join, last_end, name_at, named_groups, DefView, Matcher, ResourceType,
};
use crate::params::ParamsView;
use crate::pattern::{
    compiled_text, default_expression, first_of, is_dynamic, lemma_first_of, param_group,
    param_name, parse_body, pattern_body, Element,
};
use crate::regexes::{escaped, regex_groups};
use crate::text::{byte_len, lemma_encode_concat, text_between};

verus! {

/// The number of parameters among the pieces of a pattern.
pub open spec fn count_vars(elements: Seq<Element>) -> nat
    decreases elements.len(),
{
    if elements.len() == 0 {
        0
    } else {
        count_vars(elements.drop_first()) + if elements[0] is Var {
            1nat
        } else {
            0nat
        }
    }
}

/// The names of the parameters among the pieces of a pattern, in order.
pub open spec fn var_names(elements: Seq<Element>) -> Seq<Seq<char>>
    decreases elements.len(),
{
    if elements.len() == 0 {
        Seq::empty()
    } else {
        match elements[0] {
            Element::Str(_) => var_names(elements.drop_first()),
            Element::Var(name) => seq![name] + var_names(elements.drop_first()),
        }
    }
}

/// The expression that stands for a piece of a pattern: the literal text, or a
/// named group of one or more characters other than `/`.
pub open spec fn plain_piece(element: Element) -> Seq<char> {
    match element {
        Element::Str(s) => escaped(s),
        Element::Var(name) => seq!['(', '?', 'P', '<'] + name + seq!['>'] + default_expression()
            + seq![')'],
    }
}

/// The expressions of the pieces of a pattern, one after the other.
pub open spec fn plain_expression(elements: Seq<Element>) -> Seq<char>
    decreases elements.len(),
{
    if elements.len() == 0 {
        Seq::empty()
    } else {
        plain_piece(elements[0]) + plain_expression(elements.drop_first())
    }
}

/// The expression that matches a whole text piece by piece.
pub open spec fn plain_source(elements: Seq<Element>) -> Seq<char> {
    seq!['^'] + plain_expression(elements) + seq!['$']
}

/// The expression that matches the beginning of a text piece by piece.
pub open spec fn plain_beginning(elements: Seq<Element>) -> Seq<char> {
    seq!['^'] + plain_expression(elements)
}

/// No name holds the `>` that would end it in an expression.
pub open spec fn names_close(elements: Seq<Element>) -> bool {
    forall|i: int|
        0 <= i < elements.len() ==> (#[trigger] elements[i] matches Element::Var(name)
            ==> !name.contains('>'))
}

/// Whether a text can stand in the place of a parameter.
pub open spec fn is_value(value: Seq<char>) -> bool {
    value.len() > 0 && !value.contains('/')
}

/// Whether there is a value for each parameter, and no more.
pub open spec fn are_values(elements: Seq<Element>, values: Seq<Seq<char>>) -> bool {
    &&& values.len() == count_vars(elements)
    &&& forall|i: int| 0 <= i < values.len() ==> #[trigger] is_value(values[i])
}

/// Whether a text is what comes of putting values in the place of the
/// parameters.
pub open spec fn is_reading(
    elements: Seq<Element>,
    values: Seq<Seq<char>>,
    text: Seq<char>,
) -> bool {
    are_values(elements, values) && fill(elements, values) == Some(text)
}

/// Where the values are in what comes of putting them in the place of the
/// parameters, if that begins at an offset.
pub open spec fn places(elements: Seq<Element>, values: Seq<Seq<char>>, at: int) -> Seq<(int, int)>
    decreases elements.len(),
{
    if elements.len() == 0 {
        Seq::empty()
    } else {
        match elements[0] {
            Element::Str(s) => places(elements.drop_first(), values, at + byte_len(s)),
            Element::Var(_) => {
                let end = at + byte_len(values[0]);
                seq![(at, end)] + places(elements.drop_first(), values.drop_first(), end)
            },
        }
    }
}

/// Whether the groups after the first are at these places.
pub open spec fn at_places(
    groups: Seq<Option<(usize, usize)>>,
    places: Seq<(int, int)>,
) -> bool {
    &&& groups.len() == places.len() + 1
    &&& forall|i: int|
        0 <= i < places.len() ==> {
            let (start, end) = #[trigger] places[i];
            groups[i + 1] == Some((start as usize, end as usize)) && 0 <= start <= usize::MAX && 0
                <= end <= usize::MAX
        }
}

/// What is found of the expression of a plain pattern in a text: a reading of the
/// text, with the groups in the places of the values; or nothing, where there
/// is no reading.
pub open spec fn finds_reading(
    elements: Seq<Element>,
    text: Seq<char>,
    found: Option<Seq<Option<(usize, usize)>>>,
) -> bool {
    match found {
        Some(groups) => exists|values: Seq<Seq<char>>| #[trigger]
            is_reading(elements, values, text) && at_places(groups, places(elements, values, 0)),
        None => forall|values: Seq<Seq<char>>| !#[trigger] is_reading(elements, values, text),
    }
}

/// Whether what comes of putting values in the place of the parameters is where a
/// text begins.
pub open spec fn is_beginning(
    elements: Seq<Element>,
    values: Seq<Seq<char>>,
    head: Seq<char>,
    text: Seq<char>,
) -> bool {
    is_reading(elements, values, head) && head.is_prefix_of(text)
}

/// What is found of the expression that matches beginnings: a reading of a
/// beginning of the text, with the groups in the places of the values; or
/// nothing, where no beginning has a reading.
pub open spec fn finds_beginning(
    elements: Seq<Element>,
    text: Seq<char>,
    found: Option<Seq<Option<(usize, usize)>>>,
) -> bool {
    match found {
        Some(groups) => exists|values: Seq<Seq<char>>, head: Seq<char>| #[trigger]
            is_beginning(elements, values, head, text) && at_places(
                groups,
                places(elements, values, 0),
            ),
        None => forall|values: Seq<Seq<char>>, head: Seq<char>|
            !#[trigger] is_beginning(elements, values, head, text),
    }
}

/// The literal text after the last parameter.
pub open spec fn tail_text(elements: Seq<Element>) -> Seq<char>
    decreases elements.len(),
{
    if elements.len() == 0 {
        Seq::empty()
    } else if count_vars(elements) == 0 {
        fill(elements, Seq::empty()).unwrap()
    } else {
        tail_text(elements.drop_first())
    }
}

/// There is a slash between any two parameters, so that each has a segment of the
/// path to itself. `open` says whether the segment at hand has one already.
pub open spec fn one_per_segment(elements: Seq<Element>, open: bool) -> bool
    decreases elements.len(),
{
    if elements.len() == 0 {
        true
    } else {
        match elements[0] {
            Element::Str(s) => one_per_segment(elements.drop_first(), open && !s.contains('/')),
            Element::Var(_) => !open && one_per_segment(elements.drop_first(), true),
        }
    }
}

/// There is a slash after every parameter and before the next one, so that each
/// has a segment of the path to itself that ends within the pattern. `open` says
/// whether the segment at hand has one already.
pub open spec fn segments_end(elements: Seq<Element>, open: bool) -> bool
    decreases elements.len(),
{
    if elements.len() == 0 {
        !open
    } else {
        match elements[0] {
            Element::Str(s) => segments_end(elements.drop_first(), open && !s.contains('/')),
            Element::Var(_) => !open && segments_end(elements.drop_first(), true),
        }
    }
}

/// Every parameter of a pattern is closed and brings no expression of its own,
/// and its name does not hold a `>`.
pub open spec fn is_plain_body(body: Seq<char>) -> bool
    decreases body.len(),
{
    let open = first_of(body, '{');
    let rest = body.skip(open + 1);
    let close = first_of(rest, '}');
    if open >= body.len() {
        true
    } else if close >= rest.len() {
        false
    } else {
        proof {
            lemma_first_of(body, '{');
            lemma_first_of(rest, '}');
        }
        let decl = rest.take(close);
        !decl.contains(':') && !decl.contains('>') && is_plain_body(rest.skip(close + 1))
    }
}

/// Whether a pattern is plain. One with parameters must not begin with two
/// slashes: generating paths drops one of them.
pub open spec fn is_plain_pattern(pattern: Seq<char>) -> bool {
    let body = pattern_body(pattern);
    is_plain_body(body) && (is_dynamic(pattern) ==> body[0] != '/')
}

/// The first piece does not begin with a slash. Where it is empty, a parameter
/// follows.
pub open spec fn begins_in_segment(elements: Seq<Element>) -> bool {
    &&& elements.len() > 0
    &&& elements[0] matches Element::Str(s) && if s.len() > 0 {
        s[0] != '/'
    } else {
        elements.len() > 1 && elements[1] is Var
    }
}

/// The pieces of the whole path: a slash, and the pieces of the pattern.
pub open spec fn rooted(elements: Seq<Element>) -> Seq<Element> {
    seq![Element::Str(seq!['/'])] + elements
}

/// The names of the groups of the expression of a plain pattern: the whole match
/// has none, and each parameter has its own.
pub open spec fn plain_names(elements: Seq<Element>) -> Seq<Option<Seq<char>>> {
    Seq::new(
        var_names(elements).len() + 1,
        |i: int|
            if i == 0 {
                None
            } else {
                Some(var_names(elements)[i - 1])
            },
    )
}

impl DefView {
    /// Whether this is the definition of a resource with a plain pattern.
    pub open spec fn is_plain(self) -> bool {
        &&& self.rtype != ResourceType::External
        &&& match self.matcher {
            Matcher::Static(s) => s.len() > 0 && s[0] == '/' && count_vars(self.elements) == 0,
            Matcher::Prefix(_) => false,
            Matcher::Dynamic { source, names, .. } => {
                &&& source == plain_source(rooted(self.elements))
                &&& names == plain_names(rooted(self.elements))
                &&& names_close(rooted(self.elements))
                &&& begins_in_segment(self.elements)
            },
        }
    }

    /// Whether this is the definition of a prefix with a plain pattern that has
    /// parameters.
    pub open spec fn is_plain_prefix(self) -> bool {
        &&& self.rtype != ResourceType::External
        &&& self.matcher matches Matcher::Dynamic { source, names, len } && {
            &&& source == plain_beginning(rooted(self.elements))
            &&& names == plain_names(rooted(self.elements))
            &&& names_close(rooted(self.elements))
            &&& begins_in_segment(self.elements)
            &&& count_vars(self.elements) > 0
            &&& len == tail_text(self.elements).len()
        }
    }

    /// What is found in a text is a reading of it, or of a beginning of it, where
    /// the expression is that of the pieces of the pattern. Matching promises this
    /// of every text that it looks at.
    pub open spec fn reads(self, text: Seq<char>) -> bool {
        let all = rooted(self.elements);
        self.matcher matches Matcher::Dynamic { source, .. } ==> names_close(all) ==> {
            &&& source == plain_source(all) ==> finds_reading(
                all,
                text,
                regex_groups(source, text),
            )
            &&& source == plain_beginning(all) ==> finds_beginning(
                all,
                text,
                regex_groups(source, text),
            )
        }
    }
}

impl DefView {
    /// Whether a text is the path that is generated from values, and each
    /// parameter has a segment of it to itself.
    pub open spec fn reads_back(self, values: Seq<Seq<char>>, text: Seq<char>) -> bool {
        &&& one_per_segment(self.elements, false)
        &&& are_values(self.elements, values)
        &&& self.path_for(values, Seq::empty()) == Some(text)
    }

    /// Whether the parameters of a match are those of the pattern, in order and no
    /// others, and stand for values. Where there are any, the path is consumed to
    /// its end. Offsets must fit in 16 bits for that.
    pub open spec fn are_params(self, values: Seq<Seq<char>>, params: ParamsView) -> bool {
        &&& params.has_names(var_names(self.elements))
        &&& byte_len(params.path) <= 0xffff ==> {
            &&& params.has_values(values)
            &&& values.len() > 0 ==> params.tail == byte_len(params.path)
        }
    }
}

impl DefView {
    /// Whether a text begins with the path that is generated from values, and each
    /// parameter has a segment to itself that ends within the pattern.
    pub open spec fn begins(self, values: Seq<Seq<char>>, text: Seq<char>) -> bool {
        &&& segments_end(self.elements, false)
        &&& are_values(self.elements, values)
        &&& self.path_for(values, Seq::empty()) matches Some(head) && head.is_prefix_of(text)
    }

    /// Whether the parameters of a match of the beginning of a text, from an offset
    /// of a path on, are those of the pattern, in order and no others; the values
    /// build that beginning; and it is what was consumed. For the last, offsets
    /// must fit in 16 bits, and the literal text after the last parameter must
    /// take one byte for each character.
    pub open spec fn took_beginning(
        self,
        text: Seq<char>,
        plen: int,
        params: ParamsView,
    ) -> bool {
        let tail = tail_text(self.elements);
        &&& params.has_names(var_names(self.elements))
        &&& self.path_for(self.values(text), Seq::empty()) matches Some(head) && {
            &&& head.is_prefix_of(text)
            &&& byte_len(tail) == tail.len() && byte_len(params.path) <= 0xffff ==> params.tail
                == plen + byte_len(head)
        }
    }
}

proof fn lemma_var_names(elements: Seq<Element>)
    ensures
        var_names(elements).len() == count_vars(elements),
    decreases elements.len(),
{
    if elements.len() > 0 {
        lemma_var_names(elements.drop_first());
    }
}

/// A slash before the pieces of a pattern changes none of its parameters.
proof fn lemma_rooted(elements: Seq<Element>)
    ensures
        count_vars(rooted(elements)) == count_vars(elements),
        var_names(rooted(elements)) == var_names(elements),
        one_per_segment(rooted(elements), false) == one_per_segment(elements, false),
        segments_end(rooted(elements), false) == segments_end(elements, false),
        count_vars(elements) > 0 ==> tail_text(rooted(elements)) == tail_text(elements),
        forall|values: Seq<Seq<char>>| #[trigger]
            fill(rooted(elements), values) == match fill(elements, values) {
                Some(text) => Some(seq!['/'] + text),
                None => None,
            },
{
    assert(rooted(elements).drop_first() =~= elements);
}

/// The expression of a plain pattern is that of its pieces.
proof fn lemma_plain_body(body: Seq<char>)
    requires
        is_plain_body(body),
    ensures
        parse_body(body).expression == plain_expression(parse_body(body).elements),
        names_close(parse_body(body).elements),
        parse_body(body).dynamic && body[0] != '/' ==> begins_in_segment(parse_body(body).elements),
        parse_body(body).dynamic <==> count_vars(parse_body(body).elements) > 0,
        parse_body(body).tail == tail_text(parse_body(body).elements).len(),
    decreases body.len(),
{
    let open = first_of(body, '{');
    let literal = body.take(open);
    let rest = body.skip(open + 1);
    let close = first_of(rest, '}');
    let elements = parse_body(body).elements;
    lemma_first_of(body, '{');
    lemma_first_of(rest, '}');
    if open >= body.len() {
        assert(elements.len() > 0 ==> elements.drop_first() =~= Seq::<Element>::empty());
        assert(plain_expression(Seq::<Element>::empty()) =~= Seq::<char>::empty());
        assert(count_vars(Seq::<Element>::empty()) == 0);
        reveal_with_fuel(fill, 2);
        assert(body + Seq::<char>::empty() =~= body);
        assert(body.len() == 0 ==> escaped(body) =~= Seq::<char>::empty());
        assert(parse_body(body).expression =~= plain_expression(elements));
    } else {
        let decl = rest.take(close);
        let after = parse_body(rest.skip(close + 1));
        lemma_plain_body(rest.skip(close + 1));
        lemma_first_of(decl, ':');
        assert(param_name(decl) =~= decl);
        assert(param_group(decl) =~= plain_piece(Element::Var(decl)));
        let ends = seq![Element::Var(decl)] + after.elements;
        assert(elements.drop_first() =~= ends);
        assert(ends.drop_first() =~= after.elements);
        assert(count_vars(ends) > 0);
        assert(tail_text(ends) == tail_text(after.elements));
        assert(tail_text(elements) == tail_text(ends));
        assert(plain_expression(ends) == plain_piece(Element::Var(decl)) + plain_expression(
            after.elements,
        ));
        assert(parse_body(body).expression =~= plain_expression(elements));
        assert forall|i: int| 0 <= i < elements.len() implies (
        #[trigger] elements[i] matches Element::Var(name) ==> !name.contains('>')) by {
            if i >= 2 {
                assert(elements[i] == after.elements[i - 2]);
            }
        }
    }
}

/// A plain pattern is compiled to the expression of its pieces.
pub proof fn lemma_plain_pattern(pattern: Seq<char>)
    requires
        is_plain_pattern(pattern),
    ensures
        ({
            let elements = parse_body(pattern_body(pattern)).elements;
            &&& names_close(rooted(elements))
            &&& is_dynamic(pattern) ==> begins_in_segment(elements) && compiled_text(
                pattern,
                seq!['/'],
                false,
            ) == plain_source(rooted(elements)) && compiled_text(pattern, seq!['/'], true)
                == plain_beginning(rooted(elements))
            &&& is_dynamic(pattern) <==> count_vars(elements) > 0
            &&& parse_body(pattern_body(pattern)).tail == tail_text(elements).len()
        }),
{
    let body = pattern_body(pattern);
    let parsed = parse_body(body);
    let elements = parsed.elements;
    lemma_plain_body(body);
    let all = rooted(elements);
    assert(all.drop_first() =~= elements);
    assert forall|i: int| 0 <= i < all.len() implies (#[trigger] all[i] matches Element::Var(name)
        ==> !name.contains('>')) by {
        if i >= 1 {
            assert(all[i] == elements[i - 1]);
        }
    }
    reveal_with_fuel(escaped, 2);
    assert(seq!['/'].drop_last() =~= Seq::<char>::empty());
    assert(escaped(seq!['/']) =~= seq!['/']);
    assert(seq!['^'] + seq!['/'] + parsed.expression + seq!['$'] =~= plain_source(all));
    assert(seq!['^'] + seq!['/'] + parsed.expression =~= plain_beginning(all));
}

/// Where the segment at hand has its parameter already, what follows is fixed up
/// to its first slash, or to its end.
proof fn lemma_fixed_to_slash(elements: Seq<Element>, one: Seq<Seq<char>>, other: Seq<Seq<char>>)
    requires
        one_per_segment(elements, true),
        fill(elements, one) is Some,
        fill(elements, other) is Some,
    ensures
        ({
            let a = fill(elements, one).unwrap();
            let b = fill(elements, other).unwrap();
            a == b || (first_of(a, '/') == first_of(b, '/') && first_of(a, '/') < a.len()
                && first_of(a, '/') < b.len())
        }),
    decreases elements.len(),
{
    if elements.len() > 0 {
        let s = elements[0]->Str_0;
        let rest = elements.drop_first();
        let a = fill(rest, one).unwrap();
        let b = fill(rest, other).unwrap();
        lemma_first_slash(s, a);
        lemma_first_slash(s, b);
        if !s.contains('/') {
            lemma_fixed_to_slash(rest, one, other);
        }
    }
}

/// Where the first slash of two texts one after the other is.
proof fn lemma_first_slash(a: Seq<char>, b: Seq<char>)
    ensures
        a.contains('/') ==> first_of(a + b, '/') == first_of(a, '/') && first_of(a, '/') < a.len(),
        !a.contains('/') ==> first_of(a + b, '/') == a.len() + first_of(b, '/'),
    decreases a.len(),
{
    if a.len() == 0 {
        assert(a + b =~= b);
    } else {
        assert((a + b).drop_first() =~= a.drop_first() + b);
        lemma_first_slash(a.drop_first(), b);
        if a.contains('/') && a[0] != '/' {
            let i = choose|i: int| 0 <= i < a.len() && a[i] == '/';
            assert(a.drop_first()[i - 1] == '/');
        }
        if a.drop_first().contains('/') {
            let i = choose|i: int| 0 <= i < a.len() - 1 && a.drop_first()[i] == '/';
            assert(a[i + 1] == '/');
        }
    }
}

/// Where each parameter has a segment to itself, a text has one reading.
proof fn lemma_reading_unique(
    elements: Seq<Element>,
    one: Seq<Seq<char>>,
    other: Seq<Seq<char>>,
    text: Seq<char>,
)
    requires
        one_per_segment(elements, false),
        is_reading(elements, one, text),
        is_reading(elements, other, text),
    ensures
        one == other,
    decreases elements.len(),
{
    if elements.len() == 0 {
        assert(one =~= other);
    } else {
        let rest = elements.drop_first();
        match elements[0] {
            Element::Str(s) => {
                let a = fill(rest, one).unwrap();
                let b = fill(rest, other).unwrap();
                assert(a =~= text.skip(s.len() as int));
                assert(b =~= text.skip(s.len() as int));
                lemma_reading_unique(rest, one, other, a);
            },
            Element::Var(_) => {
                let ones = one.drop_first();
                let others = other.drop_first();
                let a = fill(rest, ones).unwrap();
                let b = fill(rest, others).unwrap();
                assert(is_value(one[0]));
                assert(is_value(other[0]));
                lemma_fixed_to_slash(rest, ones, others);
                lemma_first_slash(one[0], a);
                lemma_first_slash(other[0], b);
                assert(one[0].len() + a.len() == other[0].len() + b.len());
                assert(one[0].len() == other[0].len());
                assert(one[0] =~= text.take(one[0].len() as int));
                assert(other[0] =~= text.take(one[0].len() as int));
                assert(a =~= text.skip(one[0].len() as int));
                assert(b =~= text.skip(one[0].len() as int));
                assert forall|i: int| 0 <= i < ones.len() implies #[trigger] is_value(ones[i]) by {
                    assert(is_value(one[i + 1]));
                }
                assert forall|i: int| 0 <= i < others.len() implies #[trigger] is_value(
                    others[i],
                ) by {
                    assert(is_value(other[i + 1]));
                }
                lemma_open_is_stricter(rest);
                lemma_reading_unique(rest, ones, others, a);
                assert(one =~= seq![one[0]] + ones);
                assert(other =~= seq![other[0]] + others);
            },
        }
    }
}

/// A segment that has its parameter already leaves fewer possibilities.
proof fn lemma_open_is_stricter(elements: Seq<Element>)
    requires
        one_per_segment(elements, true),
    ensures
        one_per_segment(elements, false),
    decreases elements.len(),
{
    if elements.len() > 0 {
        match elements[0] {
            Element::Str(s) => if !s.contains('/') {
                lemma_open_is_stricter(elements.drop_first());
            },
            Element::Var(_) => {},
        }
    }
}

/// Where the segment at hand has its parameter already, what follows is fixed up
/// to its first slash.
proof fn lemma_slash_is_fixed(elements: Seq<Element>, one: Seq<Seq<char>>, other: Seq<Seq<char>>)
    requires
        segments_end(elements, true),
        fill(elements, one) is Some,
        fill(elements, other) is Some,
    ensures
        ({
            let a = fill(elements, one).unwrap();
            let b = fill(elements, other).unwrap();
            &&& a.contains('/')
            &&& b.contains('/')
            &&& first_of(a, '/') == first_of(b, '/')
        }),
    decreases elements.len(),
{
    let s = elements[0]->Str_0;
    let rest = elements.drop_first();
    let a = fill(rest, one).unwrap();
    let b = fill(rest, other).unwrap();
    lemma_first_slash(s, a);
    lemma_first_slash(s, b);
    if s.contains('/') {
        let i = choose|i: int| 0 <= i < s.len() && s[i] == '/';
        assert((s + a)[i] == '/');
        assert((s + b)[i] == '/');
    } else {
        lemma_slash_is_fixed(rest, one, other);
        let i = choose|i: int| 0 <= i < a.len() && a[i] == '/';
        let j = choose|j: int| 0 <= j < b.len() && b[j] == '/';
        assert((s + a)[s.len() + i] == '/');
        assert((s + b)[s.len() + j] == '/');
    }
}

/// A segment that has its parameter already leaves fewer possibilities.
proof fn lemma_open_end_is_stricter(elements: Seq<Element>)
    requires
        segments_end(elements, true),
    ensures
        segments_end(elements, false),
    decreases elements.len(),
{
    match elements[0] {
        Element::Str(s) => if !s.contains('/') {
            lemma_open_end_is_stricter(elements.drop_first());
        },
        Element::Var(_) => {},
    }
}

/// What a text that begins with two texts one after the other is made of.
proof fn lemma_prefix_concat(a: Seq<char>, b: Seq<char>, text: Seq<char>)
    requires
        (a + b).is_prefix_of(text),
    ensures
        text == a + (b + text.skip((a + b).len() as int)),
        text.skip(a.len() as int) == b + text.skip((a + b).len() as int),
        b.is_prefix_of(text.skip(a.len() as int)),
{
    let c = text.skip((a + b).len() as int);
    assert(text =~= (a + b) + c);
    assert(text =~= a + (b + c));
    assert(text.skip(a.len() as int) =~= b + c);
}

/// Where each parameter has a segment to itself that ends within the pattern,
/// the beginnings of a text have one reading.
proof fn lemma_beginning_unique(
    elements: Seq<Element>,
    one: Seq<Seq<char>>,
    other: Seq<Seq<char>>,
    a: Seq<char>,
    b: Seq<char>,
    text: Seq<char>,
)
    requires
        segments_end(elements, false),
        is_beginning(elements, one, a, text),
        is_beginning(elements, other, b, text),
    ensures
        one == other,
    decreases elements.len(),
{
    if elements.len() == 0 {
        assert(one =~= other);
    } else {
        let rest = elements.drop_first();
        match elements[0] {
            Element::Str(s) => {
                let c = fill(rest, one).unwrap();
                let d = fill(rest, other).unwrap();
                let left = text.skip(s.len() as int);
                lemma_prefix_concat(s, c, text);
                lemma_prefix_concat(s, d, text);
                lemma_beginning_unique(rest, one, other, c, d, left);
            },
            Element::Var(_) => {
                let v = one[0];
                let w = other[0];
                let ones = one.drop_first();
                let others = other.drop_first();
                let c = fill(rest, ones).unwrap();
                let d = fill(rest, others).unwrap();
                assert(is_value(v));
                assert(is_value(w));
                lemma_slash_is_fixed(rest, ones, others);
                let e = text.skip(a.len() as int);
                let f = text.skip(b.len() as int);
                lemma_prefix_concat(v, c, text);
                lemma_prefix_concat(w, d, text);
                lemma_first_slash(v, c + e);
                lemma_first_slash(w, d + f);
                lemma_first_slash(c, e);
                lemma_first_slash(d, f);
                assert(v.len() == w.len());
                assert(v =~= text.take(v.len() as int));
                assert(w =~= text.take(v.len() as int));
                let left = text.skip(v.len() as int);
                assert forall|i: int| 0 <= i < ones.len() implies #[trigger] is_value(ones[i]) by {
                    assert(is_value(one[i + 1]));
                }
                assert forall|i: int| 0 <= i < others.len() implies #[trigger] is_value(
                    others[i],
                ) by {
                    assert(is_value(other[i + 1]));
                }
                lemma_open_end_is_stricter(rest);
                lemma_beginning_unique(rest, ones, others, c, d, left);
                assert(one =~= seq![v] + ones);
                assert(other =~= seq![w] + others);
            },
        }
    }
}

/// The last value ends where the literal text after it begins.
proof fn lemma_last_place(
    elements: Seq<Element>,
    values: Seq<Seq<char>>,
    text: Seq<char>,
    at: int,
)
    requires
        count_vars(elements) > 0,
        values.len() == count_vars(elements),
        fill(elements, values) == Some(text),
    ensures
        places(elements, values, at).len() == values.len(),
        places(elements, values, at).last().1 + byte_len(tail_text(elements)) == at + byte_len(
            text,
        ),
    decreases elements.len(),
{
    let rest = elements.drop_first();
    match elements[0] {
        Element::Str(s) => {
            let left = fill(rest, values).unwrap();
            lemma_encode_concat(s, left);
            lemma_last_place(rest, values, left, at + byte_len(s));
        },
        Element::Var(_) => {
            let v = values[0];
            let others = values.drop_first();
            let left = fill(rest, others).unwrap();
            lemma_encode_concat(v, left);
            if count_vars(rest) > 0 {
                lemma_last_place(rest, others, left, at + byte_len(v));
            } else {
                lemma_no_places(rest, others, at + byte_len(v));
                assert(others =~= Seq::<Seq<char>>::empty());
                assert(tail_text(rest) =~= left);
            }
        },
    }
}

proof fn lemma_no_places(elements: Seq<Element>, values: Seq<Seq<char>>, at: int)
    requires
        count_vars(elements) == 0,
    ensures
        places(elements, values, at).len() == 0,
    decreases elements.len(),
{
    if elements.len() > 0 {
        match elements[0] {
            Element::Str(s) => lemma_no_places(elements.drop_first(), values, at + byte_len(s)),
            Element::Var(_) => {},
        }
    }
}

/// The middle of three texts is between the offsets where it begins and ends.
pub proof fn lemma_between_concat(a: Seq<char>, b: Seq<char>, c: Seq<char>)
    ensures
        text_between(a + b + c, byte_len(a) as int, (byte_len(a) + byte_len(b)) as int) == b,
        byte_len(a + b) == byte_len(a) + byte_len(b),
{
    lemma_encode_concat(a, b);
    lemma_encode_concat(a + b, c);
    assert(encode_utf8(a + b + c).subrange(
        byte_len(a) as int,
        (byte_len(a) + byte_len(b)) as int,
    ) =~= encode_utf8(b));
    encode_utf8_decode_utf8(b);
}

/// The values are at their places, whatever stands before and behind.
proof fn lemma_places(
    front: Seq<char>,
    elements: Seq<Element>,
    values: Seq<Seq<char>>,
    text: Seq<char>,
    back: Seq<char>,
)
    requires
        values.len() == count_vars(elements),
        fill(elements, values) == Some(text),
    ensures
        places(elements, values, byte_len(front) as int).len() == values.len(),
        forall|i: int|
            0 <= i < values.len() ==> {
                let place = #[trigger] places(elements, values, byte_len(front) as int)[i];
                text_between(front + text + back, place.0, place.1) == values[i]
            },
    decreases elements.len(),
{
    if elements.len() > 0 {
        let rest = elements.drop_first();
        let all = places(elements, values, byte_len(front) as int);
        match elements[0] {
            Element::Str(s) => {
                let left = fill(rest, values).unwrap();
                lemma_between_concat(front, s, left + back);
                lemma_places(front + s, rest, values, left, back);
                assert(front + text + back =~= front + s + left + back);
            },
            Element::Var(_) => {
                let v = values[0];
                let others = values.drop_first();
                let left = fill(rest, others).unwrap();
                lemma_between_concat(front, v, left + back);
                lemma_places(front + v, rest, others, left, back);
                assert(front + text + back =~= front + v + left + back);
                assert(front + text + back =~= front + v + (left + back));
                assert forall|i: int| 0 <= i < values.len() implies {
                    let place = #[trigger] all[i];
                    text_between(front + text + back, place.0, place.1) == values[i]
                } by {
                    if i > 0 {
                        assert(all[i] == places(rest, others, byte_len(front + v) as int)[i - 1]);
                    }
                }
            },
        }
    }
}

/// Where only the first group has no name and all take part, each of the others
/// is a parameter.
proof fn lemma_all_named(
    names: Seq<Option<Seq<char>>>,
    groups: Seq<Option<(usize, usize)>>,
)
    requires
        names.len() >= groups.len() > 0,
        names[0] is None,
        forall|i: int| 1 <= i < groups.len() ==> (#[trigger] groups[i]) is Some,
        forall|i: int| 1 <= i < names.len() ==> (#[trigger] names[i]) is Some,
    ensures
        named_groups(names, groups).len() == groups.len() - 1,
        forall|i: int|
            0 <= i < groups.len() - 1 ==> {
                let (name, span) = #[trigger] named_groups(names, groups)[i];
                names[i + 1] == Some(name) && groups[i + 1] == Some(span)
            },
    decreases groups.len(),
{
    let front = groups.drop_last();
    if groups.len() == 1 {
        assert(named_groups(names, front).len() == 0);
        assert(name_at(names, 0) is None);
    } else {
        assert forall|i: int| 1 <= i < front.len() implies (#[trigger] front[i]) is Some by {
            assert(groups[i] is Some);
        }
        lemma_all_named(names, front);
        assert(groups[groups.len() - 1] is Some);
        assert(names[groups.len() - 1] is Some);
        assert forall|i: int| 0 <= i < groups.len() - 1 implies {
            let (name, span) = #[trigger] named_groups(names, groups)[i];
            names[i + 1] == Some(name) && groups[i + 1] == Some(span)
        } by {
            if i < front.len() - 1 {
                assert(named_groups(names, groups)[i] == named_groups(names, front)[i]);
                assert(front[i + 1] == groups[i + 1]);
            }
        }
    }
}

/// The parameters of a match with a reading of a beginning are those of the pattern, and stand
/// for the values of the reading.
pub proof fn lemma_reading_params(
    elements: Seq<Element>,
    values: Seq<Seq<char>>,
    head: Seq<char>,
    text: Seq<char>,
    groups: Seq<Option<(usize, usize)>>,
)
    requires
        is_beginning(elements, values, head, text),
        at_places(groups, places(elements, values, 0)),
    ensures
        group_values(text, plain_names(elements), groups) == values,
        named_groups(plain_names(elements), groups).len() == var_names(elements).len(),
        forall|i: int|
            0 <= i < var_names(elements).len() ==> (#[trigger] named_groups(
                plain_names(elements),
                groups,
            )[i]).0 == var_names(elements)[i],
{
    let names = plain_names(elements);
    let spots = places(elements, values, 0);
    lemma_var_names(elements);
    assert(byte_len(Seq::<char>::empty()) == 0);
    lemma_places(Seq::empty(), elements, values, head, text.skip(head.len() as int));
    assert(Seq::<char>::empty() + head + text.skip(head.len() as int) =~= text);
    assert forall|i: int| 1 <= i < groups.len() implies (#[trigger] groups[i]) is Some by {
        let spot = spots[i - 1];
    }
    lemma_all_named(names, groups);
    let found = named_groups(names, groups);
    assert forall|i: int| 0 <= i < values.len() implies #[trigger] group_values(
        text,
        names,
        groups,
    )[i] == values[i] by {
        let (name, span) = found[i];
        let (start, end) = spots[i];
        assert(groups[i + 1] == Some(span));
        assert(span.0 == start && span.1 == end);
    }
    assert(group_values(text, names, groups) =~= values);
    assert forall|i: int| 0 <= i < var_names(elements).len() implies (#[trigger] found[i]).0
        == var_names(elements)[i] by {
        assert(names[i + 1] == Some(found[i].0));
    }
}

/// What comes of values in a plain pattern does not begin with a slash, so a
/// path is generated by putting one before it.
proof fn lemma_own_path(elements: Seq<Element>, values: Seq<Seq<char>>)
    requires
        begins_in_segment(elements),
        are_values(elements, values),
        fill(elements, values) is Some,
    ensures
        join(Seq::empty(), fill(elements, values).unwrap()) == seq!['/'] + fill(
            elements,
            values,
        ).unwrap(),
{
    let s = elements[0]->Str_0;
    let rest = elements.drop_first();
    let text = fill(elements, values).unwrap();
    if s.len() > 0 {
        assert(text[0] == s[0]);
    } else {
        reveal_with_fuel(fill, 2);
        reveal_with_fuel(count_vars, 2);
        assert(rest[0] == elements[1]);
        let left = fill(rest.drop_first(), values.drop_first()).unwrap();
        assert(is_value(values[0]));
        assert(text =~= values[0] + left);
        assert(text[0] == values[0][0]);
        assert(values[0].contains(values[0][0]));
    }
    assert(pattern_body(text) == text);
    assert(join(Seq::empty(), text) =~= seq!['/'] + text);
}

/// A path that is generated from values is matched, and the parameters of the
/// match are those of the pattern and stand for the values.
pub proof fn lemma_generated_is_matched(def: DefView, values: Seq<Seq<char>>, text: Seq<char>)
    requires
        def.is_plain(),
        def.reads(text),
        def.reads_back(values, text),
    ensures
        def.matches(text),
        def.values(text) == values,
        def.matcher matches Matcher::Dynamic { source, names, .. } ==> {
            let found = named_groups(names, regex_groups(source, text).unwrap());
            &&& found.len() == var_names(def.elements).len()
            &&& forall|i: int|
                0 <= i < found.len() ==> (#[trigger] found[i]).0 == var_names(def.elements)[i]
        },
        def.matcher is Static ==> var_names(def.elements).len() == 0,
{
    lemma_rooted(def.elements);
    lemma_var_names(def.elements);
    match def.matcher {
        Matcher::Dynamic { source, names, .. } => {
            let all = rooted(def.elements);
            lemma_own_path(def.elements, values);
            assert(is_reading(all, values, text));
            let groups = regex_groups(source, text).unwrap();
            let read = choose|read: Seq<Seq<char>>| #[trigger]
                is_reading(all, read, text) && at_places(groups, places(all, read, 0));
            lemma_reading_unique(all, values, read, text);
            lemma_reading_params(all, values, text, text, groups);
        },
        Matcher::Static(s) => {
            assert(join(Seq::empty(), s) =~= s);
            assert(def.values(text) =~= values);
        },
        _ => {},
    }
}

/// The values of a match build the path again that was matched.
pub proof fn lemma_matched_is_generated(def: DefView, text: Seq<char>)
    requires
        def.is_plain(),
        def.reads(text),
        def.matches(text),
    ensures
        def.path_for(def.values(text), Seq::empty()) == Some(text),
        are_values(def.elements, def.values(text)),
{
    lemma_rooted(def.elements);
    match def.matcher {
        Matcher::Dynamic { source, names, .. } => {
            let all = rooted(def.elements);
            let groups = regex_groups(source, text).unwrap();
            let values = choose|values: Seq<Seq<char>>| #[trigger]
                is_reading(all, values, text) && at_places(groups, places(all, values, 0));
            lemma_reading_params(all, values, text, text, groups);
            lemma_own_path(def.elements, values);
        },
        Matcher::Static(s) => {
            assert(join(Seq::empty(), s) =~= s);
        },
        _ => {},
    }
}

/// A match of a plain prefix reads a beginning of the text, which its values
/// build again, and ends where that does.
pub proof fn lemma_prefix_reads_beginning(def: DefView, text: Seq<char>)
    requires
        def.is_plain_prefix(),
        def.reads(text),
        def.matches(text),
    ensures
        ({
            let names = def.matcher->names;
            let groups = regex_groups(def.matcher->source, text).unwrap();
            let found = named_groups(names, groups);
            &&& are_values(def.elements, def.values(text))
            &&& found.len() == var_names(def.elements).len()
            &&& forall|i: int|
                0 <= i < found.len() ==> (#[trigger] found[i]).0 == var_names(def.elements)[i]
            &&& def.path_for(def.values(text), Seq::empty()) matches Some(head) && {
                &&& head.is_prefix_of(text)
                &&& head.len() > 1
                &&& last_end(names, groups) + byte_len(tail_text(def.elements)) == byte_len(head)
            }
        }),
{
    let all = rooted(def.elements);
    let names = def.matcher->names;
    let groups = regex_groups(def.matcher->source, text).unwrap();
    let (values, head) = choose|values: Seq<Seq<char>>, head: Seq<char>| #[trigger]
        is_beginning(all, values, head, text) && at_places(groups, places(all, values, 0));
    lemma_rooted(def.elements);
    lemma_var_names(all);
    lemma_reading_params(all, values, head, text, groups);
    lemma_own_path(def.elements, values);
    lemma_last_place(all, values, head, 0);
    lemma_last_group(all, values, groups);
    lemma_filled_is_long(def.elements, values);
}

/// The last parameter is at the last place.
proof fn lemma_last_group(
    elements: Seq<Element>,
    values: Seq<Seq<char>>,
    groups: Seq<Option<(usize, usize)>>,
)
    requires
        values.len() == count_vars(elements),
        values.len() > 0,
        at_places(groups, places(elements, values, 0)),
        places(elements, values, 0).len() == values.len(),
    ensures
        last_end(plain_names(elements), groups) == places(elements, values, 0).last().1,
{
    let spots = places(elements, values, 0);
    lemma_var_names(elements);
    assert forall|i: int| 1 <= i < groups.len() implies (#[trigger] groups[i]) is Some by {
        let spot = spots[i - 1];
    }
    lemma_all_named(plain_names(elements), groups);
    let found = named_groups(plain_names(elements), groups);
    let (name, span) = found[found.len() - 1];
    let spot = spots[spots.len() - 1];
}

/// With a value in it, what comes of a pattern is not empty.
proof fn lemma_filled_is_long(elements: Seq<Element>, values: Seq<Seq<char>>)
    requires
        count_vars(elements) > 0,
        are_values(elements, values),
    ensures
        fill(elements, values) matches Some(text) ==> text.len() > 0,
    decreases elements.len(),
{
    match elements[0] {
        Element::Str(_) => lemma_filled_is_long(elements.drop_first(), values),
        Element::Var(_) => {
            assert(is_value(values[0]));
        },
    }
}

/// A path below one that is generated from values is matched by the prefix that it
/// was generated from, with those values.
pub proof fn lemma_generated_prefix_is_matched(
    def: DefView,
    values: Seq<Seq<char>>,
    text: Seq<char>,
)
    requires
        def.is_plain_prefix(),
        def.reads(text),
        def.begins(values, text),
    ensures
        def.matches(text),
        def.values(text) == values,
{
    let all = rooted(def.elements);
    lemma_rooted(def.elements);
    lemma_own_path(def.elements, values);
    let head = def.path_for(values, Seq::empty()).unwrap();
    assert(is_beginning(all, values, head, text));
    let groups = regex_groups(def.matcher->source, text).unwrap();
    let (read, found) = choose|read: Seq<Seq<char>>, found: Seq<char>| #[trigger]
        is_beginning(all, read, found, text) && at_places(groups, places(all, read, 0));
    lemma_beginning_unique(all, values, read, head, found, text);
    lemma_reading_params(all, read, found, text, groups);
}

} // verus!
