//! The pattern language of resources.
//!
//! A pattern is literal text with parameters in braces, as in
//! `/file/{name}.{ext}`. A parameter is `{name}`, which stands for one or more
//! characters other than `/`, or `{name:expression}`.

use vstd::prelude::*;

use crate::def::ResourceDef;
use crate::regexes::escaped;
use crate::text::lemma_byte_len_at_least;

verus! {

/// A piece of a parsed pattern.
#[derive(Debug, PartialEq)]
pub enum PatternElement {
    /// Literal text.
    Str(String),
    /// A parameter, by its name.
    Var(String),
}

/// A piece of a parsed pattern, as a value of the specification.
pub enum Element {
    Str(Seq<char>),
    Var(Seq<char>),
}

impl View for PatternElement {
    type V = Element;

    open spec fn view(&self) -> Element {
        match self {
            PatternElement::Str(s) => Element::Str(s@),
            PatternElement::Var(s) => Element::Var(s@),
        }
    }
}

impl Clone for PatternElement {
    fn clone(&self) -> (copy: Self)
        ensures
            copy == *self,
    {
        match self {
            PatternElement::Str(s) => PatternElement::Str(s.clone()),
            PatternElement::Var(s) => PatternElement::Var(s.clone()),
        }
    }
}

/// The pieces of a list of elements.
pub open spec fn element_views(elements: Seq<PatternElement>) -> Seq<Element> {
    elements.map_values(|e: PatternElement| e@)
}

/// The position of the first `c` in a text, or the length of the text.
pub open spec fn first_of(s: Seq<char>, c: char) -> int
    decreases s.len(),
{
    if s.len() == 0 || s[0] == c {
        0
    } else {
        1 + first_of(s.drop_first(), c)
    }
}

/// What follows the last `c` of a text, or the whole text.
pub open spec fn after_last(s: Seq<char>, c: char) -> Seq<char>
    decreases s.len(),
{
    if s.len() == 0 || s.last() == c {
        Seq::empty()
    } else {
        after_last(s.drop_last(), c).push(s.last())
    }
}

/// A text without the spaces that it begins with.
pub open spec fn trim_spaces(s: Seq<char>) -> Seq<char>
    decreases s.len(),
{
    if s.len() > 0 && s[0] == ' ' {
        trim_spaces(s.drop_first())
    } else {
        s
    }
}

/// The expression of a parameter that brings none of its own: `[^/]+`.
pub open spec fn default_expression() -> Seq<char> {
    seq!['[', '^', '/', ']', '+']
}

/// The name in the declaration of a parameter: what stands before the first
/// colon.
pub open spec fn param_name(decl: Seq<char>) -> Seq<char> {
    decl.take(first_of(decl, ':'))
}

/// The expression in the declaration of a parameter: what stands after the last
/// colon, without leading spaces.
pub open spec fn param_expression(decl: Seq<char>) -> Seq<char> {
    if decl.contains(':') {
        trim_spaces(after_last(decl, ':'))
    } else {
        default_expression()
    }
}

/// The named group that stands for a parameter: `(?P<name>expression)`.
pub open spec fn param_group(decl: Seq<char>) -> Seq<char> {
    seq!['(', '?', 'P', '<'] + param_name(decl) + seq!['>'] + param_expression(decl) + seq![')']
}

/// What a pattern says.
pub struct Parsed {
    /// Its pieces in order. A parameter always has a piece of literal text
    /// before it, which may be empty.
    pub elements: Seq<Element>,
    /// The expression that its pieces make.
    pub expression: Seq<char>,
    /// Whether it opens a parameter.
    pub dynamic: bool,
    /// The number of literal characters after its last complete parameter.
    pub tail: nat,
}

/// Reads a pattern without its leading slash. A parameter runs from an opening
/// brace to the next closing one; where that is missing, what follows the
/// opening brace is dropped.
pub open spec fn parse_body(body: Seq<char>) -> Parsed
    decreases body.len(),
{
    let open = first_of(body, '{');
    let literal = body.take(open);
    let rest = body.skip(open + 1);
    let close = first_of(rest, '}');
    if open >= body.len() {
        Parsed {
            elements: if body.len() == 0 {
                Seq::empty()
            } else {
                seq![Element::Str(body)]
            },
            expression: escaped(body),
            dynamic: false,
            tail: body.len(),
        }
    } else if close >= rest.len() {
        Parsed {
            elements: seq![Element::Str(literal)],
            expression: escaped(literal),
            dynamic: true,
            tail: literal.len(),
        }
    } else {
        proof {
            lemma_first_of(body, '{');
            lemma_first_of(rest, '}');
        }
        let decl = rest.take(close);
        let after = parse_body(rest.skip(close + 1));
        Parsed {
            elements: seq![Element::Str(literal), Element::Var(param_name(decl))] + after.elements,
            expression: escaped(literal) + param_group(decl) + after.expression,
            dynamic: true,
            tail: after.tail,
        }
    }
}

/// A pattern without its leading slash, which is optional.
pub open spec fn pattern_body(pattern: Seq<char>) -> Seq<char> {
    if pattern.len() > 0 && pattern[0] == '/' {
        pattern.drop_first()
    } else {
        pattern
    }
}

/// Whether a pattern opens a parameter.
pub open spec fn is_dynamic(pattern: Seq<char>) -> bool {
    parse_body(pattern_body(pattern)).dynamic
}

/// What a pattern is compiled to. With a parameter: an expression that is
/// anchored at the start of the path and, unless the pattern is for prefixes,
/// at its end. Without one: the path itself.
pub open spec fn compiled_text(pattern: Seq<char>, prefix: Seq<char>, for_prefix: bool) -> Seq<
    char,
> {
    let body = pattern_body(pattern);
    if !is_dynamic(pattern) {
        prefix + body
    } else if for_prefix {
        seq!['^'] + prefix + parse_body(body).expression
    } else {
        seq!['^'] + prefix + parse_body(body).expression + seq!['$']
    }
}

/// The first position of a character is in range, holds it, and none before
/// does.
pub proof fn lemma_first_of(s: Seq<char>, c: char)
    ensures
        0 <= first_of(s, c) <= s.len(),
        first_of(s, c) < s.len() ==> s[first_of(s, c)] == c,
        forall|i: int| 0 <= i < first_of(s, c) ==> s[i] != c,
    decreases s.len(),
{
    if s.len() > 0 && s[0] != c {
        lemma_first_of(s.drop_first(), c);
        assert forall|i: int| 0 <= i < first_of(s, c) implies s[i] != c by {
            if i > 0 {
                assert(s[i] == s.drop_first()[i - 1]);
            }
        }
    }
}

/// The position that holds a character after none that does is the first.
pub proof fn lemma_first_of_unique(s: Seq<char>, c: char, at: int)
    requires
        0 <= at <= s.len(),
        at < s.len() ==> s[at] == c,
        forall|i: int| 0 <= i < at ==> s[i] != c,
    ensures
        first_of(s, c) == at,
{
    lemma_first_of(s, c);
    let found = first_of(s, c);
    if found < at {
        assert(s[found] != c);
    }
}

proof fn lemma_trim_push(s: Seq<char>, c: char)
    ensures
        trim_spaces(s.push(c)) == if trim_spaces(s).len() == 0 && c == ' ' {
            trim_spaces(s)
        } else {
            trim_spaces(s).push(c)
        },
    decreases s.len(),
{
    if s.len() == 0 {
        assert(s.push(c).drop_first() =~= s);
        assert(trim_spaces(s) == s);
        if c == ' ' {
            assert(trim_spaces(s.push(c)) == trim_spaces(s.push(c).drop_first()));
        }
    } else if s[0] == ' ' {
        lemma_trim_push(s.drop_first(), c);
        assert(s.push(c).drop_first() =~= s.drop_first().push(c));
    }
}

proof fn lemma_decl_push(decl: Seq<char>, c: char)
    ensures
        param_name(decl.push(c)) == if c == ':' || decl.contains(':') {
            param_name(decl)
        } else {
            param_name(decl).push(c)
        },
        decl.push(c).contains(':') <==> c == ':' || decl.contains(':'),
        c == ':' ==> param_expression(decl.push(c)) == Seq::<char>::empty(),
        c != ':' && decl.contains(':') ==> param_expression(decl.push(c)) == if param_expression(
            decl,
        ).len() == 0 && c == ' ' {
            param_expression(decl)
        } else {
            param_expression(decl).push(c)
        },
{
    let longer = decl.push(c);
    lemma_first_of(decl, ':');
    lemma_first_of(longer, ':');
    let at = first_of(decl, ':');
    if decl.contains(':') {
        let i = choose|i: int| 0 <= i < decl.len() && decl[i] == ':';
        assert(longer[i] == ':');
        assert(at < decl.len());
        assert forall|j: int| 0 <= j < at implies longer[j] != ':' by {
            assert(decl[j] != ':');
        }
        lemma_first_of_unique(longer, ':', at);
        assert(longer.take(at) =~= decl.take(at));
    } else {
        assert forall|j: int| 0 <= j < decl.len() implies decl[j] != ':' by {}
        assert(at == decl.len());
        if c == ':' {
            assert(longer[decl.len() as int] == ':');
            lemma_first_of_unique(longer, ':', at);
            assert(longer.take(at) =~= decl.take(at));
        } else {
            lemma_first_of_unique(longer, ':', longer.len() as int);
            assert(longer.take(longer.len() as int) =~= decl.take(at).push(c));
            assert(!longer.contains(':'));
        }
    }
    assert(longer.drop_last() =~= decl);
    lemma_trim_push(after_last(decl, ':'), c);
    assert(trim_spaces(Seq::<char>::empty()) == Seq::<char>::empty());
}

proof fn lemma_escaped_push(s: Seq<char>, c: char)
    ensures
        escaped(s.push(c)) == escaped(s) + escaped(seq![c]),
{
    reveal_with_fuel(escaped, 2);
    assert(s.push(c).drop_last() =~= s);
    assert(seq![c].drop_last() =~= Seq::<char>::empty());
    assert(escaped(s.push(c)) =~= escaped(s) + escaped(seq![c]));
}

/// The literal text up to an opening brace is read from where it starts.
proof fn lemma_read_literal(body: Seq<char>, start: int, end: int)
    requires
        0 <= start <= end <= body.len(),
        end < body.len() ==> body[end] == '{',
        forall|i: int| start <= i < end ==> body[i] != '{',
    ensures
        first_of(body.skip(start), '{') == end - start,
        body.skip(start).take(end - start) == body.subrange(start, end),
        end < body.len() ==> body.skip(start).skip(end - start + 1) == body.skip(end + 1),
{
    let b = body.skip(start);
    assert forall|i: int| 0 <= i < end - start implies b[i] != '{' by {
        assert(b[i] == body[start + i]);
    }
    if end < body.len() {
        assert(b[end - start] == body[end]);
    }
    lemma_first_of_unique(b, '{', end - start);
    assert(b.take(end - start) =~= body.subrange(start, end));
    if end < body.len() {
        assert(b.skip(end - start + 1) =~= body.skip(end + 1));
    }
}

/// A parameter is read up to its closing brace.
pub proof fn lemma_read_param(body: Seq<char>, start: int, open: int, close: int)
    requires
        0 <= start <= open < close <= body.len(),
        body[open] == '{',
        forall|i: int| start <= i < open ==> body[i] != '{',
        forall|i: int| open < i < close ==> body[i] != '}',
        close < body.len() ==> body[close] == '}',
    ensures
        ({
            let literal = body.subrange(start, open);
            let decl = body.subrange(open + 1, close);
            let here = parse_body(body.skip(start));
            let after = parse_body(body.skip(close + 1));
            if close < body.len() {
                &&& here.elements == seq![Element::Str(literal), Element::Var(param_name(decl))]
                    + after.elements
                &&& here.expression == escaped(literal) + param_group(decl) + after.expression
                &&& here.dynamic
                &&& here.tail == after.tail
            } else {
                &&& here.elements == seq![Element::Str(literal)]
                &&& here.expression == escaped(literal)
                &&& here.dynamic
                &&& here.tail == literal.len()
            }
        }),
{
    lemma_read_literal(body, start, open);
    let rest = body.skip(open + 1);
    assert forall|i: int| 0 <= i < close - open - 1 implies rest[i] != '}' by {
        assert(rest[i] == body[open + 1 + i]);
    }
    if close < body.len() {
        assert(rest[close - open - 1] == body[close]);
    }
    lemma_first_of_unique(rest, '}', close - open - 1);
    assert(rest.take(close - open - 1) =~= body.subrange(open + 1, close));
    if close < body.len() {
        assert(rest.skip(close - open) =~= body.skip(close + 1));
    }
}

impl ResourceDef {
    /// Reads a pattern: what it is compiled to, its pieces, whether it opens a
    /// parameter, and the number of literal characters after its last complete
    /// parameter.
    pub fn parse(pattern: &str, prefix: &str, for_prefix: bool) -> (parsed: (
        String,
        Vec<PatternElement>,
        bool,
        usize,
    ))
        ensures
            parsed.0@ == compiled_text(pattern@, prefix@, for_prefix),
            element_views(parsed.1@) == parse_body(pattern_body(pattern@)).elements,
            parsed.2 == is_dynamic(pattern@),
            parsed.3 == parse_body(pattern_body(pattern@)).tail,
    {
        let ghost body = pattern_body(pattern@);
        let ghost whole = parse_body(body);
        let ghost anchor = seq!['^'] + prefix@;
        proof {
            lemma_byte_len_at_least(pattern@);
            reveal_strlit("^");
            reveal_strlit("[^/]+");
            assert("^"@ =~= seq!['^']);
            assert("[^/]+"@ =~= default_expression());
        }
        let limit = pattern.as_bytes().len();

        let mut re1 = "^".to_owned();
        re1.append(prefix);
        let mut re2 = prefix.to_owned();
        let mut el = String::new();
        let mut in_param = false;
        let mut in_param_pattern = false;
        let mut name = String::new();
        let mut expression = "[^/]+".to_owned();
        let mut dynamic = false;
        let mut elems: Vec<PatternElement> = Vec::new();
        let mut len: usize = 0;

        // All routes must have a leading slash, so it is optional to write one.
        let mut rest = pattern.chars();
        let mut next = rest.next();
        proof {
            if pattern@.len() > 0 {
                assert(pattern@.drop_first() =~= pattern@.skip(1));
                if pattern@.len() > 1 {
                    let read: int = if pattern@[0] == '/' {
                        1
                    } else {
                        2
                    };
                    assert(pattern@.skip(1).drop_first() =~= body.skip(read));
                }
            }
            assert(body.skip(0) =~= body);
            assert(body.subrange(0, 0) =~= Seq::<char>::empty());
            assert(prefix@ + body.take(0) =~= prefix@);
            assert(anchor + Seq::<char>::empty() + Seq::<char>::empty() =~= anchor);
            assert(Seq::<Element>::empty() + whole.elements =~= whole.elements);
            assert(Seq::<char>::empty() + whole.expression =~= whole.expression);
        }
        if next == Some('/') {
            next = rest.next();
        }

        // `done` counts the characters of the body that were read, `start` those
        // before the literal text at hand, and `open` is where a brace opened.
        let ghost mut done: int = 0;
        let ghost mut start: int = 0;
        let ghost mut open: int = 0;
        let ghost mut elements: Seq<Element> = Seq::empty();
        let ghost mut found: Seq<char> = Seq::empty();
        let ghost mut seen_param = false;

        while next.is_some()
            invariant
                0 <= start <= done <= body.len(),
                body.len() <= pattern@.len() <= limit,
                whole == parse_body(body),
                body == pattern_body(pattern@),
                anchor == seq!['^'] + prefix@,
                match next {
                    Some(c) => done < body.len() && c == body[done]
                        && vstd::std_specs::iter::IteratorSpec::remaining(&rest) == body.skip(
                        done + 1,
                    ),
                    None => done == body.len(),
                },
                whole.elements == elements + parse_body(body.skip(start)).elements,
                whole.expression == found + parse_body(body.skip(start)).expression,
                whole.dynamic == (seen_param || parse_body(body.skip(start)).dynamic),
                whole.tail == parse_body(body.skip(start)).tail,
                !in_param ==> {
                    &&& el@ == body.subrange(start, done)
                    &&& forall|i: int| start <= i < done ==> body[i] != '{'
                    &&& element_views(elems@) == elements
                    &&& re1@ == anchor + found + escaped(el@)
                    &&& dynamic == seen_param
                    &&& !dynamic ==> re2@ == prefix@ + body.take(done)
                    &&& len == el@.len()
                    &&& !in_param_pattern
                    &&& name@ == Seq::<char>::empty()
                    &&& expression@ == default_expression()
                },
                in_param ==> {
                    &&& start <= open < done
                    &&& body[open] == '{'
                    &&& forall|i: int| start <= i < open ==> body[i] != '{'
                    &&& forall|i: int| open < i < done ==> body[i] != '}'
                    &&& el@ == Seq::<char>::empty()
                    &&& element_views(elems@) == elements.push(
                        Element::Str(body.subrange(start, open)),
                    )
                    &&& re1@ == anchor + found + escaped(body.subrange(start, open))
                    &&& dynamic
                    &&& len == open - start
                    &&& in_param_pattern == body.subrange(open + 1, done).contains(':')
                    &&& name@ == param_name(body.subrange(open + 1, done))
                    &&& expression@ == param_expression(body.subrange(open + 1, done))
                },
            decreases body.len() - done,
        {
            let ch = next.unwrap();
            if in_param {
                if ch == '}' {
                    let ghost shown = element_views(elems@);
                    let ghost decl = body.subrange(open + 1, done);
                    let ghost literal = body.subrange(start, open);
                    elems.push(PatternElement::Var(name.clone()));
                    re1.append("(?P<");
                    re1.append(name.as_str());
                    re1.append(">");
                    re1.append(expression.as_str());
                    re1.append(")");

                    name = String::new();
                    expression = "[^/]+".to_owned();
                    len = 0;
                    in_param_pattern = false;
                    in_param = false;
                    proof {
                        reveal_strlit("[^/]+");
                        reveal_strlit("(?P<");
                        reveal_strlit(">");
                        reveal_strlit(")");
                        assert("[^/]+"@ =~= default_expression());
                        assert("(?P<"@ =~= seq!['(', '?', 'P', '<']);
                        assert(">"@ =~= seq!['>']);
                        assert(")"@ =~= seq![')']);
                        lemma_read_param(body, start, open, done);
                        let after = parse_body(body.skip(done + 1));
                        assert(element_views(elems@) =~= shown.push(
                            Element::Var(param_name(decl)),
                        ));
                        elements = elements.push(Element::Str(literal)).push(
                            Element::Var(param_name(decl)),
                        );
                        assert(whole.elements =~= elements + after.elements);
                        found = found + escaped(literal) + param_group(decl);
                        assert(whole.expression =~= found + after.expression);
                        assert(re1@ =~= anchor + found);
                        assert(escaped(Seq::<char>::empty()) =~= Seq::<char>::empty());
                        assert(body.subrange(done + 1, done + 1) =~= Seq::<char>::empty());
                        assert(anchor + found + Seq::<char>::empty() =~= anchor + found);
                        seen_param = true;
                        start = done + 1;
                    }
                } else if ch == ':' {
                    in_param_pattern = true;
                    expression = String::new();
                } else if in_param_pattern {
                    // Ignore leading spaces of the expression.
                    if !(ch == ' ' && expression.as_str().is_empty()) {
                        expression.push(ch);
                    }
                } else {
                    name.push(ch);
                }
            } else if ch == '{' {
                let ghost shown = element_views(elems@);
                let ghost literal = el@;
                in_param = true;
                dynamic = true;
                elems.push(PatternElement::Str(el));
                el = String::new();
                proof {
                    assert(element_views(elems@) =~= shown.push(Element::Str(literal)));
                    open = done;
                    assert(body.subrange(done + 1, done + 1) =~= Seq::<char>::empty());
                    assert(param_name(Seq::<char>::empty()) =~= Seq::<char>::empty());
                }
            } else {
                let mut one = String::new();
                one.push(ch);
                re1.append(regex::escape(one.as_str()).as_str());
                re2.push(ch);
                proof {
                    lemma_escaped_push(el@, ch);
                    assert(Seq::<char>::empty().push(ch) =~= seq![ch]);
                    assert(body.subrange(start, done + 1) =~= el@.push(ch));
                    assert(re1@ =~= anchor + found + escaped(el@.push(ch)));
                    assert(prefix@ + body.take(done + 1) =~= (prefix@ + body.take(done)).push(ch));
                }
                el.push(ch);
                len += 1;
            }
            proof {
                if in_param && open < done {
                    let decl = body.subrange(open + 1, done);
                    lemma_decl_push(decl, ch);
                    assert(body.subrange(open + 1, done + 1) =~= decl.push(ch));
                }
                if done + 1 < body.len() {
                    assert(body.skip(done + 1).drop_first() =~= body.skip(done + 2));
                }
                done = done + 1;
            }
            next = rest.next();
        }

        proof {
            if in_param {
                lemma_read_param(body, start, open, done);
            } else {
                lemma_read_literal(body, start, done);
                assert(body.skip(start) =~= body.subrange(start, done));
                assert(body.take(done) =~= body);
            }
        }
        let ghost shown = element_views(elems@);
        let ghost literal = el@;
        if !el.as_str().is_empty() {
            elems.push(PatternElement::Str(el));
            proof {
                assert(element_views(elems@) =~= shown.push(Element::Str(literal)));
            }
        }
        proof {
            assert(element_views(elems@) =~= whole.elements);
            assert(dynamic ==> re1@ =~= anchor + whole.expression);
        }
        let text = if dynamic {
            if !for_prefix {
                re1.push('$');
            }
            re1
        } else {
            re2
        };
        (text, elems, dynamic, len)
    }
}

} // verus!
