//! What a pattern says.

use vstd::prelude::*;

use crate::def::{is_reason, pattern_compiles, pattern_def, Matcher, ResourceType};
use crate::pattern::{
    after_last, compiled_text, first_of, is_dynamic, lemma_first_of, lemma_first_of_unique,
    lemma_read_param, param_expression, param_name, parse_body, pattern_body,
    trim_spaces, Element,
};
use crate::regexes::{escaped, is_meta, regex_compiles, regex_group_names};

verus! {

/// A text is escaped character by character, with a backslash before those that
/// have a meaning in an expression.
pub proof fn law_text_is_escaped_by_character(a: Seq<char>, b: Seq<char>, c: char)
    ensures
        escaped(Seq::empty()).len() == 0,
        escaped(a + b) == escaped(a) + escaped(b),
        escaped(seq![c]) == if seq![
            '\\',
            '.',
            '+',
            '*',
            '?',
            '(',
            ')',
            '|',
            '[',
            ']',
            '{',
            '}',
            '^',
            '$',
            '#',
            '&',
            '-',
            '~',
        ].contains(c) {
            seq!['\\', c]
        } else {
            seq![c]
        },
    decreases b.len(),
{
    reveal_with_fuel(escaped, 2);
    if b.len() == 0 {
        assert(a + b =~= a);
        assert(escaped(a) + escaped(b) =~= escaped(a));
    } else {
        law_text_is_escaped_by_character(a, b.drop_last(), c);
        assert((a + b).drop_last() =~= a + b.drop_last());
        assert(escaped(a + b) =~= escaped(a) + escaped(b));
    }
    let metas = seq![
        '\\',
        '.',
        '+',
        '*',
        '?',
        '(',
        ')',
        '|',
        '[',
        ']',
        '{',
        '}',
        '^',
        '$',
        '#',
        '&',
        '-',
        '~',
    ];
    assert(seq![c].drop_last() =~= Seq::<char>::empty());
    assert(metas[0] == '\\' && metas[1] == '.' && metas[2] == '+' && metas[3] == '*' && metas[4]
        == '?' && metas[5] == '(' && metas[6] == ')' && metas[7] == '|' && metas[8] == '['
        && metas[9] == ']' && metas[10] == '{' && metas[11] == '}' && metas[12] == '^' && metas[13]
        == '$' && metas[14] == '#' && metas[15] == '&' && metas[16] == '-' && metas[17] == '~');
    assert(metas.contains(c) == is_meta(c));
    assert(escaped(seq![c]) =~= if metas.contains(c) {
        seq!['\\', c]
    } else {
        seq![c]
    });
}

/// What a pattern without an opening brace says: its own text.
pub proof fn law_literal_text_says_itself(body: Seq<char>)
    requires
        !body.contains('{'),
    ensures
        parse_body(body).elements == if body.len() == 0 {
            Seq::<Element>::empty()
        } else {
            seq![Element::Str(body)]
        },
        parse_body(body).expression == escaped(body),
        !parse_body(body).dynamic,
        parse_body(body).tail == body.len(),
{
    lemma_first_of(body, '{');
    let open = first_of(body, '{');
    if open < body.len() {
        assert(body.contains('{'));
    }
}

/// What is said of a parameter at the beginning of a pattern, from its
/// declaration on.
proof fn lemma_parameter(literal: Seq<char>, decl: Seq<char>, rest: Seq<char>)
    requires
        !literal.contains('{'),
        !decl.contains('}'),
    ensures
        ({
            let said = parse_body(literal + seq!['{'] + decl + seq!['}'] + rest);
            let more = parse_body(rest);
            &&& said.elements == seq![Element::Str(literal), Element::Var(param_name(decl))]
                + more.elements
            &&& said.expression == escaped(literal) + (seq!['(', '?', 'P', '<'] + param_name(decl)
                + seq!['>'] + param_expression(decl) + seq![')']) + more.expression
            &&& said.dynamic
            &&& said.tail == more.tail
        }),
{
    let body = literal + seq!['{'] + decl + seq!['}'] + rest;
    let open = literal.len() as int;
    let close = open + 1 + decl.len();
    assert(body[open] == '{');
    assert(body[close] == '}');
    assert forall|i: int| 0 <= i < open implies body[i] != '{' by {
        assert(body[i] == literal[i]);
        assert(literal.contains(literal[i]));
    }
    assert forall|i: int| open < i < close implies body[i] != '}' by {
        assert(body[i] == decl[i - open - 1]);
        assert(decl.contains(decl[i - open - 1]));
    }
    lemma_read_param(body, 0, open, close);
    assert(body.skip(0) =~= body);
    assert(body.subrange(0, open) =~= literal);
    assert(body.subrange(open + 1, close) =~= decl);
    assert(body.skip(close + 1) =~= rest);
}

/// A parameter without an expression is a piece of the pattern, and stands for a
/// named group of one or more characters other than `/`. What follows it is
/// said as if it stood alone.
pub proof fn law_a_parameter_is_a_named_group(literal: Seq<char>, name: Seq<char>, rest: Seq<char>)
    requires
        !literal.contains('{'),
        !name.contains(':'),
        !name.contains('}'),
    ensures
        ({
            let said = parse_body(literal + seq!['{'] + name + seq!['}'] + rest);
            let more = parse_body(rest);
            &&& said.elements == seq![Element::Str(literal), Element::Var(name)] + more.elements
            &&& said.expression == escaped(literal) + (seq!['(', '?', 'P', '<'] + name + seq![
                '>',
                '[',
                '^',
                '/',
                ']',
                '+',
                ')',
            ]) + more.expression
            &&& said.dynamic
            &&& said.tail == more.tail
        }),
{
    lemma_parameter(literal, name, rest);
    lemma_first_of(name, ':');
    if first_of(name, ':') < name.len() {
        assert(name.contains(':'));
    }
    assert(name.take(name.len() as int) =~= name);
    let group = seq!['(', '?', 'P', '<'] + name + seq!['>', '[', '^', '/', ']', '+', ')'];
    assert(seq!['(', '?', 'P', '<'] + param_name(name) + seq!['>'] + param_expression(name) + seq![
        ')',
    ] =~= group);
}

/// What follows the last colon is left, whatever comes before it.
proof fn lemma_after_last(before: Seq<char>, after: Seq<char>)
    requires
        !after.contains(':'),
    ensures
        after_last(before + seq![':'] + after, ':') == after,
    decreases after.len(),
{
    let s = before + seq![':'] + after;
    if after.len() == 0 {
        assert(s.last() == ':');
        assert(after =~= Seq::<char>::empty());
    } else {
        let shorter = after.drop_last();
        assert forall|i: int| 0 <= i < shorter.len() implies shorter[i] != ':' by {
            assert(after.contains(after[i]));
        }
        lemma_after_last(before, shorter);
        assert(s.drop_last() =~= before + seq![':'] + shorter);
        assert(after.contains(after.last()));
        assert(shorter.push(after.last()) =~= after);
    }
}

proof fn lemma_trimmed(spaces: Seq<char>, text: Seq<char>)
    requires
        forall|i: int| 0 <= i < spaces.len() ==> spaces[i] == ' ',
        text.len() > 0 ==> text[0] != ' ',
    ensures
        trim_spaces(spaces + text) == text,
    decreases spaces.len(),
{
    if spaces.len() == 0 {
        assert(spaces + text =~= text);
    } else {
        assert((spaces + text).drop_first() =~= spaces.drop_first() + text);
        lemma_trimmed(spaces.drop_first(), text);
    }
}

/// A parameter with an expression stands for a named group of that expression,
/// which is taken over unchanged. The name ends at the first colon. The
/// expression begins after the last one, and after the spaces there: a colon
/// drops what was read of an expression before it. What follows the parameter is
/// said as if it stood alone.
pub proof fn law_an_expression_is_the_group_of_its_parameter(
    literal: Seq<char>,
    name: Seq<char>,
    dropped: Seq<char>,
    spaces: Seq<char>,
    expression: Seq<char>,
    rest: Seq<char>,
)
    requires
        !literal.contains('{'),
        !name.contains(':') && !name.contains('}'),
        !dropped.contains('}'),
        dropped.len() > 0 ==> dropped.last() == ':',
        forall|i: int| 0 <= i < spaces.len() ==> spaces[i] == ' ',
        !expression.contains(':') && !expression.contains('}'),
        expression.len() > 0 ==> expression[0] != ' ',
    ensures
        ({
            let decl = name + seq![':'] + dropped + spaces + expression;
            let said = parse_body(literal + seq!['{'] + decl + seq!['}'] + rest);
            let more = parse_body(rest);
            &&& said.elements == seq![Element::Str(literal), Element::Var(name)] + more.elements
            &&& said.expression == escaped(literal) + (seq!['(', '?', 'P', '<'] + name + seq!['>']
                + expression + seq![')']) + more.expression
            &&& said.dynamic
            &&& said.tail == more.tail
        }),
{
    let decl = name + seq![':'] + dropped + spaces + expression;
    let n = name.len() as int;
    assert(decl[n] == ':');
    assert(decl.contains(':'));
    assert forall|i: int| 0 <= i < decl.len() implies decl[i] != '}' by {
        let d = n + 1 + dropped.len();
        let s = d + spaces.len();
        if i < n {
            assert(decl[i] == name[i]);
            assert(name.contains(name[i]));
        } else if n < i < d {
            assert(decl[i] == dropped[i - n - 1]);
            assert(dropped.contains(dropped[i - n - 1]));
        } else if d <= i < s {
            assert(decl[i] == spaces[i - d]);
        } else if s <= i {
            assert(decl[i] == expression[i - s]);
            assert(expression.contains(expression[i - s]));
        }
    }
    assert(!decl.contains('}'));
    lemma_parameter(literal, decl, rest);
    assert forall|i: int| 0 <= i < n implies decl[i] != ':' by {
        assert(decl[i] == name[i]);
        assert(name.contains(name[i]));
    }
    lemma_first_of_unique(decl, ':', n);
    assert(decl.take(n) =~= name);
    let after = spaces + expression;
    assert forall|i: int| 0 <= i < after.len() implies after[i] != ':' by {
        if i >= spaces.len() {
            assert(after[i] == expression[i - spaces.len()]);
            assert(expression.contains(expression[i - spaces.len()]));
        }
    }
    assert(!after.contains(':'));
    let before = if dropped.len() == 0 {
        name
    } else {
        name + seq![':'] + dropped.drop_last()
    };
    assert(decl =~= before + seq![':'] + after);
    lemma_after_last(before, after);
    lemma_trimmed(spaces, expression);
}

/// A parameter that is not closed is dropped with all that follows it, but makes
/// the pattern one with an expression.
pub proof fn law_an_open_parameter_is_dropped(literal: Seq<char>, rest: Seq<char>)
    requires
        !literal.contains('{'),
        !rest.contains('}'),
    ensures
        ({
            let said = parse_body(literal + seq!['{'] + rest);
            &&& said.elements == seq![Element::Str(literal)]
            &&& said.expression == escaped(literal)
            &&& said.dynamic
            &&& said.tail == literal.len()
        }),
{
    let body = literal + seq!['{'] + rest;
    let open = literal.len() as int;
    assert(body[open] == '{');
    assert forall|i: int| 0 <= i < open implies body[i] != '{' by {
        assert(body[i] == literal[i]);
        assert(literal.contains(literal[i]));
    }
    assert forall|i: int| open < i < body.len() implies body[i] != '}' by {
        assert(body[i] == rest[i - open - 1]);
        assert(rest.contains(rest[i - open - 1]));
    }
    lemma_read_param(body, 0, open, body.len() as int);
    assert(body.skip(0) =~= body);
    assert(body.subrange(0, open) =~= literal);
}

/// What a pattern is compiled to. Without parameters, that is the prefix and its
/// own text. With parameters, it is an expression that is anchored at the
/// beginning, where the prefix stands, and at the end unless it is for prefixes.
/// A slash at the beginning of the pattern does not count.
pub proof fn law_what_a_pattern_is_compiled_to(
    body: Seq<char>,
    pattern: Seq<char>,
    prefix: Seq<char>,
)
    requires
        pattern == seq!['/'] + body || (pattern == body && (body.len() == 0 || body[0] != '/')),
    ensures
        is_dynamic(pattern) == body.contains('{'),
        !body.contains('{') ==> {
            &&& compiled_text(pattern, prefix, false) == prefix + body
            &&& compiled_text(pattern, prefix, true) == prefix + body
        },
        body.contains('{') ==> {
            &&& compiled_text(pattern, prefix, true) == seq!['^'] + prefix + parse_body(
                body,
            ).expression
            &&& compiled_text(pattern, prefix, false) == seq!['^'] + prefix + parse_body(
                body,
            ).expression + seq!['$']
        },
{
    assert((seq!['/'] + body).drop_first() =~= body);
    assert(pattern_body(pattern) == body);
    lemma_first_of(body, '{');
    let open = first_of(body, '{');
    if body.contains('{') {
        let i = choose|i: int| 0 <= i < body.len() && body[i] == '{';
        assert(open < body.len());
    } else if open < body.len() {
        assert(body.contains('{'));
    }
}

/// The expression of a parameter stands in its group unchanged: a pattern of
/// literal text and one parameter, spelled out with what it is compiled to.
pub proof fn law_one_parameter_spelled_out(
    literal: Seq<char>,
    name: Seq<char>,
    expression: Seq<char>,
    prefix: Seq<char>,
)
    requires
        !literal.contains('{'),
        !name.contains(':') && !name.contains('}'),
        !expression.contains(':') && !expression.contains('}'),
        expression.len() > 0 ==> expression[0] != ' ',
    ensures
        ({
            let pattern = seq!['/'] + (literal + seq!['{'] + (name + seq![':'] + expression) + seq![
                '}',
            ]);
            let plain = seq!['/'] + (literal + seq!['{'] + name + seq!['}']);
            let group = seq!['(', '?', 'P', '<'] + name + seq!['>'] + expression + seq![')'];
            let plain_group = seq!['(', '?', 'P', '<'] + name + seq![
                '>',
                '[',
                '^',
                '/',
                ']',
                '+',
                ')',
            ];
            let start = seq!['^'] + prefix;
            &&& compiled_text(pattern, prefix, false) == start + (escaped(literal) + group) + seq![
                '$',
            ]
            &&& compiled_text(pattern, prefix, true) == start + (escaped(literal) + group)
            &&& compiled_text(plain, prefix, false) == start + (escaped(literal) + plain_group)
                + seq!['$']
            &&& compiled_text(plain, prefix, true) == start + (escaped(literal) + plain_group)
        }),
{
    let none = Seq::<char>::empty();
    let decl = name + seq![':'] + expression;
    assert(name + seq![':'] + none + none + expression =~= decl);
    law_an_expression_is_the_group_of_its_parameter(literal, name, none, none, expression, none);
    law_a_parameter_is_a_named_group(literal, name, none);
    law_literal_text_says_itself(none);
    assert(escaped(none) =~= none);
    lemma_nothing_more(literal + seq!['{'] + decl + seq!['}']);
    lemma_nothing_more(literal + seq!['{'] + name + seq!['}']);
    let group = seq!['(', '?', 'P', '<'] + name + seq!['>'] + expression + seq![')'];
    let plain_group = seq!['(', '?', 'P', '<'] + name + seq!['>', '[', '^', '/', ']', '+', ')'];
    lemma_nothing_more(escaped(literal) + group);
    lemma_nothing_more(escaped(literal) + plain_group);
    let body = literal + seq!['{'] + decl + seq!['}'];
    let bare = literal + seq!['{'] + name + seq!['}'];
    assert(body[literal.len() as int] == '{');
    assert(bare[literal.len() as int] == '{');
    law_what_a_pattern_is_compiled_to(body, seq!['/'] + body, prefix);
    law_what_a_pattern_is_compiled_to(bare, seq!['/'] + bare, prefix);
}

proof fn lemma_nothing_more(text: Seq<char>)
    ensures
        text + Seq::<char>::empty() == text,
{
    assert(text + Seq::<char>::empty() =~= text);
}

/// The reason why a pattern is refused is one that compiling its text gives.
pub proof fn law_a_refusal_comes_of_compiling(text: Seq<char>, error: regex::Error)
    requires
        is_reason(text, error),
    ensures
        exists|s: &str|
            #[trigger] s@ == text && call_ensures(
                regex::Regex::new,
                (s,),
                Err::<regex::Regex, regex::Error>(error),
            ),
        !regex_compiles(text),
{
}

/// The definition of a pattern: it matches what the pattern is compiled to, as an
/// expression with its own names where there are parameters, else as a prefix or
/// as a whole; and paths are generated from the pieces of the pattern. It can be
/// made unless the expression does not compile.
pub proof fn law_what_a_definition_is(
    body: Seq<char>,
    pattern: Seq<char>,
    prefix: Seq<char>,
    for_prefix: bool,
)
    requires
        pattern == seq!['/'] + body || (pattern == body && (body.len() == 0 || body[0] != '/')),
    ensures
        ({
            let def = pattern_def(pattern, prefix, for_prefix);
            let text = compiled_text(pattern, prefix, for_prefix);
            &&& def.pattern == pattern
            &&& def.name.len() == 0
            &&& def.rtype == ResourceType::Normal
            &&& def.elements == parse_body(body).elements
            &&& body.contains('{') ==> def.matcher == (Matcher::Dynamic {
                source: text,
                names: regex_group_names(text),
                len: parse_body(body).tail,
            })
            &&& !body.contains('{') && for_prefix ==> def.matcher == Matcher::Prefix(prefix + body)
            &&& !body.contains('{') && !for_prefix ==> def.matcher == Matcher::Static(prefix + body)
            &&& pattern_compiles(pattern, prefix, for_prefix) <==> (body.contains('{')
                ==> regex_compiles(text))
        }),
{
    law_what_a_pattern_is_compiled_to(body, pattern, prefix);
    assert((seq!['/'] + body).drop_first() =~= body);
}

} // verus!
