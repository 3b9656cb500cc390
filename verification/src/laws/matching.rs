//! What a match is, and what it gives.

use vstd::prelude::*;
use vstd::std_specs::cmp::PartialEqSpec;
use vstd::utf8::encode_utf8;

use crate::def::{
    full_params, group_segments, group_values, last_end, lemma_last_slash, named_groups, nonempty,
    prefix_params, DefView, Matcher, ResourceDef,
};
use crate::params::{lemma_first_named, lemma_first_named_unique, ParamItem, ParamsView};
use crate::plain::lemma_between_concat;
use crate::regexes::regex_groups;
use crate::text::{
    byte_len, delimits, is_boundary, lemma_boundary_concat, lemma_boundary_in_prefix,
    lemma_boundary_range, lemma_byte_len_at_least, lemma_cut_concat, lemma_encode_concat,
    lemma_encode_from, text_between, text_from, text_to, wrap16,
};

verus! {

/// A text is cut where its bytes are.
pub proof fn law_text_is_cut_by_bytes(a: Seq<char>, b: Seq<char>, c: Seq<char>)
    ensures
        byte_len(a + b) == byte_len(a) + byte_len(b),
        text_to(a + b, byte_len(a) as int) == a,
        text_from(a + b, byte_len(a) as int) == b,
        is_boundary(a + b, byte_len(a) as int),
        delimits(a + b + c, byte_len(a) as int, byte_len(a + b) as int),
        text_between(a + b + c, byte_len(a) as int, byte_len(a + b) as int) == b,
{
    lemma_between_concat(a, b, c);
    lemma_cut_concat(a, b);
    lemma_boundary_concat(a, b);
    lemma_boundary_concat(a + b, c);
    assert(a + b + c =~= a + (b + c));
    lemma_boundary_concat(a, b + c);
}

/// The number of bytes of a text is that of its encoding, so a character that is
/// not ASCII counts more than one.
pub proof fn law_bytes_are_counted(a: Seq<char>)
    ensures
        byte_len(a) == encode_utf8(a).len(),
        byte_len(Seq::<char>::empty()) == 0,
        byte_len(seq!['/']) == 1,
{
    assert(vstd::utf8::is_ascii_chars(seq!['/']));
    vstd::utf8::is_ascii_chars_encode_utf8(seq!['/']);
}

/// Which texts a definition matches: one text, those that begin with one, or
/// those that an expression is found in.
pub proof fn law_what_is_matched(def: DefView, text: Seq<char>)
    ensures
        def.matcher matches Matcher::Static(s) ==> (def.matches(text) <==> text == s),
        def.matcher matches Matcher::Prefix(s) ==> (def.matches(text) <==> exists|more: Seq<char>|
            text == #[trigger] (s + more)),
        def.matcher matches Matcher::Dynamic { source, .. } ==> (def.matches(text)
            <==> regex_groups(source, text) is Some),
{
    if let Matcher::Prefix(s) = def.matcher {
        if s.is_prefix_of(text) {
            assert(text =~= s + text.skip(s.len() as int));
        }
        assert forall|more: Seq<char>| text == #[trigger] (s + more) implies s.is_prefix_of(
            text,
        ) by {
            assert(text.subrange(0, s.len() as int) =~= s);
        }
    }
}

/// What matching a path gives, from where `rest` begins. The rest must be matched
/// whole, except by a prefix. Where there is an expression, the path is consumed
/// to its end.
pub proof fn law_what_a_whole_match_gives(def: DefView, front: Seq<char>, rest: Seq<char>)
    ensures
        ({
            let path = front + rest;
            let plen = byte_len(front) as int;
            let given = def.match_from(path, plen);
            &&& given is Some <==> def.matches(rest)
            &&& given matches Some(params) ==> {
                &&& params.path == path
                &&& def.matcher matches Matcher::Dynamic { source, names, .. } ==> {
                    &&& params.tail == byte_len(path) % 0x10000
                    &&& params.segments == group_segments(
                        names,
                        regex_groups(source, rest).unwrap(),
                        plen,
                    )
                }
                &&& !(def.matcher is Dynamic) ==> params.tail == 0 && params.segments.len() == 0
            }
        }),
{
    lemma_cut_concat(front, rest);
}

/// What matching the beginning of a path gives, from where `rest` begins, if that
/// is with an expression or with a whole text. An empty rest is a slash. Where
/// there is an expression, the path is consumed to the end of its last
/// parameter and as far as its literal tail is long.
pub proof fn law_what_a_beginning_gives(def: DefView, front: Seq<char>, rest: Seq<char>)
    requires
        !(def.matcher is Prefix),
    ensures
        ({
            let path = front + rest;
            let plen = byte_len(front) as int;
            let seen = if rest.len() == 0 {
                seq!['/']
            } else {
                rest
            };
            let given = def.match_prefix_from(path, plen);
            &&& given is Some <==> def.matches(seen)
            &&& given matches Some(params) ==> {
                &&& params.path == path
                &&& def.matcher matches Matcher::Dynamic { source, names, len } ==> {
                    let groups = regex_groups(source, seen).unwrap();
                    &&& params.tail == (plen + last_end(names, groups) + len) % 0x10000
                    &&& params.segments == group_segments(names, groups, plen)
                }
                &&& def.matcher is Static ==> params.tail == 0 && params.segments.len() == 0
            }
        }),
{
    lemma_cut_concat(front, rest);
}

/// A prefix matches the rest of a path exactly if it is the rest; or the rest
/// begins with it, and it ends with a slash or a slash follows. An empty rest is
/// a slash.
pub proof fn law_a_prefix_ends_with_a_segment(
    def: DefView,
    s: Seq<char>,
    front: Seq<char>,
    rest: Seq<char>,
)
    requires
        def.matcher == Matcher::Prefix(s),
    ensures
        ({
            let seen = if rest.len() == 0 {
                seq!['/']
            } else {
                rest
            };
            def.match_prefix_from(front + rest, byte_len(front) as int) is Some <==> {
                ||| seen == s
                ||| seen.len() > s.len() && seen.take(s.len() as int) == s && (seen[s.len() as int]
                    == '/' || (s.len() > 0 && s.last() == '/'))
            }
        }),
{
    let seen = if rest.len() == 0 {
        seq!['/']
    } else {
        rest
    };
    lemma_cut_concat(front, rest);
    if s.is_prefix_of(seen) && seen.len() == s.len() {
        assert(seen =~= s);
    }
}

/// A prefix consumes itself, but for a slash that ends it where more follows.
pub proof fn law_a_prefix_consumes_itself(
    def: DefView,
    front: Seq<char>,
    taken: Seq<char>,
    left: Seq<char>,
)
    ensures
        ({
            let path = front + taken + left;
            let plen = byte_len(front) as int;
            let given = def.match_prefix_from(path, plen);
            &&& def.matcher == Matcher::Prefix(taken) && (left.len() == 0 || left[0] == '/') && (
            taken.len() == 0 || taken.last() != '/' || left.len() == 0) && (taken + left).len() > 0
                ==> {
                &&& given matches Some(params)
                &&& params.path == path
                &&& params.segments.len() == 0
                &&& params.tail == byte_len(front + taken) % 0x10000
            }
            &&& def.matcher == Matcher::Prefix(taken + seq!['/']) && left.len() > 1 && left[0]
                == '/' ==> {
                &&& given matches Some(params)
                &&& params.path == path
                &&& params.segments.len() == 0
                &&& params.tail == byte_len(front + taken) % 0x10000
            }
        }),
{
    let path = front + taken + left;
    let rest = taken + left;
    assert(path =~= front + rest);
    lemma_cut_concat(front, rest);
    lemma_encode_concat(front, taken);
    lemma_encode_concat(front + taken, left);
    let slashed = taken + seq!['/'];
    assert(slashed.drop_last() =~= taken);
    lemma_last_slash(slashed);
    law_bytes_are_counted(left);
    if left.len() == 0 {
        assert(rest =~= taken);
        assert(path =~= front + taken);
    } else {
        assert(rest.subrange(0, taken.len() as int) =~= taken);
        assert(rest[taken.len() as int] == left[0]);
        if left[0] == '/' {
            assert(rest.subrange(0, slashed.len() as int) =~= slashed);
            lemma_byte_len_at_least(left);
        }
    }
}

/// A prefix that matches the empty rest of a path consumes nothing more of it.
pub proof fn law_a_prefix_of_nothing_consumes_nothing(def: DefView, path: Seq<char>)
    requires
        def.matcher is Prefix,
    ensures
        def.match_prefix_from(path, byte_len(path) as int) is Some <==> def.matcher
            == Matcher::Prefix(seq!['/']) || def.matcher == Matcher::Prefix(Seq::empty()),
        def.match_prefix_from(path, byte_len(path) as int) matches Some(params) ==> {
            &&& params.path == path
            &&& params.segments.len() == 0
            &&& params.tail == byte_len(path) % 0x10000
        },
{
    assert(path + Seq::<char>::empty() =~= path);
    lemma_cut_concat(path, Seq::empty());
    let s = def.matcher->Prefix_0;
    if s.is_prefix_of(seq!['/']) {
        if s.len() == 0 {
            assert(s =~= Seq::<char>::empty());
        } else {
            assert(s =~= seq!['/']);
        }
    }
    assert(Seq::<char>::empty().is_prefix_of(seq!['/'])) by {
        assert(seq!['/'].subrange(0, 0) =~= Seq::<char>::empty());
    }
}

/// The parameters of a match come of its groups one by one: a further group adds
/// one at the end, with its own name and its own offsets, if it has a name and
/// takes part; else it adds nothing.
pub proof fn law_groups_make_parameters_one_by_one(
    names: Seq<Option<Seq<char>>>,
    groups: Seq<Option<(usize, usize)>>,
    group: Option<(usize, usize)>,
    text: Seq<char>,
    plen: int,
)
    requires
        plen >= 0,
    ensures
        group_segments(names, Seq::empty(), plen).len() == 0,
        group_values(text, names, Seq::empty()).len() == 0,
        last_end(names, Seq::empty()) == 0,
        ({
            let n = groups.len() as int;
            let all = groups.push(group);
            if n < names.len() && names[n] is Some && group is Some {
                let (start, end) = group.unwrap();
                &&& group_segments(names, all, plen).len() == group_segments(
                    names,
                    groups,
                    plen,
                ).len() + 1
                &&& group_segments(names, all, plen).drop_last() == group_segments(
                    names,
                    groups,
                    plen,
                )
                &&& group_segments(names, all, plen).last().0 == names[n].unwrap()
                &&& group_segments(names, all, plen).last().1 == ParamItem::UrlSegment(
                    ((plen + start) % 0x10000) as u16,
                    ((plen + end) % 0x10000) as u16,
                )
                &&& group_values(text, names, all) == group_values(text, names, groups).push(
                    text_between(text, start as int, end as int),
                )
                &&& last_end(names, all) == end
            } else {
                &&& group_segments(names, all, plen) == group_segments(names, groups, plen)
                &&& group_values(text, names, all) == group_values(text, names, groups)
                &&& last_end(names, all) == last_end(names, groups)
            }
        }),
{
    let all = groups.push(group);
    let none = Seq::<Option<(usize, usize)>>::empty();
    assert(named_groups(names, none).len() == 0);
    assert(all.drop_last() =~= groups);
    assert(all.last() == group);
    let n = groups.len() as int;
    if n < names.len() && names[n] is Some && group is Some {
        assert(group_segments(names, all, plen).drop_last() =~= group_segments(
            names,
            groups,
            plen,
        ));
        assert(group_values(text, names, all) =~= group_values(text, names, groups).push(
            text_between(text, group.unwrap().0 as int, group.unwrap().1 as int),
        ));
    }
}

/// What is made of the groups of a match, wherever in a path it begins. A whole
/// match consumes the path to its end; a match of a beginning goes to the end of
/// the last parameter and a number of bytes further.
pub proof fn law_what_is_made_of_groups(
    path: Seq<char>,
    plen: int,
    names: Seq<Option<Seq<char>>>,
    len: int,
    groups: Seq<Option<(usize, usize)>>,
)
    requires
        plen >= 0,
        len >= 0,
    ensures
        full_params(path, plen, names, groups).path == path,
        full_params(path, plen, names, groups).tail == byte_len(path) % 0x10000,
        full_params(path, plen, names, groups).segments == group_segments(names, groups, plen),
        prefix_params(path, plen, names, len, groups).path == path,
        prefix_params(path, plen, names, len, groups).tail == (plen + last_end(names, groups) + len)
            % 0x10000,
        prefix_params(path, plen, names, len, groups).segments == group_segments(
            names,
            groups,
            plen,
        ),
{
}

/// What the parameters of a match stand for is what its groups hold.
pub proof fn law_values_are_what_groups_hold(def: DefView, text: Seq<char>)
    ensures
        def.matcher matches Matcher::Dynamic { source, names, .. } ==> (regex_groups(
            source,
            text,
        ) matches Some(groups) ==> def.values(text) == group_values(text, names, groups)),
        !(def.matcher is Dynamic) ==> def.values(text).len() == 0,
{
}

/// The value of a parameter is the piece of the path between its offsets; there is
/// none where these are out of order or beyond the path.
pub proof fn law_a_parameter_is_a_piece_of_the_path(
    params: ParamsView,
    i: int,
    start: u16,
    end: u16,
    a: Seq<char>,
    v: Seq<char>,
    b: Seq<char>,
)
    requires
        0 <= i < params.segments.len(),
        params.segments[i].1 == ParamItem::UrlSegment(start, end),
    ensures
        params.path == a + v + b && start == byte_len(a) && end == byte_len(a + v)
            ==> params.value_at(i) == Some(v),
        start > end || end > byte_len(params.path) ==> params.value_at(i) is None,
        params.value_at(i) matches Some(value) ==> {
            let before = text_to(params.path, start as int);
            &&& params.path == before + value + text_from(params.path, end as int)
            &&& byte_len(before) == start
            &&& byte_len(before + value) == end
        },
{
    law_text_is_cut_by_bytes(a, v, b);
    if delimits(params.path, start as int, end as int) {
        lemma_boundary_range(params.path, end as int);
        lemma_encode_from(params.path, end as int);
        lemma_boundary_in_prefix(params.path, start as int, end as int);
        let head = text_to(params.path, end as int);
        lemma_encode_from(head, start as int);
        lemma_boundary_range(head, start as int);
        lemma_encode_from(params.path, start as int);
        lemma_boundary_range(params.path, start as int);
        assert(encode_utf8(params.path).subrange(0, end as int).subrange(start as int, end as int)
            =~= encode_utf8(params.path).subrange(start as int, end as int));
        assert(encode_utf8(params.path).subrange(0, end as int).subrange(0, start as int)
            =~= encode_utf8(params.path).subrange(0, start as int));
    }
}

/// Looking up a name finds the value of the first parameter that has it.
pub proof fn law_the_first_of_a_name_is_found(params: ParamsView, name: Seq<char>, i: int)
    ensures
        0 <= i < params.segments.len() && params.segments[i].0 == name && (forall|j: int|
            0 <= j < i ==> (#[trigger] params.segments[j]).0 != name) ==> params.value(name)
            == params.value_at(i),
        (forall|j: int|
            0 <= j < params.segments.len() ==> (#[trigger] params.segments[j]).0 != name)
            ==> params.value(name) is None,
{
    if 0 <= i < params.segments.len() && params.segments[i].0 == name && (forall|j: int|
        0 <= j < i ==> (#[trigger] params.segments[j]).0 != name) {
        lemma_first_named_unique(params.segments, name, i);
    }
    if forall|j: int| 0 <= j < params.segments.len() ==> (#[trigger] params.segments[j]).0
        != name {
        lemma_first_named(params.segments, name);
    }
}

/// A path of which nothing was matched has no parameters and is not consumed.
pub proof fn law_no_parameters_yet(path: Seq<char>)
    ensures
        ParamsView::of_path(path).path == path,
        ParamsView::of_path(path).tail == 0,
        ParamsView::of_path(path).segments.len() == 0,
{
}

/// The empty path is looked up as a slash, any other as it is.
pub proof fn law_an_empty_path_is_a_slash(path: Seq<char>)
    ensures
        path.len() == 0 ==> nonempty(path) == seq!['/'],
        path.len() > 0 ==> nonempty(path) == path,
{
}

/// Definitions are equal exactly if their patterns are.
pub proof fn law_definitions_are_compared_by_pattern(a: ResourceDef, b: ResourceDef)
    ensures
        a.eq_spec(&b) <==> a@.pattern == b@.pattern,
{
}

/// Numbers that fit in 16 bits are kept; others lose what is beyond.
pub proof fn law_numbers_keep_16_bits(n: int, m: int)
    requires
        n >= 0,
        m >= 0,
    ensures
        n <= 0xffff ==> wrap16(n) == n,
        wrap16(n) == wrap16(n + 0x10000 * m),
        wrap16(n) == n % 0x10000,
{
    assert((n + 0x10000 * m) % 0x10000 == n % 0x10000) by (nonlinear_arith)
        requires
            n >= 0,
            m >= 0,
    ;
}

} // verus!
