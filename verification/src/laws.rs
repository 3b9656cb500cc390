//! What holds of the library as a whole.
//!
//! Each function here proves a law from what the functions of the library
//! promise of themselves. The modules below say of each operation what it does,
//! in terms of what goes in and what comes out; the laws in this one relate
//! operations to each other.

pub mod matching;
pub mod paths;
pub mod patterns;
pub mod recognition;
pub mod routing;

use std::hash::Hasher;
use std::rc::Rc;

use vstd::prelude::*;

use crate::def::{
    feed, fill, group_segments, join, lemma_last_slash, name_at, named_groups, nonempty,
    pattern_compiles, pattern_def, DefView, Matcher, ResourceType,
};
use crate::dispatch::Step;
use crate::error::UrlGenerationError;
use crate::info::{url_text, InfoView, ResourceId};
use crate::params::{
    first_named, lemma_first_named, lemma_first_named_unique, ParamItem, ParamsView, Request,
    RequestView,
};
use crate::pattern::{
    compiled_text, first_of, is_dynamic, lemma_first_of, pattern_body, Element,
};
use crate::plain::{
    are_values, count_vars, lemma_generated_is_matched, lemma_generated_prefix_is_matched,
    lemma_matched_is_generated, lemma_prefix_reads_beginning, one_per_segment, tail_text,
    var_names,
};
use crate::regexes::regex_groups;
use crate::resource::{Predicate, Resource, Route};
use crate::router::{filters_accept, filters_reject, EntryKind, Item, Router};
use crate::text::{
    byte_len, is_boundary, lemma_boundary_concat, lemma_boundary_ends, lemma_boundary_range,
    lemma_byte_len_at_least, lemma_cut_concat, lemma_encode_concat, lemma_encode_from,
    text_between, text_from, text_to, wrap16,
};

verus! {

/// The slash that a pattern begins with is optional: with and without it a
/// pattern is compiled to the same, has the same pieces and matches the same
/// paths.
pub proof fn law_leading_slash_is_optional(pattern: Seq<char>, prefix: Seq<char>, for_prefix: bool)
    requires
        pattern.len() == 0 || pattern[0] != '/',
    ensures
        compiled_text(seq!['/'] + pattern, prefix, for_prefix) == compiled_text(
            pattern,
            prefix,
            for_prefix,
        ),
        pattern_compiles(seq!['/'] + pattern, prefix, for_prefix) == pattern_compiles(
            pattern,
            prefix,
            for_prefix,
        ),
        pattern_def(seq!['/'] + pattern, prefix, for_prefix) == (DefView {
            pattern: seq!['/'] + pattern,
            ..pattern_def(pattern, prefix, for_prefix)
        }),
{
    let slashed = seq!['/'] + pattern;
    assert(slashed.drop_first() =~= pattern);
    assert(pattern_body(slashed) == pattern_body(pattern));
}

/// A path matches exactly if matching it with parameters gives some; from an
/// offset on, exactly if what follows the offset matches.
pub proof fn law_match_with_params_iff_match(def: DefView, path: Seq<char>, plen: int)
    ensures
        def.match_from(path, plen) is Some <==> def.matches(text_from(path, plen)),
        def.match_from(path, 0) is Some <==> def.matches(path),
{
    lemma_boundary_ends(path);
    lemma_encode_from(path, 0);
    assert(byte_len(text_to(path, 0)) == 0);
    lemma_byte_len_at_least(text_to(path, 0));
    assert(path =~= text_from(path, 0));
}

/// Definitions that are equal feed a hasher alike: the way from one state of the
/// hasher to another that hashing the one can take, hashing the other can take
/// too. The definitions of one pattern are equal, of whatever kind they are.
pub proof fn law_equal_definitions_feed_a_hasher_alike<H: Hasher>(
    a: DefView,
    b: DefView,
    before: H,
    after: H,
)
    requires
        a.pattern == b.pattern,
    ensures
        (exists|s: String, fed: &mut H|
            s@ == a.pattern && *fed == before && *final(fed) == after && #[trigger] call_ensures(
                feed::<H>,
                (&s, fed),
                (),
            )) <==> (exists|s: String, fed: &mut H|
            s@ == b.pattern && *fed == before && *final(fed) == after && #[trigger] call_ensures(
                feed::<H>,
                (&s, fed),
                (),
            )),
{
}

/// The definitions of one pattern are equal, whatever they are for: a resource, a
/// prefix, or something external with a name of its own.
pub proof fn law_definitions_of_one_pattern_are_equal(
    pattern: Seq<char>,
    prefix: Seq<char>,
    for_prefix: bool,
    other_prefix: Seq<char>,
    other_for_prefix: bool,
    rtype: ResourceType,
    name: Seq<char>,
)
    ensures
        pattern_def(pattern, prefix, for_prefix).pattern == pattern,
        (DefView {
            rtype,
            name,
            ..pattern_def(pattern, other_prefix, other_for_prefix)
        }).pattern == pattern_def(pattern, prefix, for_prefix).pattern,
{
}

/// What matches as a prefix matches as a whole: the prefix is where the path
/// begins.
pub proof fn law_prefix_match_is_match(def: DefView, path: Seq<char>, plen: int)
    requires
        def.match_prefix_from(path, plen) is Some,
    ensures
        def.matches(nonempty(text_from(path, plen))),
{
}

/// A pattern without parameters is the resource of one path: its own text after
/// a slash.
pub proof fn law_static_pattern_matches_itself_alone(pattern: Seq<char>, path: Seq<char>)
    requires
        !is_dynamic(pattern),
    ensures
        pattern_compiles(pattern, seq!['/'], false),
        pattern_def(pattern, seq!['/'], false).matches(path) <==> path == seq!['/'] + pattern_body(
            pattern,
        ),
{
}

/// A pattern is without parameters exactly if it holds no opening brace.
pub proof fn law_static_pattern_has_no_brace(pattern: Seq<char>)
    ensures
        is_dynamic(pattern) <==> pattern.contains('{'),
{
    let body = pattern_body(pattern);
    lemma_first_of(body, '{');
    let open = first_of(body, '{');
    if body.contains('{') {
        let i = choose|i: int| 0 <= i < body.len() && body[i] == '{';
        assert(!(i < open));
    }
    if pattern.contains('{') {
        let i = choose|i: int| 0 <= i < pattern.len() && pattern[i] == '{';
        if pattern[0] == '/' {
            assert(body[i - 1] == '{');
        }
        assert(body.contains('{'));
    }
    if open < body.len() {
        if pattern[0] == '/' {
            assert(pattern[open + 1] == '{');
        }
        assert(pattern.contains('{'));
    }
}

proof fn lemma_fill_needs_values(elements: Seq<Element>, values: Seq<Seq<char>>)
    ensures
        fill(elements, values) is Some <==> count_vars(elements) <= values.len(),
    decreases elements.len(),
{
    if elements.len() > 0 {
        match elements[0] {
            Element::Str(_) => lemma_fill_needs_values(elements.drop_first(), values),
            Element::Var(_) => if values.len() > 0 {
                lemma_fill_needs_values(elements.drop_first(), values.drop_first());
            },
        }
    }
}

/// A path can be generated exactly if there are values for all parameters; one
/// without parameters, always.
pub proof fn law_path_needs_a_value_for_each_parameter(
    def: DefView,
    values: Seq<Seq<char>>,
    prefix: Seq<char>,
)
    ensures
        def.path_for(values, prefix) is Some <==> (def.matcher is Dynamic ==> count_vars(
            def.elements,
        ) <= values.len()),
{
    lemma_fill_needs_values(def.elements, values);
}

proof fn lemma_fill_ignores_more(
    elements: Seq<Element>,
    values: Seq<Seq<char>>,
    more: Seq<Seq<char>>,
)
    requires
        count_vars(elements) <= values.len(),
    ensures
        fill(elements, values + more) == fill(elements, values),
    decreases elements.len(),
{
    if elements.len() > 0 {
        match elements[0] {
            Element::Str(_) => lemma_fill_ignores_more(elements.drop_first(), values, more),
            Element::Var(_) => {
                assert((values + more).drop_first() =~= values.drop_first() + more);
                lemma_fill_ignores_more(elements.drop_first(), values.drop_first(), more);
            },
        }
    }
}

/// Values beyond those that the parameters need are ignored.
pub proof fn law_path_ignores_more_values(
    def: DefView,
    values: Seq<Seq<char>>,
    more: Seq<Seq<char>>,
    prefix: Seq<char>,
)
    requires
        count_vars(def.elements) <= values.len(),
    ensures
        def.path_for(values + more, prefix) == def.path_for(values, prefix),
{
    lemma_fill_ignores_more(def.elements, values, more);
}

/// An external resource is the same wherever the router is mounted.
pub proof fn law_external_path_has_no_prefix(
    def: DefView,
    values: Seq<Seq<char>>,
    here: Seq<char>,
    there: Seq<char>,
)
    requires
        def.rtype == ResourceType::External,
    ensures
        def.path_for(values, here) == def.path_for(values, there),
        def.path_for(values, here) == def.own_path(values),
{
}

/// A prefix and a path meet in one slash, whether or not either brings it.
pub proof fn law_paths_meet_in_one_slash(prefix: Seq<char>, path: Seq<char>)
    requires
        prefix.len() == 0 || prefix.last() != '/',
        path.len() == 0 || path[0] != '/',
    ensures
        join(prefix, path) == prefix + seq!['/'] + path,
        join(prefix + seq!['/'], path) == join(prefix, path),
        join(prefix, seq!['/'] + path) == join(prefix, path),
        join(prefix + seq!['/'], seq!['/'] + path) == join(prefix, path),
{
    let slashed = seq!['/'] + path;
    assert(slashed.drop_first() =~= path);
    assert((prefix + seq!['/']).drop_last() =~= prefix);
}

/// The path that is generated for a resource without parameters leads back to
/// it: below the prefix that it was generated for, the resource matches it.
pub proof fn law_generated_static_path_is_matched(
    pattern: Seq<char>,
    values: Seq<Seq<char>>,
    prefix: Seq<char>,
)
    requires
        !is_dynamic(pattern),
        prefix.len() == 0 || prefix.last() != '/',
    ensures
        ({
            let def = pattern_def(pattern, seq!['/'], false);
            &&& def.path_for(values, prefix) matches Some(path)
            &&& is_boundary(path, byte_len(prefix) as int)
            &&& text_to(path, byte_len(prefix) as int) == prefix
            &&& def.match_from(path, byte_len(prefix) as int) is Some
        }),
{
    let own = seq!['/'] + pattern_body(pattern);
    assert(own.drop_first() =~= pattern_body(pattern));
    assert(join(prefix, own) =~= prefix + own);
    lemma_boundary_concat(prefix, own);
    lemma_cut_concat(prefix, own);
}

/// Generating a path below a prefix puts the prefix before it.
pub proof fn law_prefix_goes_before_the_path(
    def: DefView,
    values: Seq<Seq<char>>,
    prefix: Seq<char>,
)
    requires
        def.rtype != ResourceType::External,
        def.path_for(values, Seq::empty()) is Some,
        prefix.len() == 0 || prefix.last() != '/',
    ensures
        ({
            let own = def.path_for(values, Seq::empty()).unwrap();
            &&& def.path_for(values, prefix) matches Some(path)
            &&& path == prefix + own
            &&& is_boundary(path, byte_len(prefix) as int)
            &&& text_from(path, byte_len(prefix) as int) == own
        }),
{
    let own = def.path_for(values, Seq::empty()).unwrap();
    assert(def.path_for(values, prefix).unwrap() =~= prefix + own);
    lemma_boundary_concat(prefix, own);
    lemma_cut_concat(prefix, own);
}

/// A path that is generated from values is matched back. Of a plain pattern where
/// each parameter has a segment to itself, the match has the parameters of the
/// pattern, in order and no others, and they stand for the values. That what is
/// found is a reading of the path is what matching promises of it.
pub proof fn law_generated_path_is_matched_back(
    def: DefView,
    values: Seq<Seq<char>>,
    path: Seq<char>,
    plen: int,
)
    requires
        def.is_plain(),
        def.reads(text_from(path, plen)),
        def.reads_back(values, text_from(path, plen)),
    ensures
        def.match_from(path, plen) matches Some(params) && params.has_names(
            var_names(def.elements),
        ),
        def.values(text_from(path, plen)) == values,
{
    lemma_generated_is_matched(def, values, text_from(path, plen));
}

/// The values of a match build the path again that was matched.
pub proof fn law_matched_values_build_the_path(def: DefView, path: Seq<char>, plen: int)
    requires
        def.is_plain(),
        def.reads(text_from(path, plen)),
        def.match_from(path, plen) is Some,
    ensures
        def.path_for(def.values(text_from(path, plen)), Seq::empty()) == Some(
            text_from(path, plen),
        ),
{
    law_match_with_params_iff_match(def, path, plen);
    lemma_matched_is_generated(def, text_from(path, plen));
}

/// A path below one that is generated from values is matched by the prefix that it
/// was generated from, and the parameters of the match stand for the values. The
/// pattern is plain, and each parameter has a segment to itself that ends within
/// the pattern.
pub proof fn law_path_below_a_generated_prefix_is_matched(
    def: DefView,
    values: Seq<Seq<char>>,
    path: Seq<char>,
    plen: int,
)
    requires
        def.is_plain_prefix(),
        def.reads(nonempty(text_from(path, plen))),
        def.begins(values, text_from(path, plen)),
    ensures
        def.match_prefix_from(path, plen) is Some,
        def.values(text_from(path, plen)) == values,
{
    let head = def.path_for(values, Seq::empty()).unwrap();
    assert(head.len() > 0);
    lemma_generated_prefix_is_matched(def, values, text_from(path, plen));
}

/// The values of a match of a plain prefix build the beginning of the path again
/// that was matched, and that beginning is what is consumed. The literal text
/// after the last parameter takes one byte for each character.
pub proof fn law_matched_values_build_the_beginning(def: DefView, path: Seq<char>, plen: int)
    requires
        def.is_plain_prefix(),
        def.reads(nonempty(text_from(path, plen))),
        def.match_prefix_from(path, plen) is Some,
        byte_len(tail_text(def.elements)) == tail_text(def.elements).len(),
        is_boundary(path, plen),
        byte_len(path) <= 0xffff,
    ensures
        ({
            let rest = text_from(path, plen);
            let tail = def.match_prefix_from(path, plen).unwrap().tail as int;
            &&& def.path_for(def.values(rest), Seq::empty()) matches Some(head)
            &&& rest == head + text_from(path, tail)
            &&& is_boundary(path, tail)
            &&& tail == plen + byte_len(head)
        }),
{
    let rest = text_from(path, plen);
    let front = text_to(path, plen);
    lemma_prefix_reads_beginning(def, nonempty(rest));
    let head = def.path_for(def.values(nonempty(rest)), Seq::empty()).unwrap();
    assert(nonempty(rest) == rest);
    let left = rest.skip(head.len() as int);
    lemma_encode_from(path, plen);
    assert(rest =~= head + left);
    assert(path =~= (front + head) + left);
    lemma_encode_concat(front, head);
    lemma_encode_concat(front + head, left);
    lemma_boundary_concat(front + head, left);
    lemma_cut_concat(front + head, left);
}

/// Where a named group that takes part is among the parameters, and that none
/// before it has its name.
proof fn lemma_named_group(
    names: Seq<Option<Seq<char>>>,
    groups: Seq<Option<(usize, usize)>>,
    i: int,
) -> (k: int)
    requires
        0 <= i < groups.len(),
        name_at(names, i) is Some,
        groups[i] is Some,
        forall|j: int|
            0 <= j < i && #[trigger] name_at(names, j) == name_at(names, i) ==> groups[j] is None,
    ensures
        0 <= k < named_groups(names, groups).len(),
        named_groups(names, groups)[k] == (name_at(names, i).unwrap(), groups[i].unwrap()),
        forall|l: int|
            0 <= l < k ==> Some((#[trigger] named_groups(names, groups)[l]).0) != name_at(names, i),
    decreases groups.len(),
{
    let front = groups.drop_last();
    if i < groups.len() - 1 {
        let k = lemma_named_group(names, front, i);
        assert forall|l: int| 0 <= l < k implies Some(
            (#[trigger] named_groups(names, groups)[l]).0,
        ) != name_at(names, i) by {
            assert(named_groups(names, groups)[l] == named_groups(names, front)[l]);
        }
        k
    } else {
        lemma_other_names(names, front, name_at(names, i).unwrap());
        let k = named_groups(names, front).len() as int;
        assert forall|l: int| 0 <= l < k implies Some(
            (#[trigger] named_groups(names, groups)[l]).0,
        ) != name_at(names, i) by {
            assert(named_groups(names, groups)[l] == named_groups(names, front)[l]);
        }
        k
    }
}

/// A name whose groups take no part is not among the parameters.
proof fn lemma_other_names(
    names: Seq<Option<Seq<char>>>,
    groups: Seq<Option<(usize, usize)>>,
    name: Seq<char>,
)
    requires
        forall|j: int|
            0 <= j < groups.len() && #[trigger] name_at(names, j) == Some(name)
                ==> groups[j] is None,
    ensures
        forall|l: int|
            0 <= l < named_groups(names, groups).len() ==> (#[trigger] named_groups(
                names,
                groups,
            )[l]).0 != name,
    decreases groups.len(),
{
    if groups.len() > 0 {
        let front = groups.drop_last();
        assert forall|j: int|
            0 <= j < front.len() && #[trigger] name_at(names, j) == Some(
                name,
            ) implies front[j] is None by {
            assert(groups[j] is None);
        }
        lemma_other_names(names, front, name);
        assert(name_at(names, groups.len() - 1) == Some(name) ==> groups.last() is None);
        assert forall|l: int| 0 <= l < named_groups(names, groups).len() implies (
        #[trigger] named_groups(names, groups)[l]).0 != name by {
            if l < named_groups(names, front).len() {
                assert(named_groups(names, groups)[l] == named_groups(names, front)[l]);
            }
        }
    }
}

/// An identifier gives access to what its own segment matched: of each group that
/// has a name and takes part in a match, the name gives what the group holds.
pub proof fn law_a_name_gives_the_value_of_its_group(
    def: DefView,
    source: Seq<char>,
    names: Seq<Option<Seq<char>>>,
    len: nat,
    path: Seq<char>,
    plen: int,
    params: ParamsView,
    groups: Seq<Option<(usize, usize)>>,
    i: int,
)
    requires
        def.matcher == (Matcher::Dynamic { source, names, len }),
        regex_groups(source, text_from(path, plen)) == Some(groups),
        def.match_from(path, plen) == Some(params),
        params.has_values(def.values(text_from(path, plen))),
        0 <= i < groups.len(),
        name_at(names, i) is Some,
        groups[i] is Some,
        forall|j: int|
            0 <= j < i && #[trigger] name_at(names, j) == name_at(names, i) ==> groups[j] is None,
    ensures
        params.value(name_at(names, i).unwrap()) == Some(
            text_between(
                text_from(path, plen),
                groups[i].unwrap().0 as int,
                groups[i].unwrap().1 as int,
            ),
        ),
{
    let name = name_at(names, i).unwrap();
    let values = def.values(text_from(path, plen));
    let k = lemma_named_group(names, groups, i);
    assert forall|l: int| 0 <= l < k implies (#[trigger] params.segments[l]).0 != name by {
        assert(Some(named_groups(names, groups)[l].0) != name_at(names, i));
    }
    lemma_first_named_unique(params.segments, name, k);
    assert(params.value_at(k) == Some(values[k]));
}

/// Groups without a name, and groups that take no part in a match, make no
/// parameters: there is one for each of the others.
pub proof fn law_only_named_groups_make_parameters(
    names: Seq<Option<Seq<char>>>,
    groups: Seq<Option<(usize, usize)>>,
    plen: int,
    k: int,
)
    requires
        0 <= k < group_segments(names, groups, plen).len(),
    ensures
        exists|i: int|
            {
                &&& 0 <= i < groups.len()
                &&& #[trigger] name_at(names, i) == Some(group_segments(names, groups, plen)[k].0)
                &&& groups[i] matches Some((start, end))
                &&& group_segments(names, groups, plen)[k].1 == ParamItem::UrlSegment(
                    wrap16(plen + start),
                    wrap16(plen + end),
                )
            },
    decreases groups.len(),
{
    if groups.len() > 0 {
        let front = groups.drop_last();
        let n = named_groups(names, front).len();
        if k < n {
            law_only_named_groups_make_parameters(names, front, plen, k);
            let segment = group_segments(names, front, plen)[k];
            let i = choose|i: int|
                {
                    &&& 0 <= i < front.len()
                    &&& #[trigger] name_at(names, i) == Some(segment.0)
                    &&& front[i] matches Some((start, end))
                    &&& segment.1 == ParamItem::UrlSegment(wrap16(plen + start), wrap16(plen + end))
                };
            assert(group_segments(names, groups, plen)[k] == segment);
            assert(groups[i] == front[i]);
        } else {
            assert(name_at(names, groups.len() - 1) is Some);
        }
    }
}

/// A prefix takes whole segments of a path: what it leaves is nothing, or
/// begins with a slash.
pub proof fn law_prefix_takes_whole_segments(def: DefView, path: Seq<char>, plen: int)
    requires
        def.matcher is Prefix,
        is_boundary(path, plen),
        byte_len(path) <= 0xffff,
        def.match_prefix_from(path, plen) is Some,
    ensures
        ({
            let tail = def.match_prefix_from(path, plen).unwrap().tail as int;
            let left = text_from(path, tail);
            &&& plen <= tail
            &&& is_boundary(path, tail)
            &&& left.len() == 0 || left[0] == '/'
        }),
{
    let s = def.matcher->Prefix_0;
    let rest = text_from(path, plen);
    let seen = nonempty(rest);
    let front = text_to(path, plen);
    lemma_boundary_range(path, plen);
    lemma_encode_from(path, plen);
    lemma_boundary_ends(path);
    if rest.len() == 0 || seen == s {
        assert(path =~= path + Seq::<char>::empty());
        lemma_cut_concat(path, Seq::empty());
    } else {
        let taken = if s.len() > 0 && s.last() == '/' {
            s.drop_last()
        } else {
            s
        };
        let left = rest.skip(taken.len() as int);
        if taken != s {
            lemma_last_slash(s);
        }
        assert(rest =~= taken + left);
        assert(path =~= (front + taken) + left);
        lemma_encode_concat(front, taken);
        lemma_encode_concat(front + taken, left);
        lemma_boundary_concat(front + taken, left);
        lemma_cut_concat(front + taken, left);
    }
}

/// A resource below a scope is reached by the path of the scope followed by its
/// own: the scope takes its part, and the resource matches what is left. A
/// scope that ends with a slash takes that slash too where nothing follows, so
/// nothing is left then for the resource of `/`.
pub proof fn law_resource_below_scope_is_reached(scope: Seq<char>, pattern: Seq<char>)
    requires
        !is_dynamic(scope),
        !is_dynamic(pattern),
        pattern_body(pattern).len() > 0 || (seq!['/'] + pattern_body(scope)).last() != '/',
        byte_len(join(seq!['/'] + pattern_body(scope), pattern)) <= 0xffff,
    ensures
        ({
            let path = join(seq!['/'] + pattern_body(scope), pattern);
            let outer = pattern_def(scope, seq!['/'], true);
            let inner = pattern_def(pattern, seq!['/'], false);
            &&& outer.match_prefix_from(path, 0) matches Some(params)
            &&& is_boundary(path, params.tail as int)
            &&& inner.match_from(path, params.tail as int) is Some
        }),
{
    let whole = seq!['/'] + pattern_body(scope);
    let front = if whole.last() == '/' {
        whole.drop_last()
    } else {
        whole
    };
    let own = seq!['/'] + pattern_body(pattern);
    let path = join(whole, pattern);
    if whole.last() == '/' {
        lemma_last_slash(whole);
    }
    assert(path =~= front + own);
    lemma_boundary_concat(front, own);
    lemma_cut_concat(front, own);
    lemma_encode_concat(front, own);
    lemma_boundary_ends(path);
    lemma_encode_from(path, 0);
    lemma_byte_len_at_least(text_to(path, 0));
    assert(path =~= text_from(path, 0));
    assert(path[front.len() as int] == '/');
    assert(path.len() == front.len() + own.len());
    assert(whole.is_prefix_of(path));
}

/// After a merge, a parameter of the outer match is found under its name, even
/// where the inner match has one of that name; other names are found as in the
/// inner match.
pub proof fn law_merge_looks_outside_first(inner: InfoView, outer: InfoView, name: Seq<char>)
    requires
        inner.params.path == outer.params.path,
    ensures
        inner.merged(outer).params.value(name) == if outer.params.position(name)
            < outer.params.segments.len() {
            outer.params.value(name)
        } else {
            inner.params.value(name)
        },
{
    let before = outer.params.segments;
    let after = inner.params.segments;
    let all = inner.merged(outer).params.segments;
    let i = first_named(before, name);
    let j = first_named(after, name);
    lemma_first_named(before, name);
    lemma_first_named(after, name);
    if i < before.len() {
        assert forall|k: int| 0 <= k < i implies (#[trigger] all[k]).0 != name by {
            assert(before[k].0 != name);
        }
        lemma_first_named_unique(all, name, i);
    } else {
        assert forall|k: int| 0 <= k < before.len() + j implies (#[trigger] all[k]).0
            != name by {
            if k < before.len() {
                assert(before[k].0 != name);
            } else {
                assert(after[k - before.len()].0 != name);
            }
        }
        lemma_first_named_unique(all, name, before.len() + j);
    }
}

/// A merge keeps the resource that was matched and the rest of the path that is
/// left, and puts the router below what the outer match consumed.
pub proof fn law_merge_keeps_the_resource(inner: InfoView, outer: InfoView)
    ensures
        inner.merged(outer).resource == inner.resource,
        inner.merged(outer).defs == inner.defs,
        inner.merged(outer).named == inner.named,
        inner.merged(outer).params.tail == inner.params.tail,
        inner.merged(outer).prefix == outer.params.tail,
        inner.merged(outer).wf() == inner.wf(),
{
}

/// What is generated for a resource of the application is an address at the host
/// of the request.
pub proof fn law_generated_url_is_at_the_host(
    info: InfoView,
    req: RequestView,
    name: Seq<char>,
    values: Seq<Seq<char>>,
)
    requires
        info.named.contains_key(name),
        info.named[name].rtype != ResourceType::External,
        text_to(req.path, info.prefix as int).len() == 0 || text_to(
            req.path,
            info.prefix as int,
        )[0] == '/',
    ensures
        info.generated_path(req, name, values) matches Ok(path) ==> url_text(req, path)
            == req.scheme + seq![':', '/', '/'] + req.host + path,
{
}

/// Of a list of filters, each goes by the request and the state alone: it does
/// not have both answers to choose from.
pub open spec fn are_decided<S>(
    filters: Seq<Box<dyn Predicate<S>>>,
    req: &Request,
    state: &S,
) -> bool {
    forall|j: int|
        0 <= j < filters.len() ==> !((#[trigger] filters[j]).may_answer(req, state, true)
            && filters[j].may_answer(req, state, false))
}

/// All filters of a router go by the request and the state alone.
pub open spec fn filters_decided<S, H>(router: Router<S, H>, req: &Request, state: &S) -> bool {
    forall|i: int|
        0 <= i < router.entries().len() ==> are_decided(
            (#[trigger] router.entries()[i]).filters,
            req,
            state,
        )
}

proof fn lemma_takes_or_passes_over<S, H>(
    router: Router<S, H>,
    req: &Request,
    state: &S,
    tail: int,
    k: int,
)
    requires
        filters_decided(router, req, state),
        0 <= k < router.entries().len(),
        router.entries()[k].takes(req, state, tail),
    ensures
        !router.entries()[k].passes_over(req, state, tail),
{
    let filters = router.entries()[k].filters;
    if filters_reject(filters, req, state) {
        let j = choose|j: int|
            0 <= j < filters.len() && (#[trigger] filters[j]).may_answer(req, state, false)
                && filters_accept(filters.take(j), req, state);
        assert(filters[j].may_answer(req, state, true));
    }
}

/// Where the filters go by the request and the state alone, the outcome of
/// recognition is fixed.
pub proof fn law_recognition_is_determined<S, H>(
    router: Router<S, H>,
    req: &Request,
    state: &S,
    tail: int,
    one: InfoView,
    other: InfoView,
)
    requires
        filters_decided(router, req, state),
        router.recognized(req, state, tail, one),
        router.recognized(req, state, tail, other),
    ensures
        one == other,
{
    let n = router.entries().len() as int;
    if let ResourceId::Normal(a) = one.resource {
        let k = choose|k: int|
            0 <= k < n && a == wrap16(k) && router.passed_over(req, state, tail, k) && (
            #[trigger] router.entries()[k]).takes(req, state, tail) && router.entries()[k].match_at(
                req@.path,
                tail,
            ) == Some(one.params);
        lemma_takes_or_passes_over(router, req, state, tail, k);
        if let ResourceId::Normal(b) = other.resource {
            let l = choose|l: int|
                0 <= l < n && b == wrap16(l) && router.passed_over(req, state, tail, l) && (
                #[trigger] router.entries()[l]).takes(req, state, tail)
                    && router.entries()[l].match_at(req@.path, tail) == Some(other.params);
            lemma_takes_or_passes_over(router, req, state, tail, l);
            assert(k == l);
        }
    } else if let ResourceId::Normal(b) = other.resource {
        let l = choose|l: int|
            0 <= l < n && b == wrap16(l) && router.passed_over(req, state, tail, l) && (
            #[trigger] router.entries()[l]).takes(req, state, tail)
                && router.entries()[l].match_at(req@.path, tail) == Some(other.params);
        lemma_takes_or_passes_over(router, req, state, tail, l);
    }
}

/// What was registered first is matched first: whatever is registered after an
/// entry that takes a request, that entry still takes it.
pub proof fn law_earlier_registration_wins<S, H>(
    before: Router<S, H>,
    after: Router<S, H>,
    req: &Request,
    state: &S,
    tail: int,
    info: InfoView,
)
    requires
        before.entries().is_prefix_of(after.entries()),
        before.recognized(req, state, tail, info),
        info.resource is Normal,
    ensures
        after.recognized(
            req,
            state,
            tail,
            (InfoView { defs: after.defs(), named: after.named(), ..info }),
        ),
{
    let n = before.entries().len() as int;
    let a = info.resource->Normal_0;
    let k = choose|k: int|
        0 <= k < n && a == wrap16(k) && before.passed_over(req, state, tail, k) && (
        #[trigger] before.entries()[k]).takes(req, state, tail) && before.entries()[k].match_at(
            req@.path,
            tail,
        ) == Some(info.params) && before.entries()[k].values_kept(req@.path, tail, info.params)
            && before.are_read(req@.path, tail, 0, k + 1);
    assert(after.entries()[k] == before.entries()[k]);
    assert forall|i: int| 0 <= i < k + 1 implies (#[trigger] after.entries()[i]).reads(
        req@.path,
        tail,
    ) by {
        assert(before.entries()[i].reads(req@.path, tail));
    }
    assert forall|i: int| 0 <= i < k implies (#[trigger] after.entries()[i]).passes_over(
        req,
        state,
        tail,
    ) by {
        assert(before.entries()[i].passes_over(req, state, tail));
    }
}

/// The first entry without filters whose pattern matches takes every request
/// that the entries before it do not match. Its position is what is recognized,
/// as long as positions fit in 16 bits.
pub proof fn law_first_match_is_recognized<S, H>(
    router: Router<S, H>,
    req: &Request,
    state: &S,
    tail: int,
    k: int,
    info: InfoView,
)
    requires
        0 <= k < router.entries().len() <= 0x10000,
        tail <= byte_len(req@.path),
        router.entries()[k].match_at(req@.path, tail) is Some,
        router.entries()[k].filters.len() == 0,
        router.unmatched(req@.path, tail, 0, k),
        router.recognized(req, state, tail, info),
    ensures
        info.resource == ResourceId::Normal(k as u16),
        router.entries()[k].match_at(req@.path, tail) == Some(info.params),
        router.entries()[k].values_kept(req@.path, tail, info.params),
        info.prefix == 0,
{
    assert(!router.entries()[k].passes_over(req, state, tail));
    let n = router.entries().len() as int;
    if let ResourceId::Normal(a) = info.resource {
        let l = choose|l: int|
            0 <= l < n && a == wrap16(l) && router.passed_over(req, state, tail, l) && (
            #[trigger] router.entries()[l]).takes(req, state, tail)
                && router.entries()[l].match_at(req@.path, tail) == Some(info.params)
                && router.entries()[l].values_kept(req@.path, tail, info.params);
        if l < k {
            assert(router.entries()[l].match_at(req@.path, tail) is None);
        }
        assert(l == k);
    }
}

/// Where no pattern matches what follows the offset, or the offset is beyond the
/// path, no resource is recognized.
pub proof fn law_unmatched_request_is_not_recognized<S, H>(
    router: Router<S, H>,
    req: &Request,
    state: &S,
    tail: int,
    info: InfoView,
)
    requires
        tail > byte_len(req@.path) || router.unmatched(
            req@.path,
            tail,
            0,
            router.entries().len() as int,
        ),
        router.recognized(req, state, tail, info),
    ensures
        info.resource == ResourceId::Default,
        info.params == ParamsView::of_path(Seq::empty()),
        info.prefix == wrap16(tail),
{
}

/// In a router of resources, a path has a route exactly if a request for it is
/// recognized.
pub proof fn law_has_route_iff_recognized<S, H>(
    router: Router<S, H>,
    req: &Request,
    state: &S,
    info: InfoView,
)
    requires
        router.wf(),
        forall|i: int|
            0 <= i < router.entries().len() ==> (#[trigger] router.entries()[i]).kind
                == EntryKind::Resource,
        req@.path.len() > 0,
        router.recognized(req, state, 0, info),
    ensures
        info.resource is Normal <==> exists|i: int|
            0 <= i < info.defs.len() && (#[trigger] info.defs[i]).matches(nonempty(req@.path)),
{
    let path = req@.path;
    let n = router.entries().len() as int;
    assert forall|i: int| 0 <= i < n implies (router.entries()[i].match_at(path, 0) is Some) == (
    #[trigger] router.defs()[i]).matches(path) by {
        law_match_with_params_iff_match(router.defs()[i], path, 0);
    }
    if let ResourceId::Normal(a) = info.resource {
        let l = choose|l: int|
            0 <= l < n && a == wrap16(l) && router.passed_over(req, state, 0, l) && (
            #[trigger] router.entries()[l]).takes(req, state, 0) && router.entries()[l].match_at(
                path,
                0,
            ) == Some(info.params);
        assert(router.defs()[l].matches(path));
    } else {
        assert forall|i: int| 0 <= i < n implies !(#[trigger] router.defs()[i]).matches(path) by {
            assert(router.entries()[i].passes_over(req, state, 0));
        }
    }
}

/// The definition that recognition points to matches what follows the offset, as
/// long as positions fit in 16 bits. To handlers and scopes an empty rest is a
/// slash.
pub proof fn law_recognized_definition_matches<S, H>(
    router: Router<S, H>,
    req: &Request,
    state: &S,
    tail: int,
    info: InfoView,
)
    requires
        router.wf(),
        router.entries().len() <= 0x10000,
        router.recognized(req, state, tail, info),
        info.resource is Normal,
    ensures
        ({
            let i = info.resource->Normal_0 as int;
            let rest = text_from(req@.path, tail);
            info.defs[i].matches(
                if router.entries()[i].kind == EntryKind::Resource {
                    rest
                } else {
                    nonempty(rest)
                },
            )
        }),
{
    let a = info.resource->Normal_0;
    let l = choose|l: int|
        0 <= l < router.entries().len() && a == wrap16(l) && router.passed_over(
            req,
            state,
            tail,
            l,
        ) && (#[trigger] router.entries()[l]).takes(req, state, tail)
            && router.entries()[l].match_at(req@.path, tail) == Some(info.params);
    assert(router.entries()[l].def == router.defs()[l]);
    law_match_with_params_iff_match(router.defs()[l], req@.path, tail);
}

/// A name that was free resolves to what was registered under it, and every
/// other name resolves as before.
pub proof fn law_names_stay(
    before: Map<Seq<char>, DefView>,
    after: Map<Seq<char>, DefView>,
    name: Seq<char>,
    def: DefView,
)
    requires
        !before.contains_key(name),
        after == before.insert(name, def),
    ensures
        after.contains_key(name) && after[name] == def,
        forall|other: Seq<char>| #[trigger]
            before.contains_key(other) ==> after.contains_key(other) && after[other]
                == before[other],
{
}

/// A resource with a name is the one that paths are generated from under that
/// name, and no other resource has the name.
pub proof fn law_resource_is_found_by_its_name<S, H>(
    router: Router<S, H>,
    i: int,
    info: InfoView,
    req: RequestView,
    values: Seq<Seq<char>>,
)
    requires
        router.wf(),
        0 <= i < router.entries().len(),
        router.entries()[i].is_named(),
        info.named == router.named(),
    ensures
        ({
            let def = router.entries()[i].def;
            info.generated_path(req, def.name, values) == match def.path_for(
                values,
                text_to(req.path, info.prefix as int),
            ) {
                Some(path) => Ok::<Seq<char>, UrlGenerationError>(path),
                None => Err(UrlGenerationError::NotEnoughElements),
            }
        }),
        forall|j: int|
            0 <= j < router.entries().len() && j != i && (#[trigger] router.entries()[j]).is_named()
                ==> router.entries()[j].def.name != router.entries()[i].def.name,
{
}

/// A request for the path that is generated for a resource without parameters is
/// recognized as one for that resource, where no entry before it matches the
/// path.
pub proof fn law_generated_static_path_is_recognized<S, H>(
    router: Router<S, H>,
    k: int,
    pattern: Seq<char>,
    values: Seq<Seq<char>>,
    prefix: Seq<char>,
    req: &Request,
    state: &S,
    info: InfoView,
)
    requires
        0 <= k < router.entries().len() <= 0x10000,
        !is_dynamic(pattern),
        router.wf(),
        router.entries()[k].kind == EntryKind::Resource,
        router.entries()[k].def == (DefView {
            name: router.entries()[k].def.name,
            ..pattern_def(pattern, seq!['/'], false)
        }),
        prefix.len() == 0 || prefix.last() != '/',
        router.entries()[k].def.path_for(values, prefix) == Some(req@.path),
        router.unmatched(req@.path, byte_len(prefix) as int, 0, k),
        router.recognized(req, state, byte_len(prefix) as int, info),
    ensures
        info.resource == ResourceId::Normal(k as u16),
{
    let tail = byte_len(prefix) as int;
    law_generated_static_path_is_matched(pattern, values, prefix);
    lemma_boundary_range(req@.path, tail);
    law_first_match_is_recognized(router, req, state, tail, k, info);
}

/// What is found of an entry that no match comes before is a reading of the path.
proof fn lemma_entry_is_read<S, H>(
    router: Router<S, H>,
    req: &Request,
    state: &S,
    tail: int,
    k: int,
    info: InfoView,
)
    requires
        0 <= k < router.entries().len(),
        tail <= byte_len(req@.path),
        router.unmatched(req@.path, tail, 0, k),
        router.recognized(req, state, tail, info),
    ensures
        router.entries()[k].reads(req@.path, tail),
{
    if let ResourceId::Normal(a) = info.resource {
        let l = choose|l: int|
            0 <= l < router.entries().len() && a == wrap16(l) && router.are_read(
                req@.path,
                tail,
                0,
                l + 1,
            ) && (#[trigger] router.entries()[l]).takes(req, state, tail);
        if l < k {
            assert(router.entries()[l].match_at(req@.path, tail) is None);
        }
    }
}

/// A request for the path that is generated from values below a prefix is
/// recognized as one for the resource it was generated from, where no entry
/// before it matches the path, and the parameters stand for the values. The
/// pattern is plain, and each parameter has a segment to itself.
pub proof fn law_generated_path_is_recognized<S, H>(
    router: Router<S, H>,
    k: int,
    values: Seq<Seq<char>>,
    prefix: Seq<char>,
    req: &Request,
    state: &S,
    info: InfoView,
)
    requires
        0 <= k < router.entries().len() <= 0x10000,
        router.wf(),
        router.entries()[k].kind == EntryKind::Resource,
        router.entries()[k].def.is_plain(),
        one_per_segment(router.entries()[k].def.elements, false),
        are_values(router.entries()[k].def.elements, values),
        prefix.len() == 0 || prefix.last() != '/',
        router.entries()[k].def.path_for(values, prefix) == Some(req@.path),
        byte_len(req@.path) <= 0xffff,
        router.unmatched(req@.path, byte_len(prefix) as int, 0, k),
        router.recognized(req, state, byte_len(prefix) as int, info),
    ensures
        info.resource == ResourceId::Normal(k as u16),
        router.entries()[k].def.are_params(values, info.params),
{
    let def = router.entries()[k].def;
    let tail = byte_len(prefix) as int;
    law_path_needs_a_value_for_each_parameter(def, values, prefix);
    law_path_needs_a_value_for_each_parameter(def, values, Seq::empty());
    law_prefix_goes_before_the_path(def, values, prefix);
    lemma_boundary_range(req@.path, tail);
    lemma_entry_is_read(router, req, state, tail, k, info);
    law_generated_path_is_matched_back(def, values, req@.path, tail);
    law_first_match_is_recognized(router, req, state, tail, k, info);
}

/// After finishing, everything that is mounted is completed and has a default
/// resource: its own where it had one, else the one of the router.
pub proof fn law_finish_gives_defaults<H>(item: Item<H>, default: Rc<Resource<H>>)
    ensures
        item matches Item::Handler(mount) ==> {
            &&& item.finished(default) matches Item::Handler(done)
            &&& done.handler == mount.handler
            &&& done.finished
            &&& done.default == (if mount.default is Some {
                mount.default
            } else {
                Some(default)
            })
        },
        item matches Item::Scope(mount) ==> {
            &&& item.finished(default) matches Item::Scope(done)
            &&& done.handler == mount.handler
            &&& done.finished
            &&& done.default == (if mount.default is Some {
                mount.default
            } else {
                Some(default)
            })
        },
        item is Resource ==> item.finished(default) == item,
{
}

/// Finishing twice is finishing once, even with another default resource the
/// second time.
pub proof fn law_finish_is_idempotent<H>(
    item: Item<H>,
    default: Rc<Resource<H>>,
    again: Rc<Resource<H>>,
)
    ensures
        item.finished(default).finished(again) == item.finished(default),
{
}

/// What becomes of a request in the end. What is mounted answers by itself. Else
/// the route of the matched resource answers; if none takes the request, the
/// route of the default resource; and only if there is none either, nothing
/// was found.
pub proof fn law_requests_fall_back_on_the_default<S, H>(
    router: Router<S, H>,
    resource: ResourceId,
    own: Option<usize>,
    default: Option<usize>,
)
    ensures
        ({
            let item = match resource {
                ResourceId::Normal(i) => Some(router.items()[i as int]),
                ResourceId::Default => None,
            };
            router.answer(resource, own, default) == match (item, own, default) {
                (Some(Item::Handler(mount)), _, _) => Step::RunHandler(mount),
                (Some(Item::Scope(mount)), _, _) => Step::RunScope(mount),
                (Some(Item::Resource(_, routes)), Some(r), _) => Step::RunRoute(routes[r as int]),
                (_, _, Some(r)) => if router.default_resource() is Some {
                    Step::RunRoute(router.default_resource().unwrap().routes()[r as int])
                } else {
                    Step::NotFound
                },
                (_, _, None) => Step::NotFound,
            }
        }),
{
}

/// A route that is registered for a path is among those of the first resource
/// with that pattern, after those that were there.
pub proof fn law_registered_route_is_found<S, H>(
    before: Router<S, H>,
    after: Router<S, H>,
    pattern: Seq<char>,
    route: Route<H>,
)
    requires
        after.route_registered(before, pattern, route),
    ensures
        exists|i: int|
            {
                &&& #[trigger] after.resource_at(pattern, i)
                &&& after.items()[i] matches Item::Resource(_, routes) && routes.len() > 0
                    && routes.last() == route
            },
{
    if before.has_resource(pattern) {
        let i = choose|i: int| #[trigger]
            before.resource_at(pattern, i) && after.items() == before.items().update(
                i,
                before.items()[i].with_route(route),
            );
        assert forall|j: int| 0 <= j < i implies !(#[trigger] after.items()[j]).has_pattern(
            pattern,
        ) by {
            assert(!before.items()[j].has_pattern(pattern));
        }
        assert(after.resource_at(pattern, i));
    } else {
        let i = before.items().len() as int;
        assert forall|j: int| 0 <= j < i implies !(#[trigger] after.items()[j]).has_pattern(
            pattern,
        ) by {
            assert(!before.items()[j].has_pattern(pattern));
        }
        assert(after.resource_at(pattern, i));
    }
}

} // verus!
