//! Resource definitions: patterns that match paths and generate them.

use std::hash::{Hash, Hasher};
use std::rc::Rc;

use regex::Regex;
use vstd::prelude::*;

use crate::error::{PatternError, UrlGenerationError};
use crate::params::{ParamItem, Params, ParamsView, Request};
use crate::pattern::{
    compiled_text, element_views, is_dynamic, parse_body, pattern_body, Element, PatternElement,
};
use crate::plain::{
    finds_beginning, finds_reading, is_plain_pattern, lemma_generated_is_matched,
    lemma_generated_prefix_is_matched, lemma_matched_is_generated, lemma_plain_pattern,
    lemma_prefix_reads_beginning, names_close, plain_beginning, plain_source, rooted,
};
use crate::regexes::{
    find_groups, group_names, is_piece, optional_texts, regex_compiles, regex_group_names,
    regex_groups, regex_source,
};
use crate::text::{
    after_prefix, byte_len, byte_length, delimits, first_char, is_boundary, last_char,
    lemma_between_from, lemma_boundary_concat, lemma_boundary_range, lemma_cut_concat,
    lemma_encode_concat, lemma_encode_from, low16, low16_sum, same_text, slice_from, slice_to,
    text_between, text_from, text_to, texts, wrap16,
};

verus! {

/// The kinds of resources.
#[derive(Debug, Copy, Clone, PartialEq, Eq, Structural)]
pub enum ResourceType {
    /// Normal resource
    Normal,
    /// Resource for application default handler
    Default,
    /// External resource
    External,
    /// Unknown resource type
    Unset,
}

/// How a definition matches a path.
#[derive(Debug)]
enum PatternType {
    /// The whole path is this text.
    Static(String),
    /// The path begins with this text.
    Prefix(String),
    /// The path matches an expression. There is a name for each of its groups
    /// that has one; the number counts the literal characters after its last
    /// parameter.
    Dynamic(Regex, Vec<Option<Rc<String>>>, usize),
}

/// A pattern of paths, with a name by which paths are generated from it.
#[derive(Debug)]
pub struct ResourceDef {
    tp: PatternType,
    rtp: ResourceType,
    name: String,
    pattern: String,
    elements: Vec<PatternElement>,
}

/// How a definition matches a path, as a value of the specification.
pub enum Matcher {
    /// The whole path is this text.
    Static(Seq<char>),
    /// The path begins with this text.
    Prefix(Seq<char>),
    /// The path matches the expression with this source, whose groups have these
    /// names.
    Dynamic { source: Seq<char>, names: Seq<Option<Seq<char>>>, len: nat },
}

/// A definition as a value of the specification.
#[verifier::ext_equal]
pub struct DefView {
    pub matcher: Matcher,
    pub rtype: ResourceType,
    pub name: Seq<char>,
    pub pattern: Seq<char>,
    pub elements: Seq<Element>,
}

/// The texts of a list of optional shared names.
pub open spec fn name_texts(names: Seq<Option<Rc<String>>>) -> Seq<Option<Seq<char>>> {
    names.map_values(
        |name: Option<Rc<String>>|
            match name {
                Some(name) => Some(name@),
                None => None,
            },
    )
}

impl PatternType {
    spec fn matcher(self) -> Matcher {
        match self {
            PatternType::Static(s) => Matcher::Static(s@),
            PatternType::Prefix(s) => Matcher::Prefix(s@),
            PatternType::Dynamic(re, names, len) => Matcher::Dynamic {
                source: regex_source(re),
                names: name_texts(names@),
                len: len as nat,
            },
        }
    }
}

impl View for ResourceDef {
    type V = DefView;

    closed spec fn view(&self) -> DefView {
        DefView {
            matcher: self.tp.matcher(),
            rtype: self.rtp,
            name: self.name@,
            pattern: self.pattern@,
            elements: element_views(self.elements@),
        }
    }
}

/// How the definition with a pattern matches.
pub open spec fn pattern_matcher(
    pattern: Seq<char>,
    prefix: Seq<char>,
    for_prefix: bool,
) -> Matcher {
    let text = compiled_text(pattern, prefix, for_prefix);
    if is_dynamic(pattern) {
        Matcher::Dynamic {
            source: text,
            names: regex_group_names(text),
            len: parse_body(pattern_body(pattern)).tail,
        }
    } else if for_prefix {
        Matcher::Prefix(text)
    } else {
        Matcher::Static(text)
    }
}

/// The definition with a pattern.
pub open spec fn pattern_def(pattern: Seq<char>, prefix: Seq<char>, for_prefix: bool) -> DefView {
    DefView {
        matcher: pattern_matcher(pattern, prefix, for_prefix),
        rtype: ResourceType::Normal,
        name: Seq::empty(),
        pattern,
        elements: parse_body(pattern_body(pattern)).elements,
    }
}

/// Whether a pattern makes a definition: where it has parameters, its
/// expression compiles.
pub open spec fn pattern_compiles(pattern: Seq<char>, prefix: Seq<char>, for_prefix: bool) -> bool {
    is_dynamic(pattern) ==> regex_compiles(compiled_text(pattern, prefix, for_prefix))
}

/// Whether compiling a text can fail for a reason.
pub open spec fn is_reason(text: Seq<char>, error: regex::Error) -> bool {
    exists|s: &str|
        #[trigger] s@ == text && call_ensures(Regex::new, (s,), Err::<Regex, regex::Error>(error))
}

/// The name of the group at a position.
pub open spec fn name_at(names: Seq<Option<Seq<char>>>, i: int) -> Option<Seq<char>> {
    if 0 <= i < names.len() {
        names[i]
    } else {
        None
    }
}

/// The groups that have a name and take part in a match, in order. Each has the
/// name at its own position.
pub open spec fn named_groups(
    names: Seq<Option<Seq<char>>>,
    groups: Seq<Option<(usize, usize)>>,
) -> Seq<(Seq<char>, (usize, usize))>
    decreases groups.len(),
{
    if groups.len() == 0 {
        Seq::empty()
    } else {
        let front = named_groups(names, groups.drop_last());
        match (name_at(names, groups.len() - 1), groups.last()) {
            (Some(name), Some(span)) => front.push((name, span)),
            _ => front,
        }
    }
}

/// The parameters of a match: there is one for each group that has a name and
/// takes part.
pub open spec fn group_segments(
    names: Seq<Option<Seq<char>>>,
    groups: Seq<Option<(usize, usize)>>,
    plen: int,
) -> Seq<(Seq<char>, ParamItem)> {
    named_groups(names, groups).map_values(
        |group: (Seq<char>, (usize, usize))|
            (
                group.0,
                ParamItem::UrlSegment(wrap16(plen + group.1.0), wrap16(plen + group.1.1)),
            ),
    )
}

/// Where the last parameter of a match ends, or 0.
pub open spec fn last_end(
    names: Seq<Option<Seq<char>>>,
    groups: Seq<Option<(usize, usize)>>,
) -> int {
    let found = named_groups(names, groups);
    if found.len() == 0 {
        0
    } else {
        found.last().1.1 as int
    }
}

/// What the groups that have a name and take part in a match of a text hold.
pub open spec fn group_values(
    text: Seq<char>,
    names: Seq<Option<Seq<char>>>,
    groups: Seq<Option<(usize, usize)>>,
) -> Seq<Seq<char>> {
    named_groups(names, groups).map_values(
        |group: (Seq<char>, (usize, usize))|
            text_between(text, group.1.0 as int, group.1.1 as int),
    )
}

/// What a match of a whole path gives: it is consumed to its end.
pub open spec fn full_params(
    path: Seq<char>,
    plen: int,
    names: Seq<Option<Seq<char>>>,
    groups: Seq<Option<(usize, usize)>>,
) -> ParamsView {
    ParamsView {
        path,
        tail: wrap16(byte_len(path) as int),
        segments: group_segments(names, groups, plen),
    }
}

/// What a match of the beginning of a path gives: it is consumed up to the end
/// of the last parameter, and as many bytes further as the literal text that
/// follows it in the pattern has characters. That is the end of that text,
/// unless some of its characters take more than one byte.
pub open spec fn prefix_params(
    path: Seq<char>,
    plen: int,
    names: Seq<Option<Seq<char>>>,
    len: int,
    groups: Seq<Option<(usize, usize)>>,
) -> ParamsView {
    ParamsView {
        path,
        tail: wrap16(plen + last_end(names, groups) + len),
        segments: group_segments(names, groups, plen),
    }
}

/// A path, where the empty one stands for `/`.
pub open spec fn nonempty(path: Seq<char>) -> Seq<char> {
    if path.len() == 0 {
        seq!['/']
    } else {
        path
    }
}

/// How many bytes of a path a prefix takes, if it is one. It must end where a
/// segment of the path does. A slash that ends the prefix is left to what
/// follows, unless nothing does.
pub open spec fn prefix_taken(prefix: Seq<char>, path: Seq<char>) -> Option<int> {
    let ends_with_slash = prefix.len() > 0 && prefix.last() == '/';
    if path == prefix {
        Some(byte_len(prefix) as int)
    } else if !prefix.is_prefix_of(path) {
        None
    } else if ends_with_slash {
        Some(byte_len(prefix) - 1)
    } else if path[prefix.len() as int] == '/' {
        Some(byte_len(prefix) as int)
    } else {
        None
    }
}

impl DefView {
    /// Whether a path matches.
    pub open spec fn matches(self, path: Seq<char>) -> bool {
        match self.matcher {
            Matcher::Static(s) => s == path,
            Matcher::Prefix(s) => s.is_prefix_of(path),
            Matcher::Dynamic { source, .. } => regex_groups(source, path) is Some,
        }
    }

    /// What the parameters of a match of a text stand for.
    pub open spec fn values(self, text: Seq<char>) -> Seq<Seq<char>> {
        match self.matcher {
            Matcher::Dynamic { source, names, .. } => match regex_groups(source, text) {
                Some(groups) => group_values(text, names, groups),
                None => Seq::empty(),
            },
            _ => Seq::empty(),
        }
    }

    /// What matching a path from an offset on gives.
    pub open spec fn match_from(self, path: Seq<char>, plen: int) -> Option<ParamsView> {
        let rest = text_from(path, plen);
        match self.matcher {
            Matcher::Static(s) => if s == rest {
                Some(ParamsView::of_path(path))
            } else {
                None
            },
            Matcher::Prefix(s) => if s.is_prefix_of(rest) {
                Some(ParamsView::of_path(path))
            } else {
                None
            },
            Matcher::Dynamic { source, names, .. } => match regex_groups(source, rest) {
                Some(groups) => Some(full_params(path, plen, names, groups)),
                None => None,
            },
        }
    }

    /// What matching the beginning of a path from an offset on gives.
    pub open spec fn match_prefix_from(self, path: Seq<char>, plen: int) -> Option<ParamsView> {
        let rest = nonempty(text_from(path, plen));
        match self.matcher {
            Matcher::Static(s) => if s == rest {
                Some(ParamsView::of_path(path))
            } else {
                None
            },
            Matcher::Prefix(s) => match prefix_taken(s, rest) {
                Some(taken) => Some(
                    ParamsView {
                        tail: wrap16(
                            if plen + taken < byte_len(path) {
                                plen + taken
                            } else {
                                byte_len(path) as int
                            },
                        ),
                        ..ParamsView::of_path(path)
                    },
                ),
                None => None,
            },
            Matcher::Dynamic { source, names, len } => match regex_groups(source, rest) {
                Some(groups) => Some(prefix_params(path, plen, names, len as int, groups)),
                None => None,
            },
        }
    }
}

/// The pieces of a pattern with a value in the place of each parameter, in
/// order, if there are values for all of them.
pub open spec fn fill(elements: Seq<Element>, values: Seq<Seq<char>>) -> Option<Seq<char>>
    decreases elements.len(),
{
    if elements.len() == 0 {
        Some(Seq::empty())
    } else {
        match elements[0] {
            Element::Str(s) => match fill(elements.drop_first(), values) {
                Some(rest) => Some(s + rest),
                None => None,
            },
            Element::Var(_) => if values.len() == 0 {
                None
            } else {
                match fill(elements.drop_first(), values.drop_first()) {
                    Some(rest) => Some(values[0] + rest),
                    None => None,
                }
            },
        }
    }
}

/// A prefix and a path with one slash where they meet.
pub open spec fn join(prefix: Seq<char>, path: Seq<char>) -> Seq<char> {
    let front = if prefix.len() > 0 && prefix.last() == '/' {
        prefix.drop_last()
    } else {
        prefix
    };
    front + seq!['/'] + pattern_body(path)
}

impl DefView {
    /// The path that a definition makes of values for its parameters, without
    /// the prefix.
    pub open spec fn own_path(self, values: Seq<Seq<char>>) -> Option<Seq<char>> {
        match self.matcher {
            Matcher::Static(s) => Some(s),
            Matcher::Prefix(s) => Some(s),
            Matcher::Dynamic { .. } => fill(self.elements, values),
        }
    }

    /// The path that a definition makes of values for its parameters. An
    /// external resource takes no prefix.
    pub open spec fn path_for(self, values: Seq<Seq<char>>, prefix: Seq<char>) -> Option<
        Seq<char>,
    > {
        match self.own_path(values) {
            Some(path) => if self.rtype == ResourceType::External {
                Some(path)
            } else {
                Some(join(prefix, path))
            },
            None => None,
        }
    }
}

/// Shares the names among a list of optional names.
fn share_names(names: &Vec<Option<String>>) -> (shared: Vec<Option<Rc<String>>>)
    ensures
        name_texts(shared@) == optional_texts(names@),
{
    let mut shared: Vec<Option<Rc<String>>> = Vec::new();
    let mut i: usize = 0;
    while i < names.len()
        invariant
            i <= names.len(),
            name_texts(shared@) == optional_texts(names@).take(i as int),
        decreases names.len() - i,
    {
        let ghost before = shared@;
        match &names[i] {
            Some(name) => shared.push(Some(Rc::new(name.clone()))),
            None => shared.push(None),
        }
        proof {
            assert(name_texts(shared@) =~= name_texts(before).push(
                optional_texts(names@)[i as int],
            ));
            assert(optional_texts(names@).take(i + 1) =~= optional_texts(names@).take(
                i as int,
            ).push(optional_texts(names@)[i as int]));
        }
        i += 1;
    }
    proof {
        assert(optional_texts(names@).take(i as int) =~= optional_texts(names@));
    }
    shared
}

/// Collects the parameters of a match, and says where the last one ends.
fn collect_params(
    req: &Request,
    plen: usize,
    names: &Vec<Option<Rc<String>>>,
    groups: &Vec<Option<(usize, usize)>>,
) -> (collected: (Params, usize))
    ensures
        collected.0@ == (ParamsView {
            segments: group_segments(name_texts(names@), groups@, plen as int),
            ..ParamsView::of_path(req@.path)
        }),
        collected.1 == last_end(name_texts(names@), groups@),
{
    let mut params = Params::with_url(req);
    let mut pos: usize = 0;
    let mut i: usize = 0;
    let ghost texts = name_texts(names@);
    proof {
        assert(params@.segments =~= group_segments(texts, groups@.take(0), plen as int));
    }
    while i < groups.len()
        invariant
            i <= groups.len(),
            texts == name_texts(names@),
            pos == last_end(texts, groups@.take(i as int)),
            params@ == (ParamsView {
                segments: group_segments(texts, groups@.take(i as int), plen as int),
                ..ParamsView::of_path(req@.path)
            }),
        decreases groups.len() - i,
    {
        let ghost before = params@.segments;
        let ghost after = groups@.take(i + 1);
        proof {
            assert(after.drop_last() =~= groups@.take(i as int));
            assert(after.last() == groups@[i as int]);
        }
        if i < names.len() {
            proof {
                assert(texts[i as int] == match names@[i as int] {
                    Some(name) => Some(name@),
                    None => None,
                });
            }
            if let (Some(name), Some((start, end))) = (&names[i], groups[i]) {
                let item = ParamItem::UrlSegment(
                    low16_sum(plen, start, 0),
                    low16_sum(plen, end, 0),
                );
                params.add(name.clone(), item);
                pos = end;
            }
        }
        proof {
            assert(params@.segments =~= group_segments(texts, after, plen as int));
        }
        i += 1;
    }
    proof {
        assert(groups@.take(i as int) =~= groups@);
    }
    (params, pos)
}

/// The offsets of the groups that take part in a match delimit pieces of the
/// text.
proof fn lemma_named_groups_pieces(
    text: Seq<char>,
    names: Seq<Option<Seq<char>>>,
    groups: Seq<Option<(usize, usize)>>,
)
    requires
        forall|i: int| 0 <= i < groups.len() ==> #[trigger] is_piece(text, groups[i]),
    ensures
        forall|i: int|
            0 <= i < named_groups(names, groups).len() ==> delimits(
                text,
                (#[trigger] named_groups(names, groups)[i]).1.0 as int,
                named_groups(names, groups)[i].1.1 as int,
            ),
    decreases groups.len(),
{
    if groups.len() > 0 {
        let front = groups.drop_last();
        assert forall|i: int| 0 <= i < front.len() implies #[trigger] is_piece(
            text,
            front[i],
        ) by {
            assert(is_piece(text, groups[i]));
        }
        lemma_named_groups_pieces(text, names, front);
        assert(is_piece(text, groups[groups.len() - 1]));
        let found = named_groups(names, groups);
        assert forall|i: int| 0 <= i < found.len() implies delimits(
            text,
            (#[trigger] found[i]).1.0 as int,
            found[i].1.1 as int,
        ) by {
            if i < named_groups(names, front).len() {
                assert(found[i] == named_groups(names, front)[i]);
            }
        }
    }
}

/// Where the offsets into a path fit in 16 bits, the parameters of a match stand
/// for what the groups of the match hold.
proof fn lemma_group_values(
    path: Seq<char>,
    plen: int,
    names: Seq<Option<Seq<char>>>,
    groups: Seq<Option<(usize, usize)>>,
    params: ParamsView,
)
    requires
        is_boundary(path, plen),
        byte_len(path) <= 0xffff,
        forall|i: int|
            0 <= i < groups.len() ==> #[trigger] is_piece(text_from(path, plen), groups[i]),
        params.path == path,
        params.segments == group_segments(names, groups, plen),
    ensures
        params.has_values(group_values(text_from(path, plen), names, groups)),
{
    let rest = text_from(path, plen);
    let found = named_groups(names, groups);
    let values = group_values(rest, names, groups);
    lemma_named_groups_pieces(rest, names, groups);
    assert forall|i: int| 0 <= i < values.len() implies params.value_at(i) == Some(
        #[trigger] values[i],
    ) by {
        let (start, end) = found[i].1;
        lemma_between_from(path, plen, start as int, end as int);
        lemma_boundary_range(path, plen + start);
        lemma_boundary_range(path, plen + end);
    }
}

/// What a match of a whole path gives, from the groups that were found.
pub fn full_match_params(
    req: &Request,
    plen: usize,
    names: &Vec<Option<Rc<String>>>,
    groups: &Vec<Option<(usize, usize)>>,
) -> (params: Params)
    ensures
        params@ == full_params(req@.path, plen as int, name_texts(names@), groups@),
{
    let mut params = collect_params(req, plen, names, groups).0;
    params.set_tail(low16(byte_length(req.path())));
    params
}

/// What a match of the beginning of a path gives, from the groups that were
/// found and the length of the literal text after the last parameter.
pub fn prefix_match_params(
    req: &Request,
    plen: usize,
    names: &Vec<Option<Rc<String>>>,
    len: usize,
    groups: &Vec<Option<(usize, usize)>>,
) -> (params: Params)
    ensures
        params@ == prefix_params(req@.path, plen as int, name_texts(names@), len as int, groups@),
{
    let (mut params, pos) = collect_params(req, plen, names, groups);
    params.set_tail(low16_sum(plen, pos, len));
    params
}

/// `String::hash` feeds a string to a hasher. What the hasher makes of it is left
/// open: nothing is claimed of its new state. It is public because the contract of
/// hashing a definition speaks of it.
#[verifier::external_body]
pub fn feed<H: Hasher>(s: &String, state: &mut H) {
    s.hash(state);
}

impl PartialEq for ResourceDef {
    /// Definitions are the same if their patterns are.
    fn eq(&self, other: &ResourceDef) -> (same: bool) {
        self.pattern == other.pattern
    }
}

impl vstd::std_specs::cmp::PartialEqSpecImpl for ResourceDef {
    open spec fn obeys_eq_spec() -> bool {
        true
    }

    open spec fn eq_spec(&self, other: &ResourceDef) -> bool {
        self@.pattern == other@.pattern
    }
}

impl Eq for ResourceDef {

}

impl Hash for ResourceDef {
    /// The pattern is fed to the hasher, and nothing else.
    fn hash<H: Hasher>(&self, state: &mut H)
        ensures
            exists|s: String, fed: &mut H|
                s@ == self@.pattern && *fed == *old(state) && *final(fed) == *final(state)
                    && #[trigger] call_ensures(feed::<H>, (&s, fed), ()),
    {
        let feed_pattern = feed::<H>;
        feed_pattern(&self.pattern, state);
    }
}

impl Clone for ResourceDef {
    fn clone(&self) -> (copy: Self)
        ensures
            copy@ == self@,
    {
        let tp = match &self.tp {
            PatternType::Static(s) => PatternType::Static(s.clone()),
            PatternType::Prefix(s) => PatternType::Prefix(s.clone()),
            PatternType::Dynamic(re, names, len) => PatternType::Dynamic(
                re.clone(),
                copy_names(names),
                *len,
            ),
        };
        let mut elements: Vec<PatternElement> = Vec::new();
        let mut i: usize = 0;
        while i < self.elements.len()
            invariant
                i <= self.elements.len(),
                elements@ == self.elements@.take(i as int),
            decreases self.elements.len() - i,
        {
            elements.push(self.elements[i].clone());
            proof {
                assert(self.elements@.take(i + 1) =~= self.elements@.take(i as int).push(
                    self.elements@[i as int],
                ));
            }
            i += 1;
        }
        proof {
            assert(self.elements@.take(i as int) =~= self.elements@);
        }
        ResourceDef {
            tp,
            rtp: self.rtp,
            name: self.name.clone(),
            pattern: self.pattern.clone(),
            elements,
        }
    }
}

/// The same list of shared names.
fn copy_names(names: &Vec<Option<Rc<String>>>) -> (copy: Vec<Option<Rc<String>>>)
    ensures
        copy@ == names@,
{
    let mut copy: Vec<Option<Rc<String>>> = Vec::new();
    let mut i: usize = 0;
    while i < names.len()
        invariant
            i <= names.len(),
            copy@ == names@.take(i as int),
        decreases names.len() - i,
    {
        match &names[i] {
            Some(name) => copy.push(Some(name.clone())),
            None => copy.push(None),
        }
        proof {
            assert(names@.take(i + 1) =~= names@.take(i as int).push(names@[i as int]));
        }
        i += 1;
    }
    proof {
        assert(names@.take(i as int) =~= names@);
    }
    copy
}

impl ResourceDef {
    /// Parse path pattern and create new resource definition.
    ///
    /// The pattern must compile; see [`ResourceDef::try_new`].
    pub fn new(path: &str) -> (def: Self)
        requires
            pattern_compiles(path@, seq!['/'], false),
        ensures
            def@ == pattern_def(path@, seq!['/'], false),
            is_plain_pattern(path@) ==> def@.is_plain(),
    {
        proof {
            reveal_strlit("/");
            assert("/"@ =~= seq!['/']);
        }
        ResourceDef::with_prefix(path, "/", false)
    }

    /// Parse path pattern and create new resource definition, if the pattern
    /// compiles.
    pub fn try_new(path: &str) -> (made: Result<Self, PatternError>)
        ensures
            made is Ok <==> pattern_compiles(path@, seq!['/'], false),
            made matches Err(e) ==> is_reason(compiled_text(path@, seq!['/'], false), e.error),
            made matches Ok(def) ==> def@ == pattern_def(path@, seq!['/'], false),
            made matches Ok(def) ==> is_plain_pattern(path@) ==> def@.is_plain(),
    {
        proof {
            reveal_strlit("/");
            assert("/"@ =~= seq!['/']);
        }
        match check_pattern(path, "/", false) {
            Ok(()) => Ok(ResourceDef::new(path)),
            Err(e) => Err(e),
        }
    }

    /// Parse path pattern and create new resource definition.
    ///
    /// Use `prefix` type instead of `static`.
    ///
    /// The pattern must compile; see [`ResourceDef::try_prefix`].
    pub fn prefix(path: &str) -> (def: Self)
        requires
            pattern_compiles(path@, seq!['/'], true),
        ensures
            def@ == pattern_def(path@, seq!['/'], true),
            is_plain_pattern(path@) && is_dynamic(path@) ==> def@.is_plain_prefix(),
    {
        proof {
            reveal_strlit("/");
            assert("/"@ =~= seq!['/']);
        }
        ResourceDef::with_prefix(path, "/", true)
    }

    /// Parse path pattern and create new resource definition of `prefix` type,
    /// if the pattern compiles.
    pub fn try_prefix(path: &str) -> (made: Result<Self, PatternError>)
        ensures
            made is Ok <==> pattern_compiles(path@, seq!['/'], true),
            made matches Err(e) ==> is_reason(compiled_text(path@, seq!['/'], true), e.error),
            made matches Ok(def) ==> def@ == pattern_def(path@, seq!['/'], true),
            made matches Ok(def) ==> is_plain_pattern(path@) && is_dynamic(path@)
                ==> def@.is_plain_prefix(),
    {
        proof {
            reveal_strlit("/");
            assert("/"@ =~= seq!['/']);
        }
        match check_pattern(path, "/", true) {
            Ok(()) => Ok(ResourceDef::prefix(path)),
            Err(e) => Err(e),
        }
    }

    /// Construct external resource
    ///
    /// The pattern must compile; see [`ResourceDef::try_external`].
    pub fn external(path: &str) -> (def: Self)
        requires
            pattern_compiles(path@, seq!['/'], false),
        ensures
            def@ == (DefView {
                rtype: ResourceType::External,
                ..pattern_def(path@, seq!['/'], false)
            }),
    {
        proof {
            reveal_strlit("/");
            assert("/"@ =~= seq!['/']);
        }
        let mut resource = ResourceDef::with_prefix(path, "/", false);
        resource.rtp = ResourceType::External;
        resource
    }

    /// Construct external resource, if the pattern compiles.
    pub fn try_external(path: &str) -> (made: Result<Self, PatternError>)
        ensures
            made is Ok <==> pattern_compiles(path@, seq!['/'], false),
            made matches Err(e) ==> is_reason(compiled_text(path@, seq!['/'], false), e.error),
            made matches Ok(def) ==> def@ == (DefView {
                rtype: ResourceType::External,
                ..pattern_def(path@, seq!['/'], false)
            }),
    {
        proof {
            reveal_strlit("/");
            assert("/"@ =~= seq!['/']);
        }
        match check_pattern(path, "/", false) {
            Ok(()) => Ok(ResourceDef::external(path)),
            Err(e) => Err(e),
        }
    }

    /// Parse path pattern and create new resource definition with custom
    /// prefix.
    ///
    /// The pattern must compile; see [`ResourceDef::try_with_prefix`].
    pub fn with_prefix(path: &str, prefix: &str, for_prefix: bool) -> (def: Self)
        requires
            pattern_compiles(path@, prefix@, for_prefix),
        ensures
            def@ == pattern_def(path@, prefix@, for_prefix),
            prefix@ == seq!['/'] && !for_prefix && is_plain_pattern(path@) ==> def@.is_plain(),
            prefix@ == seq!['/'] && for_prefix && is_plain_pattern(path@) && is_dynamic(path@)
                ==> def@.is_plain_prefix(),
    {
        proof {
            if is_plain_pattern(path@) {
                lemma_plain_pattern(path@);
            }
        }
        let (pattern, elements, dynamic, len) = ResourceDef::parse(path, prefix, for_prefix);

        let tp = if dynamic {
            let re = Regex::new(pattern.as_str()).unwrap();
            let names = share_names(&group_names(&re));
            PatternType::Dynamic(re, names, len)
        } else if for_prefix {
            PatternType::Prefix(pattern)
        } else {
            PatternType::Static(pattern)
        };

        ResourceDef {
            tp,
            elements,
            name: String::new(),
            rtp: ResourceType::Normal,
            pattern: path.to_owned(),
        }
    }

    /// Parse path pattern and create new resource definition with custom
    /// prefix, if the pattern compiles.
    pub fn try_with_prefix(path: &str, prefix: &str, for_prefix: bool) -> (made: Result<
        Self,
        PatternError,
    >)
        ensures
            made is Ok <==> pattern_compiles(path@, prefix@, for_prefix),
            made matches Err(e) ==> is_reason(compiled_text(path@, prefix@, for_prefix), e.error),
            made matches Ok(def) ==> def@ == pattern_def(path@, prefix@, for_prefix),
    {
        match check_pattern(path, prefix, for_prefix) {
            Ok(()) => Ok(ResourceDef::with_prefix(path, prefix, for_prefix)),
            Err(e) => Err(e),
        }
    }

    /// Resource type
    pub fn rtype(&self) -> (rtype: ResourceType)
        ensures
            rtype == self@.rtype,
    {
        self.rtp
    }

    /// Resource name
    pub fn name(&self) -> (name: &str)
        ensures
            name@ == self@.name,
    {
        self.name.as_str()
    }

    /// Sets the resource name.
    pub fn set_name(&mut self, name: &str)
        ensures
            final(self)@ == (DefView { name: name@, ..old(self)@ }),
    {
        self.name = name.to_owned();
    }

    /// Path pattern of the resource
    pub fn pattern(&self) -> (pattern: &str)
        ensures
            pattern@ == self@.pattern,
    {
        self.pattern.as_str()
    }

    /// Is this path a match against this resource?
    pub fn is_match(&self, path: &str) -> (matched: bool)
        ensures
            matched == self@.matches(path@),
            self@.reads(path@),
    {
        match &self.tp {
            PatternType::Static(s) => same_text(s.as_str(), path),
            PatternType::Dynamic(re, _, _) => self.find(re, path).is_some(),
            PatternType::Prefix(s) => after_prefix(path, s.as_str()).is_some(),
        }
    }
}

impl ResourceDef {
    /// Finds the groups of the expression in a text.
    fn find(&self, re: &Regex, text: &str) -> (found: Option<Vec<Option<(usize, usize)>>>)
        requires
            self@.matcher matches Matcher::Dynamic { source, .. } && source == regex_source(*re),
        ensures
            match found {
                Some(groups) => {
                    &&& regex_groups(regex_source(*re), text@) == Some(groups@)
                    &&& forall|i: int|
                        0 <= i < groups@.len() ==> #[trigger] is_piece(text@, groups@[i])
                },
                None => regex_groups(regex_source(*re), text@) is None,
            },
            self@.reads(text@),
    {
        let found = find_groups(re, text);
        proof {
            let all = rooted(self@.elements);
            if regex_source(*re) == plain_source(all) && names_close(all) {
                assert(finds_reading(all, text@, regex_groups(regex_source(*re), text@)));
            }
            if regex_source(*re) == plain_beginning(all) && names_close(all) {
                assert(finds_beginning(all, text@, regex_groups(regex_source(*re), text@)));
            }
        }
        found
    }

    /// Are the given path and parameters a match against this resource?
    ///
    /// The path is looked at from the offset `plen` on, which must be between
    /// two of its characters.
    pub fn match_with_params(&self, req: &Request, plen: usize) -> (params: Option<Params>)
        requires
            is_boundary(req@.path, plen as int),
        ensures
            params is Some <==> self@.match_from(req@.path, plen as int) is Some,
            params matches Some(p) ==> self@.match_from(req@.path, plen as int) == Some(p@),
            params matches Some(p) ==> byte_len(req@.path) <= 0xffff ==> p@.has_values(
                self@.values(text_from(req@.path, plen as int)),
            ),
            self@.reads(text_from(req@.path, plen as int)),
            self@.is_plain() && params is Some ==> self@.path_for(
                self@.values(text_from(req@.path, plen as int)),
                Seq::empty(),
            ) == Some(text_from(req@.path, plen as int)),
            forall|values: Seq<Seq<char>>|
                self@.is_plain() && #[trigger] self@.reads_back(
                    values,
                    text_from(req@.path, plen as int),
                ) ==> (params matches Some(p) && self@.are_params(values, p@)),
    {
        let path = slice_from(req.path(), plen);
        let params = match &self.tp {
            PatternType::Static(s) => if same_text(s.as_str(), path) {
                Some(Params::with_url(req))
            } else {
                None
            },
            PatternType::Dynamic(re, names, _) => {
                match self.find(re, path) {
                    Some(groups) => {
                        let params = full_match_params(req, plen, names, &groups);
                        proof {
                            if byte_len(req@.path) <= 0xffff {
                                lemma_group_values(
                                    req@.path,
                                    plen as int,
                                    name_texts(names@),
                                    groups@,
                                    params@,
                                );
                            }
                        }
                        Some(params)
                    },
                    None => None,
                }
            },
            PatternType::Prefix(s) => if after_prefix(path, s.as_str()).is_some() {
                Some(Params::with_url(req))
            } else {
                None
            },
        };
        proof {
            if self@.is_plain() {
                if params is Some {
                    lemma_matched_is_generated(self@, path@);
                }
                assert forall|values: Seq<Seq<char>>| #[trigger]
                    self@.reads_back(values, path@) implies (params matches Some(p)
                    && self@.are_params(values, p@)) by {
                    lemma_generated_is_matched(self@, values, path@);
                }
            }
        }
        params
    }

    /// Is the given path a prefix match and do the parameters match against this
    /// resource?
    ///
    /// The path is looked at from the offset `plen` on, which must be between
    /// two of its characters.
    pub fn match_prefix_with_params(&self, req: &Request, plen: usize) -> (params: Option<Params>)
        requires
            is_boundary(req@.path, plen as int),
        ensures
            params is Some <==> self@.match_prefix_from(req@.path, plen as int) is Some,
            params matches Some(p) ==> self@.match_prefix_from(req@.path, plen as int) == Some(p@),
            params matches Some(p) ==> plen < byte_len(req@.path) <= 0xffff ==> p@.has_values(
                self@.values(text_from(req@.path, plen as int)),
            ),
            self@.reads(nonempty(text_from(req@.path, plen as int))),
            self@.is_plain_prefix() ==> (params matches Some(p) ==> self@.took_beginning(
                text_from(req@.path, plen as int),
                plen as int,
                p@,
            )),
            forall|values: Seq<Seq<char>>|
                self@.is_plain_prefix() && #[trigger] self@.begins(
                    values,
                    text_from(req@.path, plen as int),
                ) ==> (params matches Some(p) && (byte_len(req@.path) <= 0xffff ==> p@.has_values(
                    values,
                ))),
    {
        proof {
            lemma_encode_from(req@.path, plen as int);
        }
        let path = or_slash(slice_from(req.path(), plen));

        let params = match &self.tp {
            PatternType::Static(s) => if same_text(s.as_str(), path) {
                Some(Params::with_url(req))
            } else {
                None
            },
            PatternType::Dynamic(re, names, len) => match self.find(re, path) {
                Some(groups) => {
                    let params = prefix_match_params(req, plen, names, *len, &groups);
                    proof {
                        if plen < byte_len(req@.path) <= 0xffff {
                            lemma_group_values(
                                req@.path,
                                plen as int,
                                name_texts(names@),
                                groups@,
                                params@,
                            );
                        }
                    }
                    Some(params)
                },
                None => None,
            },
            PatternType::Prefix(s) => match taken_by_prefix(s.as_str(), path) {
                Some(taken) => {
                    let mut params = Params::with_url(req);
                    let end = byte_length(req.path());
                    let tail = if plen < end && taken < end - plen {
                        plen + taken
                    } else {
                        end
                    };
                    params.set_tail(low16(tail));
                    Some(params)
                },
                None => None,
            },
        };
        proof {
            if self@.is_plain_prefix() {
                let rest = text_from(req@.path, plen as int);
                if params is Some {
                    lemma_prefix_reads_beginning(self@, path@);
                    let head = self@.path_for(self@.values(path@), Seq::empty()).unwrap();
                    assert(path@ == rest);
                    assert(head + rest.skip(head.len() as int) =~= rest);
                    lemma_encode_concat(head, rest.skip(head.len() as int));
                }
                assert forall|values: Seq<Seq<char>>| #[trigger]
                    self@.begins(values, rest) implies (params matches Some(p) && (byte_len(
                    req@.path,
                ) <= 0xffff ==> p@.has_values(values))) by {
                    let head = self@.path_for(values, Seq::empty()).unwrap();
                    assert(head.is_prefix_of(path@));
                    assert(self@.begins(values, path@));
                    lemma_generated_prefix_is_matched(self@, values, path@);
                }
            }
        }
        params
    }

    /// Build resource path.
    pub fn resource_path(&self, elements: &[&str], prefix: &str) -> (made: Result<
        String,
        UrlGenerationError,
    >)
        ensures
            match self@.path_for(texts(elements@), prefix@) {
                Some(path) => made matches Ok(p) && p@ == path,
                None => made == Err::<String, UrlGenerationError>(
                    UrlGenerationError::NotEnoughElements,
                ),
            },
    {
        let path = match &self.tp {
            PatternType::Prefix(p) => p.clone(),
            PatternType::Static(p) => p.clone(),
            PatternType::Dynamic(_, _, _) => match fill_elements(&self.elements, elements) {
                Some(path) => path,
                None => {
                    return Err(UrlGenerationError::NotEnoughElements);
                },
            },
        };

        if self.rtp != ResourceType::External {
            Ok(join_paths(prefix, path.as_str()))
        } else {
            Ok(path)
        }
    }
}

/// A path, or `/` in place of the empty one.
pub(crate) fn or_slash(path: &str) -> (shown: &str)
    ensures
        shown@ == nonempty(path@),
{
    proof {
        reveal_strlit("/");
        assert("/"@ =~= seq!['/']);
    }
    if path.is_empty() {
        "/"
    } else {
        path
    }
}

/// How many bytes of a path a prefix takes, if it is one.
fn taken_by_prefix(prefix: &str, path: &str) -> (taken: Option<usize>)
    ensures
        taken is Some <==> prefix_taken(prefix@, path@) is Some,
        taken matches Some(n) ==> prefix_taken(prefix@, path@) == Some(n as int),
{
    let len = byte_length(prefix);
    match after_prefix(path, prefix) {
        None => {
            proof {
                assert(path@ == prefix@ ==> prefix@.is_prefix_of(path@));
            }
            None
        },
        Some(None) => {
            proof {
                assert(path@ =~= prefix@);
            }
            Some(len)
        },
        Some(Some(c)) => if last_char(prefix) == Some('/') {
            proof {
                lemma_last_slash(prefix@);
            }
            Some(len - 1)
        } else if c == '/' {
            Some(len)
        } else {
            None
        },
    }
}

/// A text that ends with a slash takes one byte more than without it.
pub proof fn lemma_last_slash(s: Seq<char>)
    requires
        s.len() > 0,
        s.last() == '/',
    ensures
        byte_len(s) == byte_len(s.drop_last()) + 1,
        is_boundary(s, byte_len(s) - 1),
        text_to(s, byte_len(s) - 1) == s.drop_last(),
{
    let slash = seq!['/'];
    assert(s =~= s.drop_last() + slash);
    lemma_encode_concat(s.drop_last(), slash);
    assert(vstd::utf8::is_ascii_chars(slash));
    vstd::utf8::is_ascii_chars_encode_utf8(slash);
    lemma_boundary_concat(s.drop_last(), slash);
    lemma_cut_concat(s.drop_last(), slash);
}

/// The pieces of a pattern with a value in the place of each parameter.
fn fill_elements(elements: &Vec<PatternElement>, values: &[&str]) -> (filled: Option<String>)
    ensures
        match fill(element_views(elements@), texts(values@)) {
            Some(path) => filled matches Some(p) && p@ == path,
            None => filled is None,
        },
{
    let mut path = String::new();
    let mut i: usize = 0;
    let mut used: usize = 0;
    let ghost pieces = element_views(elements@);
    let ghost given = texts(values@);
    proof {
        assert(pieces.skip(0) =~= pieces);
        assert(given.skip(0) =~= given);
        match fill(pieces, given) {
            Some(all) => {
                assert(Seq::<char>::empty() + all =~= all);
            },
            None => {},
        }
    }
    while i < elements.len()
        invariant
            i <= elements.len(),
            used <= values.len(),
            pieces == element_views(elements@),
            given == texts(values@),
            match fill(pieces.skip(i as int), given.skip(used as int)) {
                Some(rest) => fill(pieces, given) == Some(path@ + rest),
                None => fill(pieces, given) is None,
            },
        decreases elements.len() - i,
    {
        let ghost before = path@;
        let ghost here = pieces.skip(i as int);
        let ghost left = given.skip(used as int);
        proof {
            assert(here.drop_first() =~= pieces.skip(i + 1));
            assert(here[0] == elements@[i as int]@);
        }
        match &elements[i] {
            PatternElement::Str(s) => {
                path.append(s.as_str());
                proof {
                    match fill(pieces.skip(i + 1), left) {
                        Some(rest) => {
                            assert(before + (s@ + rest) =~= path@ + rest);
                        },
                        None => {},
                    }
                }
            },
            PatternElement::Var(_) => {
                if used >= values.len() {
                    return None;
                }
                path.append(values[used]);
                proof {
                    assert(left[0] == values@[used as int]@);
                    assert(left.drop_first() =~= given.skip(used + 1));
                    match fill(pieces.skip(i + 1), given.skip(used + 1)) {
                        Some(rest) => {
                            assert(before + (left[0] + rest) =~= path@ + rest);
                        },
                        None => {},
                    }
                }
                used += 1;
            },
        }
        i += 1;
    }
    proof {
        assert(pieces.skip(i as int) =~= Seq::<Element>::empty());
        assert(path@ + Seq::<char>::empty() =~= path@);
    }
    Some(path)
}

/// A prefix and a path with one slash where they meet.
fn join_paths(prefix: &str, path: &str) -> (joined: String)
    ensures
        joined@ == join(prefix@, path@),
{
    proof {
        reveal_strlit("/");
        assert("/"@ =~= seq!['/']);
    }
    let path_has_slash = first_char(path) == Some('/');
    proof {
        if path_has_slash {
            assert(seq!['/'] + path@.drop_first() =~= path@);
        }
    }
    let mut joined;
    if last_char(prefix) == Some('/') {
        if path_has_slash {
            proof {
                lemma_last_slash(prefix@);
            }
            joined = slice_to(prefix, byte_length(prefix) - 1).to_owned();
        } else {
            proof {
                assert(prefix@.drop_last() + seq!['/'] =~= prefix@);
            }
            joined = prefix.to_owned();
        }
    } else {
        joined = prefix.to_owned();
        if !path_has_slash {
            joined.append("/");
        }
    }
    joined.append(path);
    proof {
        assert(joined@ =~= join(prefix@, path@));
    }
    joined
}

/// Says why a pattern does not compile, if it does not.
fn check_pattern(path: &str, prefix: &str, for_prefix: bool) -> (checked: Result<(), PatternError>)
    ensures
        checked is Ok <==> pattern_compiles(path@, prefix@, for_prefix),
        checked matches Err(e) ==> is_reason(compiled_text(path@, prefix@, for_prefix), e.error),
{
    let (pattern, _, dynamic, _) = ResourceDef::parse(path, prefix, for_prefix);
    if dynamic {
        let text = pattern.as_str();
        let compile = Regex::new;
        match compile(text) {
            Ok(_) => Ok(()),
            Err(error) => {
                proof {
                    assert(text@ == compiled_text(path@, prefix@, for_prefix));
                }
                Err(PatternError { error })
            },
        }
    } else {
        Ok(())
    }
}

} // verus!
