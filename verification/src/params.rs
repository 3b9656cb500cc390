//! Requests, and the parameters of a match.

use std::ops::Index;
use std::rc::Rc;

use vstd::prelude::*;

use crate::text::{delimits, same_text, slice_between, text_between};

verus! {

/// The method of a request.
#[verifier::external_type_specification]
#[verifier::external_body]
pub struct ExMethod(http::Method);

/// The headers of a request.
#[verifier::external_type_specification]
#[verifier::external_body]
#[verifier::reject_recursive_types(T)]
pub struct ExHeaderMap<T>(http::HeaderMap<T>);

/// The value of a header.
#[verifier::external_type_specification]
#[verifier::external_body]
pub struct ExHeaderValue(http::header::HeaderValue);

/// A request: what routing reads of it, which is its path and the connection it
/// came over, and what conditions on requests may look at besides.
#[derive(Debug)]
pub struct Request {
    method: http::Method,
    path: Rc<String>,
    headers: http::HeaderMap,
    scheme: String,
    host: String,
}

/// A request as a value of the specification.
pub struct RequestView {
    pub method: http::Method,
    pub path: Seq<char>,
    pub headers: http::HeaderMap,
    pub scheme: Seq<char>,
    pub host: Seq<char>,
}

impl View for Request {
    type V = RequestView;

    closed spec fn view(&self) -> RequestView {
        RequestView {
            method: self.method,
            path: self.path@,
            headers: self.headers,
            scheme: self.scheme@,
            host: self.host@,
        }
    }
}

impl Request {
    /// A request with a method, for a path, with headers, over a scheme, to a
    /// host.
    pub fn new(
        method: http::Method,
        path: &str,
        headers: http::HeaderMap,
        scheme: &str,
        host: &str,
    ) -> (req: Self)
        ensures
            req@ == (RequestView { method, path: path@, headers, scheme: scheme@, host: host@ }),
    {
        Request {
            method,
            path: Rc::new(path.to_owned()),
            headers,
            scheme: scheme.to_owned(),
            host: host.to_owned(),
        }
    }

    /// The method of the request.
    pub fn method(&self) -> (method: &http::Method)
        ensures
            *method == self@.method,
    {
        &self.method
    }

    /// The headers of the request.
    pub fn headers(&self) -> (headers: &http::HeaderMap)
        ensures
            *headers == self@.headers,
    {
        &self.headers
    }

    /// The path of the request.
    pub fn path(&self) -> (path: &str)
        ensures
            path@ == self@.path,
    {
        self.path.as_str()
    }

    /// The scheme of the connection.
    pub fn scheme(&self) -> (scheme: &str)
        ensures
            scheme@ == self@.scheme,
    {
        self.scheme.as_str()
    }

    /// The host that the request is addressed to.
    pub fn host(&self) -> (host: &str)
        ensures
            host@ == self@.host,
    {
        self.host.as_str()
    }
}

/// Where the value of a parameter is found.
#[derive(Clone, Copy, Debug, PartialEq, Eq, Structural)]
pub enum ParamItem {
    /// Between two byte offsets of the path.
    UrlSegment(u16, u16),
}

/// The parameters of a match.
///
/// A variable segment of a pattern is written `{identifier}`; the identifier
/// is used to look up the value that was matched for that segment.
#[derive(Debug)]
pub struct Params {
    path: Rc<String>,
    tail: u16,
    segments: Vec<(Rc<String>, ParamItem)>,
}

/// Parameters as a value of the specification.
#[verifier::ext_equal]
pub struct ParamsView {
    /// The path that the offsets refer to.
    pub path: Seq<char>,
    /// The offset up to which the path was consumed.
    pub tail: u16,
    /// The parameters in order, each with its name.
    pub segments: Seq<(Seq<char>, ParamItem)>,
}

impl ParamsView {
    /// No parameters of a path.
    pub open spec fn of_path(path: Seq<char>) -> ParamsView {
        ParamsView { path, tail: 0, segments: Seq::empty() }
    }

    /// The value of the parameter at a position, if its offsets delimit one.
    pub open spec fn value_at(self, i: int) -> Option<Seq<char>> {
        match self.segments[i].1 {
            ParamItem::UrlSegment(start, end) => if delimits(self.path, start as int, end as int) {
                Some(text_between(self.path, start as int, end as int))
            } else {
                None
            },
        }
    }

    /// Whether the parameters have these values.
    pub open spec fn has_values(self, values: Seq<Seq<char>>) -> bool {
        &&& self.segments.len() == values.len()
        &&& forall|i: int|
            0 <= i < values.len() ==> self.value_at(i) == Some(#[trigger] values[i])
    }

    /// Whether the parameters have these names.
    pub open spec fn has_names(self, names: Seq<Seq<char>>) -> bool {
        &&& self.segments.len() == names.len()
        &&& forall|i: int| 0 <= i < names.len() ==> self.segments[i].0 == #[trigger] names[i]
    }

    /// The position of the first parameter with a name, or the number of
    /// parameters.
    pub open spec fn position(self, name: Seq<char>) -> int {
        first_named(self.segments, name)
    }

    /// The value of the first parameter with a name.
    pub open spec fn value(self, name: Seq<char>) -> Option<Seq<char>> {
        if self.position(name) < self.segments.len() {
            self.value_at(self.position(name))
        } else {
            None
        }
    }
}

/// The position of the first entry with a name, or the number of entries.
pub open spec fn first_named(segments: Seq<(Seq<char>, ParamItem)>, name: Seq<char>) -> int
    decreases segments.len(),
{
    if segments.len() == 0 || segments[0].0 == name {
        0
    } else {
        1 + first_named(segments.drop_first(), name)
    }
}

/// The first entry with a name has that name, and none before it does.
pub proof fn lemma_first_named(segments: Seq<(Seq<char>, ParamItem)>, name: Seq<char>)
    ensures
        0 <= first_named(segments, name) <= segments.len(),
        first_named(segments, name) < segments.len() ==> segments[first_named(segments, name)].0
            == name,
        forall|i: int| 0 <= i < first_named(segments, name) ==> (#[trigger] segments[i]).0 != name,
    decreases segments.len(),
{
    if segments.len() > 0 && segments[0].0 != name {
        lemma_first_named(segments.drop_first(), name);
        assert forall|i: int| 0 <= i < first_named(segments, name) implies (
        #[trigger] segments[i]).0 != name by {
            if i > 0 {
                assert(segments[i] == segments.drop_first()[i - 1]);
            }
        }
    }
}

/// An entry with a name after none that has it is the first.
pub proof fn lemma_first_named_unique(
    segments: Seq<(Seq<char>, ParamItem)>,
    name: Seq<char>,
    at: int,
)
    requires
        0 <= at <= segments.len(),
        at < segments.len() ==> segments[at].0 == name,
        forall|i: int| 0 <= i < at ==> (#[trigger] segments[i]).0 != name,
    ensures
        first_named(segments, name) == at,
{
    lemma_first_named(segments, name);
    let found = first_named(segments, name);
    if found < at {
        assert(segments[found].0 != name);
    }
}

/// The names and places of a list of parameters.
pub open spec fn segment_views(segments: Seq<(Rc<String>, ParamItem)>) -> Seq<
    (Seq<char>, ParamItem),
> {
    segments.map_values(|s: (Rc<String>, ParamItem)| (s.0@, s.1))
}

impl View for Params {
    type V = ParamsView;

    closed spec fn view(&self) -> ParamsView {
        ParamsView {
            path: self.path@,
            tail: self.tail,
            segments: segment_views(self.segments@),
        }
    }
}

impl Clone for Params {
    fn clone(&self) -> (copy: Self)
        ensures
            copy@ == self@,
    {
        let mut copy = Params { path: self.path.clone(), tail: self.tail, segments: Vec::new() };
        copy.append(self);
        proof {
            assert(copy@ =~= self@);
        }
        copy
    }
}

impl Params {
    /// No parameters, of an empty path.
    pub fn new() -> (params: Self)
        ensures
            params@ == ParamsView::of_path(Seq::empty()),
    {
        let params = Params { path: Rc::new(String::new()), tail: 0, segments: Vec::new() };
        proof {
            assert(params@ =~= ParamsView::of_path(Seq::empty()));
        }
        params
    }

    /// No parameters, of the path of a request.
    pub fn with_url(req: &Request) -> (params: Self)
        ensures
            params@ == ParamsView::of_path(req@.path),
    {
        let params = Params { path: req.path.clone(), tail: 0, segments: Vec::new() };
        proof {
            assert(params@ =~= ParamsView::of_path(req@.path));
        }
        params
    }

    /// The offset up to which the path was consumed.
    pub fn tail(&self) -> (tail: u16)
        ensures
            tail == self@.tail,
    {
        self.tail
    }

    /// Sets the offset up to which the path was consumed.
    pub fn set_tail(&mut self, tail: u16)
        ensures
            final(self)@ == (ParamsView { tail, ..old(self)@ }),
    {
        self.tail = tail;
    }

    /// Adds a parameter.
    pub fn add(&mut self, name: Rc<String>, value: ParamItem)
        ensures
            final(self)@ == (ParamsView {
                segments: old(self)@.segments.push((name@, value)),
                ..old(self)@
            }),
    {
        self.segments.push((name, value));
        proof {
            assert(self@.segments =~= old(self)@.segments.push((name@, value)));
        }
    }

    /// Adds the parameters of another match after those that are there.
    pub fn append(&mut self, other: &Params)
        ensures
            final(self)@ == (ParamsView {
                segments: old(self)@.segments + other@.segments,
                ..old(self)@
            }),
    {
        let mut i: usize = 0;
        proof {
            assert(self@.segments =~= old(self)@.segments + other@.segments.take(0));
        }
        while i < other.segments.len()
            invariant
                i <= other.segments.len(),
                self@ == (ParamsView {
                    segments: old(self)@.segments + other@.segments.take(i as int),
                    ..old(self)@
                }),
            decreases other.segments.len() - i,
        {
            let segment = &other.segments[i];
            self.add(segment.0.clone(), segment.1);
            proof {
                assert(other@.segments[i as int] == (segment.0@, segment.1));
                assert(other@.segments.take(i + 1) =~= other@.segments.take(i as int).push(
                    other@.segments[i as int],
                ));
                assert(self@.segments =~= old(self)@.segments + other@.segments.take(i + 1));
            }
            i += 1;
        }
        proof {
            assert(other@.segments.take(i as int) =~= other@.segments);
        }
    }

    /// Whether there are no parameters.
    pub fn is_empty(&self) -> (empty: bool)
        ensures
            empty == (self@.segments.len() == 0),
    {
        self.segments.len() == 0
    }

    /// The number of parameters.
    pub fn len(&self) -> (n: usize)
        ensures
            n == self@.segments.len(),
    {
        self.segments.len()
    }

    /// The value of the parameter at a position.
    pub fn get_at(&self, i: usize) -> (value: Option<&str>)
        ensures
            value is Some <==> i < self@.segments.len() && self@.value_at(i as int) is Some,
            value matches Some(v) ==> self@.value_at(i as int) == Some(v@),
    {
        if i < self.segments.len() {
            proof {
                assert(self@.segments[i as int] == (
                    self.segments@[i as int].0@,
                    self.segments@[i as int].1,
                ));
            }
            match self.segments[i].1 {
                ParamItem::UrlSegment(start, end) => slice_between(
                    self.path.as_str(),
                    start as usize,
                    end as usize,
                ),
            }
        } else {
            None
        }
    }

    /// The value of the first parameter with a name.
    pub fn get(&self, key: &str) -> (value: Option<&str>)
        ensures
            value is Some <==> self@.value(key@) is Some,
            value matches Some(v) ==> self@.value(key@) == Some(v@),
    {
        let mut i: usize = 0;
        while i < self.segments.len()
            invariant
                i <= self.segments.len(),
                forall|j: int| 0 <= j < i ==> (#[trigger] self@.segments[j]).0 != key@,
            decreases self.segments.len() - i,
        {
            if same_text(self.segments[i].0.as_str(), key) {
                proof {
                    assert(self@.segments[i as int].0 == key@);
                    lemma_first_named_unique(self@.segments, key@, i as int);
                }
                return self.get_at(i);
            }
            proof {
                assert(self@.segments[i as int].0 == self.segments@[i as int].0@);
            }
            i += 1;
        }
        proof {
            lemma_first_named_unique(self@.segments, key@, i as int);
        }
        None
    }
}

impl Index<&str> for Params {
    type Output = str;

    /// The value of the first parameter with a name.
    fn index(&self, name: &str) -> (value: &str)
        ensures
            self@.value(name@) == Some(value@),
    {
        self.get(name).unwrap()
    }
}

impl vstd::std_specs::core::IndexSpecImpl<&str> for Params {
    open spec fn index_req(&self, name: &&str) -> bool {
        self@.value((*name)@) is Some
    }
}

impl Index<usize> for Params {
    type Output = str;

    /// The value of the parameter at a position.
    fn index(&self, i: usize) -> (value: &str)
        ensures
            self@.value_at(i as int) == Some(value@),
    {
        self.get_at(i).unwrap()
    }
}

impl vstd::std_specs::core::IndexSpecImpl<usize> for Params {
    open spec fn index_req(&self, i: &usize) -> bool {
        *i < self@.segments.len() && self@.value_at(*i as int) is Some
    }
}

} // verus!
