//! What is known of the resource that a request was matched with.

use std::rc::Rc;

use vstd::hash_map::StringHashMap;
use vstd::prelude::*;

use crate::def::{nonempty, or_slash, DefView, ResourceDef};
use crate::error::UrlGenerationError;
use crate::params::{Params, ParamsView, Request, RequestView};
use crate::text::{first_char, is_boundary, slice_to, text_to, texts};
use crate::urls::{parse_url, url_parsed, UrlError};

verus! {

/// The resource that a request was matched with.
#[derive(Debug, Copy, Clone, PartialEq, Eq, Structural)]
pub enum ResourceId {
    /// None of those that were registered.
    Default,
    /// One of them, by its position.
    Normal(u16),
}

/// The definitions that a router knows.
pub struct Inner {
    named: StringHashMap<Rc<ResourceDef>>,
    names: Vec<String>,
    patterns: Vec<Rc<ResourceDef>>,
}

/// The definitions of a list of shared definitions.
pub open spec fn def_views(defs: Seq<Rc<ResourceDef>>) -> Seq<DefView> {
    defs.map_values(|def: Rc<ResourceDef>| def@)
}

/// Whether a text is among a list of names.
spec fn is_listed(names: Seq<String>, name: Seq<char>) -> bool {
    exists|i: int| 0 <= i < names.len() && (#[trigger] names[i])@ == name
}

impl Inner {
    /// The definitions in the order of registration.
    pub closed spec fn defs(self) -> Seq<DefView> {
        def_views(self.patterns@)
    }

    /// The definitions that can be found by name.
    pub closed spec fn named(self) -> Map<Seq<char>, DefView> {
        self.named@.map_values(|def: Rc<ResourceDef>| def@)
    }

    /// The names that are listed are those that definitions can be found by.
    pub closed spec fn wf(self) -> bool {
        forall|name: Seq<char>| #[trigger]
            self.named@.contains_key(name) <==> is_listed(self.names@, name)
    }

    /// No definitions.
    pub(crate) fn new() -> (inner: Self)
        ensures
            inner.wf(),
            inner.defs() == Seq::<DefView>::empty(),
            inner.named() == Map::<Seq<char>, DefView>::empty(),
    {
        let inner = Inner { named: StringHashMap::new(), names: Vec::new(), patterns: Vec::new() };
        proof {
            assert(inner.defs() =~= Seq::<DefView>::empty());
            assert(inner.named() =~= Map::<Seq<char>, DefView>::empty());
        }
        inner
    }

    /// The same definitions again.
    pub(crate) fn copy(&self) -> (copy: Self)
        requires
            self.wf(),
        ensures
            copy.wf(),
            copy.defs() == self.defs(),
            copy.named() == self.named(),
    {
        let mut copy = Inner::new();
        let mut i: usize = 0;
        while i < self.patterns.len()
            invariant
                i <= self.patterns.len(),
                copy.wf(),
                copy.named() == Map::<Seq<char>, DefView>::empty(),
                copy.defs() == self.defs().take(i as int),
            decreases self.patterns.len() - i,
        {
            copy.push(self.patterns[i].clone());
            proof {
                assert(self.defs().take(i + 1) =~= self.defs().take(i as int).push(
                    self.defs()[i as int],
                ));
            }
            i += 1;
        }
        proof {
            assert(self.defs().take(i as int) =~= self.defs());
        }
        let mut j: usize = 0;
        while j < self.names.len()
            invariant
                j <= self.names.len(),
                self.wf(),
                copy.wf(),
                copy.defs() == self.defs(),
                forall|name: Seq<char>| #[trigger]
                    copy.named().contains_key(name) <==> is_listed(
                        self.names@.take(j as int),
                        name,
                    ),
                forall|name: Seq<char>| #[trigger]
                    copy.named().contains_key(name) ==> copy.named()[name] == self.named()[name],
            decreases self.names.len() - j,
        {
            let name = &self.names[j];
            let ghost before = copy.named();
            proof {
                assert(is_listed(self.names@, name@));
                assert(self.named@.contains_key(name@));
                assert(self.named().contains_key(name@));
            }
            if let Some(def) = self.get(name.as_str()) {
                copy.insert(name.as_str(), def.clone());
            }
            proof {
                let longer = self.names@.take(j + 1);
                assert forall|k: Seq<char>| #[trigger]
                    copy.named().contains_key(k) <==> is_listed(longer, k) by {
                    if before.contains_key(k) {
                        let i = choose|i: int|
                            0 <= i < j && (#[trigger] self.names@.take(j as int)[i])@ == k;
                        assert(longer[i]@ == k);
                    }
                    if k == name@ {
                        assert(longer[j as int]@ == k);
                    }
                    if is_listed(longer, k) {
                        let i = choose|i: int|
                            0 <= i < longer.len() && (#[trigger] longer[i])@ == k;
                        if i < j {
                            assert(self.names@.take(j as int)[i]@ == k);
                        }
                    }
                }
            }
            j += 1;
        }
        proof {
            assert(self.names@.take(j as int) =~= self.names@);
            assert forall|k: Seq<char>| copy.named().contains_key(k) == self.named().contains_key(
                k,
            ) by {
                assert(self.named@.contains_key(k) <==> is_listed(self.names@, k));
            }
            assert(copy.named() =~= self.named());
        }
        copy
    }

    /// Adds a definition at the end.
    pub(crate) fn push(&mut self, def: Rc<ResourceDef>)
        ensures
            old(self).wf() ==> final(self).wf(),
            final(self).defs() == old(self).defs().push(def@),
            final(self).named() == old(self).named(),
    {
        self.patterns.push(def);
        proof {
            assert(self.defs() =~= old(self).defs().push(def@));
        }
    }

    /// Gives a name to a definition.
    pub(crate) fn insert(&mut self, name: &str, def: Rc<ResourceDef>)
        requires
            old(self).wf(),
        ensures
            final(self).wf(),
            final(self).defs() == old(self).defs(),
            final(self).named() == old(self).named().insert(name@, def@),
    {
        self.names.push(name.to_owned());
        self.named.insert(name.to_owned(), def);
        proof {
            assert(self.named() =~= old(self).named().insert(name@, def@));
            let before = old(self).names@;
            assert forall|k: Seq<char>| #[trigger]
                self.named@.contains_key(k) <==> is_listed(self.names@, k) by {
                if is_listed(before, k) {
                    let i = choose|i: int| 0 <= i < before.len() && (#[trigger] before[i])@ == k;
                    assert(self.names@[i]@ == k);
                }
                if k == name@ {
                    assert(self.names@[before.len() as int]@ == k);
                }
                if is_listed(self.names@, k) {
                    let i = choose|i: int|
                        0 <= i < self.names@.len() && (#[trigger] self.names@[i])@ == k;
                    if i < before.len() {
                        assert(before[i]@ == k);
                    }
                }
                assert(old(self).named@.contains_key(k) <==> is_listed(before, k));
            }
        }
    }

    /// Whether a name is taken.
    pub(crate) fn contains(&self, name: &str) -> (taken: bool)
        ensures
            taken == self.named().contains_key(name@),
    {
        self.named.contains_key(name)
    }

    /// The definition with a name.
    fn get(&self, name: &str) -> (def: Option<&Rc<ResourceDef>>)
        ensures
            def is Some <==> self.named().contains_key(name@),
            def matches Some(d) ==> d@ == self.named()[name@],
    {
        self.named.get(name)
    }
}

/// Information about current resource
pub struct ResourceInfo {
    router: Rc<Inner>,
    resource: ResourceId,
    params: Params,
    prefix: u16,
}

/// Information about a resource as a value of the specification.
#[verifier::ext_equal]
pub struct InfoView {
    /// The definitions that the router knows.
    pub defs: Seq<DefView>,
    /// Those of them that have names.
    pub named: Map<Seq<char>, DefView>,
    /// The resource.
    pub resource: ResourceId,
    /// The parameters of the match.
    pub params: ParamsView,
    /// The offset up to which the path belongs to what the router is mounted
    /// below.
    pub prefix: u16,
}

impl InfoView {
    /// The resource is one that the router knows.
    pub open spec fn wf(self) -> bool {
        self.resource matches ResourceId::Normal(i) ==> i < self.defs.len()
    }
}

impl View for ResourceInfo {
    type V = InfoView;

    closed spec fn view(&self) -> InfoView {
        InfoView {
            defs: self.router.defs(),
            named: self.router.named(),
            resource: self.resource,
            params: self.params@,
            prefix: self.prefix,
        }
    }
}

impl Clone for ResourceInfo {
    fn clone(&self) -> (copy: Self)
        ensures
            copy@ == self@,
    {
        ResourceInfo {
            router: self.router.clone(),
            resource: self.resource,
            params: self.params.clone(),
            prefix: self.prefix,
        }
    }
}

/// What is handed to the URL parser for a path: the path itself, unless it
/// begins with a slash; then the connection of the request goes before it.
pub open spec fn url_text(req: RequestView, path: Seq<char>) -> Seq<char> {
    if path.len() > 0 && path[0] == '/' {
        req.scheme + seq![':', '/', '/'] + req.host + path
    } else {
        path
    }
}

impl InfoView {
    /// With the parameters of an outer match before its own, on the path of the
    /// outer match, and what that consumed as the prefix.
    pub open spec fn merged(self, outer: InfoView) -> InfoView {
        InfoView {
            params: ParamsView {
                path: outer.params.path,
                tail: self.params.tail,
                segments: outer.params.segments + self.params.segments,
            },
            prefix: outer.params.tail,
            ..self
        }
    }

    /// The path that is generated for a named resource.
    pub open spec fn generated_path(
        self,
        req: RequestView,
        name: Seq<char>,
        values: Seq<Seq<char>>,
    ) -> Result<Seq<char>, UrlGenerationError> {
        if !self.named.contains_key(name) {
            Err(UrlGenerationError::ResourceNotFound)
        } else {
            match self.named[name].path_for(values, text_to(req.path, self.prefix as int)) {
                Some(path) => Ok(path),
                None => Err(UrlGenerationError::NotEnoughElements),
            }
        }
    }

    /// The URL that is generated for a named resource.
    pub open spec fn generated_url(
        self,
        req: RequestView,
        name: Seq<char>,
        values: Seq<Seq<char>>,
    ) -> Result<Seq<char>, UrlGenerationError> {
        match self.generated_path(req, name, values) {
            Ok(path) => match url_parsed(url_text(req, path)) {
                Ok(url) => Ok(url),
                Err(e) => Err(UrlGenerationError::ParseError(e)),
            },
            Err(e) => Err(e),
        }
    }
}

/// What is handed to the URL parser for a path.
pub fn absolute_url(req: &Request, path: &str) -> (text: String)
    ensures
        text@ == url_text(req@, path@),
{
    if first_char(path) == Some('/') {
        proof {
            reveal_strlit("://");
            assert("://"@ =~= seq![':', '/', '/']);
        }
        let mut text = req.scheme().to_owned();
        text.append("://");
        text.append(req.host());
        text.append(path);
        text
    } else {
        path.to_owned()
    }
}

/// What comes of the outcome of the URL parser.
pub fn parsed_url(outcome: Result<String, UrlError>) -> (url: Result<String, UrlGenerationError>)
    ensures
        url == (match outcome {
            Ok(text) => Ok::<String, UrlGenerationError>(text),
            Err(e) => Err::<String, UrlGenerationError>(UrlGenerationError::ParseError(e)),
        }),
{
    match outcome {
        Ok(text) => Ok(text),
        Err(e) => Err(UrlGenerationError::ParseError(e)),
    }
}

impl ResourceInfo {
    /// Information about a resource of a router.
    pub(crate) fn new(
        router: Rc<Inner>,
        resource: ResourceId,
        params: Params,
        prefix: u16,
    ) -> (info: Self)
        ensures
            info@ == (InfoView {
                defs: router.defs(),
                named: router.named(),
                resource,
                params: params@,
                prefix,
            }),
    {
        ResourceInfo { router, resource, params, prefix }
    }

    /// The resource that the request was matched with.
    pub fn resource(&self) -> (id: ResourceId)
        ensures
            id == self@.resource,
    {
        self.resource
    }

    /// Name of the resource
    pub fn name(&self) -> (name: &str)
        requires
            self@.wf(),
        ensures
            name@ == (match self@.resource {
                ResourceId::Normal(i) => self@.defs[i as int].name,
                ResourceId::Default => Seq::empty(),
            }),
    {
        if let ResourceId::Normal(idx) = self.resource {
            self.router.patterns[idx as usize].name()
        } else {
            proof {
                reveal_strlit("");
                assert(""@ =~= Seq::<char>::empty());
            }
            ""
        }
    }

    /// This method returns reference to matched `ResourceDef` object.
    pub fn rdef(&self) -> (rdef: Option<&ResourceDef>)
        requires
            self@.wf(),
        ensures
            match self@.resource {
                ResourceId::Normal(i) => rdef matches Some(d) && d@ == self@.defs[i as int],
                ResourceId::Default => rdef is None,
            },
    {
        if let ResourceId::Normal(idx) = self.resource {
            Some(&*self.router.patterns[idx as usize])
        } else {
            None
        }
    }

    /// The offset up to which the path belongs to what the router is mounted
    /// below.
    pub fn prefix(&self) -> (prefix: u16)
        ensures
            prefix == self@.prefix,
    {
        self.prefix
    }

    /// Sets the offset up to which the path belongs to what the router is
    /// mounted below.
    pub fn set_prefix(&mut self, prefix: u16)
        ensures
            final(self)@ == (InfoView { prefix, ..old(self)@ }),
    {
        self.prefix = prefix;
    }

    /// Get a reference to the Params object.
    ///
    /// Params is a container for url parameters.
    /// A variable segment is specified in the form `{identifier}`,
    /// where the identifier can be used later in a request handler to
    /// access the matched value for that segment.
    pub fn match_info(&self) -> (params: &Params)
        ensures
            params@ == self@.params,
    {
        &self.params
    }

    /// Puts the parameters of an outer match before those of this one. The path
    /// is the one of the outer match, and what it consumed becomes the prefix.
    pub fn merge(&mut self, info: &ResourceInfo)
        ensures
            final(self)@ == old(self)@.merged(info@),
    {
        let mut p = info.params.clone();
        p.set_tail(self.params.tail());
        p.append(&self.params);

        self.prefix = info.params.tail();
        self.params = p;
    }

    /// Generate url for named resource
    ///
    /// The prefix must end between two characters of the path of the request.
    pub fn url_for(&self, req: &Request, name: &str, elements: &[&str]) -> (url: Result<
        String,
        UrlGenerationError,
    >)
        requires
            self@.named.contains_key(name@) ==> is_boundary(req@.path, self@.prefix as int),
        ensures
            match self@.generated_url(req@, name@, texts(elements@)) {
                Ok(text) => url matches Ok(u) && u@ == text,
                Err(e) => url == Err::<String, UrlGenerationError>(e),
            },
    {
        match self.router.get(name) {
            Some(pattern) => {
                let prefix = slice_to(req.path(), self.prefix as usize);
                match pattern.resource_path(elements, prefix) {
                    Ok(path) => parsed_url(parse_url(absolute_url(req, path.as_str()).as_str())),
                    Err(e) => Err(e),
                }
            },
            None => Err(UrlGenerationError::ResourceNotFound),
        }
    }

    /// Check if application contains matching route.
    ///
    /// This method does not take `prefix` into account.
    /// For example if prefix is `/test` and router contains route `/name`,
    /// following path would be recognizable `/test/name` but `has_route()` call
    /// would return `false`.
    pub fn has_route(&self, path: &str) -> (found: bool)
        ensures
            found == exists|i: int|
                0 <= i < self@.defs.len() && (#[trigger] self@.defs[i]).matches(nonempty(path@)),
    {
        let shown = or_slash(path);
        let mut i: usize = 0;
        while i < self.router.patterns.len()
            invariant
                i <= self.router.patterns.len(),
                shown@ == nonempty(path@),
                forall|j: int| 0 <= j < i ==> !(#[trigger] self@.defs[j]).matches(shown@),
            decreases self.router.patterns.len() - i,
        {
            proof {
                assert(self@.defs[i as int] == self.router.patterns@[i as int]@);
            }
            if self.router.patterns[i].is_match(shown) {
                return true;
            }
            i += 1;
        }
        false
    }
}

} // verus!
