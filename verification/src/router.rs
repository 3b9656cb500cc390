//! The router: it finds the resource that a request is for.

use std::rc::Rc;

use vstd::prelude::*;

use crate::def::{is_reason, nonempty, pattern_compiles, pattern_def, DefView, ResourceDef};
use crate::dispatch::{Action, Known, Step};
use crate::error::PatternError;
use crate::info::{Inner, InfoView, ResourceId, ResourceInfo};
use crate::params::{Params, ParamsView, Request};
use crate::pattern::compiled_text;
use crate::resource::{Mount, Predicate, Resource, Route, Scope};
use crate::text::{
    byte_len, byte_length, is_boundary, low16, same_text, text_from, wrap16,
};

verus! {

/// How a registered definition is matched.
#[verifier::reject_recursive_types(S)]
enum ResourcePattern<S> {
    Resource(Rc<ResourceDef>),
    Handler(Rc<ResourceDef>, Option<Vec<Box<dyn Predicate<S>>>>),
    Scope(Rc<ResourceDef>, Vec<Box<dyn Predicate<S>>>),
}

/// What answers the requests for a registered definition.
enum ResourceItem<H> {
    Resource(Rc<ResourceDef>, Vec<Route<H>>),
    Handler(Mount<H>),
    Scope(Mount<H>),
}

/// Interface for application router.
#[verifier::reject_recursive_types(S)]
pub struct Router<S, H> {
    defs: Rc<Inner>,
    patterns: Vec<ResourcePattern<S>>,
    resources: Vec<ResourceItem<H>>,
    default: Option<Rc<Resource<H>>>,
}

/// The kinds of what can be registered.
#[derive(Debug, Copy, Clone, PartialEq, Eq, Structural)]
pub enum EntryKind {
    /// A resource, which takes whole paths.
    Resource,
    /// A handler, which takes all paths below a prefix.
    Handler,
    /// A scope, which takes all paths below a prefix.
    Scope,
}

/// How a registered definition is matched, as a value of the specification.
#[verifier::reject_recursive_types(S)]
pub struct Entry<S> {
    pub kind: EntryKind,
    pub def: DefView,
    pub filters: Seq<Box<dyn Predicate<S>>>,
}

/// What answers the requests for a registered definition, as a value of the
/// specification.
pub enum Item<H> {
    Resource(DefView, Seq<Route<H>>),
    Handler(Mount<H>),
    Scope(Mount<H>),
}

impl<S> ResourcePattern<S> {
    spec fn entry(self) -> Entry<S> {
        match self {
            ResourcePattern::Resource(def) => Entry {
                kind: EntryKind::Resource,
                def: def@,
                filters: Seq::empty(),
            },
            ResourcePattern::Handler(def, None) => Entry {
                kind: EntryKind::Handler,
                def: def@,
                filters: Seq::empty(),
            },
            ResourcePattern::Handler(def, Some(filters)) => Entry {
                kind: EntryKind::Handler,
                def: def@,
                filters: filters@,
            },
            ResourcePattern::Scope(def, filters) => Entry {
                kind: EntryKind::Scope,
                def: def@,
                filters: filters@,
            },
        }
    }
}

impl<H> ResourceItem<H> {
    spec fn item(self) -> Item<H> {
        match self {
            ResourceItem::Resource(def, routes) => Item::Resource(def@, routes@),
            ResourceItem::Handler(mount) => Item::Handler(mount),
            ResourceItem::Scope(mount) => Item::Scope(mount),
        }
    }
}

impl<H> Item<H> {
    /// What kind of thing answers.
    pub open spec fn kind(self) -> EntryKind {
        match self {
            Item::Resource(_, _) => EntryKind::Resource,
            Item::Handler(_) => EntryKind::Handler,
            Item::Scope(_) => EntryKind::Scope,
        }
    }

    /// Whether it is a resource with a pattern.
    pub open spec fn has_pattern(self, pattern: Seq<char>) -> bool {
        self matches Item::Resource(def, _) && def.pattern == pattern
    }

    /// A resource with one more route.
    pub open spec fn with_route(self, route: Route<H>) -> Item<H> {
        match self {
            Item::Resource(def, routes) => Item::Resource(def, routes.push(route)),
            other => other,
        }
    }

    /// With a default resource to fall back on, and completed. A default
    /// resource that is there stays.
    pub open spec fn finished(self, default: Rc<Resource<H>>) -> Item<H> {
        match self {
            Item::Resource(_, _) => self,
            Item::Handler(mount) => Item::Handler(finished_mount(mount, default)),
            Item::Scope(mount) => Item::Scope(finished_mount(mount, default)),
        }
    }
}

/// A mount with a default resource to fall back on, and completed.
pub open spec fn finished_mount<H>(mount: Mount<H>, default: Rc<Resource<H>>) -> Mount<H> {
    Mount {
        handler: mount.handler,
        default: if mount.default is Some {
            mount.default
        } else {
            Some(default)
        },
        finished: true,
    }
}

/// All filters can let a request pass.
pub open spec fn filters_accept<S>(
    filters: Seq<Box<dyn Predicate<S>>>,
    req: &Request,
    state: &S,
) -> bool {
    forall|j: int| 0 <= j < filters.len() ==> (#[trigger] filters[j]).may_answer(req, state, true)
}

/// One of the filters can stop a request that those before it let pass.
pub open spec fn filters_reject<S>(
    filters: Seq<Box<dyn Predicate<S>>>,
    req: &Request,
    state: &S,
) -> bool {
    exists|j: int|
        0 <= j < filters.len() && (#[trigger] filters[j]).may_answer(req, state, false)
            && filters_accept(filters.take(j), req, state)
}

impl<S> Entry<S> {
    /// What matching a path from an offset on gives.
    pub open spec fn match_at(self, path: Seq<char>, tail: int) -> Option<ParamsView> {
        match self.kind {
            EntryKind::Resource => self.def.match_from(path, tail),
            _ => self.def.match_prefix_from(path, tail),
        }
    }

    /// Whether the parameters of a match stand for what was matched. They do where
    /// the offsets into the path fit in 16 bits; a prefix that matched the empty
    /// rest of a path has nothing there to stand for.
    pub open spec fn values_kept(self, path: Seq<char>, tail: int, params: ParamsView) -> bool {
        byte_len(path) <= 0xffff && (self.kind == EntryKind::Resource || tail < byte_len(path))
            ==> params.has_values(self.def.values(text_from(path, tail)))
    }

    /// What is found of a plain pattern is a reading of the path, or of a beginning
    /// of it.
    pub open spec fn reads(self, path: Seq<char>, tail: int) -> bool {
        match self.kind {
            EntryKind::Resource => self.def.reads(text_from(path, tail)),
            _ => self.def.reads(nonempty(text_from(path, tail))),
        }
    }

    /// The entry does not take the request: it does not match, or a filter
    /// stops the request.
    pub open spec fn passes_over(self, req: &Request, state: &S, tail: int) -> bool {
        self.match_at(req@.path, tail) is None || filters_reject(self.filters, req, state)
    }

    /// The entry takes the request.
    pub open spec fn takes(self, req: &Request, state: &S, tail: int) -> bool {
        self.match_at(req@.path, tail) is Some && filters_accept(self.filters, req, state)
    }
}

impl<S> Entry<S> {
    /// Whether this is a resource with a name.
    pub open spec fn is_named(self) -> bool {
        self.kind == EntryKind::Resource && self.def.name.len() > 0
    }
}

/// Resources are found by their names, and no two have the same.
pub open spec fn names_unique<S>(entries: Seq<Entry<S>>, named: Map<Seq<char>, DefView>) -> bool {
    &&& forall|i: int|
        0 <= i < entries.len() && (#[trigger] entries[i]).is_named() ==> named.contains_key(
            entries[i].def.name,
        ) && named[entries[i].def.name] == entries[i].def
    &&& forall|i: int, j: int|
        0 <= i < j < entries.len() && (#[trigger] entries[i]).is_named() && (
        #[trigger] entries[j]).is_named() ==> entries[i].def.name != entries[j].def.name
}

impl<S, H> Router<S, H> {
    /// What is registered, in the order of registration, as it is matched.
    pub closed spec fn entries(self) -> Seq<Entry<S>> {
        self.patterns@.map_values(|p: ResourcePattern<S>| p.entry())
    }

    /// What is registered, in the order of registration, as it answers.
    pub closed spec fn items(self) -> Seq<Item<H>> {
        self.resources@.map_values(|r: ResourceItem<H>| r.item())
    }

    /// The definitions are in order.
    pub closed spec fn defs_wf(self) -> bool {
        self.defs.wf()
    }

    /// The definitions in the order of registration.
    pub closed spec fn defs(self) -> Seq<DefView> {
        self.defs.defs()
    }

    /// The definitions that can be found by name.
    pub closed spec fn named(self) -> Map<Seq<char>, DefView> {
        self.defs.named()
    }

    /// The resource that answers where no other does.
    pub closed spec fn default_resource(self) -> Option<Rc<Resource<H>>> {
        self.default
    }

    /// The three lists run in step, and resources have no filters.
    pub open spec fn in_step(self) -> bool {
        &&& self.defs_wf()
        &&& self.entries().len() == self.items().len()
        &&& self.entries().len() == self.defs().len()
        &&& forall|i: int|
            #![trigger self.entries()[i]]
            #![trigger self.items()[i]]
            #![trigger self.defs()[i]]
            0 <= i < self.entries().len() ==> {
                &&& self.entries()[i].def == self.defs()[i]
                &&& self.entries()[i].kind == self.items()[i].kind()
                &&& self.items()[i] matches Item::Resource(def, _) ==> def == self.defs()[i]
                &&& self.entries()[i].kind == EntryKind::Resource
                    ==> self.entries()[i].filters.len() == 0
            }
    }

    /// The lists of the router belong together, and so do the names.
    pub open spec fn wf(self) -> bool {
        self.in_step() && names_unique(self.entries(), self.named())
    }

    /// Whether a position is that of the first resource with a pattern.
    pub open spec fn resource_at(self, pattern: Seq<char>, i: int) -> bool {
        &&& 0 <= i < self.items().len()
        &&& self.items()[i].has_pattern(pattern)
        &&& forall|j: int| 0 <= j < i ==> !(#[trigger] self.items()[j]).has_pattern(pattern)
    }

    /// Whether there is a resource with a pattern.
    pub open spec fn has_resource(self, pattern: Seq<char>) -> bool {
        exists|i: int|
            0 <= i < self.items().len() && (#[trigger] self.items()[i]).has_pattern(pattern)
    }

    /// The entries before a position do not take the request.
    pub open spec fn passed_over(self, req: &Request, state: &S, tail: int, n: int) -> bool {
        forall|i: int|
            0 <= i < n ==> (#[trigger] self.entries()[i]).passes_over(req, state, tail)
    }

    /// With an entry and what answers for it at the end, and nothing else
    /// changed but the names.
    pub open spec fn registered(
        self,
        before: Self,
        entry: Entry<S>,
        item: Item<H>,
    ) -> bool {
        &&& self.entries() == before.entries().push(entry)
        &&& self.items() == before.items().push(item)
        &&& self.defs() == before.defs().push(entry.def)
        &&& self.default_resource() == before.default_resource()
    }
}

/// Asks the filters in order whether a request passes, up to the first that
/// stops it.
fn check_filters<S>(filters: &Vec<Box<dyn Predicate<S>>>, req: &Request, state: &S) -> (pass: bool)
    ensures
        pass ==> filters_accept(filters@, req, state),
        !pass ==> filters_reject(filters@, req, state),
{
    let mut i: usize = 0;
    while i < filters.len()
        invariant
            i <= filters.len(),
            filters_accept(filters@.take(i as int), req, state),
        decreases filters.len() - i,
    {
        if !filters[i].check(req, state) {
            proof {
                assert(filters@[i as int].may_answer(req, state, false));
            }
            return false;
        }
        proof {
            assert forall|j: int| 0 <= j < i + 1 implies (#[trigger] filters@.take(
                i + 1,
            )[j]).may_answer(req, state, true) by {
                if j < i {
                    assert(filters@.take(i as int)[j] == filters@.take(i + 1)[j]);
                }
            }
        }
        i += 1;
    }
    proof {
        assert(filters@.take(i as int) =~= filters@);
    }
    true
}

impl<S, H> Default for Router<S, H> {
    fn default() -> (router: Self)
        ensures
            router.wf(),
            router.entries() == Seq::<Entry<S>>::empty(),
            router.items() == Seq::<Item<H>>::empty(),
            router.defs() == Seq::<DefView>::empty(),
            router.named() == Map::<Seq<char>, DefView>::empty(),
            router.default_resource() is None,
    {
        Router::new()
    }
}

impl<S, H> Router<S, H> {
    /// A router that knows no resources.
    pub fn new() -> (router: Self)
        ensures
            router.wf(),
            router.entries() == Seq::<Entry<S>>::empty(),
            router.items() == Seq::<Item<H>>::empty(),
            router.defs() == Seq::<DefView>::empty(),
            router.named() == Map::<Seq<char>, DefView>::empty(),
            router.default_resource() is None,
    {
        let router = Router {
            defs: Rc::new(Inner::new()),
            patterns: Vec::new(),
            resources: Vec::new(),
            default: None,
        };
        proof {
            assert(router.entries() =~= Seq::<Entry<S>>::empty());
            assert(router.items() =~= Seq::<Item<H>>::empty());
        }
        router
    }

    /// Information about a registered resource.
    pub fn route_info_params(&self, idx: u16, params: Params) -> (info: ResourceInfo)
        ensures
            info@ == (InfoView {
                defs: self.defs(),
                named: self.named(),
                resource: ResourceId::Normal(idx),
                params: params@,
                prefix: 0,
            }),
    {
        ResourceInfo::new(self.defs.clone(), ResourceId::Normal(idx), params, 0)
    }

    /// Information about a request that was not matched, with a part of its
    /// path consumed.
    pub fn route_info(&self, req: &Request, prefix: u16) -> (info: ResourceInfo)
        ensures
            info@ == (InfoView {
                defs: self.defs(),
                named: self.named(),
                resource: ResourceId::Default,
                params: ParamsView { tail: prefix, ..ParamsView::of_path(req@.path) },
                prefix: 0,
            }),
    {
        let mut params = Params::with_url(req);
        params.set_tail(prefix);
        ResourceInfo::new(self.defs.clone(), ResourceId::Default, params, 0)
    }

    /// Information about no request at all.
    pub fn default_route_info(&self) -> (info: ResourceInfo)
        ensures
            info@ == (InfoView {
                defs: self.defs(),
                named: self.named(),
                resource: ResourceId::Default,
                params: ParamsView::of_path(Seq::empty()),
                prefix: 0,
            }),
    {
        ResourceInfo::new(self.defs.clone(), ResourceId::Default, Params::new(), 0)
    }

    /// Whether a name is taken.
    pub fn is_registered(&self, name: &str) -> (taken: bool)
        ensures
            taken == self.named().contains_key(name@),
    {
        self.defs.contains(name)
    }

    /// Takes the definitions out, in order to change them. Where information that
    /// was handed out shares them, it keeps them as they are.
    fn take_defs(&mut self) -> (defs: Inner)
        requires
            old(self).defs_wf(),
        ensures
            defs.wf(),
            defs.defs() == old(self).defs(),
            defs.named() == old(self).named(),
            final(self).patterns == old(self).patterns,
            final(self).resources == old(self).resources,
            final(self).default == old(self).default,
    {
        let mut shared = Rc::new(Inner::new());
        std::mem::swap(&mut shared, &mut self.defs);
        match Rc::try_unwrap(shared) {
            Ok(defs) => defs,
            Err(shared) => shared.copy(),
        }
    }

    /// Appends an entry and what answers for it.
    fn append(
        &mut self,
        pattern: ResourcePattern<S>,
        resource: ResourceItem<H>,
        def: Rc<ResourceDef>,
    )
        requires
            old(self).in_step(),
            pattern.entry().def == def@,
            pattern.entry().kind == resource.item().kind(),
            resource.item() matches Item::Resource(d, _) ==> d == def@,
        ensures
            final(self).in_step(),
            final(self).registered(*old(self), pattern.entry(), resource.item()),
            final(self).named() == old(self).named(),
    {
        let mut defs = self.take_defs();
        defs.push(def);
        self.defs = Rc::new(defs);
        self.patterns.push(pattern);
        self.resources.push(resource);
        proof {
            assert(self.entries() =~= old(self).entries().push(pattern.entry()));
            assert(self.items() =~= old(self).items().push(resource.item()));
            assert forall|i: int|
                #![trigger self.entries()[i]]
                #![trigger self.items()[i]]
                #![trigger self.defs()[i]]
                0 <= i < self.entries().len() implies {
                &&& self.entries()[i].def == self.defs()[i]
                &&& self.entries()[i].kind == self.items()[i].kind()
                &&& self.items()[i] matches Item::Resource(def, _) ==> def == self.defs()[i]
                &&& self.entries()[i].kind == EntryKind::Resource
                    ==> self.entries()[i].filters.len() == 0
            } by {
                if i < old(self).entries().len() {
                    assert(self.entries()[i] == old(self).entries()[i]);
                    assert(self.items()[i] == old(self).items()[i]);
                    assert(self.defs()[i] == old(self).defs()[i]);
                }
            }
        }
    }

    /// Registers a resource. If it has a name, the name must be free.
    pub fn register_resource(&mut self, resource: Resource<H>)
        requires
            old(self).wf(),
            resource.def().name.len() > 0 ==> !old(self).named().contains_key(resource.def().name),
        ensures
            final(self).wf(),
            final(self).registered(
                *old(self),
                (Entry {
                    kind: EntryKind::Resource,
                    def: resource.def(),
                    filters: Seq::empty(),
                }),
                Item::Resource(resource.def(), resource.routes()),
            ),
            final(self).named() == (if resource.def().name.len() > 0 {
                old(self).named().insert(resource.def().name, resource.def())
            } else {
                old(self).named()
            }),
    {
        let (rdef, routes) = resource.into_parts();
        let rdef = Rc::new(rdef);
        let name = rdef.name();
        if !name.is_empty() {
            let mut defs = self.take_defs();
            defs.insert(name, rdef.clone());
            self.defs = Rc::new(defs);
        }
        self.append(
            ResourcePattern::Resource(rdef.clone()),
            ResourceItem::Resource(rdef.clone(), routes),
            rdef.clone(),
        );
    }

    /// Registers a scope.
    pub fn register_scope(&mut self, scope: Scope<S, H>)
        requires
            old(self).wf(),
        ensures
            final(self).wf(),
            final(self).registered(
                *old(self),
                (Entry { kind: EntryKind::Scope, def: scope.def(), filters: scope.filters() }),
                Item::Scope(scope.mount()),
            ),
            final(self).named() == old(self).named(),
    {
        let (rdef, filters, mount) = scope.into_parts();
        let rdef = Rc::new(rdef);
        self.append(
            ResourcePattern::Scope(rdef.clone(), filters),
            ResourceItem::Scope(mount),
            rdef.clone(),
        );
    }

    /// Registers a handler for all paths below a prefix. The prefix must
    /// compile; see [`Router::try_register_handler`].
    pub fn register_handler(
        &mut self,
        path: &str,
        hnd: Mount<H>,
        filters: Option<Vec<Box<dyn Predicate<S>>>>,
    )
        requires
            old(self).wf(),
            pattern_compiles(path@, seq!['/'], true),
        ensures
            final(self).wf(),
            final(self).registered(
                *old(self),
                (Entry {
                    kind: EntryKind::Handler,
                    def: pattern_def(path@, seq!['/'], true),
                    filters: match filters {
                        Some(filters) => filters@,
                        None => Seq::empty(),
                    },
                }),
                Item::Handler(hnd),
            ),
            final(self).named() == old(self).named(),
    {
        let rdef = Rc::new(ResourceDef::prefix(path));
        self.append(
            ResourcePattern::Handler(rdef.clone(), filters),
            ResourceItem::Handler(hnd),
            rdef.clone(),
        );
    }

    /// Registers a handler for all paths below a prefix, if the prefix compiles.
    pub fn try_register_handler(
        &mut self,
        path: &str,
        hnd: Mount<H>,
        filters: Option<Vec<Box<dyn Predicate<S>>>>,
    ) -> (done: Result<(), PatternError>)
        requires
            old(self).wf(),
        ensures
            final(self).wf(),
            done is Ok <==> pattern_compiles(path@, seq!['/'], true),
            done matches Err(e) ==> is_reason(compiled_text(path@, seq!['/'], true), e.error),
            done is Err ==> *final(self) == *old(self),
            done is Ok ==> final(self).registered(
                *old(self),
                (Entry {
                    kind: EntryKind::Handler,
                    def: pattern_def(path@, seq!['/'], true),
                    filters: match filters {
                        Some(filters) => filters@,
                        None => Seq::empty(),
                    },
                }),
                Item::Handler(hnd),
            ) && final(self).named() == old(self).named(),
    {
        match ResourceDef::try_prefix(path) {
            Ok(_) => {
                self.register_handler(path, hnd, filters);
                Ok(())
            },
            Err(e) => Err(e),
        }
    }

    /// Whether there is a default resource.
    pub fn has_default_resource(&self) -> (has: bool)
        ensures
            has == (self.default_resource() is Some),
    {
        self.default.is_some()
    }

    /// Sets the default resource.
    pub fn register_default_resource(&mut self, resource: Rc<Resource<H>>)
        ensures
            old(self).wf() ==> final(self).wf(),
            final(self).default_resource() == Some(resource),
            final(self).entries() == old(self).entries(),
            final(self).items() == old(self).items(),
            final(self).defs() == old(self).defs(),
            final(self).named() == old(self).named(),
    {
        self.default = Some(resource);
    }

    /// Gives a definition a name, without routing to it. The name must be free.
    pub fn register_external(&mut self, name: &str, rdef: ResourceDef)
        requires
            old(self).wf(),
            !old(self).named().contains_key(name@),
        ensures
            final(self).wf(),
            final(self).named() == old(self).named().insert(name@, rdef@),
            final(self).entries() == old(self).entries(),
            final(self).items() == old(self).items(),
            final(self).defs() == old(self).defs(),
            final(self).default_resource() == old(self).default_resource(),
    {
        let mut defs = self.take_defs();
        defs.insert(name, Rc::new(rdef));
        self.defs = Rc::new(defs);
    }
}

impl<S> ResourcePattern<S> {
    /// What matching the path of a request from an offset on gives.
    fn match_at(&self, req: &Request, tail: usize) -> (params: Option<Params>)
        requires
            is_boundary(req@.path, tail as int),
        ensures
            match params {
                Some(p) => {
                    &&& self.entry().match_at(req@.path, tail as int) == Some(p@)
                    &&& self.entry().values_kept(req@.path, tail as int, p@)
                },
                None => self.entry().match_at(req@.path, tail as int) is None,
            },
            self.entry().reads(req@.path, tail as int),
    {
        match self {
            ResourcePattern::Resource(rdef) => rdef.match_with_params(req, tail),
            ResourcePattern::Handler(rdef, _) => rdef.match_prefix_with_params(req, tail),
            ResourcePattern::Scope(rdef, _) => rdef.match_prefix_with_params(req, tail),
        }
    }

    /// Whether the filters let a request pass.
    fn check(&self, req: &Request, state: &S) -> (pass: bool)
        ensures
            pass ==> filters_accept(self.entry().filters, req, state),
            !pass ==> filters_reject(self.entry().filters, req, state),
    {
        match self {
            ResourcePattern::Resource(_) => true,
            ResourcePattern::Handler(_, None) => true,
            ResourcePattern::Handler(_, Some(filters)) => check_filters(filters, req, state),
            ResourcePattern::Scope(_, filters) => check_filters(filters, req, state),
        }
    }

}

impl<S, H> Router<S, H> {
    /// None of the entries from one position up to another matches the path.
    pub open spec fn unmatched(self, path: Seq<char>, tail: int, from: int, to: int) -> bool {
        forall|i: int|
            from <= i < to ==> (#[trigger] self.entries()[i]).match_at(path, tail) is None
    }

    /// What is found of the entries from one position up to another is a reading
    /// of the path or of a beginning of it, where their patterns are plain.
    pub open spec fn are_read(self, path: Seq<char>, tail: int, from: int, to: int) -> bool {
        forall|i: int| from <= i < to ==> (#[trigger] self.entries()[i]).reads(path, tail)
    }

    /// The first entry, from a position on, whose pattern matches the path of
    /// a request, and the parameters of the match. Filters are not asked.
    pub fn next_match(&self, req: &Request, tail: usize, from: usize) -> (found: Option<
        (usize, Params),
    >)
        requires
            from < self.entries().len() ==> is_boundary(req@.path, tail as int),
        ensures
            match found {
                Some((k, params)) => {
                    &&& from <= k < self.entries().len()
                    &&& self.unmatched(req@.path, tail as int, from as int, k as int)
                    &&& self.are_read(req@.path, tail as int, from as int, k + 1)
                    &&& self.entries()[k as int].match_at(req@.path, tail as int) == Some(params@)
                    &&& self.entries()[k as int].values_kept(req@.path, tail as int, params@)
                },
                None => {
                    let end = self.entries().len() as int;
                    &&& self.unmatched(req@.path, tail as int, from as int, end)
                    &&& self.are_read(req@.path, tail as int, from as int, end)
                },
            },
    {
        let mut k = from;
        while k < self.patterns.len()
            invariant
                from <= k,
                from < self.entries().len() ==> is_boundary(req@.path, tail as int),
                self.entries().len() == self.patterns.len(),
                self.unmatched(req@.path, tail as int, from as int, k as int),
                self.are_read(req@.path, tail as int, from as int, k as int),
            decreases self.patterns.len() - k,
        {
            proof {
                assert(self.entries()[k as int] == self.patterns@[k as int].entry());
            }
            if let Some(params) = self.patterns[k].match_at(req, tail) {
                return Some((k, params));
            }
            k += 1;
        }
        None
    }

    /// What is known of a request after recognition: the first entry that
    /// takes it, or that none does.
    pub open spec fn recognized(self, req: &Request, state: &S, tail: int, info: InfoView) -> bool {
        &&& info.defs == self.defs()
        &&& info.named == self.named()
        &&& match info.resource {
            ResourceId::Normal(n) => {
                &&& tail <= byte_len(req@.path)
                &&& info.prefix == 0
                &&& exists|k: int|
                    {
                        &&& 0 <= k < self.entries().len()
                        &&& n == wrap16(k)
                        &&& self.passed_over(req, state, tail, k)
                        &&& self.are_read(req@.path, tail, 0, k + 1)
                        &&& (#[trigger] self.entries()[k]).takes(req, state, tail)
                        &&& self.entries()[k].match_at(req@.path, tail) == Some(info.params)
                        &&& self.entries()[k].values_kept(req@.path, tail, info.params)
                    }
            },
            ResourceId::Default => {
                &&& tail <= byte_len(req@.path) ==> {
                    let end = self.entries().len() as int;
                    &&& self.passed_over(req, state, tail, end)
                    &&& self.are_read(req@.path, tail, 0, end)
                }
                &&& info.params == ParamsView::of_path(Seq::empty())
                &&& info.prefix == wrap16(tail)
            },
        }
    }

    /// Query for matched resource
    ///
    /// The path is looked at from the offset `tail` on, which must be between
    /// two of its characters.
    pub fn recognize(&self, req: &Request, state: &S, tail: usize) -> (info: ResourceInfo)
        requires
            self.wf(),
            self.entries().len() > 0 && tail <= byte_len(req@.path) ==> is_boundary(
                req@.path,
                tail as int,
            ),
        ensures
            info@.wf(),
            self.recognized(req, state, tail as int, info@),
    {
        if tail <= byte_length(req.path()) {
            let mut from: usize = 0;
            let mut next = self.next_match(req, tail, from);
            while next.is_some()
                invariant
                    self.wf(),
                    tail <= byte_len(req@.path),
                    self.entries().len() > 0 ==> is_boundary(req@.path, tail as int),
                    from <= self.entries().len(),
                    self.entries().len() == self.patterns.len(),
                    self.passed_over(req, state, tail as int, from as int),
                    self.are_read(req@.path, tail as int, 0, from as int),
                    match next {
                        Some((k, params)) => {
                            &&& from <= k < self.entries().len()
                            &&& self.unmatched(req@.path, tail as int, from as int, k as int)
                            &&& self.are_read(req@.path, tail as int, from as int, k + 1)
                            &&& self.entries()[k as int].match_at(req@.path, tail as int) == Some(
                                params@,
                            )
                            &&& self.entries()[k as int].values_kept(
                                req@.path,
                                tail as int,
                                params@,
                            )
                        },
                        None => {
                            let end = self.entries().len() as int;
                            &&& self.unmatched(req@.path, tail as int, from as int, end)
                            &&& self.are_read(req@.path, tail as int, from as int, end)
                        },
                    },
                decreases self.entries().len() - from,
            {
                let (k, params) = next.unwrap();
                proof {
                    assert(self.entries()[k as int] == self.patterns@[k as int].entry());
                    assert(self.passed_over(req, state, tail as int, k as int));
                    assert(self.are_read(req@.path, tail as int, 0, k + 1));
                }
                if self.patterns[k].check(req, state) {
                    return self.route_info_params(low16(k), params);
                }
                from = k + 1;
                next = self.next_match(req, tail, from);
            }
        }
        ResourceInfo::new(self.defs.clone(), ResourceId::Default, Params::new(), low16(tail))
    }

}

impl<S, H> Router<S, H> {
    /// Gives every mounted handler and scope that has no default resource the one
    /// of this router, and completes them. Without a default resource nothing
    /// is done.
    pub fn finish(&mut self)
        requires
            old(self).wf(),
        ensures
            final(self).wf(),
            final(self).entries() == old(self).entries(),
            final(self).defs() == old(self).defs(),
            final(self).named() == old(self).named(),
            final(self).default_resource() == old(self).default_resource(),
            final(self).items() == (match old(self).default_resource() {
                Some(default) => old(self).items().map_values(
                    |item: Item<H>| item.finished(default),
                ),
                None => old(self).items(),
            }),
    {
        if let Some(default) = &self.default {
            let default = default.clone();
            let ghost before = self.items();
            let mut i: usize = 0;
            while i < self.resources.len()
                invariant
                    i <= self.resources.len(),
                    before == old(self).items(),
                    before.len() == self.resources.len(),
                    self.patterns == old(self).patterns,
                    self.defs == old(self).defs,
                    self.default == old(self).default,
                    forall|j: int|
                        0 <= j < i ==> (#[trigger] self.resources@[j]).item()
                            == before[j].finished(default),
                    forall|j: int|
                        i <= j < before.len() ==> (#[trigger] self.resources@[j]).item()
                            == before[j],
                decreases self.resources.len() - i,
            {
                match &mut self.resources[i] {
                    ResourceItem::Resource(_, _) => {},
                    ResourceItem::Scope(scope) => {
                        if !scope.has_default_resource() {
                            scope.default_resource(default.clone());
                        }
                        scope.finish();
                    },
                    ResourceItem::Handler(hnd) => {
                        if !hnd.has_default_resource() {
                            hnd.default_resource(default.clone());
                        }
                        hnd.finish();
                    },
                }
                i += 1;
            }
            proof {
                let after = before.map_values(|item: Item<H>| item.finished(default));
                assert forall|j: int| 0 <= j < after.len() implies self.items()[j]
                    == after[j] by {
                    assert(self.resources@[j].item() == before[j].finished(default));
                }
                assert(self.items() =~= after);
            }
        }
    }

    /// Adds a handler for the requests with a method to the resource with a
    /// pattern. Where there is none, one is registered. Its pattern must
    /// compile; see [`Router::try_register_route`].
    pub fn register_route(&mut self, path: &str, method: http::Method, f: H)
        requires
            old(self).wf(),
            !old(self).has_resource(path@) ==> pattern_compiles(path@, seq!['/'], false),
        ensures
            final(self).wf(),
            final(self).route_registered(*old(self), path@, Route { method, handler: f }),
    {
        match self.find_resource(path) {
            Some(i) => {
                let ghost route = Route { method, handler: f };
                let ghost before = self.items();
                proof {
                    assert(before[i as int] == self.resources@[i as int].item());
                }
                match &mut self.resources[i] {
                    ResourceItem::Resource(_, routes) => {
                        routes.push(Route { method, handler: f });
                    },
                    _ => {},
                }
                proof {
                    let after = before.update(i as int, before[i as int].with_route(route));
                    assert forall|j: int| 0 <= j < after.len() implies self.items()[j]
                        == after[j] by {
                        if j != i {
                            assert(self.resources@[j].item() == before[j]);
                        }
                    }
                    assert(self.items() =~= after);
                    assert(old(self).resource_at(path@, i as int));
                }
            },
            None => {
                let mut resource = Resource::new(ResourceDef::new(path));
                resource.route(method, f);
                proof {
                    assert(resource.routes() =~= seq![Route { method, handler: f }]);
                }
                self.register_resource(resource);
            },
        }
    }

    /// Adds a handler for the requests with a method to the resource with a
    /// pattern. Where there is none, one is registered, if its pattern compiles.
    pub fn try_register_route(&mut self, path: &str, method: http::Method, f: H) -> (done: Result<
        (),
        PatternError,
    >)
        requires
            old(self).wf(),
        ensures
            final(self).wf(),
            done is Ok <==> old(self).has_resource(path@) || pattern_compiles(
                path@,
                seq!['/'],
                false,
            ),
            done is Ok ==> final(self).route_registered(
                *old(self),
                path@,
                Route { method, handler: f },
            ),
            done matches Err(e) ==> is_reason(compiled_text(path@, seq!['/'], false), e.error),
            done is Err ==> *final(self) == *old(self),
    {
        if self.find_resource(path).is_none() {
            if let Err(e) = ResourceDef::try_new(path) {
                return Err(e);
            }
        }
        self.register_route(path, method, f);
        Ok(())
    }

    /// Finds the first resource with a pattern.
    fn find_resource(&self, pattern: &str) -> (found: Option<usize>)
        ensures
            match found {
                Some(i) => self.resource_at(pattern@, i as int) && self.has_resource(pattern@),
                None => !self.has_resource(pattern@),
            },
    {
        let mut i: usize = 0;
        while i < self.resources.len()
            invariant
                i <= self.resources.len(),
                forall|j: int| 0 <= j < i ==> !(#[trigger] self.items()[j]).has_pattern(pattern@),
            decreases self.resources.len() - i,
        {
            proof {
                assert(self.items()[i as int] == self.resources@[i as int].item());
            }
            if let ResourceItem::Resource(rdef, _) = &self.resources[i] {
                if same_text(rdef.pattern(), pattern) {
                    return Some(i);
                }
            }
            i += 1;
        }
        None
    }

    /// With one more route: at the first resource with the pattern, or at a new
    /// one at the end.
    pub open spec fn route_registered(
        self,
        before: Self,
        pattern: Seq<char>,
        route: Route<H>,
    ) -> bool {
        let def = pattern_def(pattern, seq!['/'], false);
        &&& self.named() == before.named()
        &&& if before.has_resource(pattern) {
            &&& self.entries() == before.entries()
            &&& self.defs() == before.defs()
            &&& self.default_resource() == before.default_resource()
            &&& exists|i: int| #[trigger]
                before.resource_at(pattern, i) && self.items() == before.items().update(
                    i,
                    before.items()[i].with_route(route),
                )
        } else {
            self.registered(
                before,
                Entry { kind: EntryKind::Resource, def, filters: Seq::empty() },
                Item::Resource(def, seq![route]),
            )
        }
    }
}

impl<S, H> Router<S, H> {
    /// The routes of the resource at a position.
    pub open spec fn routes_at(self, resource: ResourceId) -> Option<Seq<Route<H>>> {
        match resource {
            ResourceId::Normal(i) => match self.items()[i as int] {
                Item::Resource(_, routes) => Some(routes),
                _ => None,
            },
            ResourceId::Default => None,
        }
    }

    /// The routes of the default resource.
    pub open spec fn default_routes(self) -> Option<Seq<Route<H>>> {
        match self.default_resource() {
            Some(default) => Some((*default).routes()),
            None => None,
        }
    }

    /// Whether what is known can have been learned: it tells of a resource that
    /// is there, and of one of its routes.
    pub open spec fn can_be_known(self, resource: ResourceId, known: Known) -> bool {
        match known {
            Known::Nothing => true,
            Known::Resource(route) => self.routes_at(resource) matches Some(routes) && (
            route matches Some(r) ==> r < routes.len()),
            Known::Default(route) => self.default_routes() matches Some(routes) && (
            route matches Some(r) ==> r < routes.len()),
        }
    }

    /// What is done where no route of a matched resource takes the request.
    pub open spec fn fallback(self) -> Step<H> {
        match self.default_routes() {
            Some(routes) => Step::AskDefault(routes),
            None => Step::NotFound,
        }
    }

    /// What is to be done next with a request for a resource.
    pub open spec fn next_step(self, resource: ResourceId, known: Known) -> Step<H> {
        match known {
            Known::Nothing => match resource {
                ResourceId::Normal(i) => match self.items()[i as int] {
                    Item::Resource(_, routes) => Step::AskResource(routes),
                    Item::Handler(mount) => Step::RunHandler(mount),
                    Item::Scope(mount) => Step::RunScope(mount),
                },
                ResourceId::Default => self.fallback(),
            },
            Known::Resource(Some(r)) => Step::RunRoute(self.routes_at(resource).unwrap()[r as int]),
            Known::Resource(None) => self.fallback(),
            Known::Default(Some(r)) => Step::RunRoute(self.default_routes().unwrap()[r as int]),
            Known::Default(None) => Step::NotFound,
        }
    }

    /// Handle request
    ///
    /// Says what is to be done next with a request for a resource, from what is
    /// known of the routes that take it.
    pub fn handle(&self, resource: ResourceId, known: Known) -> (action: Action<'_, H>)
        requires
            resource matches ResourceId::Normal(i) ==> i < self.items().len(),
            self.can_be_known(resource, known),
        ensures
            action@ == self.next_step(resource, known),
    {
        if let Known::Default(route) = known {
            return match (route, &self.default) {
                (Some(r), Some(default)) => Action::RunRoute(&default.get_routes()[r]),
                _ => Action::NotFound,
            };
        }
        if let ResourceId::Normal(idx) = resource {
            proof {
                assert(self.items()[idx as int] == self.resources@[idx as int].item());
            }
            match &self.resources[idx as usize] {
                ResourceItem::Resource(_, routes) => match known {
                    Known::Resource(Some(r)) => {
                        return Action::RunRoute(&routes[r]);
                    },
                    Known::Nothing => {
                        return Action::AskResource(routes);
                    },
                    _ => {},
                },
                ResourceItem::Handler(hnd) => {
                    return Action::RunHandler(hnd);
                },
                ResourceItem::Scope(hnd) => {
                    return Action::RunScope(hnd);
                },
            }
        }
        match &self.default {
            Some(default) => Action::AskDefault(default.get_routes()),
            None => Action::NotFound,
        }
    }

    /// What becomes of a request for a resource in the end, where a route of the
    /// resource and a route of the default resource are those that take it.
    pub open spec fn answer(
        self,
        resource: ResourceId,
        own: Option<usize>,
        default: Option<usize>,
    ) -> Step<H> {
        match self.next_step(resource, Known::Nothing) {
            Step::AskResource(_) => match self.next_step(resource, Known::Resource(own)) {
                Step::AskDefault(_) => self.next_step(resource, Known::Default(default)),
                step => step,
            },
            Step::AskDefault(_) => self.next_step(resource, Known::Default(default)),
            step => step,
        }
    }
}

} // verus!
