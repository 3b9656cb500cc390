//! What is registered with a router: resources, scopes and mounted handlers.
//!
//! A router carries handlers, it does not look into them: `H` is whatever the
//! application calls to answer a request.

use std::rc::Rc;

use vstd::prelude::*;

use crate::def::{DefView, ResourceDef};
use crate::params::Request;

verus! {

/// A condition on requests.
pub trait Predicate<S> {
    /// Whether an answer is one that `check` can give. A predicate that goes by
    /// the request and the state alone allows one answer for each; others may
    /// allow both.
    open spec fn may_answer(&self, req: &Request, state: &S, answer: bool) -> bool {
        true
    }

    /// Check if the request is acceptable.
    fn check(&self, req: &Request, state: &S) -> (answer: bool)
        ensures
            self.may_answer(req, state, answer),
    ;
}

/// A handler for the requests with a method.
pub struct Route<H> {
    pub method: http::Method,
    pub handler: H,
}

/// A resource: a definition and the routes that answer its requests.
pub struct Resource<H> {
    rdef: ResourceDef,
    routes: Vec<Route<H>>,
}

impl<H> Resource<H> {
    /// The definition of the resource.
    pub closed spec fn def(self) -> DefView {
        self.rdef@
    }

    /// The routes of the resource in order.
    pub closed spec fn routes(self) -> Seq<Route<H>> {
        self.routes@
    }

    /// A resource without routes.
    pub fn new(rdef: ResourceDef) -> (resource: Self)
        ensures
            resource.def() == rdef@,
            resource.routes() == Seq::<Route<H>>::empty(),
    {
        Resource { rdef, routes: Vec::new() }
    }

    /// Sets the name of the resource.
    pub fn name(&mut self, name: &str)
        ensures
            final(self).def() == (DefView { name: name@, ..old(self).def() }),
            final(self).routes() == old(self).routes(),
    {
        self.rdef.set_name(name);
    }

    /// The name of the resource.
    pub fn get_name(&self) -> (name: &str)
        ensures
            name@ == self.def().name,
    {
        self.rdef.name()
    }

    /// The definition of the resource.
    pub fn rdef(&self) -> (rdef: &ResourceDef)
        ensures
            rdef@ == self.def(),
    {
        &self.rdef
    }

    /// Adds a route for a method.
    pub fn route(&mut self, method: http::Method, handler: H)
        ensures
            final(self).def() == old(self).def(),
            final(self).routes() == old(self).routes().push(Route { method, handler }),
    {
        self.routes.push(Route { method, handler });
    }

    /// The routes of the resource in order.
    pub fn get_routes(&self) -> (routes: &Vec<Route<H>>)
        ensures
            routes@ == self.routes(),
    {
        &self.routes
    }

    /// Takes the resource apart.
    pub fn into_parts(self) -> (parts: (ResourceDef, Vec<Route<H>>))
        ensures
            parts.0@ == self.def(),
            parts.1@ == self.routes(),
    {
        (self.rdef, self.routes)
    }
}

/// Something mounted below a prefix that answers requests by itself, and falls
/// back on a default resource.
pub struct Mount<H> {
    pub handler: H,
    /// The resource that answers where the handler has no answer.
    pub default: Option<Rc<Resource<H>>>,
    /// Whether registration was completed.
    pub finished: bool,
}

impl<H> Mount<H> {
    /// A handler without a default resource.
    pub fn new(handler: H) -> (mount: Self)
        ensures
            mount == (Mount { handler, default: None, finished: false }),
    {
        Mount { handler, default: None, finished: false }
    }

    /// Whether there is a default resource.
    pub fn has_default_resource(&self) -> (has: bool)
        ensures
            has == self.default is Some,
    {
        self.default.is_some()
    }

    /// Sets the default resource.
    pub fn default_resource(&mut self, default: Rc<Resource<H>>)
        ensures
            *final(self) == (Mount { default: Some(default), ..*old(self) }),
    {
        self.default = Some(default);
    }

    /// Completes registration.
    pub fn finish(&mut self)
        ensures
            *final(self) == (Mount { finished: true, ..*old(self) }),
    {
        self.finished = true;
    }
}

/// A scope: a prefix, the conditions under which it is entered, and what
/// answers below it.
#[verifier::reject_recursive_types(S)]
pub struct Scope<S, H> {
    rdef: ResourceDef,
    filters: Vec<Box<dyn Predicate<S>>>,
    mount: Mount<H>,
}

impl<S, H> Scope<S, H> {
    /// The definition of the scope.
    pub closed spec fn def(self) -> DefView {
        self.rdef@
    }

    /// The conditions under which the scope is entered.
    pub closed spec fn filters(self) -> Seq<Box<dyn Predicate<S>>> {
        self.filters@
    }

    /// What answers below the scope.
    pub closed spec fn mount(self) -> Mount<H> {
        self.mount
    }

    /// A scope.
    pub fn new(
        rdef: ResourceDef,
        filters: Vec<Box<dyn Predicate<S>>>,
        mount: Mount<H>,
    ) -> (scope: Self)
        ensures
            scope.def() == rdef@,
            scope.filters() == filters@,
            scope.mount() == mount,
    {
        Scope { rdef, filters, mount }
    }

    /// Takes the scope apart.
    pub fn into_parts(self) -> (parts: (ResourceDef, Vec<Box<dyn Predicate<S>>>, Mount<H>))
        ensures
            parts.0@ == self.def(),
            parts.1@ == self.filters(),
            parts.2 == self.mount(),
    {
        (self.rdef, self.filters, self.mount)
    }
}

} // verus!
