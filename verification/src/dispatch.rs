//! The steps by which a request is answered.
//!
//! Whether a route takes a request is for the application to find out, and so is
//! the answer that a handler gives. The router says what is to be done next,
//! and is told what came of it.

use vstd::prelude::*;

use crate::resource::{Mount, Route};

verus! {

/// What is known so far of the routes for a request.
#[derive(Clone, Copy, Debug, PartialEq, Eq, Structural)]
pub enum Known {
    /// Nothing yet.
    Nothing,
    /// Which route of the matched resource takes the request, if one does.
    Resource(Option<usize>),
    /// Which route of the default resource takes the request, if one does. Where
    /// a resource was matched, none of its routes did.
    Default(Option<usize>),
}

/// What is to be done next with a request.
pub enum Action<'a, H> {
    /// Find the first route of the matched resource that takes the request.
    AskResource(&'a Vec<Route<H>>),
    /// Find the first route of the default resource that takes the request.
    AskDefault(&'a Vec<Route<H>>),
    /// Let a route answer.
    RunRoute(&'a Route<H>),
    /// Let a mounted handler answer.
    RunHandler(&'a Mount<H>),
    /// Let a scope answer.
    RunScope(&'a Mount<H>),
    /// Answer that nothing was found.
    NotFound,
}

/// What is to be done next, as a value of the specification.
pub enum Step<H> {
    AskResource(Seq<Route<H>>),
    AskDefault(Seq<Route<H>>),
    RunRoute(Route<H>),
    RunHandler(Mount<H>),
    RunScope(Mount<H>),
    NotFound,
}

impl<H> View for Action<'_, H> {
    type V = Step<H>;

    open spec fn view(&self) -> Step<H> {
        match self {
            Action::AskResource(routes) => Step::AskResource(routes@),
            Action::AskDefault(routes) => Step::AskDefault(routes@),
            Action::RunRoute(route) => Step::RunRoute(**route),
            Action::RunHandler(mount) => Step::RunHandler(**mount),
            Action::RunScope(mount) => Step::RunScope(**mount),
            Action::NotFound => Step::NotFound,
        }
    }
}

} // verus!
