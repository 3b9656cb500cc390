//! What is registered, and who answers.

use std::rc::Rc;

use vstd::prelude::*;

use crate::def::{pattern_def, DefView};
use crate::dispatch::{Action, Known, Step};
use crate::info::{InfoView, ResourceId};
use crate::resource::{Mount, Resource, Route};
use crate::router::{Entry, EntryKind, Item, Router};

verus! {

/// What is to be done next with a request for an item. A resource is asked for the
/// route that takes the request; what is mounted answers at once. The route that
/// was found is the one that answers: of the resource, if it was asked; of the
/// default resource, if that was. The default resource is asked where the
/// resource has no route, and where no item was recognized; if there is none, or
/// it has no route, nothing was found.
pub proof fn law_what_is_done_next<S, H>(
    router: Router<S, H>,
    i: u16,
    def: DefView,
    routes: Seq<Route<H>>,
    mount: Mount<H>,
    r: usize,
)
    ensures
        ({
            let here = ResourceId::Normal(i);
            let item = router.items()[i as int];
            let asked = match router.default_resource() {
                Some(default) => Step::AskDefault((*default).routes()),
                None => Step::NotFound,
            };
            &&& item == Item::Resource(def, routes) ==> {
                &&& router.next_step(here, Known::Nothing) == Step::AskResource(routes)
                &&& router.next_step(here, Known::Resource(Some(r))) == Step::RunRoute(
                    routes[r as int],
                )
                &&& router.next_step(here, Known::Resource(None)) == asked
            }
            &&& item == Item::<H>::Handler(mount) ==> router.next_step(here, Known::Nothing)
                == Step::RunHandler(mount)
            &&& item == Item::<H>::Scope(mount) ==> router.next_step(here, Known::Nothing)
                == Step::RunScope(mount)
            &&& router.next_step(ResourceId::Default, Known::Nothing) == asked
        }),
{
}

/// The default resource answers with the route of its own that was found; where
/// none was, nothing was found.
pub proof fn law_the_default_resource_answers_last<S, H>(
    router: Router<S, H>,
    resource: ResourceId,
    default: Rc<Resource<H>>,
    r: usize,
)
    ensures
        router.next_step(resource, Known::Default(None)) == Step::<H>::NotFound,
        router.default_resource() == Some(default) ==> router.next_step(
            resource,
            Known::Default(Some(r)),
        ) == Step::RunRoute((*default).routes()[r as int]),
{
}

/// A question is always about the routes that the answer is then taken from.
pub proof fn law_questions_are_about_the_routes_that_answer<S, H>(
    router: Router<S, H>,
    resource: ResourceId,
    known: Known,
    asked: Seq<Route<H>>,
    r: usize,
)
    requires
        resource matches ResourceId::Normal(i) ==> i < router.items().len(),
        router.can_be_known(resource, known),
    ensures
        router.next_step(resource, known) == Step::AskResource(asked) ==> {
            &&& resource matches ResourceId::Normal(i)
            &&& router.items()[i as int] matches Item::Resource(_, routes)
            &&& asked == routes
            &&& router.next_step(resource, Known::Resource(Some(r))) == Step::RunRoute(
                asked[r as int],
            )
        },
        router.next_step(resource, known) == Step::AskDefault(asked) ==> {
            &&& router.default_resource() matches Some(default)
            &&& asked == (*default).routes()
            &&& router.next_step(resource, Known::Default(Some(r))) == Step::RunRoute(
                asked[r as int],
            )
        },
{
}

/// What a step asks for is what the action that stands for it carries.
pub proof fn law_actions_carry_out_steps<'a, H>(
    routes: &'a Vec<Route<H>>,
    route: &'a Route<H>,
    mount: &'a Mount<H>,
)
    ensures
        Action::AskResource(routes)@ == Step::AskResource(routes@),
        Action::AskDefault(routes)@ == Step::AskDefault(routes@),
        Action::RunRoute(route)@ == Step::RunRoute(*route),
        Action::RunHandler(mount)@ == Step::RunHandler(*mount),
        Action::RunScope(mount)@ == Step::RunScope(*mount),
        Action::<'a, H>::NotFound@ == Step::<H>::NotFound,
{
}

/// What can be known of a request: a route by its position among those that were
/// asked, or that there is none.
pub proof fn law_what_can_be_known<S, H>(router: Router<S, H>, i: u16, route: Option<usize>)
    requires
        i < router.items().len(),
    ensures
        router.can_be_known(ResourceId::Normal(i), Known::Nothing),
        router.items()[i as int] matches Item::Resource(_, routes) ==> (router.can_be_known(
            ResourceId::Normal(i),
            Known::Resource(route),
        ) <==> (route matches Some(r) ==> r < routes.len())),
        router.default_resource() matches Some(default) ==> (router.can_be_known(
            ResourceId::Normal(i),
            Known::Default(route),
        ) <==> (route matches Some(r) ==> r < (*default).routes().len())),
        router.default_resource() matches Some(default) ==> (router.can_be_known(
            ResourceId::Default,
            Known::Default(route),
        ) <==> (route matches Some(r) ==> r < (*default).routes().len())),
        router.can_be_known(ResourceId::Default, Known::Nothing),
{
}

/// Registering adds an entry, an item and a definition at the end, and leaves
/// those that are there and the default resource as they were.
pub proof fn law_registering_adds_at_the_end<S, H>(
    before: Router<S, H>,
    after: Router<S, H>,
    entry: Entry<S>,
    item: Item<H>,
    i: int,
)
    requires
        after.registered(before, entry, item),
    ensures
        after.entries().len() == before.entries().len() + 1,
        after.entries().last() == entry,
        after.items().len() == before.items().len() + 1,
        after.items().last() == item,
        after.defs().len() == before.defs().len() + 1,
        after.defs().last() == entry.def,
        0 <= i < before.entries().len() ==> after.entries()[i] == before.entries()[i],
        0 <= i < before.items().len() ==> after.items()[i] == before.items()[i],
        0 <= i < before.defs().len() ==> after.defs()[i] == before.defs()[i],
        after.default_resource() == before.default_resource(),
{
}

/// Registering a route adds it to the first resource with the very pattern, behind
/// the routes that are there, and changes nothing else.
pub proof fn law_a_route_goes_to_the_resource_with_its_pattern<S, H>(
    before: Router<S, H>,
    after: Router<S, H>,
    pattern: Seq<char>,
    route: Route<H>,
    i: int,
    def: DefView,
    routes: Seq<Route<H>>,
    k: int,
)
    requires
        after.route_registered(before, pattern, route),
        0 <= i < before.items().len(),
        before.items()[i] == Item::Resource(def, routes),
        def.pattern == pattern,
        forall|j: int|
            0 <= j < i ==> ((#[trigger] before.items()[j]) matches Item::Resource(d, _)
                ==> d.pattern != pattern),
    ensures
        after.items().len() == before.items().len(),
        after.items()[i] == Item::Resource(def, routes.push(route)),
        0 <= k < before.items().len() && k != i ==> after.items()[k] == before.items()[k],
        after.entries() == before.entries(),
        after.defs() == before.defs(),
        after.named() == before.named(),
        after.default_resource() == before.default_resource(),
{
    assert(before.items()[i].has_pattern(pattern));
    assert(before.has_resource(pattern));
    let l = choose|l: int| #[trigger]
        before.resource_at(pattern, l) && after.items() == before.items().update(
            l,
            before.items()[l].with_route(route),
        );
    if l < i {
        assert(before.items()[l].has_pattern(pattern));
    } else if i < l {
        assert(!before.items()[i].has_pattern(pattern));
    }
    assert(l == i);
}

/// Where no resource has the very pattern, registering a route registers a
/// resource with the pattern and that one route.
pub proof fn law_a_route_makes_a_resource<S, H>(
    before: Router<S, H>,
    after: Router<S, H>,
    pattern: Seq<char>,
    route: Route<H>,
    k: int,
)
    requires
        after.route_registered(before, pattern, route),
        forall|j: int|
            0 <= j < before.items().len() ==> (
            (#[trigger] before.items()[j]) matches Item::Resource(d, _) ==> d.pattern != pattern),
    ensures
        after.items().len() == before.items().len() + 1,
        after.items().last() == Item::Resource(pattern_def(pattern, seq!['/'], false), seq![route]),
        after.entries().len() == before.entries().len() + 1,
        after.entries().last().kind == EntryKind::Resource,
        after.entries().last().def == pattern_def(pattern, seq!['/'], false),
        after.entries().last().filters.len() == 0,
        0 <= k < before.items().len() ==> after.items()[k] == before.items()[k],
        0 <= k < before.entries().len() ==> after.entries()[k] == before.entries()[k],
        after.named() == before.named(),
        after.default_resource() == before.default_resource(),
{
    if before.has_resource(pattern) {
        let i = choose|i: int|
            0 <= i < before.items().len() && (#[trigger] before.items()[i]).has_pattern(pattern);
        assert(before.items()[i].has_pattern(pattern));
    }
}

/// The lists of a router belong together: what is matched, what answers and what
/// is known of it stand at the same positions.
pub proof fn law_positions_agree<S, H>(router: Router<S, H>, i: int)
    requires
        router.wf(),
    ensures
        router.entries().len() == router.items().len(),
        router.entries().len() == router.defs().len(),
        0 <= i < router.entries().len() ==> {
            &&& router.entries()[i].def == router.defs()[i]
            &&& router.entries()[i].kind == EntryKind::Resource <==> router.items()[i] is Resource
            &&& router.entries()[i].kind == EntryKind::Handler <==> router.items()[i] is Handler
            &&& router.entries()[i].kind == EntryKind::Scope <==> router.items()[i] is Scope
            &&& router.items()[i] matches Item::Resource(def, _) ==> def == router.defs()[i]
            &&& router.items()[i] is Resource ==> router.entries()[i].filters.len() == 0
        },
{
}

/// A merge puts the parameters of the outer match before those of the inner one,
/// on the path of the outer match.
pub proof fn law_a_merge_lists_the_outer_parameters_first(inner: InfoView, outer: InfoView, i: int)
    ensures
        ({
            let merged = inner.merged(outer).params;
            let n = outer.params.segments.len();
            &&& merged.path == outer.params.path
            &&& merged.segments.len() == n + inner.params.segments.len()
            &&& 0 <= i < n ==> merged.segments[i] == outer.params.segments[i]
            &&& n <= i < merged.segments.len() ==> merged.segments[i] == inner.params.segments[i
                - n]
        }),
{
}

} // verus!
