//! Which entry a request is recognized as one for.

use vstd::prelude::*;

use crate::info::{InfoView, ResourceId};
use crate::params::Request;
use crate::router::{EntryKind, Router};
use crate::text::byte_len;

verus! {

/// What an entry matches: a resource the whole path from the offset on, handlers
/// and scopes its beginning. That no entry between two positions matches is said
/// of each of them.
pub proof fn law_what_an_entry_matches<S, H>(
    router: Router<S, H>,
    path: Seq<char>,
    tail: int,
    from: int,
    to: int,
    i: int,
)
    ensures
        router.entries()[i].kind == EntryKind::Resource ==> router.entries()[i].match_at(path, tail)
            == router.entries()[i].def.match_from(path, tail),
        router.entries()[i].kind != EntryKind::Resource ==> router.entries()[i].match_at(path, tail)
            == router.entries()[i].def.match_prefix_from(path, tail),
        router.unmatched(path, tail, from, to) && from <= i < to ==> router.entries()[i].match_at(
            path,
            tail,
        ) is None,
        from < to && !router.unmatched(path, tail, from, to) ==> exists|j: int|
            from <= j < to && (#[trigger] router.entries()[j]).match_at(path, tail) is Some,
{
}

/// What is recognized is an entry whose pattern matches and whose filters, each of
/// them, can let the request pass; and every entry before it fails to match, or
/// has a filter that can stop the request. Where nothing is recognized, that
/// holds of all entries, or the offset is beyond the path. A resource is matched
/// as a whole, handlers and scopes by the beginning of the path; what is handed
/// on is what that match gives.
pub proof fn law_what_is_recognized<S, H>(
    router: Router<S, H>,
    req: &Request,
    state: &S,
    tail: int,
    info: InfoView,
)
    requires
        tail >= 0,
        router.recognized(req, state, tail, info),
    ensures
        info.defs == router.defs(),
        info.named == router.named(),
        info.resource matches ResourceId::Normal(n) ==> {
            &&& tail <= byte_len(req@.path)
            &&& info.prefix == 0
            &&& exists|k: int|
                {
                    &&& 0 <= k < router.entries().len()
                    &&& n == k % 0x10000
                    &&& (#[trigger] router.entries()[k]).kind == EntryKind::Resource
                        ==> router.entries()[k].def.match_from(req@.path, tail) == Some(info.params)
                    &&& router.entries()[k].kind != EntryKind::Resource
                        ==> router.entries()[k].def.match_prefix_from(req@.path, tail) == Some(
                        info.params,
                    )
                    &&& forall|j: int|
                        0 <= j < router.entries()[k].filters.len() ==> (
                        #[trigger] router.entries()[k].filters[j]).may_answer(req, state, true)
                    &&& forall|i: int|
                        0 <= i < k ==> {
                            ||| (#[trigger] router.entries()[i]).kind == EntryKind::Resource
                                && router.entries()[i].def.match_from(req@.path, tail) is None
                            ||| router.entries()[i].kind != EntryKind::Resource
                                && router.entries()[i].def.match_prefix_from(
                                req@.path,
                                tail,
                            ) is None
                            ||| exists|j: int|
                                0 <= j < router.entries()[i].filters.len() && (
                                #[trigger] router.entries()[i].filters[j]).may_answer(
                                    req,
                                    state,
                                    false,
                                )
                        }
                }
        },
        info.resource is Default ==> {
            &&& info.params.path.len() == 0
            &&& info.params.tail == 0
            &&& info.params.segments.len() == 0
            &&& info.prefix == tail % 0x10000
            &&& tail <= byte_len(req@.path) ==> forall|i: int|
                0 <= i < router.entries().len() ==> {
                    ||| (#[trigger] router.entries()[i]).kind == EntryKind::Resource
                        && router.entries()[i].def.match_from(req@.path, tail) is None
                    ||| router.entries()[i].kind != EntryKind::Resource
                        && router.entries()[i].def.match_prefix_from(req@.path, tail) is None
                    ||| exists|j: int|
                        0 <= j < router.entries()[i].filters.len() && (
                        #[trigger] router.entries()[i].filters[j]).may_answer(req, state, false)
                }
        },
{
    if let ResourceId::Normal(n) = info.resource {
        let k = choose|k: int|
            {
                &&& 0 <= k < router.entries().len()
                &&& n == k % 0x10000
                &&& router.passed_over(req, state, tail, k)
                &&& (#[trigger] router.entries()[k]).takes(req, state, tail)
                &&& router.entries()[k].match_at(req@.path, tail) == Some(info.params)
            };
        assert(router.entries()[k].takes(req, state, tail));
        assert forall|i: int| 0 <= i < k implies {
            ||| (#[trigger] router.entries()[i]).kind == EntryKind::Resource
                && router.entries()[i].def.match_from(req@.path, tail) is None
            ||| router.entries()[i].kind != EntryKind::Resource
                && router.entries()[i].def.match_prefix_from(req@.path, tail) is None
            ||| exists|j: int|
                0 <= j < router.entries()[i].filters.len() && (
                #[trigger] router.entries()[i].filters[j]).may_answer(req, state, false)
        } by {
            assert(router.entries()[i].passes_over(req, state, tail));
        }
    } else if tail <= byte_len(req@.path) {
        assert forall|i: int| 0 <= i < router.entries().len() implies {
            ||| (#[trigger] router.entries()[i]).kind == EntryKind::Resource
                && router.entries()[i].def.match_from(req@.path, tail) is None
            ||| router.entries()[i].kind != EntryKind::Resource
                && router.entries()[i].def.match_prefix_from(req@.path, tail) is None
            ||| exists|j: int|
                0 <= j < router.entries()[i].filters.len() && (
                #[trigger] router.entries()[i].filters[j]).may_answer(req, state, false)
        } by {
            assert(router.entries()[i].passes_over(req, state, tail));
        }
    }
}

/// A filter that can only refuse a request keeps its entry from being recognized,
/// wherever in the list of filters it stands. Positions fit in 16 bits.
pub proof fn law_a_refusing_filter_keeps_an_entry_out<S, H>(
    router: Router<S, H>,
    req: &Request,
    state: &S,
    tail: int,
    info: InfoView,
    k: int,
    j: int,
)
    requires
        tail >= 0,
        router.recognized(req, state, tail, info),
        0 <= k < router.entries().len() <= 0x10000,
        0 <= j < router.entries()[k].filters.len(),
        !router.entries()[k].filters[j].may_answer(req, state, true),
    ensures
        info.resource != ResourceId::Normal(k as u16),
{
    law_what_is_recognized(router, req, state, tail, info);
}

/// An entry whose pattern matches, and whose filters can only let the request
/// pass, is recognized, where every entry before it does not match or has a
/// filter that can only refuse. Positions fit in 16 bits.
pub proof fn law_an_accepted_entry_is_recognized<S, H>(
    router: Router<S, H>,
    req: &Request,
    state: &S,
    tail: int,
    info: InfoView,
    k: int,
)
    requires
        0 <= tail <= byte_len(req@.path),
        router.recognized(req, state, tail, info),
        0 <= k < router.entries().len() <= 0x10000,
        router.entries()[k].kind == EntryKind::Resource ==> router.entries()[k].def.match_from(
            req@.path,
            tail,
        ) is Some,
        router.entries()[k].kind != EntryKind::Resource
            ==> router.entries()[k].def.match_prefix_from(req@.path, tail) is Some,
        forall|j: int|
            0 <= j < router.entries()[k].filters.len() ==> !(
            #[trigger] router.entries()[k].filters[j]).may_answer(req, state, false),
        forall|i: int|
            0 <= i < k ==> {
                ||| (#[trigger] router.entries()[i]).kind == EntryKind::Resource
                    && router.entries()[i].def.match_from(req@.path, tail) is None
                ||| router.entries()[i].kind != EntryKind::Resource
                    && router.entries()[i].def.match_prefix_from(req@.path, tail) is None
                ||| exists|j: int|
                    0 <= j < router.entries()[i].filters.len() && !(
                    #[trigger] router.entries()[i].filters[j]).may_answer(req, state, true)
            },
    ensures
        info.resource == ResourceId::Normal(k as u16),
        router.entries()[k].kind == EntryKind::Resource ==> router.entries()[k].def.match_from(
            req@.path,
            tail,
        ) == Some(info.params),
        router.entries()[k].kind != EntryKind::Resource
            ==> router.entries()[k].def.match_prefix_from(req@.path, tail) == Some(info.params),
        info.prefix == 0,
{
    law_what_is_recognized(router, req, state, tail, info);
    if let ResourceId::Normal(n) = info.resource {
        let l = choose|l: int|
            {
                &&& 0 <= l < router.entries().len()
                &&& n == l % 0x10000
                &&& (#[trigger] router.entries()[l]).kind == EntryKind::Resource
                    ==> router.entries()[l].def.match_from(req@.path, tail) == Some(info.params)
                &&& router.entries()[l].kind != EntryKind::Resource
                    ==> router.entries()[l].def.match_prefix_from(req@.path, tail) == Some(
                    info.params,
                )
                &&& forall|j: int|
                    0 <= j < router.entries()[l].filters.len() ==> (
                    #[trigger] router.entries()[l].filters[j]).may_answer(req, state, true)
                &&& forall|i: int|
                    0 <= i < l ==> {
                        ||| (#[trigger] router.entries()[i]).kind == EntryKind::Resource
                            && router.entries()[i].def.match_from(req@.path, tail) is None
                        ||| router.entries()[i].kind != EntryKind::Resource
                            && router.entries()[i].def.match_prefix_from(req@.path, tail) is None
                        ||| exists|j: int|
                            0 <= j < router.entries()[i].filters.len() && (
                            #[trigger] router.entries()[i].filters[j]).may_answer(
                                req,
                                state,
                                false,
                            )
                    }
            };
        if l < k {
            assert(router.entries()[l].filters.len() >= 0);
        } else if k < l {
            assert(router.entries()[k].filters.len() >= 0);
        }
        assert(l == k);
    } else {
        assert(router.entries()[k].filters.len() >= 0);
    }
}

} // verus!
