//! The decisions around one fetch: what is sent to the service and how its
//! answer is merged into the results.
use vstd::prelude::*;
use crate::assoc::get_key;
use crate::json::{element_or_null, fields_or_empty, fields_view, items_view, Json, JsonV};
use crate::merge::{merge, merge_spec};
use crate::plan::Selection;
use crate::selection::{select_spec, try_execute_selection_set, typename_key};

verus! {

/// A request sent to a service.
pub struct GraphQLRequest {
    pub query: String,
    pub operation_name: Option<String>,
    pub variables: Option<Json>,
}

/// An answer to a request.
pub struct GraphQLResponse {
    pub data: Option<Json>,
}

/// The request that the gateway is answering.
pub struct RequestContext {
    pub graphql_request: GraphQLRequest,
}

/// The key under which entities are sent to a service.
pub open spec fn representations_key() -> Seq<char> {
    "representations"@
}

/// The key under which a service answers with entities.
pub open spec fn entities_key() -> Seq<char> {
    "_entities"@
}

/// A representation is sent only where it is an object with a `__typename`.
pub open spec fn representation_ok(rep: JsonV) -> bool {
    rep is Object && get_key(fields_or_empty(rep), typename_key()) is Some
}

/// The representations of the first `n` entities, with the index of the
/// entity of each; none where a selection finds no value for one of its fields.
pub open spec fn collect_spec(entities: Seq<JsonV>, required: Seq<Selection>, n: nat) -> Option<(Seq<JsonV>, Seq<int>)>
    decreases n,
{
    if n == 0 || n > entities.len() {
        Some((Seq::empty(), Seq::empty()))
    } else {
        match collect_spec(entities, required, (n - 1) as nat) {
            None => None,
            Some((reps, idx)) => match select_spec(entities[n - 1], required) {
                None => None,
                Some(rep) => if representation_ok(rep) {
                    Some((reps.push(rep), idx.push(n - 1)))
                } else {
                    Some((reps, idx))
                },
            },
        }
    }
}

/// The representations to send for the results, with the index of the
/// entity of each: of every entity of an array, or of an object itself
/// (index 0); none for any other value; none at all where a selection finds
/// no value for one of its fields.
pub open spec fn representations_spec(results: JsonV, required: Seq<Selection>) -> Option<(Seq<JsonV>, Seq<int>)> {
    match results {
        JsonV::Array(entities) => collect_spec(entities, required, entities.len()),
        JsonV::Object(_) => match select_spec(results, required) {
            None => None,
            Some(rep) => if representation_ok(rep) {
                Some((seq![rep], seq![0int]))
            } else {
                Some((Seq::empty(), Seq::empty()))
            },
        },
        _ => Some((Seq::empty(), Seq::empty())),
    }
}

/// Indices as integers.
pub open spec fn indices_view(idx: Seq<usize>) -> Seq<int> {
    Seq::new(idx.len(), |i: int| idx[i] as int)
}

proof fn lemma_collect_none(entities: Seq<JsonV>, required: Seq<Selection>, m: nat)
    requires
        m <= entities.len(),
        collect_spec(entities, required, m) is None,
    ensures
        collect_spec(entities, required, entities.len()) is None,
    decreases entities.len() - m,
{
    if m < entities.len() {
        lemma_collect_none(entities, required, m + 1);
    }
}

/// Whether `rep` is an object with a `__typename`.
fn is_representation(rep: &Json) -> (r: bool)
    ensures
        r == representation_ok(rep@),
{
    let tk = "__typename".to_owned();
    rep.is_object() && rep.get(&tk).is_some()
}

/// The representations to send for the results, as `representations_spec`
/// says; none where a selection finds no value for one of its fields.
#[verifier::loop_isolation(false)]
pub fn representations(results: &Json, required: &Vec<Selection>) -> (r: Option<(Vec<Json>, Vec<usize>)>)
    ensures
        match r {
            Some((reps, idx)) => representations_spec(results@, required@) == Some((items_view(reps@), indices_view(idx@))),
            None => representations_spec(results@, required@) is None,
        },
{
    let mut reps: Vec<Json> = Vec::new();
    let mut idx: Vec<usize> = Vec::new();
    assert(items_view(reps@) =~= Seq::empty());
    assert(indices_view(idx@) =~= Seq::empty());
    match results {
        Json::Array(entities) => {
            let ghost ev = items_view(entities@);
            let mut i: usize = 0;
            while i < entities.len()
                invariant
                    i <= entities.len(),
                    collect_spec(ev, required@, i as nat) == Some((items_view(reps@), indices_view(idx@))),
                decreases entities.len() - i,
            {
                assert(ev[i as int] == entities@[i as int]@);
                match try_execute_selection_set(&entities[i], required) {
                    None => {
                        proof {
                            lemma_collect_none(ev, required@, (i + 1) as nat);
                        }
                        return None;
                    },
                    Some(rep) => {
                        if is_representation(&rep) {
                            let ghost (rv, iv) = (items_view(reps@), indices_view(idx@));
                            reps.push(rep);
                            idx.push(i);
                            assert(items_view(reps@) =~= rv.push(rep@));
                            assert(indices_view(idx@) =~= iv.push(i as int));
                        }
                    },
                }
                i += 1;
            }
            Some((reps, idx))
        },
        Json::Object(_) => {
            match try_execute_selection_set(results, required) {
                None => None,
                Some(rep) => {
                    if is_representation(&rep) {
                        reps.push(rep);
                        idx.push(0);
                        assert(items_view(reps@) =~= seq![rep@]);
                        assert(indices_view(idx@) =~= seq![0int]);
                    }
                    Some((reps, idx))
                },
            }
        },
        _ => Some((reps, idx)),
    }
}

/// The variables sent with a fetch and the entity index of each
/// representation: where the fetch requires fields of entities, the
/// variables bind `representations` to the array of representations, else
/// they are empty; none where a selection finds no value for one of its
/// fields.
pub fn fetch_variables(results: &Json, required: &Option<Vec<Selection>>) -> (r: Option<(Vec<(String, Json)>, Vec<usize>)>)
    ensures
        required is None ==> (r matches Some((vars, idx)) && vars@.len() == 0 && idx@.len() == 0),
        required matches Some(req) ==> (match r {
            Some((vars, idx)) => (representations_spec(results@, req@) matches Some((reps, ix))
                && fields_view(vars@) == seq![(representations_key(), JsonV::Array(reps))]
                && indices_view(idx@) == ix),
            None => representations_spec(results@, req@) is None,
        }),
{
    match required {
        None => Some((Vec::new(), Vec::new())),
        Some(req) => match representations(results, req) {
            None => None,
            Some((reps, idx)) => {
                let mut vars: Vec<(String, Json)> = Vec::new();
                vars.push(("representations".to_owned(), Json::Array(reps)));
                assert(fields_view(vars@) =~= seq![(representations_key(), JsonV::Array(items_view(reps@)))]);
                Some((vars, idx))
            },
        },
    }
}

/// The request sent to a service: the operation, the name of the operation
/// being answered, and the variables as an object.
pub fn build_request(operation: String, operation_name: Option<String>, variables: Vec<(String, Json)>) -> (r: GraphQLRequest)
    ensures
        r.query == operation,
        r.operation_name == operation_name,
        (r.variables matches Some(v) && v@ == JsonV::Object(fields_view(variables@))),
{
    GraphQLRequest { query: operation, operation_name, variables: Some(Json::Object(variables)) }
}

/// The entities after the answers for the first `n` representations are
/// merged into them: the answer at position `i` of `received` (null where
/// there is none) is merged into the entity whose index was recorded for the
/// `i`-th representation; none where that index is past the entities.
pub open spec fn apply_entities(entities: Seq<JsonV>, reps_to_entity: Seq<int>, received: JsonV, n: nat) -> Option<Seq<JsonV>>
    decreases n,
{
    if n == 0 {
        Some(entities)
    } else {
        match apply_entities(entities, reps_to_entity, received, (n - 1) as nat) {
            None => None,
            Some(es) => if n - 1 < reps_to_entity.len() {
                let ri = reps_to_entity[n - 1];
                if 0 <= ri < es.len() {
                    Some(es.update(ri, merge_spec(es[ri], element_or_null(received, n - 1))))
                } else {
                    None
                }
            } else {
                Some(es)
            },
        }
    }
}

/// The results after a service's answer is merged into them; none where the
/// answer cannot be merged.
///
/// Without required fields the whole answer is merged into the results. With
/// them, the answer must hold `_entities` (none otherwise). For array results,
/// each entity that a representation came from gets the matching answer (none
/// where an index recorded for a representation lies past the entities); for
/// object results, the first answer is merged into the object; any other
/// results stay as they are.
pub open spec fn merge_fetch_spec(results: JsonV, has_requires: bool, reps_to_entity: Seq<int>, data: JsonV) -> Option<JsonV> {
    if has_requires {
        match get_key(fields_or_empty(data), entities_key()) {
            None => None,
            Some(received) => match results {
                JsonV::Array(es) => match apply_entities(es, reps_to_entity, received, es.len()) {
                    Some(out) => Some(JsonV::Array(out)),
                    None => None,
                },
                JsonV::Object(_) => Some(merge_spec(results, element_or_null(received, 0))),
                _ => Some(results),
            },
        }
    } else {
        Some(merge_spec(results, data))
    }
}

proof fn lemma_apply_none(entities: Seq<JsonV>, reps: Seq<int>, received: JsonV, m: nat, n: nat)
    requires
        m <= n,
        apply_entities(entities, reps, received, m) is None,
    ensures
        apply_entities(entities, reps, received, n) is None,
    decreases n - m,
{
    if m < n {
        lemma_apply_none(entities, reps, received, m, (n - 1) as nat);
    }
}

/// The element at `index` of an array, or null where there is none.
pub fn element_or_null_of(v: &Json, index: usize) -> (r: Json)
    ensures
        r@ == element_or_null(v@, index as int),
{
    match v {
        Json::Array(items) => {
            if index < items.len() {
                items[index].deep_clone()
            } else {
                Json::Null
            }
        },
        _ => Json::Null,
    }
}

/// Merges a service's answer into the results as `merge_fetch_spec` says;
/// false where `merge_fetch_spec` gives none, and then nothing is said of the
/// results.
#[verifier::loop_isolation(false)]
pub fn try_merge_fetch_result(results: &mut Json, has_requires: bool, reps_to_entity: &Vec<usize>, data_received: &Json) -> (ok: bool)
    ensures
        ok == merge_fetch_spec(old(results)@, has_requires, indices_view(reps_to_entity@), data_received@) is Some,
        ok ==> final(results)@ == merge_fetch_spec(old(results)@, has_requires, indices_view(reps_to_entity@), data_received@).unwrap(),
{
    if !has_requires {
        merge(results, data_received);
        return true;
    }
    let ek = "_entities".to_owned();
    let received = match data_received.get(&ek) {
        None => {
            return false;
        },
        Some(x) => x,
    };
    let ghost reps = indices_view(reps_to_entity@);
    let mut taken = Json::Null;
    std::mem::swap(&mut taken, results);
    match taken {
        Json::Array(mut entities) => {
            let ghost ev = items_view(entities@);
            let n = entities.len();
            let mut index: usize = 0;
            while index < n
                invariant
                    index <= n,
                    entities@.len() == n,
                    apply_entities(ev, reps, received@, index as nat) == Some(items_view(entities@)),
                decreases n - index,
            {
                if index < reps_to_entity.len() {
                    let ri = reps_to_entity[index];
                    if ri >= entities.len() {
                        proof {
                            lemma_apply_none(ev, reps, received@, (index + 1) as nat, n as nat);
                        }
                        return false;
                    }
                    let patch = element_or_null_of(received, index);
                    let ghost before = items_view(entities@);
                    let mut e = entities.remove(ri);
                    assert(e@ == before[ri as int]);
                    merge(&mut e, &patch);
                    entities.insert(ri, e);
                    assert(items_view(entities@) =~= before.update(ri as int, e@));
                }
                index += 1;
            }
            *results = Json::Array(entities);
            true
        },
        Json::Object(fields) => {
            let mut obj = Json::Object(fields);
            let patch = element_or_null_of(received, 0);
            merge(&mut obj, &patch);
            *results = obj;
            true
        },
        other => {
            *results = other;
            true
        },
    }
}

/// Merges a service's answer into the results as `merge_fetch_spec` says.
pub fn merge_fetch_result(results: &mut Json, has_requires: bool, reps_to_entity: &Vec<usize>, data_received: &Json)
    requires
        merge_fetch_spec(old(results)@, has_requires, indices_view(reps_to_entity@), data_received@) is Some,
    ensures
        final(results)@ == merge_fetch_spec(old(results)@, has_requires, indices_view(reps_to_entity@), data_received@).unwrap(),
{
    try_merge_fetch_result(results, has_requires, reps_to_entity, data_received);
}

} // verus!
