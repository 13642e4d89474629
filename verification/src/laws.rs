//! What holds across the operations of the library.
use vstd::prelude::*;
use crate::assoc::{get_key, has_key, key_index, keys_unique, lemma_key_index, remove_key, set_key};
use crate::json::{well_formed, JsonV};
use crate::merge::{get_or_null, merge_fields, merge_spec};
use crate::path::{at_sign, flatten_items, flatten_spec, merge_at_path_spec};
use crate::assoc::lemma_key_index_same_keys;
use crate::fetch::{apply_entities, collect_spec, entities_key, merge_fetch_spec, representations_spec};
use crate::json::{element_or_null, fields_or_empty};
use crate::plan::{Field, InlineFragment, Selection};
use crate::machine::{answer_spec, run_machine, set_store, start_spec, step_machine, ActV, FrameV, JoinV, MachineV, PendV, RunV, StepV};
use crate::path::path_view;
use crate::plan::{FlattenNode, PlanNode};
use crate::semantics::{quiet, run_spec, SentV, Trace};
use crate::executor::ExecError;
use crate::selection::{response_name, select_fields, select_items, select_spec, typename_key};

verus! {

/// The fields without their null values, every other value merged into null
/// (so stripped of its nulls at any depth).
pub open spec fn strip_fields(f: Seq<(Seq<char>, JsonV)>) -> Seq<(Seq<char>, JsonV)>
    decreases f.len(),
{
    if f.len() == 0 {
        Seq::empty()
    } else {
        let rest = strip_fields(f.drop_last());
        if f.last().1 is Null {
            rest
        } else {
            rest.push((f.last().0, merge_spec(JsonV::Null, f.last().1)))
        }
    }
}

proof fn lemma_strip_keys(f: Seq<(Seq<char>, JsonV)>, k: Seq<char>)
    requires
        has_key(strip_fields(f), k),
    ensures
        has_key(f, k),
    decreases f.len(),
{
    let s = strip_fields(f);
    let rest = strip_fields(f.drop_last());
    let i = choose|i: int| 0 <= i < s.len() && s[i].0 == k;
    if i < rest.len() {
        assert(rest[i].0 == k);
        lemma_strip_keys(f.drop_last(), k);
        let j = choose|j: int| 0 <= j < f.drop_last().len() && f.drop_last()[j].0 == k;
        assert(f[j].0 == k);
    } else {
        assert(f[f.len() - 1].0 == k);
    }
}

proof fn lemma_remove_absent(s: Seq<(Seq<char>, JsonV)>, k: Seq<char>)
    requires
        !has_key(s, k),
    ensures
        remove_key(s, k) == s,
    decreases s.len(),
{
    if s.len() > 0 {
        assert(!has_key(s.drop_last(), k)) by {
            if has_key(s.drop_last(), k) {
                let j = choose|j: int| 0 <= j < s.drop_last().len() && s.drop_last()[j].0 == k;
                assert(s[j].0 == k);
            }
        }
        lemma_remove_absent(s.drop_last(), k);
        assert(s.drop_last().push(s.last()) =~= s);
    }
}

/// Merging well-formed fields into nothing strips them of nulls.
proof fn lemma_merge_into_empty(full: Seq<(Seq<char>, JsonV)>, n: int)
    requires
        0 <= n <= full.len(),
        keys_unique(full),
    ensures
        merge_fields(Seq::empty(), full.take(n)) == strip_fields(full.take(n)),
    decreases n,
{
    if n > 0 {
        let pf = full.take(n);
        assert(pf.drop_last() =~= full.take(n - 1));
        lemma_merge_into_empty(full, n - 1);
        let acc = strip_fields(full.take(n - 1));
        let k = full[n - 1].0;
        assert(!has_key(acc, k)) by {
            if has_key(acc, k) {
                lemma_strip_keys(full.take(n - 1), k);
                let j = choose|j: int| 0 <= j < full.take(n - 1).len() && (#[trigger] full.take(n - 1)[j]).0 == k;
                assert(full[j].0 == k);
            }
        }
        lemma_key_index(acc, k);
        if full[n - 1].1 is Null {
            lemma_remove_absent(acc, k);
        } else {
            assert(get_or_null(acc, k) == JsonV::Null);
        }
    }
}

/// Merging fields stripped of nulls back into the fields leaves them as
/// they are.
proof fn lemma_merge_stripped_fields(full: Seq<(Seq<char>, JsonV)>, n: int)
    requires
        0 <= n <= full.len(),
        keys_unique(full),
        forall|i: int| 0 <= i < full.len() ==> well_formed(#[trigger] full[i].1),
    ensures
        merge_fields(full, strip_fields(full.take(n))) == full,
    decreases full, n,
{
    if n > 0 {
        assert(full.take(n).drop_last() =~= full.take(n - 1));
        lemma_merge_stripped_fields(full, n - 1);
        let k = full[n - 1].0;
        let v = full[n - 1].1;
        if !(v is Null) {
            let x = strip_fields(full.take(n - 1));
            let e = (k, merge_spec(JsonV::Null, v));
            assert(strip_fields(full.take(n)) == x.push(e));
            assert(x.push(e).drop_last() =~= x);
            lemma_key_index(full, k);
            assert(key_index(full, k) == n - 1);
            assert(decreases_to!(full => full[n - 1]));
            lemma_merge_stripped(v);
            assert(set_key(full, k, v) =~= full);
        }
    }
}

/// Merging a well-formed value, stripped of its nulls, back into it leaves it
/// as it is.
proof fn lemma_merge_stripped(v: JsonV)
    requires
        well_formed(v),
        !(v is Null),
    ensures
        merge_spec(v, merge_spec(JsonV::Null, v)) == v,
    decreases v, 0nat,
{
    match v {
        JsonV::Object(f) => {
            assert(f.take(f.len() as int) =~= f);
            lemma_merge_into_empty(f, f.len() as int);
            lemma_merge_stripped_fields(f, f.len() as int);
        },
        _ => {},
    }
}

proof fn lemma_flatten_items_empty_path(items: Seq<JsonV>)
    ensures
        flatten_items(items, Seq::empty()) == Some(items),
    decreases items.len(),
{
    if items.len() > 0 {
        lemma_flatten_items_empty_path(items.drop_last());
        assert(flatten_spec(items.last(), Seq::empty()) == Some((items.last(), items.last())));
        assert(items.drop_last().push(items.last()) =~= items);
    } else {
        assert(items =~= Seq::empty());
    }
}

/// No key of the path but its last is `@`.
pub open spec fn at_sign_only_last(path: Seq<Seq<char>>) -> bool {
    forall|i: int| 0 <= i < path.len() - 1 ==> path[i] != at_sign()
}

/// Restitching a flatten: where the results are flattened at a path, what
/// that hands back is merged into an empty object as the data of the inner
/// node, and that data is merged back unchanged at the same path, the results
/// are as they were. This holds for well-formed results, a path whose only
/// `@` is its last key, and a value found at the path that is not null.
pub proof fn law_restitch(results: JsonV, path: Seq<Seq<char>>)
    requires
        well_formed(results),
        at_sign_only_last(path),
        flatten_spec(results, path) is Some,
        !(flatten_spec(results, path).unwrap().1 is Null),
    ensures
        merge_at_path_spec(
            flatten_spec(results, path).unwrap().0,
            merge_spec(JsonV::Object(Seq::empty()), flatten_spec(results, path).unwrap().1),
            path,
        ) == Some(results),
    decreases path.len(),
{
    let v = results;
    let empty = JsonV::Object(Seq::<(Seq<char>, JsonV)>::empty());
    if path.len() == 0 {
        assert(merge_spec(empty, v) == merge_spec(JsonV::Null, v));
        lemma_merge_stripped(v);
        assert(merge_at_path_spec(v, merge_spec(empty, v), path) == Some(v));
    } else if path[0] == at_sign() {
        assert(path.len() == 1);
        assert(!(merge_spec(empty, v) is Null));
        match v {
            JsonV::Array(items) => {
                assert(path.drop_first() =~= Seq::<Seq<char>>::empty());
                lemma_flatten_items_empty_path(items);
                assert(flatten_spec(v, path) == Some((v, v)));
                assert(merge_spec(empty, v) == v);
            },
            _ => {
                assert(flatten_spec(v, path) == Some((v, v)));
            },
        }
    } else {
        match v {
            JsonV::Object(f) => {
                let k = path[0];
                let idx = key_index(f, k);
                lemma_key_index(f, k);
                let rest = path.drop_first();
                let (inner_new, res) = flatten_spec(f[idx].1, rest).unwrap();
                let f2 = f.update(idx, (f[idx].0, inner_new));
                lemma_key_index_same_keys(f, f2, k);
                assert(at_sign_only_last(rest)) by {
                    assert forall|i: int| 0 <= i < rest.len() - 1 implies rest[i] != at_sign() by {
                        assert(rest[i] == path[i + 1]);
                    }
                }
                law_restitch(f[idx].1, rest);
                assert(!(merge_spec(empty, res) is Null));
                assert(f2.update(idx, (f2[idx].0, f[idx].1)) =~= f);
                assert(merge_at_path_spec(inner_new, merge_spec(empty, res), rest) == Some(f[idx].1));
            },
            _ => {},
        }
    }
}

/// How many entities the results hold: the elements of an array, one for an
/// object, none for anything else.
pub open spec fn entity_count(results: JsonV) -> int {
    match results {
        JsonV::Array(es) => es.len() as int,
        JsonV::Object(_) => 1,
        _ => 0,
    }
}

proof fn lemma_collect_indices(es: Seq<JsonV>, req: Seq<Selection>, n: nat)
    requires
        n <= es.len(),
        collect_spec(es, req, n) is Some,
    ensures
        collect_spec(es, req, n).unwrap().0.len() == collect_spec(es, req, n).unwrap().1.len(),
        forall|k: int| 0 <= k < collect_spec(es, req, n).unwrap().1.len()
            ==> 0 <= #[trigger] collect_spec(es, req, n).unwrap().1[k] < n,
        forall|k: int, l: int| 0 <= k < l < collect_spec(es, req, n).unwrap().1.len()
            ==> collect_spec(es, req, n).unwrap().1[k] < collect_spec(es, req, n).unwrap().1[l],
    decreases n,
{
    if n > 0 {
        lemma_collect_indices(es, req, (n - 1) as nat);
    }
}

/// Each representation prepared for a fetch comes with the index of the
/// entity it was read from: there are as many indices as representations, each
/// names an entity of the results, and they increase.
pub proof fn law_representation_indices(results: JsonV, req: Seq<Selection>)
    requires
        representations_spec(results, req) is Some,
    ensures
        representations_spec(results, req).unwrap().0.len() == representations_spec(results, req).unwrap().1.len(),
        forall|k: int| 0 <= k < representations_spec(results, req).unwrap().1.len()
            ==> 0 <= #[trigger] representations_spec(results, req).unwrap().1[k] < entity_count(results),
        forall|k: int, l: int| 0 <= k < l < representations_spec(results, req).unwrap().1.len()
            ==> representations_spec(results, req).unwrap().1[k] < representations_spec(results, req).unwrap().1[l],
{
    match results {
        JsonV::Array(es) => {
            lemma_collect_indices(es, req, es.len());
        },
        _ => {},
    }
}

proof fn lemma_apply_defined(es: Seq<JsonV>, reps: Seq<int>, received: JsonV, n: nat)
    requires
        forall|k: int| 0 <= k < reps.len() ==> 0 <= #[trigger] reps[k] < es.len(),
    ensures
        apply_entities(es, reps, received, n) is Some,
        apply_entities(es, reps, received, n).unwrap().len() == es.len(),
    decreases n,
{
    if n > 0 {
        lemma_apply_defined(es, reps, received, (n - 1) as nat);
        if n - 1 < reps.len() {
            assert(0 <= reps[n - 1] < es.len());
        }
    }
}

/// A service's answer that holds `_entities` can always be merged into the
/// results that its fetch was prepared from: every entity index recorded then
/// names an entity.
pub proof fn law_fetch_answer_merges(results: JsonV, req: Seq<Selection>, data: JsonV)
    requires
        representations_spec(results, req) is Some,
        get_key(fields_or_empty(data), entities_key()) is Some,
    ensures
        merge_fetch_spec(results, true, representations_spec(results, req).unwrap().1, data) is Some,
{
    law_representation_indices(results, req);
    match results {
        JsonV::Array(es) => {
            let received = get_key(fields_or_empty(data), entities_key()).unwrap();
            lemma_apply_defined(es, representations_spec(results, req).unwrap().1, received, es.len());
        },
        _ => {},
    }
}

/// Applying a selection set to a value that is not null gives an object.
pub proof fn law_selection_gives_object(source: JsonV, sels: Seq<Selection>)
    requires
        !(source is Null),
        select_spec(source, sels) is Some,
    ensures
        select_spec(source, sels).unwrap() is Object,
{
}

/// The value reached by following the keys through objects, each key to its
/// first entry; none where a key is missing or met on a value that is not an
/// object.
pub open spec fn value_at(v: JsonV, keys: Seq<Seq<char>>) -> Option<JsonV>
    decreases keys.len(),
{
    if keys.len() == 0 {
        Some(v)
    } else {
        match v {
            JsonV::Object(fields) => {
                let idx = key_index(fields, keys[0]);
                if idx < 0 {
                    None
                } else {
                    value_at(fields[idx].1, keys.drop_first())
                }
            },
            _ => None,
        }
    }
}

/// The value with what the keys reach replaced by `x`, all else unchanged.
pub open spec fn replace_at(v: JsonV, keys: Seq<Seq<char>>, x: JsonV) -> JsonV
    decreases keys.len(),
{
    if keys.len() == 0 {
        x
    } else {
        match v {
            JsonV::Object(fields) => {
                let idx = key_index(fields, keys[0]);
                if idx < 0 {
                    v
                } else {
                    JsonV::Object(fields.update(idx, (fields[idx].0, replace_at(fields[idx].1, keys.drop_first(), x))))
                }
            },
            _ => v,
        }
    }
}

/// Flattening at a path of keys followed by `@`, where the keys lead through
/// objects to an array, leaves the value as it was and hands back that
/// array; merging any array back at the same path replaces the array there by
/// it and changes nothing else. So merging back what was handed back gives the
/// value that was flattened.
pub proof fn law_flatten_merge_round_trip(v: JsonV, keys: Seq<Seq<char>>, items: Seq<JsonV>, c: Seq<JsonV>)
    requires
        forall|i: int| 0 <= i < keys.len() ==> keys[i] != at_sign(),
        value_at(v, keys) == Some(JsonV::Array(items)),
    ensures
        flatten_spec(v, keys.push(at_sign())) == Some((v, JsonV::Array(items))),
        merge_at_path_spec(v, JsonV::Array(c), keys.push(at_sign())) == Some(replace_at(v, keys, JsonV::Array(c))),
        replace_at(v, keys, JsonV::Array(items)) == v,
    decreases keys.len(),
{
    let path = keys.push(at_sign());
    if keys.len() == 0 {
        assert(path[0] == at_sign());
        assert(path.drop_first() =~= Seq::<Seq<char>>::empty());
        lemma_flatten_items_empty_path(items);
    } else {
        assert(path[0] == keys[0]);
        assert(path.drop_first() =~= keys.drop_first().push(at_sign()));
        match v {
            JsonV::Object(fields) => {
                let idx = key_index(fields, keys[0]);
                lemma_key_index(fields, keys[0]);
                let rest = keys.drop_first();
                assert forall|i: int| 0 <= i < rest.len() implies rest[i] != at_sign() by {
                    assert(rest[i] == keys[i + 1]);
                }
                law_flatten_merge_round_trip(fields[idx].1, rest, items, c);
                assert(fields.update(idx, (fields[idx].0, fields[idx].1)) =~= fields);
            },
            _ => {},
        }
    }
}

/// Selecting each item under a selection set succeeds exactly where it
/// succeeds for every item, and then gives, item by item, what each gives.
proof fn lemma_select_items_each(items: Seq<JsonV>, sels: Seq<Selection>)
    ensures
        select_items(items, sels) is Some <==> forall|i: int| 0 <= i < items.len() ==> (#[trigger] select_spec(items[i], sels)) is Some,
        select_items(items, sels) is Some ==> select_items(items, sels).unwrap() == Seq::new(items.len(), |i: int| select_spec(items[i], sels).unwrap()),
    decreases items.len(),
{
    if items.len() == 0 {
        assert(Seq::new(0, |i: int| select_spec(items[i], sels).unwrap()) =~= Seq::<JsonV>::empty());
    } else {
        let init = items.drop_last();
        lemma_select_items_each(init, sels);
        assert forall|i: int| 0 <= i < init.len() implies init[i] == items[i] by {}
        if select_items(items, sels) is Some {
            let out = select_items(items, sels).unwrap();
            let done = select_items(init, sels).unwrap();
            assert(out =~= Seq::new(items.len(), |i: int| select_spec(items[i], sels).unwrap())) by {
                assert(out == done.push(select_spec(items[items.len() - 1], sels).unwrap()));
                assert forall|i: int| 0 <= i < init.len() implies done[i] == select_spec(items[i], sels).unwrap() by {
                    assert(init[i] == items[i]);
                }
            }
        }
        if forall|i: int| 0 <= i < items.len() ==> (#[trigger] select_spec(items[i], sels)) is Some {
            assert forall|i: int| 0 <= i < init.len() implies (#[trigger] select_spec(init[i], sels)) is Some by {
                assert(init[i] == items[i]);
                assert(select_spec(items[i], sels) is Some);
            }
            assert(select_spec(items[items.len() - 1], sels) is Some);
        }
        if select_items(items, sels) is Some {
            assert forall|i: int| 0 <= i < items.len() implies (#[trigger] select_spec(items[i], sels)) is Some by {
                if i < init.len() {
                    assert(init[i] == items[i]);
                    assert(select_spec(init[i], sels) is Some);
                }
            }
        }
    }
}

/// Selecting a field whose value is an array answers the array element by
/// element: where the field has no selections of its own, the array comes
/// back as it is; where it has, each element is answered under the enclosing
/// selection set (here the field alone), the answer has one element for each
/// element of the array, and it is given exactly where each element can be
/// answered.
pub proof fn law_array_field_element_by_element(source: JsonV, field: Field, items: Seq<JsonV>)
    requires
        source is Object,
        get_key(fields_or_empty(source), response_name(field)) == Some(JsonV::Array(items)),
    ensures
        field.selections is None ==> select_spec(source, seq![Selection::Field(field)])
            == Some(JsonV::Object(seq![(response_name(field), JsonV::Array(items))])),
        field.selections is Some ==> (select_spec(source, seq![Selection::Field(field)]) is Some
            <==> forall|i: int| 0 <= i < items.len() ==> (#[trigger] select_spec(items[i], seq![Selection::Field(field)])) is Some),
        field.selections is Some && select_spec(source, seq![Selection::Field(field)]) is Some ==> select_spec(source, seq![Selection::Field(field)])
            == Some(JsonV::Object(seq![(response_name(field), JsonV::Array(
                Seq::new(items.len(), |i: int| select_spec(items[i], seq![Selection::Field(field)]).unwrap())))])),
{
    let sels = seq![Selection::Field(field)];
    let rn = response_name(field);
    let sf = fields_or_empty(source);
    lemma_key_index(sf, rn);
    let empty = Seq::<(Seq<char>, JsonV)>::empty();
    assert(key_index(empty, rn) == -1);
    assert(sels[0] == Selection::Field(field));
    assert(select_fields(source, sels, 0) == Some(empty));
    lemma_select_items_each(items, sels);
    assert(set_key(empty, rn, JsonV::Array(items)) =~= seq![(rn, JsonV::Array(items))]);
    if select_items(items, sels) is Some {
        let out = select_items(items, sels).unwrap();
        assert(set_key(empty, rn, JsonV::Array(out)) =~= seq![(rn, JsonV::Array(out))]);
    }
}

/// An inline fragment is skipped at a value: it has no type condition, or the
/// value has no `__typename`, or that is a string other than the condition.
pub open spec fn fragment_skipped(source: JsonV, frag: InlineFragment) -> bool {
    match frag.type_condition {
        None => true,
        Some(tc) => match get_key(fields_or_empty(source), typename_key()) {
            None => true,
            Some(JsonV::Str(t)) => t != tc@,
            Some(_) => false,
        },
    }
}

/// The fragment is skipped at the source and at every element that the
/// selection set goes on to answer under itself (the elements of an array
/// that a field with selections of its own finds), all the way down.
pub open spec fn skipped_throughout(source: JsonV, sels: Seq<Selection>, frag: InlineFragment) -> bool
    decreases source, sels.len() + 1,
{
    fragment_skipped(source, frag) && skipped_in_fields(source, sels, frag, sels.len())
}

/// The fragment is skipped throughout every array element answered by the
/// first `n` selections.
pub open spec fn skipped_in_fields(source: JsonV, sels: Seq<Selection>, frag: InlineFragment, n: nat) -> bool
    decreases source, n,
{
    if n == 0 || n > sels.len() {
        true
    } else {
        skipped_in_fields(source, sels, frag, (n - 1) as nat) && match sels[n - 1] {
            Selection::Field(field) => match source {
                JsonV::Object(sf) => {
                    let idx = key_index(sf, response_name(field));
                    if idx < 0 {
                        true
                    } else {
                        proof {
                            lemma_key_index(sf, response_name(field));
                            assert(decreases_to!(source => sf));
                            assert(decreases_to!(sf => sf[idx]));
                            assert(decreases_to!(sf[idx] => sf[idx].1));
                        }
                        match sf[idx].1 {
                            JsonV::Array(items) => if field.selections is Some {
                                proof {
                                    assert(decreases_to!(sf[idx].1 => items));
                                }
                                skipped_in_items(items, sels, frag)
                            } else {
                                true
                            },
                            _ => true,
                        }
                    }
                },
                _ => true,
            },
            Selection::InlineFragment(_) => true,
        }
    }
}

/// The fragment is skipped throughout each of the items.
pub open spec fn skipped_in_items(items: Seq<JsonV>, sels: Seq<Selection>, frag: InlineFragment) -> bool
    decreases items, 0nat,
{
    if items.len() == 0 {
        true
    } else {
        proof {
            assert(decreases_to!(items => items[items.len() - 1]));
        }
        skipped_in_items(items.drop_last(), sels, frag) && skipped_throughout(items[items.len() - 1], sels, frag)
    }
}

proof fn lemma_skip_spec(source: JsonV, sels: Seq<Selection>, frag: InlineFragment)
    requires
        skipped_throughout(source, sels, frag),
    ensures
        select_spec(source, sels.push(Selection::InlineFragment(frag))) == select_spec(source, sels),
    decreases source, sels.len() + 1,
{
    let s2 = sels.push(Selection::InlineFragment(frag));
    if !(source is Null) {
        lemma_skip_fields(source, sels, frag, sels.len());
        assert(s2[sels.len() as int] == Selection::InlineFragment(frag));
        assert(select_fields(source, s2, sels.len() + 1) == select_fields(source, s2, sels.len()));
    }
}

proof fn lemma_skip_fields(source: JsonV, sels: Seq<Selection>, frag: InlineFragment, n: nat)
    requires
        n <= sels.len(),
        skipped_in_fields(source, sels, frag, n),
    ensures
        select_fields(source, sels.push(Selection::InlineFragment(frag)), n) == select_fields(source, sels, n),
    decreases source, n,
{
    let s2 = sels.push(Selection::InlineFragment(frag));
    if n > 0 {
        lemma_skip_fields(source, sels, frag, (n - 1) as nat);
        assert(s2[n - 1] == sels[n - 1]);
        match sels[n - 1] {
            Selection::Field(field) => match source {
                JsonV::Object(sf) => {
                    let idx = key_index(sf, response_name(field));
                    if idx >= 0 {
                        lemma_key_index(sf, response_name(field));
                        assert(decreases_to!(source => sf));
                        assert(decreases_to!(sf => sf[idx]));
                        assert(decreases_to!(sf[idx] => sf[idx].1));
                        match sf[idx].1 {
                            JsonV::Array(items) => if field.selections is Some {
                                assert(decreases_to!(sf[idx].1 => items));
                                lemma_skip_items(items, sels, frag);
                            },
                            _ => {},
                        }
                    }
                },
                _ => {},
            },
            Selection::InlineFragment(_) => {},
        }
    }
}

proof fn lemma_skip_items(items: Seq<JsonV>, sels: Seq<Selection>, frag: InlineFragment)
    requires
        skipped_in_items(items, sels, frag),
    ensures
        select_items(items, sels.push(Selection::InlineFragment(frag))) == select_items(items, sels),
    decreases items, 0nat,
{
    if items.len() > 0 {
        assert(decreases_to!(items => items[items.len() - 1]));
        lemma_skip_items(items.drop_last(), sels, frag);
        lemma_skip_spec(items[items.len() - 1], sels, frag);
    }
}

/// An inline fragment that does not apply adds nothing: appending it to a
/// selection set changes nowhere what the set gives. This holds where the
/// fragment is skipped at the source and at every array element that the set
/// goes on to answer under itself, since those are answered under the set
/// with the fragment too.
pub proof fn law_skipped_fragment_adds_nothing(source: JsonV, sels: Seq<Selection>, frag: InlineFragment)
    requires
        skipped_throughout(source, sels, frag),
    ensures
        select_spec(source, sels.push(Selection::InlineFragment(frag))) == select_spec(source, sels),
{
    lemma_skip_spec(source, sels, frag);
}

/// A field with selections of its own whose value is not an array is
/// answered under those selections; where they cannot be applied to the
/// value, neither can the set.
pub proof fn law_field_answered_under_its_selections(source: JsonV, field: Field, v: JsonV)
    requires
        source is Object,
        field.selections is Some,
        get_key(fields_or_empty(source), response_name(field)) == Some(v),
        !(v is Array),
    ensures
        select_spec(source, seq![Selection::Field(field)]) == match select_spec(v, field.selections->0@) {
            Some(x) => Some(JsonV::Object(seq![(response_name(field), x)])),
            None => None,
        },
{
    let sels = seq![Selection::Field(field)];
    let rn = response_name(field);
    lemma_key_index(fields_or_empty(source), rn);
    let empty = Seq::<(Seq<char>, JsonV)>::empty();
    assert(key_index(empty, rn) == -1);
    assert(sels[0] == Selection::Field(field));
    assert(select_fields(source, sels, 0) == Some(empty));
    match select_spec(v, field.selections->0@) {
        Some(x) => {
            assert(set_key(empty, rn, x) =~= seq![(rn, x)]);
        },
        None => {},
    }
}

/// An inline fragment whose type condition is the source's `__typename`
/// answers with its own selections applied to the source, merged into an
/// empty object.
pub proof fn law_fragment_that_applies(source: JsonV, frag: InlineFragment, t: Seq<char>)
    requires
        source is Object,
        frag.type_condition is Some,
        frag.type_condition->0@ == t,
        get_key(fields_or_empty(source), typename_key()) == Some(JsonV::Str(t)),
    ensures
        select_spec(source, seq![Selection::InlineFragment(frag)]) == match select_spec(source, frag.selections@) {
            Some(x) => Some(merge_spec(JsonV::Object(Seq::empty()), x)),
            None => None,
        },
{
    let sels = seq![Selection::InlineFragment(frag)];
    assert(sels[0] == Selection::InlineFragment(frag));
    assert(select_fields(source, sels, 0) == Some(Seq::<(Seq<char>, JsonV)>::empty()));
}

/// A flatten at a path of keys followed by `@`, where the keys lead to an
/// array: its node runs on that array, the results left as they are; once
/// the node has completed with an array as its data, merging it back
/// replaces the array at the keys by it and changes nothing else. Two such
/// flatten nodes running side by side at one path thus keep the data of the
/// one that ends last.
pub proof fn law_flatten_at_array(m: MachineV, parent: int, inner: int, keys: Seq<Seq<char>>, items: Seq<JsonV>, c: Seq<JsonV>, rest: Seq<FrameV>, acts: Seq<ActV>, services: Seq<(Seq<char>, Seq<char>)>)
    requires
        forall|i: int| 0 <= i < keys.len() ==> keys[i] != at_sign(),
        0 <= parent < m.store.len(),
        0 <= inner < m.store.len(),
        value_at(m.store[parent], keys) == Some(JsonV::Array(items)),
        m.store[inner] == JsonV::Array(c),
    ensures
        flatten_spec(m.store[parent], keys.push(at_sign())) == Some((m.store[parent], JsonV::Array(items))),
        merge_spec(JsonV::Object(Seq::empty()), JsonV::Array(items)) == JsonV::Array(items),
        step_machine(m, rest.push(FrameV::EndFlatten { parent, inner, path: keys.push(at_sign()) }), acts, services)
            == StepV::Goes(set_store(m, m.store.update(parent, replace_at(m.store[parent], keys, JsonV::Array(c)))), rest, acts),
{
    law_flatten_merge_round_trip(m.store[parent], keys, items, c);
    assert(rest.push(FrameV::EndFlatten { parent, inner, path: keys.push(at_sign()) }).drop_last() =~= rest);
}

/// A flatten node whose node changes nothing leaves the results as they
/// were, null fields included: the node runs on the value found at the path
/// merged into an empty object, and that is merged back. This holds for
/// well-formed results, a path whose only `@` is its last key, and a value
/// found at the path that is not null.
pub proof fn law_flatten_of_nothing_keeps_results(data: JsonV, fl: FlattenNode, services: Seq<(Seq<char>, Seq<char>)>, answers: Seq<Option<JsonV>>)
    requires
        well_formed(data),
        at_sign_only_last(path_view(fl.path@)),
        flatten_spec(data, path_view(fl.path@)) is Some,
        !(flatten_spec(data, path_view(fl.path@)).unwrap().1 is Null),
        forall|d: JsonV, a: Seq<Option<JsonV>>| #[trigger] run_spec(*fl.node, d, services, a) == quiet(Some((d, a))),
    ensures
        run_spec(PlanNode::Flatten(fl), data, services, answers) == quiet(Some((data, answers))),
{
    let path = path_view(fl.path@);
    law_restitch(data, path);
    let flat = flatten_spec(data, path).unwrap().1;
    assert(run_spec(*fl.node, merge_spec(JsonV::Object(Seq::empty()), flat), services, answers)
        == quiet(Some((merge_spec(JsonV::Object(Seq::empty()), flat), answers))));
}

/// The same for the plan runner: a flatten node whose node completes at once
/// and changes nothing leaves every scope's data as it was, asks for nothing,
/// and hands back what is left to do.
pub proof fn law_flatten_of_nothing_keeps_state(m: MachineV, fl: FlattenNode, scope: int, cont: Seq<FrameV>, acts: Seq<ActV>, services: Seq<(Seq<char>, Seq<char>)>)
    requires
        0 <= scope < m.store.len(),
        well_formed(m.store[scope]),
        at_sign_only_last(path_view(fl.path@)),
        flatten_spec(m.store[scope], path_view(fl.path@)) is Some,
        !(flatten_spec(m.store[scope], path_view(fl.path@)).unwrap().1 is Null),
        forall|m2: MachineV, s2: int, c2: Seq<FrameV>, a2: Seq<ActV>|
            #[trigger] run_machine(m2, *fl.node, s2, c2, a2, services) == (RunV { m: m2, acts: a2, r: Ok(Some(c2)) }),
    ensures
        run_machine(m, PlanNode::Flatten(fl), scope, cont, acts, services).r == Ok::<Option<Seq<FrameV>>, ExecError>(Some(cont)),
        run_machine(m, PlanNode::Flatten(fl), scope, cont, acts, services).acts == acts,
        run_machine(m, PlanNode::Flatten(fl), scope, cont, acts, services).m.pending == m.pending,
        run_machine(m, PlanNode::Flatten(fl), scope, cont, acts, services).m.joins == m.joins,
        run_machine(m, PlanNode::Flatten(fl), scope, cont, acts, services).m.store.len() == m.store.len() + 1,
        forall|i: int| 0 <= i < m.store.len() ==> #[trigger] run_machine(m, PlanNode::Flatten(fl), scope, cont, acts, services).m.store[i] == m.store[i],
{
    let path = path_view(fl.path@);
    law_restitch(m.store[scope], path);
    let (left, flat) = flatten_spec(m.store[scope], path).unwrap();
    let inner = m.store.len() as int;
    let m1 = set_store(m, m.store.update(scope, left).push(merge_spec(JsonV::Object(Seq::empty()), flat)));
    let c1 = cont.push(FrameV::EndFlatten { parent: scope, inner, path });
    assert(run_machine(m1, *fl.node, inner, c1, acts, services) == (RunV { m: m1, acts, r: Ok(Some(c1)) }));
    assert(m1.store[scope] == left);
    assert(m1.store[inner] == merge_spec(JsonV::Object(Seq::empty()), flat));
    assert(c1.drop_last() =~= cont);
    let o = run_machine(m, PlanNode::Flatten(fl), scope, cont, acts, services);
    assert(o.m.store =~= m1.store.update(scope, m.store[scope]));
}

/// Fields without selections of their own, each found in an object source
/// under a response name of its own, are copied as they are, in order, null
/// and array values included.
pub proof fn law_plain_fields_are_copied(source: JsonV, sels: Seq<Selection>)
    requires
        source is Object,
        forall|i: int| 0 <= i < sels.len() ==> (#[trigger] sels[i]) is Field && sels[i]->Field_0.selections is None
            && get_key(fields_or_empty(source), response_name(sels[i]->Field_0)) is Some,
        forall|i: int, j: int| 0 <= i < j < sels.len()
            ==> response_name((#[trigger] sels[i])->Field_0) != response_name((#[trigger] sels[j])->Field_0),
    ensures
        select_spec(source, sels) == Some(JsonV::Object(Seq::new(sels.len(), |i: int|
            (response_name(sels[i]->Field_0), get_key(fields_or_empty(source), response_name(sels[i]->Field_0)).unwrap())))),
{
    lemma_plain_fields(source, sels, sels.len());
    assert(Seq::new(sels.len(), |i: int| (response_name(sels[i]->Field_0), get_key(fields_or_empty(source), response_name(sels[i]->Field_0)).unwrap()))
        =~= plain_fields(source, sels, sels.len()));
}

spec fn plain_fields(source: JsonV, sels: Seq<Selection>, n: nat) -> Seq<(Seq<char>, JsonV)> {
    Seq::new(n, |i: int| (response_name(sels[i]->Field_0), get_key(fields_or_empty(source), response_name(sels[i]->Field_0)).unwrap()))
}

proof fn lemma_plain_fields(source: JsonV, sels: Seq<Selection>, n: nat)
    requires
        n <= sels.len(),
        source is Object,
        forall|i: int| 0 <= i < sels.len() ==> (#[trigger] sels[i]) is Field && sels[i]->Field_0.selections is None
            && get_key(fields_or_empty(source), response_name(sels[i]->Field_0)) is Some,
        forall|i: int, j: int| 0 <= i < j < sels.len()
            ==> response_name((#[trigger] sels[i])->Field_0) != response_name((#[trigger] sels[j])->Field_0),
    ensures
        select_fields(source, sels, n) == Some(plain_fields(source, sels, n)),
    decreases n,
{
    if n == 0 {
        assert(plain_fields(source, sels, 0) =~= Seq::<(Seq<char>, JsonV)>::empty());
    } else {
        lemma_plain_fields(source, sels, (n - 1) as nat);
        let acc = plain_fields(source, sels, (n - 1) as nat);
        let f = sels[n - 1]->Field_0;
        let rn = response_name(f);
        let sf = fields_or_empty(source);
        lemma_key_index(sf, rn);
        lemma_key_index(acc, rn);
        assert(!has_key(acc, rn)) by {
            if has_key(acc, rn) {
                let i = choose|i: int| 0 <= i < acc.len() && acc[i].0 == rn;
                assert(acc[i].0 == response_name(sels[i]->Field_0));
                assert(response_name(sels[i]->Field_0) != response_name(sels[n - 1]->Field_0));
            }
        }
        assert(sels[n - 1] is Field);
        assert(set_key(acc, rn, get_key(sf, rn).unwrap()) =~= plain_fields(source, sels, n));
    }
}

/// Each representation prepared for the entities of an array is the required
/// selection set applied to the entity whose index comes with it, and it is
/// an object naming its type; an entity gets a representation exactly when
/// its selection is such an object. Preparing succeeds only where every
/// entity's selection can be made.
pub proof fn law_representations_are_selections(es: Seq<JsonV>, req: Seq<Selection>)
    requires
        representations_spec(JsonV::Array(es), req) is Some,
    ensures
        representations_spec(JsonV::Array(es), req).unwrap().0.len() == representations_spec(JsonV::Array(es), req).unwrap().1.len(),
        forall|k: int| 0 <= k < representations_spec(JsonV::Array(es), req).unwrap().0.len() ==> {
            &&& 0 <= representations_spec(JsonV::Array(es), req).unwrap().1[k] < es.len()
            &&& select_spec(es[representations_spec(JsonV::Array(es), req).unwrap().1[k]], req)
                == Some(#[trigger] representations_spec(JsonV::Array(es), req).unwrap().0[k])
            &&& representations_spec(JsonV::Array(es), req).unwrap().0[k] is Object
            &&& get_key(fields_or_empty(representations_spec(JsonV::Array(es), req).unwrap().0[k]), typename_key()) is Some
        },
        forall|i: int| 0 <= i < es.len() ==> (#[trigger] select_spec(es[i], req)) is Some,
        forall|i: int| 0 <= i < es.len() && (#[trigger] select_spec(es[i], req)).unwrap() is Object
            && get_key(fields_or_empty(select_spec(es[i], req).unwrap()), typename_key()) is Some
            ==> exists|k: int| 0 <= k < representations_spec(JsonV::Array(es), req).unwrap().1.len()
                && representations_spec(JsonV::Array(es), req).unwrap().1[k] == i,
{
    lemma_collect_selections(es, req, es.len());
}

proof fn lemma_collect_selections(es: Seq<JsonV>, req: Seq<Selection>, n: nat)
    requires
        n <= es.len(),
        collect_spec(es, req, n) is Some,
    ensures
        collect_spec(es, req, n).unwrap().0.len() == collect_spec(es, req, n).unwrap().1.len(),
        forall|k: int| 0 <= k < collect_spec(es, req, n).unwrap().0.len() ==> {
            &&& 0 <= collect_spec(es, req, n).unwrap().1[k] < n
            &&& select_spec(es[collect_spec(es, req, n).unwrap().1[k]], req) == Some(#[trigger] collect_spec(es, req, n).unwrap().0[k])
            &&& collect_spec(es, req, n).unwrap().0[k] is Object
            &&& get_key(fields_or_empty(collect_spec(es, req, n).unwrap().0[k]), typename_key()) is Some
        },
        forall|i: int| 0 <= i < n ==> (#[trigger] select_spec(es[i], req)) is Some,
        forall|i: int| 0 <= i < n && (#[trigger] select_spec(es[i], req)).unwrap() is Object
            && get_key(fields_or_empty(select_spec(es[i], req).unwrap()), typename_key()) is Some
            ==> exists|k: int| 0 <= k < collect_spec(es, req, n).unwrap().1.len() && collect_spec(es, req, n).unwrap().1[k] == i,
    decreases n,
{
    if n > 0 {
        lemma_collect_selections(es, req, (n - 1) as nat);
        let (reps, idx) = collect_spec(es, req, (n - 1) as nat).unwrap();
        let (reps2, idx2) = collect_spec(es, req, n).unwrap();
        assert forall|i: int| 0 <= i < n && (#[trigger] select_spec(es[i], req)).unwrap() is Object
            && get_key(fields_or_empty(select_spec(es[i], req).unwrap()), typename_key()) is Some
            implies exists|k: int| 0 <= k < idx2.len() && idx2[k] == i by {
            if i < n - 1 {
                let k = choose|k: int| 0 <= k < idx.len() && idx[k] == i;
                assert(idx2[k] == i);
            } else {
                assert(idx2[idx2.len() - 1] == i);
            }
        }
        assert forall|k: int| 0 <= k < reps2.len() implies {
            &&& 0 <= idx2[k] < n
            &&& select_spec(es[idx2[k]], req) == Some(#[trigger] reps2[k])
            &&& reps2[k] is Object
            &&& get_key(fields_or_empty(reps2[k]), typename_key()) is Some
        } by {
            if k < reps.len() {
                assert(reps2[k] == reps[k]);
                assert(idx2[k] == idx[k]);
            }
        }
    } else {
        assert(collect_spec(es, req, 0).unwrap().0 =~= Seq::<JsonV>::empty());
    }
}

proof fn lemma_apply_entities(es: Seq<JsonV>, idx: Seq<int>, received: JsonV, n: nat)
    requires
        n <= es.len(),
        forall|k: int| 0 <= k < idx.len() ==> 0 <= #[trigger] idx[k] < es.len(),
        forall|k: int, l: int| 0 <= k < l < idx.len() ==> #[trigger] idx[k] < #[trigger] idx[l],
    ensures
        apply_entities(es, idx, received, n) is Some,
        apply_entities(es, idx, received, n).unwrap().len() == es.len(),
        forall|k: int| 0 <= k < n && k < idx.len() ==> #[trigger] apply_entities(es, idx, received, n).unwrap()[idx[k]]
            == merge_spec(es[idx[k]], element_or_null(received, k)),
        forall|i: int| 0 <= i < es.len() && (forall|k: int| 0 <= k < n && k < idx.len() ==> idx[k] != i)
            ==> #[trigger] apply_entities(es, idx, received, n).unwrap()[i] == es[i],
    decreases n,
{
    if n > 0 {
        lemma_apply_entities(es, idx, received, (n - 1) as nat);
        let prev = apply_entities(es, idx, received, (n - 1) as nat).unwrap();
        if n - 1 < idx.len() {
            let ri = idx[n - 1];
            assert forall|k: int| 0 <= k < n - 1 && k < idx.len() implies idx[k] != ri by {
                assert(idx[k] < idx[n - 1]);
            }
            assert(prev[ri] == es[ri]);
            let out = apply_entities(es, idx, received, n).unwrap();
            assert forall|k: int| 0 <= k < n && k < idx.len() implies #[trigger] out[idx[k]]
                == merge_spec(es[idx[k]], element_or_null(received, k)) by {
                if k < n - 1 {
                    assert(idx[k] < idx[n - 1]);
                    assert(out[idx[k]] == prev[idx[k]]);
                }
            }
            assert forall|i: int| 0 <= i < es.len() && (forall|k: int| 0 <= k < n && k < idx.len() ==> idx[k] != i)
                implies #[trigger] out[i] == es[i] by {
                assert(idx[n - 1] != i);
                assert(forall|k: int| 0 <= k < n - 1 && k < idx.len() ==> idx[k] != i);
            }
        }
    }
}

/// The entities' answers go to the entities their representations came
/// from: for array results, the answer at position `k` of `_entities` (null
/// where there is none) is merged into the entity whose index came with the
/// `k`-th representation, and every other entity stays as it was.
pub proof fn law_entity_answers_reach_their_entities(es: Seq<JsonV>, idx: Seq<int>, data: JsonV, received: JsonV)
    requires
        forall|k: int| 0 <= k < idx.len() ==> 0 <= #[trigger] idx[k] < es.len(),
        forall|k: int, l: int| 0 <= k < l < idx.len() ==> #[trigger] idx[k] < #[trigger] idx[l],
        get_key(fields_or_empty(data), entities_key()) == Some(received),
    ensures
        merge_fetch_spec(JsonV::Array(es), true, idx, data) is Some,
        merge_fetch_spec(JsonV::Array(es), true, idx, data).unwrap() is Array,
        merge_fetch_spec(JsonV::Array(es), true, idx, data).unwrap()->Array_0.len() == es.len(),
        forall|k: int| 0 <= k < idx.len() ==> #[trigger] merge_fetch_spec(JsonV::Array(es), true, idx, data).unwrap()->Array_0[idx[k]]
            == merge_spec(es[idx[k]], element_or_null(received, k)),
        forall|i: int| 0 <= i < es.len() && (forall|k: int| 0 <= k < idx.len() ==> idx[k] != i)
            ==> #[trigger] merge_fetch_spec(JsonV::Array(es), true, idx, data).unwrap()->Array_0[i] == es[i],
{
    assert(idx.len() <= es.len()) by {
        if idx.len() > es.len() {
            lemma_increasing_bound(idx, es.len() as int);
        }
    }
    lemma_apply_entities(es, idx, received, es.len());
}

proof fn lemma_increasing_bound(idx: Seq<int>, m: int)
    requires
        0 <= m,
        forall|k: int| 0 <= k < idx.len() ==> 0 <= #[trigger] idx[k] < m,
        forall|k: int, l: int| 0 <= k < l < idx.len() ==> #[trigger] idx[k] < #[trigger] idx[l],
    ensures
        idx.len() <= m,
    decreases idx.len(),
{
    if idx.len() > 0 {
        let d = idx.drop_last();
        assert forall|k: int| 0 <= k < d.len() implies 0 <= #[trigger] d[k] < idx.last() by {
            assert(idx[k] < idx[idx.len() - 1]);
        }
        assert forall|k: int, l: int| 0 <= k < l < d.len() implies #[trigger] d[k] < #[trigger] d[l] by {
            assert(idx[k] < idx[l]);
        }
        lemma_increasing_bound(d, idx.last());
        assert(idx[idx.len() - 1] < m);
        assert(idx.last() == idx[idx.len() - 1]);
        assert(d.len() == idx.len() - 1);
    }
}

/// For object results, the one representation sent is the required
/// selection set applied to the object, with index 0, where that is an
/// object naming its type; none is sent otherwise.
pub proof fn law_object_representation(results: JsonV, req: Seq<Selection>)
    requires
        results is Object,
        representations_spec(results, req) is Some,
    ensures
        select_spec(results, req) is Some,
        (select_spec(results, req).unwrap() is Object && get_key(fields_or_empty(select_spec(results, req).unwrap()), typename_key()) is Some)
            ==> representations_spec(results, req) == Some((seq![select_spec(results, req).unwrap()], seq![0int])),
        !(select_spec(results, req).unwrap() is Object && get_key(fields_or_empty(select_spec(results, req).unwrap()), typename_key()) is Some)
            ==> representations_spec(results, req) == Some((Seq::<JsonV>::empty(), Seq::<int>::empty())),
{
}

/// A fetch without required fields sends its operation, with no variables,
/// to its service, and the next answer is merged into the data; where sending
/// failed, the data stay as they are.
pub proof fn law_fetch_merges_its_answer(f: crate::plan::FetchNode, data: JsonV, services: Seq<(Seq<char>, Seq<char>)>, url: Seq<char>, answers: Seq<Option<JsonV>>)
    requires
        f.requires is None,
        get_key(services, f.service_name@) == Some(url),
        answers.len() > 0,
    ensures
        run_spec(PlanNode::Fetch(f), data, services, answers) == (Trace {
            sent: seq![SentV { url, query: f.operation@, variables: JsonV::Object(Seq::empty()) }],
            out: Some((
                match answers[0] {
                    Some(d) => merge_spec(data, d),
                    None => data,
                },
                answers.drop_first(),
            )),
        }),
{
}

/// The nodes of a sequence run one after the other: the second runs on the
/// data the first leaves, with the answers the first leaves, and the
/// requests of both are sent in that order.
pub proof fn law_sequence_runs_in_order(nodes: Vec<PlanNode>, data: JsonV, services: Seq<(Seq<char>, Seq<char>)>, answers: Seq<Option<JsonV>>)
    requires
        nodes@.len() == 2,
    ensures
        run_spec(PlanNode::Sequence { nodes }, data, services, answers) == match run_spec(nodes@[0], data, services, answers).out {
            None => run_spec(nodes@[0], data, services, answers),
            Some((v, r)) => Trace {
                sent: run_spec(nodes@[0], data, services, answers).sent + run_spec(nodes@[1], v, services, r).sent,
                out: run_spec(nodes@[1], v, services, r).out,
            },
        },
{
    let sq = nodes@;
    let t = run_spec(sq[0], data, services, answers);
    assert(run_spec(PlanNode::Sequence { nodes }, data, services, answers) == crate::semantics::run_seq_spec(sq, 0, data, services, answers));
    match t.out {
        None => {},
        Some((v, r)) => {
            let t2 = run_spec(sq[1], v, services, r);
            let u = crate::semantics::run_seq_spec(sq, 1, v, services, r);
            assert(crate::semantics::run_seq_spec(sq, 0, data, services, answers) == (Trace { sent: t.sent + u.sent, out: u.out }));
            match t2.out {
                None => {
                    assert(u == t2);
                },
                Some((w, r2)) => {
                    assert(crate::semantics::run_seq_spec(sq, 2, w, services, r2) == quiet(Some((w, r2))));
                    assert(u.sent =~= t2.sent + Seq::<SentV>::empty());
                    assert(t2.sent + Seq::<SentV>::empty() =~= t2.sent);
                },
            }
        },
    }
}

/// Running a plan that is one fetch without required fields: starting it
/// asks for the fetch on the empty results and waits; its answer is then
/// merged into the empty results and the plan has run to its end.
pub proof fn law_single_fetch_plan(f: crate::plan::FetchNode, services: Seq<(Seq<char>, Seq<char>)>, d: JsonV)
    requires
        f.requires is None,
        get_key(services, f.service_name@) is Some,
    ensures
        start_spec(PlanNode::Fetch(f), services) == (RunV {
            m: MachineV {
                store: seq![JsonV::Object(Seq::empty())],
                pending: seq![Some(PendV { stack: Seq::empty(), scope: 0, has_requires: false, reps: Seq::empty() })],
                joins: Seq::empty(),
                finished: false,
            },
            acts: seq![ActV { id: 0, fetch: f, source: JsonV::Object(Seq::empty()) }],
            r: Ok(None),
        }),
        answer_spec(start_spec(PlanNode::Fetch(f), services).m, 0, Some(d), services, 1) == Some(RunV {
            m: MachineV {
                store: seq![merge_spec(JsonV::Object(Seq::empty()), d)],
                pending: seq![None],
                joins: Seq::empty(),
                finished: true,
            },
            acts: Seq::empty(),
            r: Ok(None),
        }),
{
    let m0 = crate::machine::initial_machine();
    assert(m0.pending.push(Some(PendV { stack: Seq::empty(), scope: 0, has_requires: false, reps: Seq::empty() }))
        =~= seq![Some(PendV { stack: Seq::empty(), scope: 0, has_requires: false, reps: Seq::empty() })]);
    assert(Seq::<ActV>::empty().push(ActV { id: 0, fetch: f, source: JsonV::Object(Seq::empty()) })
        =~= seq![ActV { id: 0, fetch: f, source: JsonV::Object(Seq::empty()) }]);
    let m = start_spec(PlanNode::Fetch(f), services).m;
    assert(m.pending.update(0, None) =~= seq![None]);
    assert(m.store.update(0, merge_spec(JsonV::Object(Seq::empty()), d)) =~= seq![merge_spec(JsonV::Object(Seq::empty()), d)]);
}

} // verus!
