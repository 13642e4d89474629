//! Reading the fields that a selection set names out of a JSON value.
use vstd::prelude::*;
use crate::assoc::{get_key, key_index, lemma_key_index, set_key};
use crate::json::{fields_or_empty, fields_view, find_key, items_view, key_view, lemma_fields_key_index, set_field, Json, JsonV};
use crate::merge::{merge, merge_fields, merge_spec};
use crate::plan::{Field, InlineFragment, Selection};

verus! {

/// The key under which a field is answered: its alias, or else its name.
pub open spec fn response_name(field: Field) -> Seq<char> {
    match field.alias {
        Some(a) => a@,
        None => field.name@,
    }
}

/// The key that names a value's type.
pub open spec fn typename_key() -> Seq<char> {
    "__typename"@
}

/// The selection set applied to `source`; none where a field is looked up in
/// a value that is not an object, or is missing from it.
///
/// A null source gives null; any other source gives the object of
/// `select_fields` over all the selections.
pub open spec fn select_spec(source: JsonV, sels: Seq<Selection>) -> Option<JsonV>
    decreases source, sels, sels.len() + 1,
{
    if source is Null {
        Some(JsonV::Null)
    } else {
        match select_fields(source, sels, sels.len()) {
            Some(fields) => Some(JsonV::Object(fields)),
            None => None,
        }
    }
}

/// The fields built from the first `n` selections applied to a source that
/// is not null; none where one of them gives none.
///
/// A field is looked up in the source under its response name (missing, or a
/// source that is not an object, gives none). An array is answered element by
/// element: each element under the whole selection set where the field has
/// selections of its own, else as it is. Any other value is answered under the
/// field's own selections where it has some, else as it is. The answer is
/// bound to the response name.
///
/// An inline fragment applies only where it has a type condition and the
/// source has a `__typename` (which must then be a string) equal to it; its
/// selections are then merged into the fields built so far.
pub open spec fn select_fields(source: JsonV, sels: Seq<Selection>, n: nat) -> Option<Seq<(Seq<char>, JsonV)>>
    decreases source, sels, n,
{
    if n == 0 || n > sels.len() {
        Some(Seq::empty())
    } else {
        match select_fields(source, sels, (n - 1) as nat) {
            None => None,
            Some(acc) => {
                proof {
                    assert(decreases_to!(sels => sels[n - 1]));
                }
                match sels[n - 1] {
                    Selection::Field(field) => {
                        let rn = response_name(field);
                        match source {
                            JsonV::Object(sf) => {
                                let idx = key_index(sf, rn);
                                if idx < 0 {
                                    None
                                } else {
                                    proof {
                                        lemma_key_index(sf, rn);
                                        assert(decreases_to!(source => sf));
                                        assert(decreases_to!(sf => sf[idx]));
                                        assert(decreases_to!(sf[idx] => sf[idx].1));
                                    }
                                    let rv = sf[idx].1;
                                    match rv {
                                        JsonV::Array(items) => {
                                            if field.selections is Some {
                                                proof {
                                                    assert(decreases_to!(rv => items));
                                                }
                                                match select_items(items, sels) {
                                                    Some(out) => Some(set_key(acc, rn, JsonV::Array(out))),
                                                    None => None,
                                                }
                                            } else {
                                                Some(set_key(acc, rn, rv))
                                            }
                                        },
                                        _ => match field.selections {
                                            Some(fs) => match select_spec(rv, fs@) {
                                                Some(x) => Some(set_key(acc, rn, x)),
                                                None => None,
                                            },
                                            None => Some(set_key(acc, rn, rv)),
                                        },
                                    }
                                }
                            },
                            _ => None,
                        }
                    },
                    Selection::InlineFragment(frag) => {
                        match frag.type_condition {
                            None => Some(acc),
                            Some(tc) => match get_key(fields_or_empty(source), typename_key()) {
                                None => Some(acc),
                                Some(JsonV::Str(t)) => {
                                    if t == tc@ {
                                        proof {
                                            assert(decreases_to!(sels[n - 1] => frag));
                                            assert(decreases_to!(frag => frag.selections));
                                            assert(decreases_to!(frag.selections => frag.selections@));
                                        }
                                        match select_fields(source, frag.selections@, frag.selections@.len()) {
                                            Some(more) => Some(merge_fields(acc, more)),
                                            None => None,
                                        }
                                    } else {
                                        Some(acc)
                                    }
                                },
                                Some(_) => None,
                            },
                        }
                    },
                }
            },
        }
    }
}

/// The selection set applied to each of the items, in order; none where it
/// gives none for one of them.
pub open spec fn select_items(items: Seq<JsonV>, sels: Seq<Selection>) -> Option<Seq<JsonV>>
    decreases items, sels, 0nat,
{
    if items.len() == 0 {
        Some(Seq::empty())
    } else {
        proof {
            assert(decreases_to!(items => items[items.len() - 1]));
        }
        match select_items(items.drop_last(), sels) {
            Some(done) => match select_spec(items[items.len() - 1], sels) {
                Some(x) => Some(done.push(x)),
                None => None,
            },
            None => None,
        }
    }
}

/// Where some of the selections fail, all of them do.
proof fn lemma_select_fields_none(source: JsonV, sels: Seq<Selection>, m: nat)
    requires
        m <= sels.len(),
        select_fields(source, sels, m) is None,
    ensures
        select_fields(source, sels, sels.len()) is None,
    decreases sels.len() - m,
{
    if m < sels.len() {
        lemma_select_fields_none(source, sels, m + 1);
    }
}

/// Where one item fails, the items fail.
proof fn lemma_select_items_none(items: Seq<JsonV>, sels: Seq<Selection>, j: int)
    requires
        0 <= j < items.len(),
        select_spec(items[j], sels) is None,
    ensures
        select_items(items, sels) is None,
    decreases items.len(),
{
    if j < items.len() - 1 {
        lemma_select_items_none(items.drop_last(), sels, j);
    }
}

/// Applies a selection set to a JSON value, as `select_spec` says; none
/// where that gives none.
#[verifier::loop_isolation(false)]
pub fn try_execute_selection_set(source: &Json, selections: &Vec<Selection>) -> (r: Option<Json>)
    ensures
        match r {
            Some(x) => select_spec(source@, selections@) == Some(x@),
            None => select_spec(source@, selections@) is None,
        },
    decreases source@, selections@, selections@.len() + 1,
{
    if source.is_null() {
        return Some(Json::Null);
    }
    let mut acc: Vec<(String, Json)> = Vec::new();
    let mut i: usize = 0;
    assert(fields_view(acc@) =~= Seq::empty());
    while i < selections.len()
        invariant
            i <= selections.len(),
            select_fields(source@, selections@, i as nat) == Some(fields_view(acc@)),
        decreases selections.len() - i,
    {
        let ghost fv = fields_view(acc@);
        match &selections[i] {
            Selection::Field(field) => {
                let rn: &String = match &field.alias {
                    Some(a) => a,
                    None => &field.name,
                };
                assert(rn@ == response_name(*field));
                match source {
                    Json::Object(sfields) => {
                        proof {
                            lemma_fields_key_index(sfields@, rn@);
                            lemma_key_index(key_view(sfields@), rn@);
                        }
                        match find_key(sfields, rn) {
                            Some(idx) => {
                                let rv = &sfields[idx].1;
                                let ghost sv = fields_view(sfields@);
                                proof {
                                    assert(sv[idx as int].1 == rv@);
                                    assert(decreases_to!(source@ => sv));
                                    assert(decreases_to!(sv => sv[idx as int]));
                                    assert(decreases_to!(sv[idx as int] => sv[idx as int].1));
                                }
                                match rv {
                                    Json::Array(items) => {
                                        if field.selections.is_some() {
                                            let ghost iv = items_view(items@);
                                            let mut out: Vec<Json> = Vec::new();
                                            let mut j: usize = 0;
                                            assert(iv.take(0) =~= Seq::empty());
                                            assert(items_view(out@) =~= Seq::empty());
                                            while j < items.len()
                                                invariant
                                                    j <= items.len(),
                                                    select_items(iv.take(j as int), selections@) == Some(items_view(out@)),
                                                decreases items.len() - j,
                                            {
                                                proof {
                                                    assert(iv.take(j + 1).drop_last() =~= iv.take(j as int));
                                                    assert(iv.take(j + 1)[j as int] == items@[j as int]@);
                                                    assert(rv@ == JsonV::Array(iv));
                                                    assert(rv@->Array_0 == iv);
                                                    assert(decreases_to!(rv@ => rv@->Array_0));
                                                    assert(decreases_to!(iv => iv[j as int]));
                                                }
                                                let x = match try_execute_selection_set(&items[j], selections) {
                                                    Some(x) => x,
                                                    None => {
                                                        proof {
                                                            lemma_select_items_none(iv, selections@, j as int);
                                                            lemma_select_fields_none(source@, selections@, (i + 1) as nat);
                                                        }
                                                        return None;
                                                    },
                                                };
                                                let ghost before = items_view(out@);
                                                out.push(x);
                                                assert(items_view(out@) =~= before.push(x@));
                                                j += 1;
                                            }
                                            assert(iv.take(items.len() as int) =~= iv);
                                            set_field(&mut acc, rn.clone(), Json::Array(out));
                                        } else {
                                            set_field(&mut acc, rn.clone(), rv.deep_clone());
                                        }
                                    },
                                    _ => match &field.selections {
                                        Some(fs) => {
                                            let x = match try_execute_selection_set(rv, fs) {
                                                Some(x) => x,
                                                None => {
                                                    proof {
                                                        lemma_select_fields_none(source@, selections@, (i + 1) as nat);
                                                    }
                                                    return None;
                                                },
                                            };
                                            set_field(&mut acc, rn.clone(), x);
                                        },
                                        None => {
                                            set_field(&mut acc, rn.clone(), rv.deep_clone());
                                        },
                                    },
                                }
                            },
                            None => {
                                proof {
                                    lemma_select_fields_none(source@, selections@, (i + 1) as nat);
                                }
                                return None;
                            },
                        }
                    },
                    _ => {
                        proof {
                            lemma_select_fields_none(source@, selections@, (i + 1) as nat);
                        }
                        return None;
                    },
                }
            },
            Selection::InlineFragment(frag) => {
                match &frag.type_condition {
                    None => {},
                    Some(tc) => {
                        let tk = "__typename".to_owned();
                        match source.get(&tk) {
                            None => {},
                            Some(t) => {
                                match t {
                                    Json::String(ts) => {
                                        if *ts == *tc {
                                            proof {
                                                assert(decreases_to!(selections@ => selections@[i as int]));
                                                assert(decreases_to!(selections@[i as int] => *frag));
                                                assert(decreases_to!(*frag => frag.selections));
                                                assert(decreases_to!(frag.selections => frag.selections@));
                                            }
                                            let sub = match try_execute_selection_set(source, &frag.selections) {
                                                Some(x) => x,
                                                None => {
                                                    proof {
                                                        lemma_select_fields_none(source@, selections@, (i + 1) as nat);
                                                    }
                                                    return None;
                                                },
                                            };
                                            let mut res = Json::Object(acc);
                                            merge(&mut res, &sub);
                                            acc = match res {
                                                Json::Object(f) => f,
                                                _ => {
                                                    proof {
                                                        assert(false);
                                                    }
                                                    Vec::new()
                                                },
                                            };
                                        }
                                    },
                                    _ => {
                                        proof {
                                            lemma_select_fields_none(source@, selections@, (i + 1) as nat);
                                        }
                                        return None;
                                    },
                                }
                            },
                        }
                    },
                }
            },
        }
        i += 1;
    }
    Some(Json::Object(acc))
}

/// Applies a selection set to a JSON value, as `select_spec` says.
pub fn execute_selection_set(source: &Json, selections: &Vec<Selection>) -> (r: Json)
    requires
        select_spec(source@, selections@) is Some,
    ensures
        r@ == select_spec(source@, selections@).unwrap(),
{
    match try_execute_selection_set(source, selections) {
        Some(x) => x,
        None => Json::Null,
    }
}

} // verus!
