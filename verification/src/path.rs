//! Reading and writing the results of a plan at a response path.
//!
//! A path is a list of keys; the key `@` stands for every element of an array.
use vstd::prelude::*;
use crate::assoc::{key_index, lemma_key_index};
use crate::json::{fields_view, find_key, key_view, lemma_fields_key_index, Json, JsonV};
use crate::merge::{merge, merge_spec};

verus! {

/// The key that stands for every element of an array.
pub open spec fn at_sign() -> Seq<char> {
    seq!['@']
}

/// The keys of a path, as sequences of characters.
pub open spec fn path_view(path: Seq<String>) -> Seq<Seq<char>> {
    Seq::new(path.len(), |i: int| path[i]@)
}

/// Is the key the one that stands for every element of an array.
pub fn is_at_sign(key: &String) -> (r: bool)
    ensures
        r == (key@ == at_sign()),
{
    let at = "@".to_owned();
    proof {
        reveal_strlit("@");
        assert("@"@ =~= seq!['@']);
    }
    *key == at
}

/// Flattening `v` at `path`: the value as it is left, and the value handed
/// back; none where a key, other than `@`, is missing, or is met on a value
/// that is neither an object nor null.
///
/// An empty path or a null value is handed back as it is. At `@`, an array is
/// replaced by the array of what flattening each element at the rest of the
/// path hands back, and that array is handed back; any other value is handed
/// back as it is. At any other key, the field's value is flattened at the
/// rest of the path, in place.
pub open spec fn flatten_spec(v: JsonV, path: Seq<Seq<char>>) -> Option<(JsonV, JsonV)>
    decreases 2 * path.len(), 0nat,
{
    if path.len() == 0 || v is Null {
        Some((v, v))
    } else if path[0] == at_sign() {
        match v {
            JsonV::Array(items) => match flatten_items(items, path.drop_first()) {
                Some(out) => Some((JsonV::Array(out), JsonV::Array(out))),
                None => None,
            },
            _ => Some((v, v)),
        }
    } else {
        match v {
            JsonV::Object(fields) => {
                let idx = key_index(fields, path[0]);
                if idx < 0 {
                    None
                } else {
                    match flatten_spec(fields[idx].1, path.drop_first()) {
                        Some((inner, res)) => Some((JsonV::Object(fields.update(idx, (fields[idx].0, inner))), res)),
                        None => None,
                    }
                }
            },
            _ => None,
        }
    }
}

/// What flattening each of the values at the path hands back, in order; none
/// where flattening one of them gives none.
pub open spec fn flatten_items(items: Seq<JsonV>, path: Seq<Seq<char>>) -> Option<Seq<JsonV>>
    decreases 2 * path.len() + 1, items.len(),
{
    if items.len() == 0 {
        Some(Seq::empty())
    } else {
        match flatten_items(items.drop_last(), path) {
            Some(done) => match flatten_spec(items.last(), path) {
                Some((_, res)) => Some(done.push(res)),
                None => None,
            },
            None => None,
        }
    }
}

/// Merging `child` into `parent` at `path`; none where a key, other than `@`,
/// is missing, or is met on a value that is not an object.
///
/// At the end of the path, or for a null child, the child is merged in. At
/// `@`, the child is merged into an array, and any other value is left as it
/// is. At any other key, the child is merged into the field's value at the
/// rest of the path.
pub open spec fn merge_at_path_spec(parent: JsonV, child: JsonV, path: Seq<Seq<char>>) -> Option<JsonV>
    decreases path.len(),
{
    if path.len() == 0 || child is Null {
        Some(merge_spec(parent, child))
    } else if path[0] == at_sign() {
        if parent is Array {
            Some(merge_spec(parent, child))
        } else {
            Some(parent)
        }
    } else {
        match parent {
            JsonV::Object(fields) => {
                let idx = key_index(fields, path[0]);
                if idx < 0 {
                    None
                } else {
                    match merge_at_path_spec(fields[idx].1, child, path.drop_first()) {
                        Some(inner) => Some(JsonV::Object(fields.update(idx, (fields[idx].0, inner)))),
                        None => None,
                    }
                }
            },
            _ => None,
        }
    }
}

/// Where flattening some prefix of the items gives none, flattening them all
/// does too.
proof fn lemma_flatten_items_none(items: Seq<JsonV>, path: Seq<Seq<char>>, n: int)
    requires
        0 <= n <= items.len(),
        flatten_items(items.take(n), path) is None,
    ensures
        flatten_items(items, path) is None,
    decreases items.len() - n,
{
    if n < items.len() {
        assert(items.take(n + 1).drop_last() =~= items.take(n));
        lemma_flatten_items_none(items, path, n + 1);
    } else {
        assert(items.take(n) =~= items);
    }
}

proof fn lemma_path_skip(path: Seq<String>, start: int)
    requires
        0 <= start < path.len(),
    ensures
        path_view(path).skip(start).len() > 0,
        path_view(path).skip(start)[0] == path[start]@,
        path_view(path).skip(start).drop_first() =~= path_view(path).skip(start + 1),
{
}

fn flatten_from(value: &mut Json, path: &Vec<String>, start: usize) -> (r: Option<Json>)
    requires
        start <= path.len(),
    ensures
        match r {
            Some(x) => flatten_spec(old(value)@, path_view(path@).skip(start as int)) == Some((final(value)@, x@)),
            None => flatten_spec(old(value)@, path_view(path@).skip(start as int)) is None,
        },
    decreases path.len() - start,
{
    let ghost rest = path_view(path@).skip(start as int);
    if start >= path.len() || value.is_null() {
        return Some(value.deep_clone());
    }
    proof {
        lemma_path_skip(path@, start as int);
    }
    let mut taken = Json::Null;
    std::mem::swap(&mut taken, value);
    if is_at_sign(&path[start]) {
        match taken {
            Json::Array(items) => {
                let ghost ivs = crate::json::items_view(items@);
                let mut out: Vec<Json> = Vec::new();
                let mut i: usize = 0;
                assert(ivs.take(0) =~= Seq::empty());
                assert(crate::json::items_view(out@) =~= Seq::empty());
                while i < items.len()
                    invariant
                        i <= items.len(),
                        start < path.len(),
                        ivs == crate::json::items_view(items@),
                        old(value)@ == JsonV::Array(ivs),
                        rest == path_view(path@).skip(start as int),
                        rest.len() > 0,
                        rest[0] == at_sign(),
                        rest.drop_first() =~= path_view(path@).skip(start + 1),
                        flatten_items(ivs.take(i as int), rest.drop_first()) == Some(crate::json::items_view(out@)),
                    decreases items.len() - i,
                {
                    assert(ivs.take(i + 1).drop_last() =~= ivs.take(i as int));
                    assert(ivs.take(i + 1).last() == items@[i as int]@);
                    let mut it = items[i].deep_clone();
                    let r = match flatten_from(&mut it, path, start + 1) {
                        Some(r) => r,
                        None => {
                            proof {
                                lemma_flatten_items_none(ivs, rest.drop_first(), i as int + 1);
                            }
                            return None;
                        },
                    };
                    let ghost before = crate::json::items_view(out@);
                    out.push(r);
                    assert(crate::json::items_view(out@) =~= before.push(r@));
                    i += 1;
                }
                assert(ivs.take(items.len() as int) =~= ivs);
                *value = Json::Array(out);
                Some(value.deep_clone())
            },
            other => {
                *value = other;
                Some(value.deep_clone())
            },
        }
    } else {
        match taken {
            Json::Object(mut fields) => {
                proof {
                    lemma_fields_key_index(fields@, path@[start as int]@);
                    lemma_key_index(key_view(fields@), path@[start as int]@);
                }
                match find_key(&fields, &path[start]) {
                    Some(idx) => {
                        let ghost fv = fields_view(fields@);
                        let (k, mut inner) = fields.remove(idx);
                        assert(inner@ == fv[idx as int].1);
                        let r = flatten_from(&mut inner, path, start + 1);
                        fields.insert(idx, (k, inner));
                        assert(fields_view(fields@) =~= fv.update(idx as int, (fv[idx as int].0, inner@)));
                        *value = Json::Object(fields);
                        r
                    },
                    None => None,
                }
            },
            _ => None,
        }
    }
}

/// Flattens the results at a path as `flatten_spec` says; none where that
/// gives none, and then nothing is said of what is left in the value.
pub fn try_flatten_results_at_path(value: &mut Json, path: &Vec<String>) -> (r: Option<Json>)
    ensures
        match r {
            Some(x) => flatten_spec(old(value)@, path_view(path@)) == Some((final(value)@, x@)),
            None => flatten_spec(old(value)@, path_view(path@)) is None,
        },
{
    assert(path_view(path@).skip(0) =~= path_view(path@));
    flatten_from(value, path, 0)
}

/// Flattens the results at a path: the value is changed as `flatten_spec`
/// says, and what flattening hands back is returned.
pub fn flatten_results_at_path(value: &mut Json, path: &Vec<String>) -> (r: Json)
    requires
        flatten_spec(old(value)@, path_view(path@)) is Some,
    ensures
        (final(value)@, r@) == flatten_spec(old(value)@, path_view(path@)).unwrap(),
{
    match try_flatten_results_at_path(value, path) {
        Some(x) => x,
        None => Json::Null,
    }
}

fn merge_at_from(parent: &mut Json, child: &Json, path: &Vec<String>, start: usize) -> (ok: bool)
    requires
        start <= path.len(),
    ensures
        ok == merge_at_path_spec(old(parent)@, child@, path_view(path@).skip(start as int)) is Some,
        ok ==> final(parent)@ == merge_at_path_spec(old(parent)@, child@, path_view(path@).skip(start as int)).unwrap(),
    decreases path.len() - start,
{
    if start >= path.len() || child.is_null() {
        merge(parent, child);
        return true;
    }
    proof {
        lemma_path_skip(path@, start as int);
    }
    if is_at_sign(&path[start]) {
        if parent.is_array() {
            merge(parent, child);
        }
        return true;
    }
    let mut taken = Json::Null;
    std::mem::swap(&mut taken, parent);
    match taken {
        Json::Object(mut fields) => {
            proof {
                lemma_fields_key_index(fields@, path@[start as int]@);
                lemma_key_index(key_view(fields@), path@[start as int]@);
            }
            match find_key(&fields, &path[start]) {
                Some(idx) => {
                    let ghost fv = fields_view(fields@);
                    let (k, mut inner) = fields.remove(idx);
                    assert(inner@ == fv[idx as int].1);
                    let ok = merge_at_from(&mut inner, child, path, start + 1);
                    fields.insert(idx, (k, inner));
                    assert(fields_view(fields@) =~= fv.update(idx as int, (fv[idx as int].0, inner@)));
                    *parent = Json::Object(fields);
                    ok
                },
                None => false,
            }
        },
        _ => false,
    }
}

/// Merges data fetched for the values at a path back into the results, as
/// `merge_at_path_spec` says; false where that gives none, and then nothing is
/// said of what is left in the results.
pub fn try_merge_flattend_results(parent_data: &mut Json, child_data: &Json, path: &Vec<String>) -> (ok: bool)
    ensures
        ok == merge_at_path_spec(old(parent_data)@, child_data@, path_view(path@)) is Some,
        ok ==> final(parent_data)@ == merge_at_path_spec(old(parent_data)@, child_data@, path_view(path@)).unwrap(),
{
    assert(path_view(path@).skip(0) =~= path_view(path@));
    merge_at_from(parent_data, child_data, path, 0)
}

/// Merges data fetched for the values at a path back into the results, as
/// `merge_at_path_spec` says.
pub fn merge_flattend_results(parent_data: &mut Json, child_data: &Json, path: &Vec<String>)
    requires
        merge_at_path_spec(old(parent_data)@, child_data@, path_view(path@)) is Some,
    ensures
        final(parent_data)@ == merge_at_path_spec(old(parent_data)@, child_data@, path_view(path@)).unwrap(),
{
    try_merge_flattend_results(parent_data, child_data, path);
}

/// The data that the node of a flatten runs on, taken from the results: the
/// results are flattened at the path, and what that hands back is merged into
/// an empty object; none where `flatten_spec` gives none.
pub fn try_begin_flatten(results: &mut Json, path: &Vec<String>) -> (r: Option<Json>)
    ensures
        match r {
            Some(inner) => flatten_spec(old(results)@, path_view(path@)) matches Some((left, flat))
                && final(results)@ == left
                && inner@ == merge_spec(JsonV::Object(Seq::empty()), flat),
            None => flatten_spec(old(results)@, path_view(path@)) is None,
        },
{
    match try_flatten_results_at_path(results, path) {
        None => None,
        Some(flat) => {
            let mut inner = Json::empty_object();
            merge(&mut inner, &flat);
            Some(inner)
        },
    }
}

} // verus!
