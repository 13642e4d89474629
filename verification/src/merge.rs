//! JSON merge patch (RFC 7396): a patch object is applied key by key, a null
//! value removing its key, and any other patch replaces the document.
use vstd::prelude::*;
use crate::assoc::{get_key, key_index, lemma_key_index, remove_key, set_key};
use crate::json::{fields_or_empty, fields_view, find_key, key_view, lemma_fields_key_index, Json, JsonV};

verus! {

/// The value of `k` in the fields, or null where there is none.
pub open spec fn get_or_null(fields: Seq<(Seq<char>, JsonV)>, k: Seq<char>) -> JsonV {
    match get_key(fields, k) {
        Some(v) => v,
        None => JsonV::Null,
    }
}

/// The document after the patch is merged into it: a patch that is not an
/// object replaces the document; an object patch is applied field by field
/// to the document's fields (to none where the document is not an object).
pub open spec fn merge_spec(doc: JsonV, patch: JsonV) -> JsonV
    decreases patch,
{
    match patch {
        JsonV::Object(pf) => JsonV::Object(merge_fields(fields_or_empty(doc), pf)),
        _ => patch,
    }
}

/// The fields after the patch's fields are applied in order: a null field
/// removes the key, any other is merged into the key's value (null where the
/// key is absent).
pub open spec fn merge_fields(
    base: Seq<(Seq<char>, JsonV)>,
    pf: Seq<(Seq<char>, JsonV)>,
) -> Seq<(Seq<char>, JsonV)>
    decreases pf,
{
    if pf.len() == 0 {
        base
    } else {
        proof {
            assert(decreases_to!(pf => pf[pf.len() - 1]));
        }
        let acc = merge_fields(base, pf.drop_last());
        let k = pf[pf.len() - 1].0;
        let v = pf[pf.len() - 1].1;
        if v is Null {
            remove_key(acc, k)
        } else {
            set_key(acc, k, merge_spec(get_or_null(acc, k), v))
        }
    }
}

/// Drops every field whose key is `key`, the others keeping their order.
pub fn remove_field(fields: &mut Vec<(String, Json)>, key: &String)
    ensures
        fields_view(final(fields)@) == remove_key(fields_view(old(fields)@), key@),
{
    let ghost orig = fields_view(fields@);
    let mut i: usize = 0;
    let ghost mut j: int = 0;
    assert(orig.take(0).len() == 0);
    assert(remove_key(orig.take(0), key@) =~= Seq::empty());
    assert(fields_view(fields@) =~= remove_key(orig.take(0), key@) + orig.skip(0));
    while i < fields.len()
        invariant
            0 <= j <= orig.len(),
            i as int == remove_key(orig.take(j), key@).len(),
            fields_view(fields@) == remove_key(orig.take(j), key@) + orig.skip(j),
        decreases fields.len() - i,
    {
        let ghost before = fields_view(fields@);
        assert(before.len() == fields@.len());
        assert(before.len() == remove_key(orig.take(j), key@).len() + orig.skip(j).len());
        assert(j < orig.len());
        assert(orig.skip(j)[0] == orig[j]);
        assert(before[i as int] == orig[j]);
        assert(orig.take(j + 1).drop_last() =~= orig.take(j));
        assert(orig.take(j + 1).last() == orig[j]);
        if fields[i].0 == *key {
            let ghost rm = remove_key(orig.take(j), key@);
            assert(orig[j].0 == key@);
            assert(remove_key(orig.take(j + 1), key@) == rm);
            fields.remove(i);
            let ghost after = fields_view(fields@);
            assert forall|x: int| 0 <= x < after.len() implies after[x] == (rm + orig.skip(j + 1))[x] by {
                if x < i {
                    assert(after[x] == before[x]);
                } else {
                    assert(after[x] == before[x + 1]);
                }
            }
            assert(after =~= rm + orig.skip(j + 1));
        } else {
            i += 1;
            assert(fields_view(fields@) =~= remove_key(orig.take(j + 1), key@) + orig.skip(j + 1));
        }
        proof {
            j = j + 1;
        }
    }
    assert(orig.take(j) =~= orig);
}

/// Merges `patch` into `doc` as `merge_spec` says.
#[verifier::loop_isolation(false)]
pub fn merge(doc: &mut Json, patch: &Json)
    ensures
        final(doc)@ == merge_spec(old(doc)@, patch@),
    decreases patch,
{
    match patch {
        Json::Object(pfields) => {
            let mut taken = Json::Null;
            std::mem::swap(&mut taken, doc);
            let mut fields: Vec<(String, Json)> = match taken {
                Json::Object(f) => f,
                _ => Vec::new(),
            };
            let ghost base = fields_view(fields@);
            assert(base =~= fields_or_empty(old(doc)@));
            let ghost pview = fields_view(pfields@);
            assert(pview.take(0) =~= Seq::empty());
            let mut i: usize = 0;
            while i < pfields.len()
                invariant
                    i <= pfields.len(),
                    pview == fields_view(pfields@),
                    fields_view(fields@) == merge_fields(base, pview.take(i as int)),
                decreases pfields.len() - i,
            {
                let ghost acc = fields_view(fields@);
                assert(pview.take(i + 1).drop_last() =~= pview.take(i as int));
                assert(pview.take(i + 1)[i as int] == pview[i as int]);
                let key = &pfields[i].0;
                let value = &pfields[i].1;
                if value.is_null() {
                    remove_field(&mut fields, key);
                } else {
                    proof {
                        lemma_fields_key_index(fields@, key@);
                        lemma_key_index(key_view(fields@), key@);
                        assert(decreases_to!(*patch => *pfields));
                        assert(decreases_to!(*pfields => pfields@));
                        assert(decreases_to!(pfields@ => pfields@[i as int]));
                        assert(decreases_to!(pfields@[i as int] => pfields@[i as int].1));
                    }
                    match find_key(&fields, key) {
                        Some(idx) => {
                            let (k, mut cur) = fields.remove(idx);
                            assert(cur@ == get_or_null(acc, key@));
                            merge(&mut cur, value);
                            fields.insert(idx, (k, cur));
                            assert(fields_view(fields@) =~= set_key(acc, key@, merge_spec(get_or_null(acc, key@), value@)));
                        },
                        None => {
                            let mut cur = Json::Null;
                            merge(&mut cur, value);
                            fields.push((key.clone(), cur));
                            assert(fields_view(fields@) =~= set_key(acc, key@, merge_spec(get_or_null(acc, key@), value@)));
                        },
                    }
                }
                i += 1;
            }
            assert(pview.take(pfields.len() as int) =~= pview);
            *doc = Json::Object(fields);
        },
        _ => {
            *doc = patch.deep_clone();
        },
    }
}

} // verus!
