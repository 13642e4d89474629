//! JSON values as the gateway reads and writes them.
use vstd::prelude::*;
use crate::assoc::{get_key, set_key, index_from, key_index, keys_unique, lemma_key_index, lemma_key_index_same_keys};

verus! {

/// A JSON value. A number is held as the text that denotes it; an object
/// as its (key, value) pairs.
pub enum Json {
    Null,
    Bool(bool),
    Number(String),
    String(String),
    Array(Vec<Json>),
    Object(Vec<(String, Json)>),
}

/// The mathematical value of a `Json`.
pub enum JsonV {
    Null,
    Bool(bool),
    Number(Seq<char>),
    Str(Seq<char>),
    Array(Seq<JsonV>),
    Object(Seq<(Seq<char>, JsonV)>),
}

impl View for Json {
    type V = JsonV;

    open spec fn view(&self) -> JsonV
        decreases self,
    {
        match self {
            Json::Null => JsonV::Null,
            Json::Bool(b) => JsonV::Bool(*b),
            Json::Number(n) => JsonV::Number(n@),
            Json::String(s) => JsonV::Str(s@),
            Json::Array(items) => JsonV::Array(items_view(items@)),
            Json::Object(fields) => JsonV::Object(fields_view(fields@)),
        }
    }
}

/// The values of a sequence of JSON values.
pub open spec fn items_view(items: Seq<Json>) -> Seq<JsonV>
    decreases items,
{
    Seq::new(items.len(), |i: int| if 0 <= i < items.len() { items[i].view() } else { JsonV::Null })
}

/// The values of the fields of a JSON object.
pub open spec fn fields_view(fields: Seq<(String, Json)>) -> Seq<(Seq<char>, JsonV)>
    decreases fields,
{
    Seq::new(
        fields.len(),
        |i: int|
            if 0 <= i < fields.len() {
                (fields[i].0@, fields[i].1.view())
            } else {
                (Seq::empty(), JsonV::Null)
            },
    )
}

/// The fields of an object, or none for any other value.
pub open spec fn fields_or_empty(v: JsonV) -> Seq<(Seq<char>, JsonV)> {
    match v {
        JsonV::Object(fields) => fields,
        _ => Seq::empty(),
    }
}

/// What `value[index]` reads: the element, or null where the value is not an
/// array or is too short.
pub open spec fn element_or_null(v: JsonV, index: int) -> JsonV {
    match v {
        JsonV::Array(items) => if 0 <= index < items.len() { items[index] } else { JsonV::Null },
        _ => JsonV::Null,
    }
}

/// The keys of a sequence of pairs, as sequences of characters.
pub open spec fn key_view<T>(entries: Seq<(String, T)>) -> Seq<(Seq<char>, T)> {
    Seq::new(entries.len(), |i: int| (entries[i].0@, entries[i].1))
}

/// Every object in the value, at any depth, has no key twice.
pub open spec fn well_formed(v: JsonV) -> bool
    decreases v,
{
    match v {
        JsonV::Array(items) => forall|i: int| 0 <= i < items.len() ==> well_formed(#[trigger] items[i]),
        JsonV::Object(fields) => {
            &&& keys_unique(fields)
            &&& forall|i: int| 0 <= i < fields.len() ==> well_formed(#[trigger] fields[i].1)
        },
        _ => true,
    }
}

/// Index of the first pair whose key is `key`.
pub fn find_key<T>(entries: &Vec<(String, T)>, key: &String) -> (r: Option<usize>)
    ensures
        match r {
            Some(i) => i as int == key_index(key_view(entries@), key@),
            None => key_index(key_view(entries@), key@) == -1,
        },
{
    let ghost kv = key_view(entries@);
    let mut i: usize = 0;
    while i < entries.len()
        invariant
            i <= entries.len(),
            kv == key_view(entries@),
            index_from(kv, key@, 0) == index_from(kv, key@, i as int),
        decreases entries.len() - i,
    {
        if entries[i].0 == *key {
            return Some(i);
        }
        i += 1;
    }
    None
}

/// The position of a field in an object's fields, by its value.
pub proof fn lemma_fields_key_index(fields: Seq<(String, Json)>, k: Seq<char>)
    ensures
        key_index(key_view(fields), k) == key_index(fields_view(fields), k),
{
    lemma_key_index_same_keys(key_view(fields), fields_view(fields), k);
}

impl Json {
    /// A copy of the value.
    #[verifier::loop_isolation(false)]
    pub fn deep_clone(&self) -> (r: Json)
        ensures
            r@ == self@,
        decreases self,
    {
        match self {
            Json::Null => Json::Null,
            Json::Bool(b) => Json::Bool(*b),
            Json::Number(n) => Json::Number(n.clone()),
            Json::String(s) => Json::String(s.clone()),
            Json::Array(items) => {
                let mut out: Vec<Json> = Vec::new();
                let mut i: usize = 0;
                while i < items.len()
                    invariant
                        i <= items.len(),
                        out@.len() == i,
                        forall|j: int| 0 <= j < i ==> out@[j]@ == items@[j]@,
                    decreases items.len() - i,
                {
                    proof {
                        assert(decreases_to!(*self => *items));
                        assert(decreases_to!(*items => items@));
                        assert(decreases_to!(items@ => items@[i as int]));
                    }
                    let c = items[i].deep_clone();
                    out.push(c);
                    i += 1;
                }
                assert(items_view(out@) =~= items_view(items@));
                Json::Array(out)
            },
            Json::Object(fields) => {
                let mut out: Vec<(String, Json)> = Vec::new();
                let mut i: usize = 0;
                while i < fields.len()
                    invariant
                        i <= fields.len(),
                        out@.len() == i,
                        forall|j: int| 0 <= j < i ==> out@[j].0@ == fields@[j].0@ && out@[j].1@ == fields@[j].1@,
                    decreases fields.len() - i,
                {
                    let k = fields[i].0.clone();
                    proof {
                        assert(decreases_to!(*self => *fields));
                        assert(decreases_to!(*fields => fields@));
                        assert(decreases_to!(fields@ => fields@[i as int]));
                        assert(decreases_to!(fields@[i as int] => fields@[i as int].1));
                    }
                    let c = fields[i].1.deep_clone();
                    out.push((k, c));
                    i += 1;
                }
                assert(fields_view(out@) =~= fields_view(fields@));
                Json::Object(out)
            },
        }
    }

    /// Is the value null.
    pub fn is_null(&self) -> (r: bool)
        ensures
            r == (self@ is Null),
    {
        match self {
            Json::Null => true,
            _ => false,
        }
    }

    /// Is the value an array.
    pub fn is_array(&self) -> (r: bool)
        ensures
            r == (self@ is Array),
    {
        match self {
            Json::Array(_) => true,
            _ => false,
        }
    }

    /// Is the value an object.
    pub fn is_object(&self) -> (r: bool)
        ensures
            r == (self@ is Object),
    {
        match self {
            Json::Object(_) => true,
            _ => false,
        }
    }

    /// An empty object.
    pub fn empty_object() -> (r: Json)
        ensures
            r@ == JsonV::Object(Seq::empty()),
    {
        let r = Json::Object(Vec::new());
        assert(fields_view(Seq::<(String, Json)>::empty()) =~= Seq::empty());
        r
    }

    /// The value of a field of an object; none where the value is not an
    /// object or has no such field.
    pub fn get(&self, key: &String) -> (r: Option<&Json>)
        ensures
            match r {
                Some(x) => self@ is Object && get_key(fields_or_empty(self@), key@) == Some(x@),
                None => get_key(fields_or_empty(self@), key@) is None,
            },
    {
        match self {
            Json::Object(fields) => {
                proof {
                    lemma_fields_key_index(fields@, key@);
                    lemma_key_index(key_view(fields@), key@);
                }
                match find_key(fields, key) {
                    Some(i) => Some(&fields[i].1),
                    None => None,
                }
            },
            _ => None,
        }
    }
}

/// Binds `key` to `value` in an object's fields: the first field with the
/// key gets the value in place, or the pair is appended.
pub fn set_field(fields: &mut Vec<(String, Json)>, key: String, value: Json)
    ensures
        fields_view(final(fields)@) == set_key(fields_view(old(fields)@), key@, value@),
{
    let ghost fv = fields_view(fields@);
    proof {
        lemma_fields_key_index(fields@, key@);
        lemma_key_index(key_view(fields@), key@);
    }
    match find_key(fields, &key) {
        Some(idx) => {
            fields.set(idx, (key, value));
        },
        None => {
            fields.push((key, value));
        },
    }
    assert(fields_view(fields@) =~= set_key(fv, key@, value@));
}

} // verus!
