//! Association lists: sequences of (key, value) pairs keyed by strings.
//!
//! JSON objects and the service list are both held this way. Lookups find
//! the first entry with the key; setting a key replaces that entry in place
//! or appends a new one at the end; removing a key drops every entry with it.
use vstd::prelude::*;

verus! {

/// Index of the first entry at or after `i` whose key is `k`, or -1.
pub open spec fn index_from<V>(entries: Seq<(Seq<char>, V)>, k: Seq<char>, i: int) -> int
    decreases entries.len() - i,
{
    if i < 0 || i >= entries.len() {
        -1
    } else if entries[i].0 == k {
        i
    } else {
        index_from(entries, k, i + 1)
    }
}

/// Index of the first entry whose key is `k`, or -1 when there is none.
pub open spec fn key_index<V>(entries: Seq<(Seq<char>, V)>, k: Seq<char>) -> int {
    index_from(entries, k, 0)
}

/// The value of the first entry whose key is `k`.
pub open spec fn get_key<V>(entries: Seq<(Seq<char>, V)>, k: Seq<char>) -> Option<V> {
    let i = key_index(entries, k);
    if i >= 0 {
        Some(entries[i].1)
    } else {
        None
    }
}

/// The entries with `k` bound to `v`: the first entry with key `k` is
/// replaced in place, or `(k, v)` is appended when there is none.
pub open spec fn set_key<V>(entries: Seq<(Seq<char>, V)>, k: Seq<char>, v: V) -> Seq<(Seq<char>, V)> {
    let i = key_index(entries, k);
    if i >= 0 {
        entries.update(i, (k, v))
    } else {
        entries.push((k, v))
    }
}

/// The entries without any entry whose key is `k`, the others in order.
pub open spec fn remove_key<V>(entries: Seq<(Seq<char>, V)>, k: Seq<char>) -> Seq<(Seq<char>, V)>
    decreases entries.len(),
{
    if entries.len() == 0 {
        entries
    } else {
        let rest = remove_key(entries.drop_last(), k);
        if entries.last().0 == k {
            rest
        } else {
            rest.push(entries.last())
        }
    }
}

/// No key occurs twice.
pub open spec fn keys_unique<V>(entries: Seq<(Seq<char>, V)>) -> bool {
    forall|i: int, j: int|
        0 <= i < entries.len() && 0 <= j < entries.len() && i != j ==> entries[i].0 != entries[j].0
}

/// The key is held by some entry.
pub open spec fn has_key<V>(entries: Seq<(Seq<char>, V)>, k: Seq<char>) -> bool {
    exists|i: int| 0 <= i < entries.len() && entries[i].0 == k
}

pub proof fn lemma_index_from<V>(entries: Seq<(Seq<char>, V)>, k: Seq<char>, i: int)
    requires
        0 <= i,
    ensures
        index_from(entries, k, i) == -1 || (i <= index_from(entries, k, i) < entries.len()
            && entries[index_from(entries, k, i)].0 == k),
        index_from(entries, k, i) == -1 ==> forall|j: int| i <= j < entries.len() ==> entries[j].0 != k,
        index_from(entries, k, i) != -1 ==> forall|j: int|
            i <= j < index_from(entries, k, i) ==> entries[j].0 != k,
    decreases entries.len() - i,
{
    if i < entries.len() && entries[i].0 != k {
        lemma_index_from(entries, k, i + 1);
    }
}

/// What `key_index` finds: the first entry with the key, or -1 when no entry has it.
pub proof fn lemma_key_index<V>(entries: Seq<(Seq<char>, V)>, k: Seq<char>)
    ensures
        key_index(entries, k) == -1 || (0 <= key_index(entries, k) < entries.len()
            && entries[key_index(entries, k)].0 == k),
        key_index(entries, k) == -1 <==> !has_key(entries, k),
        forall|j: int| 0 <= j < key_index(entries, k) ==> entries[j].0 != k,
{
    lemma_index_from(entries, k, 0);
}

/// Two sequences that agree on every key give the same lookups.
pub proof fn lemma_key_index_same_keys<V, W>(a: Seq<(Seq<char>, V)>, b: Seq<(Seq<char>, W)>, k: Seq<char>)
    requires
        a.len() == b.len(),
        forall|j: int| 0 <= j < a.len() ==> a[j].0 == b[j].0,
    ensures
        key_index(a, k) == key_index(b, k),
{
    lemma_key_index(a, k);
    lemma_key_index(b, k);
}

/// Removing a key leaves no entry with it, and every other entry.
pub proof fn lemma_remove_key<V>(entries: Seq<(Seq<char>, V)>, k: Seq<char>)
    ensures
        !has_key(remove_key(entries, k), k),
        forall|p: (Seq<char>, V)| entries.contains(p) && p.0 != k ==> #[trigger] remove_key(entries, k).contains(p),
        forall|p: (Seq<char>, V)| #[trigger] remove_key(entries, k).contains(p) ==> entries.contains(p),
    decreases entries.len(),
{
    if entries.len() > 0 {
        let rest = remove_key(entries.drop_last(), k);
        lemma_remove_key(entries.drop_last(), k);
        let res = remove_key(entries, k);
        assert forall|p: (Seq<char>, V)| entries.contains(p) && p.0 != k implies res.contains(p) by {
            let i = choose|i: int| 0 <= i < entries.len() && entries[i] == p;
            if i < entries.len() - 1 {
                assert(entries.drop_last()[i] == p);
                assert(entries.drop_last().contains(p));
                assert(rest.contains(p));
                let j = choose|j: int| 0 <= j < rest.len() && rest[j] == p;
                assert(res[j] == p);
            } else {
                assert(res[rest.len() as int] == p);
            }
        }
        assert forall|p: (Seq<char>, V)| res.contains(p) implies entries.contains(p) by {
            let i = choose|i: int| 0 <= i < res.len() && res[i] == p;
            if entries.last().0 != k && i == rest.len() {
                assert(entries[entries.len() - 1] == p);
            } else {
                assert(rest[i] == p);
                assert(rest.contains(p));
                let j = choose|j: int| 0 <= j < entries.drop_last().len() && entries.drop_last()[j] == p;
                assert(entries[j] == p);
            }
        }
        if entries.last().0 != k {
            assert forall|i: int| 0 <= i < rest.push(entries.last()).len() implies rest.push(entries.last())[i].0 != k by {
                if i < rest.len() {
                    assert(rest.contains(rest[i]));
                }
            }
        } else {
            assert forall|i: int| 0 <= i < rest.len() implies rest[i].0 != k by {
                assert(rest.contains(rest[i]));
            }
        }
    }
}

/// Binding a key keeps the keys unique.
pub proof fn lemma_set_key_unique<V>(entries: Seq<(Seq<char>, V)>, k: Seq<char>, v: V)
    requires
        keys_unique(entries),
    ensures
        keys_unique(set_key(entries, k, v)),
        has_key(set_key(entries, k, v), k),
        get_key(set_key(entries, k, v), k) == Some(v),
{
    lemma_key_index(entries, k);
    let r = set_key(entries, k, v);
    lemma_key_index(r, k);
    if key_index(entries, k) >= 0 {
        assert(r[key_index(entries, k)].0 == k);
    } else {
        assert(r[entries.len() as int].0 == k);
    }
}

} // verus!
