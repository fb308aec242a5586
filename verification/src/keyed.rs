//! Vectors of `(name, value)` pairs used as maps keyed by name: lookup finds
//! the first entry with the name, and a new name goes in before the first
//! entry that does not come before it in code-point order, so a vector
//! built only by these operations stays sorted, as a `BTreeMap` is.
use crate::text::{chars_eq, chars_lt, chars_of, lemma_seq_lt_transitive, lemma_seq_lt_trichotomy, seq_lt};
use vstd::prelude::*;

verus! {

/// Index of the first key equal to `k`, or -1.
pub open spec fn key_index(keys: Seq<Seq<char>>, k: Seq<char>) -> int
    decreases keys.len(),
{
    if keys.len() == 0 {
        -1
    } else if keys[0] == k {
        0
    } else {
        let r = key_index(keys.drop_first(), k);
        if r < 0 {
            -1
        } else {
            r + 1
        }
    }
}

/// Index of the first key that does not come before `k`, or the length.
pub open spec fn key_insert_pos(keys: Seq<Seq<char>>, k: Seq<char>) -> int
    decreases keys.len(),
{
    if keys.len() == 0 {
        0
    } else if !seq_lt(keys[0], k) {
        0
    } else {
        key_insert_pos(keys.drop_first(), k) + 1
    }
}

pub proof fn lemma_key_index(keys: Seq<Seq<char>>, k: Seq<char>)
    ensures
        -1 <= key_index(keys, k) < keys.len(),
        key_index(keys, k) == -1 ==> forall|j: int| 0 <= j < keys.len() ==> keys[j] != k,
        key_index(keys, k) >= 0 ==> keys[key_index(keys, k)] == k,
        forall|j: int| 0 <= j < key_index(keys, k) ==> keys[j] != k,
    decreases keys.len(),
{
    if keys.len() > 0 && keys[0] != k {
        lemma_key_index(keys.drop_first(), k);
        assert forall|j: int| 0 < j < keys.len() implies keys[j] == keys.drop_first()[j - 1] by {}
    }
}

/// The first-index property pins `key_index` down.
pub proof fn lemma_key_index_is(keys: Seq<Seq<char>>, k: Seq<char>, r: int)
    requires
        (r == -1 && forall|j: int| 0 <= j < keys.len() ==> keys[j] != k) || (0 <= r < keys.len()
            && keys[r] == k && forall|j: int| 0 <= j < r ==> keys[j] != k),
    ensures
        key_index(keys, k) == r,
{
    lemma_key_index(keys, k);
    let i = key_index(keys, k);
    if i >= 0 && r >= 0 {
        if i < r {
            assert(keys[i] != k);
        } else if r < i {
            assert(keys[r] != k);
        }
    } else if i >= 0 {
        assert(keys[i] != k);
    } else if r >= 0 {
        assert(keys[r] != k);
    }
}

pub proof fn lemma_key_insert_pos(keys: Seq<Seq<char>>, k: Seq<char>)
    ensures
        0 <= key_insert_pos(keys, k) <= keys.len(),
        forall|j: int| 0 <= j < key_insert_pos(keys, k) ==> seq_lt(#[trigger] keys[j], k),
        key_insert_pos(keys, k) < keys.len() ==> !seq_lt(keys[key_insert_pos(keys, k)], k),
    decreases keys.len(),
{
    if keys.len() > 0 && seq_lt(keys[0], k) {
        lemma_key_insert_pos(keys.drop_first(), k);
        assert forall|j: int| 0 < j < keys.len() implies keys[j] == keys.drop_first()[j - 1] by {}
    }
}

/// The names of a map's entries.
pub open spec fn keys_of<V>(e: Seq<(Seq<char>, V)>) -> Seq<Seq<char>> {
    e.map_values(|x: (Seq<char>, V)| x.0)
}

/// The value stored under `k`, if any.
pub open spec fn entry_lookup<V>(e: Seq<(Seq<char>, V)>, k: Seq<char>) -> Option<V> {
    let i = key_index(keys_of(e), k);
    if i >= 0 {
        Some(e[i].1)
    } else {
        None
    }
}

/// The map with `k` bound to `v`: the entry for `k` is replaced in place,
/// or a new one goes in at the insertion position of `k`.
pub open spec fn entry_set<V>(e: Seq<(Seq<char>, V)>, k: Seq<char>, v: V) -> Seq<(Seq<char>, V)> {
    let i = key_index(keys_of(e), k);
    if i >= 0 {
        e.update(i, (k, v))
    } else {
        e.insert(key_insert_pos(keys_of(e), k), (k, v))
    }
}

/// After binding `k` to `v`, `k` gives `v`.
pub proof fn lemma_set_lookup_same<V>(e: Seq<(Seq<char>, V)>, k: Seq<char>, v: V)
    ensures
        entry_lookup(entry_set(e, k, v), k) == Some(v),
{
    let keys = keys_of(e);
    let e2 = entry_set(e, k, v);
    lemma_key_index(keys, k);
    lemma_key_insert_pos(keys, k);
    let i = key_index(keys, k);
    if i >= 0 {
        assert(keys_of(e2) =~= keys.update(i, k));
        lemma_key_index_is(keys_of(e2), k, i);
    } else {
        let p = key_insert_pos(keys, k);
        assert(keys_of(e2) =~= keys.insert(p, k));
        assert forall|j: int| 0 <= j < p implies keys_of(e2)[j] != k by {
            assert(keys_of(e2)[j] == keys[j]);
        }
        lemma_key_index_is(keys_of(e2), k, p);
    }
}

/// Binding `k` leaves every other name as it was.
pub proof fn lemma_set_lookup_other<V>(e: Seq<(Seq<char>, V)>, k: Seq<char>, v: V, m: Seq<char>)
    requires
        m != k,
    ensures
        entry_lookup(entry_set(e, k, v), m) == entry_lookup(e, m),
{
    let keys = keys_of(e);
    let e2 = entry_set(e, k, v);
    let keys2 = keys_of(e2);
    lemma_key_index(keys, k);
    lemma_key_index(keys, m);
    lemma_key_insert_pos(keys, k);
    let i = key_index(keys, k);
    let r = key_index(keys, m);
    if i >= 0 {
        assert(keys2 =~= keys.update(i, k));
        if r >= 0 {
            assert forall|j: int| 0 <= j < r implies keys2[j] != m by {
                if j != i {
                    assert(keys2[j] == keys[j]);
                }
            }
            lemma_key_index_is(keys2, m, r);
        } else {
            assert forall|j: int| 0 <= j < keys2.len() implies keys2[j] != m by {
                if j != i {
                    assert(keys2[j] == keys[j]);
                }
            }
            lemma_key_index_is(keys2, m, -1);
        }
    } else {
        let p = key_insert_pos(keys, k);
        assert(keys2 =~= keys.insert(p, k));
        if r >= 0 {
            let r2 = if r < p {
                r
            } else {
                r + 1
            };
            assert forall|j: int| 0 <= j < r2 implies keys2[j] != m by {
                if j < p {
                    assert(keys2[j] == keys[j]);
                } else if j > p {
                    assert(keys2[j] == keys[j - 1]);
                }
            }
            lemma_key_index_is(keys2, m, r2);
        } else {
            assert forall|j: int| 0 <= j < keys2.len() implies keys2[j] != m by {
                if j < p {
                    assert(keys2[j] == keys[j]);
                } else if j > p {
                    assert(keys2[j] == keys[j - 1]);
                }
            }
            lemma_key_index_is(keys2, m, -1);
        }
    }
}

/// The names are in strictly increasing code-point order.
pub open spec fn keys_sorted(keys: Seq<Seq<char>>) -> bool {
    forall|i: int, j: int| 0 <= i < j < keys.len() ==> seq_lt(#[trigger] keys[i], #[trigger] keys[j])
}

/// Binding a name keeps the names of a sorted map sorted, as the keys of a
/// `BTreeMap` are.
pub proof fn lemma_set_keeps_sorted<V>(e: Seq<(Seq<char>, V)>, k: Seq<char>, v: V)
    requires
        keys_sorted(keys_of(e)),
    ensures
        keys_sorted(keys_of(entry_set(e, k, v))),
{
    let keys = keys_of(e);
    let keys2 = keys_of(entry_set(e, k, v));
    lemma_key_index(keys, k);
    let i = key_index(keys, k);
    if i >= 0 {
        assert(keys2 =~= keys.update(i, k));
        assert(keys2 =~= keys);
    } else {
        lemma_key_insert_pos(keys, k);
        let p = key_insert_pos(keys, k);
        assert(keys2 =~= keys.insert(p, k));
        if p < keys.len() {
            lemma_seq_lt_trichotomy(keys[p], k);
            assert(keys[p] != k);
            assert(seq_lt(k, keys[p]));
        }
        assert forall|a: int, b: int| 0 <= a < b < keys2.len() implies seq_lt(#[trigger] keys2[a], #[trigger] keys2[b]) by {
            if b < p {
                assert(keys2[a] == keys[a] && keys2[b] == keys[b]);
            } else if b == p {
                assert(keys2[a] == keys[a] && keys2[b] == k);
            } else if a > p {
                assert(keys2[a] == keys[a - 1] && keys2[b] == keys[b - 1]);
            } else if a == p {
                assert(keys2[b] == keys[b - 1]);
                if b - 1 > p {
                    assert(seq_lt(keys[p], keys[b - 1]));
                    lemma_seq_lt_transitive(k, keys[p], keys[b - 1]);
                }
            } else {
                assert(keys2[a] == keys[a] && keys2[b] == keys[b - 1]);
                assert(seq_lt(keys[a], k));
                if b - 1 > p {
                    assert(seq_lt(keys[p], keys[b - 1]));
                    lemma_seq_lt_transitive(k, keys[p], keys[b - 1]);
                }
                lemma_seq_lt_transitive(keys[a], k, keys[b - 1]);
            }
        }
    }
}

/// The names of an executable map's entries.
pub open spec fn exec_keys<V>(e: Seq<(String, V)>) -> Seq<Seq<char>> {
    e.map_values(|x: (String, V)| x.0@)
}

/// Index of the first entry named `key`.
pub fn find_key<V>(entries: &Vec<(String, V)>, key: &[char]) -> (r: Option<usize>)
    ensures
        match r {
            Some(i) => i < entries@.len() && i as int == key_index(exec_keys(entries@), key@),
            None => key_index(exec_keys(entries@), key@) == -1,
        },
{
    let ghost keys = exec_keys(entries@);
    proof {
        lemma_key_index(keys, key@);
    }
    for i in 0..entries.len()
        invariant
            keys == exec_keys(entries@),
            forall|j: int| 0 <= j < i ==> keys[j] != key@,
    {
        let name = chars_of(entries[i].0.as_str());
        if chars_eq(&name, key) {
            proof {
                lemma_key_index_is(keys, key@, i as int);
            }
            return Some(i);
        }
    }
    proof {
        lemma_key_index_is(keys, key@, -1);
    }
    None
}

/// Index of the first entry whose name does not come before `key`.
pub fn insert_position<V>(entries: &Vec<(String, V)>, key: &[char]) -> (p: usize)
    ensures
        p as int == key_insert_pos(exec_keys(entries@), key@),
        p <= entries@.len(),
{
    let ghost keys = exec_keys(entries@);
    proof {
        lemma_key_insert_pos(keys, key@);
        assert(keys.skip(0) =~= keys);
    }
    let mut i: usize = 0;
    while i < entries.len()
        invariant
            keys == exec_keys(entries@),
            i <= entries@.len(),
            key_insert_pos(keys, key@) == i + key_insert_pos(keys.skip(i as int), key@),
        decreases entries@.len() - i,
    {
        let name = chars_of(entries[i].0.as_str());
        if !chars_lt(&name, key) {
            proof {
                assert(keys.skip(i as int)[0] == keys[i as int]);
            }
            return i;
        }
        proof {
            assert(keys.skip(i as int).drop_first() =~= keys.skip(i + 1));
        }
        i = i + 1;
    }
    i
}

} // verus!
