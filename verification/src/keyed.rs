//! Small maps from string keys to values, held as a vector of `(key, value)`
//! pairs with distinct keys.
use vstd::prelude::*;
use crate::text::str_eq;

verus! {

/// No key occurs twice.
pub open spec fn keys_distinct<V>(s: Seq<(String, V)>) -> bool {
    forall|i: int, j: int| 0 <= i < s.len() && 0 <= j < s.len() && i != j ==> s[i].0@ != s[j].0@
}

/// Whether some pair has key `k`.
pub open spec fn has_key<V>(s: Seq<(String, V)>, k: Seq<char>) -> bool {
    exists|i: int| 0 <= i < s.len() && (#[trigger] s[i]).0@ == k
}

/// The map that the pairs describe.
pub open spec fn kv_map<V>(s: Seq<(String, V)>) -> Map<Seq<char>, V> {
    Map::new(
        |k: Seq<char>| has_key(s, k),
        |k: Seq<char>| s[choose|i: int| 0 <= i < s.len() && (#[trigger] s[i]).0@ == k].1,
    )
}

/// Pair `i` is what the map holds for its key.
pub proof fn lemma_kv_index<V>(s: Seq<(String, V)>, i: int)
    requires
        keys_distinct(s),
        0 <= i < s.len(),
    ensures
        kv_map(s).dom().contains(s[i].0@),
        kv_map(s)[s[i].0@] == s[i].1,
{
    assert(has_key(s, s[i].0@));
    let c = choose|j: int| 0 <= j < s.len() && (#[trigger] s[j]).0@ == s[i].0@;
    assert(c == i);
}

/// Replacing the value of an existing key.
pub proof fn lemma_kv_update<V>(s: Seq<(String, V)>, i: int, k: String, v: V)
    requires
        keys_distinct(s),
        0 <= i < s.len(),
        s[i].0@ == k@,
    ensures
        keys_distinct(s.update(i, (k, v))),
        kv_map(s.update(i, (k, v))) == kv_map(s).insert(k@, v),
{
    let t = s.update(i, (k, v));
    assert forall|a: int, b: int| 0 <= a < t.len() && 0 <= b < t.len() && a != b implies t[a].0@ != t[b].0@ by {}
    assert forall|key: Seq<char>| has_key(t, key) <==> has_key(s, key) || key == k@ by {
        if has_key(t, key) {
            let j = choose|j: int| 0 <= j < t.len() && (#[trigger] t[j]).0@ == key;
            if j != i {
                assert(s[j] == t[j]);
            }
        }
        if has_key(s, key) {
            let j = choose|j: int| 0 <= j < s.len() && (#[trigger] s[j]).0@ == key;
            assert(t[j].0@ == key);
        }
        if key == k@ {
            assert(t[i].0@ == key);
        }
    }
    assert forall|key: Seq<char>| #[trigger] kv_map(t).dom().contains(key) implies kv_map(t)[key] == kv_map(
        s,
    ).insert(k@, v)[key] by {
        let j = choose|j: int| 0 <= j < t.len() && (#[trigger] t[j]).0@ == key;
        lemma_kv_index(t, j);
        if j != i {
            lemma_kv_index(s, j);
        }
    }
    assert(kv_map(t) =~= kv_map(s).insert(k@, v));
}

/// Adding a pair with a new key.
pub proof fn lemma_kv_push<V>(s: Seq<(String, V)>, k: String, v: V)
    requires
        keys_distinct(s),
        !has_key(s, k@),
    ensures
        keys_distinct(s.push((k, v))),
        kv_map(s.push((k, v))) == kv_map(s).insert(k@, v),
{
    let t = s.push((k, v));
    assert forall|a: int, b: int| 0 <= a < t.len() && 0 <= b < t.len() && a != b implies t[a].0@ != t[b].0@ by {
        if a < s.len() && b < s.len() {
            assert(t[a] == s[a] && t[b] == s[b]);
        } else if a < s.len() {
            assert(t[a] == s[a]);
        } else {
            assert(t[b] == s[b]);
        }
    }
    assert forall|key: Seq<char>| has_key(t, key) <==> has_key(s, key) || key == k@ by {
        if has_key(t, key) {
            let j = choose|j: int| 0 <= j < t.len() && (#[trigger] t[j]).0@ == key;
            if j < s.len() {
                assert(s[j] == t[j]);
            }
        }
        if has_key(s, key) {
            let j = choose|j: int| 0 <= j < s.len() && (#[trigger] s[j]).0@ == key;
            assert(t[j] == s[j]);
        }
        if key == k@ {
            assert(t[s.len() as int].0@ == key);
        }
    }
    assert forall|key: Seq<char>| #[trigger] kv_map(t).dom().contains(key) implies kv_map(t)[key] == kv_map(
        s,
    ).insert(k@, v)[key] by {
        let j = choose|j: int| 0 <= j < t.len() && (#[trigger] t[j]).0@ == key;
        lemma_kv_index(t, j);
        if j < s.len() {
            assert(t[j] == s[j]);
            lemma_kv_index(s, j);
        }
    }
    assert(kv_map(t) =~= kv_map(s).insert(k@, v));
}

/// The position of key `k`, if present.
pub fn key_position<V>(s: &Vec<(String, V)>, k: &str) -> (r: Option<usize>)
    ensures
        r is None <==> !has_key(s@, k@),
        r matches Some(i) ==> i < s@.len() && s@[i as int].0@ == k@,
{
    let mut i: usize = 0;
    while i < s.len()
        invariant
            i <= s@.len(),
            forall|j: int| 0 <= j < i ==> (#[trigger] s@[j]).0@ != k@,
        decreases s@.len() - i,
    {
        if str_eq(s[i].0.as_str(), k) {
            return Some(i);
        }
        i = i + 1;
    }
    None
}

/// Sets the value of key `k` (replacing an existing one, or appending).
pub fn kv_set<V>(s: &mut Vec<(String, V)>, k: String, v: V)
    requires
        keys_distinct(old(s)@),
    ensures
        keys_distinct(final(s)@),
        kv_map(final(s)@) == kv_map(old(s)@).insert(k@, v),
{
    match key_position(s, k.as_str()) {
        Some(i) => {
            proof {
                lemma_kv_update(s@, i as int, k, v);
            }
            s.set(i, (k, v));
        },
        None => {
            proof {
                lemma_kv_push(s@, k, v);
            }
            s.push((k, v));
        },
    }
}

/// The value of key `k`, if present.
pub fn kv_get<V: Copy>(s: &Vec<(String, V)>, k: &str) -> (r: Option<V>)
    requires
        keys_distinct(s@),
    ensures
        r is None <==> !kv_map(s@).dom().contains(k@),
        r matches Some(v) ==> kv_map(s@)[k@] == v,
{
    match key_position(s, k) {
        Some(i) => {
            proof {
                lemma_kv_index(s@, i as int);
            }
            Some(s[i].1)
        },
        None => None,
    }
}

} // verus!
