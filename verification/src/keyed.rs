use vstd::prelude::*;

verus! {

/// No two entries of `s` have the same key.
pub open spec fn keys_unique<E>(s: Seq<E>, key: spec_fn(E) -> Seq<char>) -> bool {
    forall|i: int, j: int| 0 <= i < s.len() && 0 <= j < s.len() && i != j ==> key(#[trigger] s[i]) != key(#[trigger] s[j])
}

/// Some entry of `s` has key `k`.
pub open spec fn has_entry<E>(s: Seq<E>, key: spec_fn(E) -> Seq<char>, k: Seq<char>) -> bool {
    exists|i: int| 0 <= i < s.len() && key(#[trigger] s[i]) == k
}

/// The position of the entry with key `k` (meaningful when there is one).
pub open spec fn entry_index<E>(s: Seq<E>, key: spec_fn(E) -> Seq<char>, k: Seq<char>) -> int {
    choose|i: int| 0 <= i < s.len() && key(#[trigger] s[i]) == k
}

/// The map from each key of `s` to the value of its entry.
pub open spec fn keyed_map<E, V>(s: Seq<E>, key: spec_fn(E) -> Seq<char>, val: spec_fn(E) -> V) -> Map<Seq<char>, V> {
    Map::new(|k: Seq<char>| has_entry(s, key, k), |k: Seq<char>| val(s[entry_index(s, key, k)]))
}

pub proof fn lemma_entry_at<E>(s: Seq<E>, key: spec_fn(E) -> Seq<char>, i: int)
    requires
        keys_unique(s, key),
        0 <= i < s.len(),
    ensures
        has_entry(s, key, key(s[i])),
        entry_index(s, key, key(s[i])) == i,
{
    assert(has_entry(s, key, key(s[i])));
}

/// Appending an entry with a new key adds it to the map.
pub proof fn lemma_keyed_push<E, V>(s: Seq<E>, key: spec_fn(E) -> Seq<char>, val: spec_fn(E) -> V, e: E)
    requires
        keys_unique(s, key),
        !has_entry(s, key, key(e)),
    ensures
        keys_unique(s.push(e), key),
        keyed_map(s.push(e), key, val) == keyed_map(s, key, val).insert(key(e), val(e)),
{
    let t = s.push(e);
    assert forall|i: int, j: int| 0 <= i < t.len() && 0 <= j < t.len() && i != j implies key(#[trigger] t[i]) != key(#[trigger] t[j]) by {
        if i < s.len() && j < s.len() {
            assert(t[i] == s[i] && t[j] == s[j]);
        } else if i < s.len() {
            assert(t[i] == s[i]);
        } else {
            assert(t[j] == s[j]);
        }
    }
    let m1 = keyed_map(t, key, val);
    let m2 = keyed_map(s, key, val).insert(key(e), val(e));
    assert forall|k: Seq<char>| m1.contains_key(k) <==> m2.contains_key(k) by {
        if has_entry(s, key, k) {
            let i = entry_index(s, key, k);
            assert(t[i] == s[i]);
        }
        if k == key(e) {
            assert(t[s.len() as int] == e);
        }
        if has_entry(t, key, k) {
            let i = entry_index(t, key, k);
            if i < s.len() {
                assert(t[i] == s[i]);
            }
        }
    }
    assert forall|k: Seq<char>| m1.contains_key(k) implies m1[k] == m2[k] by {
        let i = entry_index(t, key, k);
        lemma_entry_at(t, key, i);
        if i < s.len() {
            assert(t[i] == s[i]);
            lemma_entry_at(s, key, i);
        }
    }
    assert(m1 =~= m2);
}

/// Overwriting the entry at `i` with one of the same key updates the map.
pub proof fn lemma_keyed_update<E, V>(s: Seq<E>, key: spec_fn(E) -> Seq<char>, val: spec_fn(E) -> V, i: int, e: E)
    requires
        keys_unique(s, key),
        0 <= i < s.len(),
        key(e) == key(s[i]),
    ensures
        keys_unique(s.update(i, e), key),
        keyed_map(s.update(i, e), key, val) == keyed_map(s, key, val).insert(key(e), val(e)),
{
    let t = s.update(i, e);
    assert forall|a: int, b: int| 0 <= a < t.len() && 0 <= b < t.len() && a != b implies key(#[trigger] t[a]) != key(#[trigger] t[b]) by {
        assert(key(t[a]) == key(s[a]));
        assert(key(t[b]) == key(s[b]));
    }
    let m1 = keyed_map(t, key, val);
    let m2 = keyed_map(s, key, val).insert(key(e), val(e));
    assert forall|k: Seq<char>| m1.contains_key(k) <==> m2.contains_key(k) by {
        if has_entry(s, key, k) {
            let j = entry_index(s, key, k);
            assert(key(t[j]) == key(s[j]));
        }
        if has_entry(t, key, k) {
            let j = entry_index(t, key, k);
            assert(key(t[j]) == key(s[j]));
        }
        if k == key(e) {
            assert(t[i] == e);
        }
    }
    assert forall|k: Seq<char>| m1.contains_key(k) implies m1[k] == m2[k] by {
        let j = entry_index(t, key, k);
        lemma_entry_at(t, key, j);
        if j != i {
            assert(t[j] == s[j]);
            lemma_entry_at(s, key, j);
        }
    }
    assert(m1 =~= m2);
}

/// Removing the entry at `i` removes its key from the map.
pub proof fn lemma_keyed_remove<E, V>(s: Seq<E>, key: spec_fn(E) -> Seq<char>, val: spec_fn(E) -> V, i: int)
    requires
        keys_unique(s, key),
        0 <= i < s.len(),
    ensures
        keys_unique(s.remove(i), key),
        keyed_map(s.remove(i), key, val) == keyed_map(s, key, val).remove(key(s[i])),
{
    let t = s.remove(i);
    assert forall|a: int| 0 <= a < t.len() implies #[trigger] t[a] == s[if a < i { a } else { a + 1 }] by {}
    assert forall|a: int, b: int| 0 <= a < t.len() && 0 <= b < t.len() && a != b implies key(#[trigger] t[a]) != key(#[trigger] t[b]) by {
        assert(t[a] == s[if a < i { a } else { a + 1 }]);
        assert(t[b] == s[if b < i { b } else { b + 1 }]);
    }
    let m1 = keyed_map(t, key, val);
    let m2 = keyed_map(s, key, val).remove(key(s[i]));
    assert forall|k: Seq<char>| m1.contains_key(k) <==> m2.contains_key(k) by {
        if has_entry(t, key, k) {
            let a = entry_index(t, key, k);
            let a0 = if a < i { a } else { a + 1 };
            assert(t[a] == s[a0]);
            assert(has_entry(s, key, k));
        }
        if has_entry(s, key, k) && k != key(s[i]) {
            let j = entry_index(s, key, k);
            assert(j != i);
            let a = if j < i { j } else { j - 1 };
            assert(t[a] == s[j]);
            assert(has_entry(t, key, k));
        }
    }
    assert forall|k: Seq<char>| m1.contains_key(k) implies m1[k] == m2[k] by {
        let a = entry_index(t, key, k);
        lemma_entry_at(t, key, a);
        let a0 = if a < i { a } else { a + 1 };
        assert(t[a] == s[a0]);
        lemma_entry_at(s, key, a0);
    }
    assert(m1 =~= m2);
}

/// Keeping the entries that pass `p` keeps the keys whose entries pass `p`.
pub proof fn lemma_keyed_filter<E, V>(s: Seq<E>, key: spec_fn(E) -> Seq<char>, val: spec_fn(E) -> V, p: spec_fn(E) -> bool)
    requires
        keys_unique(s, key),
    ensures
        keys_unique(s.filter(p), key),
        keyed_map(s.filter(p), key, val) == Map::new(
            |k: Seq<char>| keyed_map(s, key, val).contains_key(k) && p(s[entry_index(s, key, k)]),
            |k: Seq<char>| keyed_map(s, key, val)[k],
        ),
    decreases s.len(),
{
    reveal(Seq::filter);
    if s.len() == 0 {
        let m1 = keyed_map(s.filter(p), key, val);
        let m2 = Map::new(
            |k: Seq<char>| keyed_map(s, key, val).contains_key(k) && p(s[entry_index(s, key, k)]),
            |k: Seq<char>| keyed_map(s, key, val)[k],
        );
        assert(m1 =~= m2);
    } else {
        let d = s.drop_last();
        let x = s.last();
        assert forall|i: int, j: int| 0 <= i < d.len() && 0 <= j < d.len() && i != j implies key(#[trigger] d[i]) != key(#[trigger] d[j]) by {
            assert(d[i] == s[i] && d[j] == s[j]);
        }
        lemma_keyed_filter(d, key, val, p);
        assert(!has_entry(d, key, key(x))) by {
            if has_entry(d, key, key(x)) {
                let j = entry_index(d, key, key(x));
                assert(d[j] == s[j]);
                assert(s[s.len() - 1] == x);
            }
        }
        assert(s == d.push(x));
        lemma_keyed_push(d, key, val, x);
        let fd = d.filter(p);
        let m2 = Map::new(
            |k: Seq<char>| keyed_map(s, key, val).contains_key(k) && p(s[entry_index(s, key, k)]),
            |k: Seq<char>| keyed_map(s, key, val)[k],
        );
        let md = Map::new(
            |k: Seq<char>| keyed_map(d, key, val).contains_key(k) && p(d[entry_index(d, key, k)]),
            |k: Seq<char>| keyed_map(d, key, val)[k],
        );
        assert forall|k: Seq<char>| #![trigger m2.contains_key(k)] has_entry(d, key, k) implies
            entry_index(s, key, k) == entry_index(d, key, k) by {
            let j = entry_index(d, key, k);
            assert(d[j] == s[j]);
            lemma_entry_at(s, key, j);
        }
        lemma_entry_at(s, key, s.len() - 1);
        if p(x) {
            assert(!has_entry(fd, key, key(x))) by {
                if has_entry(fd, key, key(x)) {
                    let j = entry_index(fd, key, key(x));
                    assert(keyed_map(fd, key, val).contains_key(key(x)));
                    assert(md.contains_key(key(x)));
                }
            }
            lemma_keyed_push(fd, key, val, x);
            assert(keyed_map(s.filter(p), key, val) =~= m2);
        } else {
            assert(keyed_map(s.filter(p), key, val) =~= m2);
        }
    }
}

} // verus!
