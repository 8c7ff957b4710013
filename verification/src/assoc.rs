//! Association lists: a sequence of entries read as a finite map from each
//! entry's key to its value, the last entry of a key winning.
use vstd::prelude::*;

verus! {

/// The map that a sequence of entries stands for.
pub open spec fn assoc<E, K, V>(s: Seq<E>, key: spec_fn(E) -> K, val: spec_fn(E) -> V) -> Map<K, V>
    decreases s.len(),
{
    if s.len() == 0 {
        Map::empty()
    } else {
        assoc(s.drop_last(), key, val).insert(key(s.last()), val(s.last()))
    }
}

/// No two entries share a key.
pub open spec fn keys_distinct<E, K>(s: Seq<E>, key: spec_fn(E) -> K) -> bool {
    forall|i: int, j: int| 0 <= i < s.len() && 0 <= j < s.len() && i != j ==> key(s[i]) != key(s[j])
}

/// The keys of the map are the keys of the entries; with distinct keys,
/// each entry's key maps to that entry's value.
pub proof fn lemma_assoc<E, K, V>(s: Seq<E>, key: spec_fn(E) -> K, val: spec_fn(E) -> V)
    ensures
        forall|k: K| #[trigger] assoc(s, key, val).contains_key(k) <==> exists|i: int| 0 <= i < s.len() && key(s[i]) == k,
        keys_distinct(s, key) ==> forall|i: int| 0 <= i < s.len() ==> #[trigger] assoc(s, key, val)[key(s[i])] == val(s[i]),
    decreases s.len(),
{
    if s.len() > 0 {
        let t = s.drop_last();
        lemma_assoc(t, key, val);
        assert forall|k: K| #[trigger] assoc(s, key, val).contains_key(k) <==> exists|i: int| 0 <= i < s.len() && key(s[i]) == k by {
            if assoc(s, key, val).contains_key(k) {
                if k == key(s.last()) {
                    assert(key(s[s.len() - 1]) == k);
                } else {
                    assert(assoc(t, key, val).contains_key(k));
                    let i = choose|i: int| 0 <= i < t.len() && key(t[i]) == k;
                    assert(key(s[i]) == k);
                }
            }
            if exists|i: int| 0 <= i < s.len() && key(s[i]) == k {
                let i = choose|i: int| 0 <= i < s.len() && key(s[i]) == k;
                if i < s.len() - 1 {
                    assert(key(t[i]) == k);
                    assert(assoc(t, key, val).contains_key(k));
                }
            }
        }
        if keys_distinct(s, key) {
            assert(keys_distinct(t, key));
            assert forall|i: int| 0 <= i < s.len() implies #[trigger] assoc(s, key, val)[key(s[i])] == val(s[i]) by {
                if i < s.len() - 1 {
                    assert(key(s[i]) != key(s[s.len() - 1]));
                    assert(t[i] == s[i]);
                    assert(assoc(t, key, val)[key(t[i])] == val(t[i]));
                }
            }
        }
    }
}

/// Appending an entry with a new key keeps the keys distinct and adds the
/// entry to the map.
pub proof fn lemma_assoc_push<E, K, V>(s: Seq<E>, e: E, key: spec_fn(E) -> K, val: spec_fn(E) -> V)
    requires
        keys_distinct(s, key),
        !assoc(s, key, val).contains_key(key(e)),
    ensures
        keys_distinct(s.push(e), key),
        assoc(s.push(e), key, val) == assoc(s, key, val).insert(key(e), val(e)),
{
    lemma_assoc(s, key, val);
    let t = s.push(e);
    assert(t.drop_last() == s);
    assert forall|i: int, j: int| 0 <= i < t.len() && 0 <= j < t.len() && i != j implies key(t[i]) != key(t[j]) by {
        if i < s.len() && j < s.len() {
            assert(t[i] == s[i] && t[j] == s[j]);
        } else if i < s.len() {
            assert(t[i] == s[i]);
            assert(assoc(s, key, val).contains_key(key(s[i])));
        } else {
            assert(t[j] == s[j]);
            assert(assoc(s, key, val).contains_key(key(s[j])));
        }
    }
}

/// Replacing an entry by one with the same key keeps the keys distinct and
/// updates the map at that key.
pub proof fn lemma_assoc_update<E, K, V>(s: Seq<E>, i: int, e: E, key: spec_fn(E) -> K, val: spec_fn(E) -> V)
    requires
        keys_distinct(s, key),
        0 <= i < s.len(),
        key(e) == key(s[i]),
    ensures
        keys_distinct(s.update(i, e), key),
        assoc(s.update(i, e), key, val) == assoc(s, key, val).insert(key(e), val(e)),
{
    let t = s.update(i, e);
    assert forall|a: int, b: int| 0 <= a < t.len() && 0 <= b < t.len() && a != b implies key(t[a]) != key(t[b]) by {
        assert(key(t[a]) == key(s[a]));
        assert(key(t[b]) == key(s[b]));
    }
    lemma_assoc(s, key, val);
    lemma_assoc(t, key, val);
    let m1 = assoc(t, key, val);
    let m2 = assoc(s, key, val).insert(key(e), val(e));
    assert forall|k: K| m1.contains_key(k) <==> m2.contains_key(k) by {
        if m1.contains_key(k) {
            let a = choose|a: int| 0 <= a < t.len() && key(t[a]) == k;
            assert(key(s[a]) == k);
            assert(assoc(s, key, val).contains_key(k));
        }
        if m2.contains_key(k) && k != key(e) {
            assert(assoc(s, key, val).contains_key(k));
            let a = choose|a: int| 0 <= a < s.len() && key(s[a]) == k;
            assert(key(t[a]) == k);
        }
        if k == key(e) {
            assert(key(t[i]) == k);
        }
    }
    assert forall|k: K| m1.contains_key(k) implies m1[k] == m2[k] by {
        let a = choose|a: int| 0 <= a < t.len() && key(t[a]) == k;
        assert(m1[key(t[a])] == val(t[a]));
        if a == i {
        } else {
            assert(t[a] == s[a]);
            assert(assoc(s, key, val)[key(s[a])] == val(s[a]));
        }
    }
    assert(m1 =~= m2);
}

/// Two sequences whose entries have, position by position, the same keys
/// and values stand for the same map and have distinct keys alike.
pub proof fn lemma_assoc_congruent<E, F, K, V>(
    a: Seq<E>,
    b: Seq<F>,
    ka: spec_fn(E) -> K,
    va: spec_fn(E) -> V,
    kb: spec_fn(F) -> K,
    vb: spec_fn(F) -> V,
)
    requires
        a.len() == b.len(),
        forall|j: int| 0 <= j < a.len() ==> ka(#[trigger] a[j]) == kb(b[j]) && va(a[j]) == vb(b[j]),
    ensures
        assoc(a, ka, va) == assoc(b, kb, vb),
        keys_distinct(a, ka) == keys_distinct(b, kb),
    decreases a.len(),
{
    if a.len() > 0 {
        lemma_assoc_congruent(a.drop_last(), b.drop_last(), ka, va, kb, vb);
        assert(ka(a.last()) == kb(b.last()));
    }
    assert(keys_distinct(a, ka) == keys_distinct(b, kb)) by {
        if keys_distinct(a, ka) {
            assert forall|i: int, j: int| 0 <= i < b.len() && 0 <= j < b.len() && i != j implies kb(b[i]) != kb(b[j]) by {
                assert(ka(a[i]) == kb(b[i]));
                assert(ka(a[j]) == kb(b[j]));
            }
        }
        if keys_distinct(b, kb) {
            assert forall|i: int, j: int| 0 <= i < a.len() && 0 <= j < a.len() && i != j implies ka(a[i]) != ka(a[j]) by {
                assert(ka(a[i]) == kb(b[i]));
                assert(ka(a[j]) == kb(b[j]));
            }
        }
    }
}

} // verus!
