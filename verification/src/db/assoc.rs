//! Association lists: a sequence of entries read as a map from each entry's
//! key to its value, later entries overriding earlier ones.
use vstd::prelude::*;

verus! {

/// The map that a sequence of entries denotes.
pub open spec fn assoc_map<E, K, V>(s: Seq<E>, key: spec_fn(E) -> K, val: spec_fn(E) -> V) -> Map<
    K,
    V,
>
    decreases s.len(),
{
    if s.len() == 0 {
        Map::empty()
    } else {
        assoc_map(s.drop_last(), key, val).insert(key(s.last()), val(s.last()))
    }
}

/// No key occurs twice in `s`.
pub open spec fn keys_unique<E, K>(s: Seq<E>, key: spec_fn(E) -> K) -> bool {
    forall|i: int, j: int|
        #![trigger s[i], s[j]]
        0 <= i < s.len() && 0 <= j < s.len() && i != j ==> key(s[i]) != key(s[j])
}

/// `k` is the key of some entry of `s`.
pub open spec fn has_key<E, K>(s: Seq<E>, key: spec_fn(E) -> K, k: K) -> bool {
    exists|i: int| 0 <= i < s.len() && key(#[trigger] s[i]) == k
}

pub proof fn lemma_assoc_contains<E, K, V>(
    s: Seq<E>,
    key: spec_fn(E) -> K,
    val: spec_fn(E) -> V,
    k: K,
)
    ensures
        assoc_map(s, key, val).contains_key(k) <==> has_key(s, key, k),
    decreases s.len(),
{
    if s.len() > 0 {
        let p = s.drop_last();
        lemma_assoc_contains(p, key, val, k);
        if has_key(p, key, k) {
            let i = choose|i: int| 0 <= i < p.len() && key(#[trigger] p[i]) == k;
            assert(s[i] == p[i]);
        }
        if key(s.last()) == k {
            assert(s[s.len() - 1] == s.last());
        }
        if has_key(s, key, k) && key(s.last()) != k {
            let i = choose|i: int| 0 <= i < s.len() && key(#[trigger] s[i]) == k;
            assert(p[i] == s[i]);
        }
    }
}

pub proof fn lemma_unique_drop_last<E, K>(s: Seq<E>, key: spec_fn(E) -> K)
    requires
        keys_unique(s, key),
        s.len() > 0,
    ensures
        keys_unique(s.drop_last(), key),
        !has_key(s.drop_last(), key, key(s.last())),
{
    let p = s.drop_last();
    assert forall|i: int, j: int|
        #![trigger p[i], p[j]]
        0 <= i < p.len() && 0 <= j < p.len() && i != j implies key(p[i]) != key(p[j]) by {
        assert(p[i] == s[i] && p[j] == s[j]);
    }
    if has_key(p, key, key(s.last())) {
        let i = choose|i: int| 0 <= i < p.len() && key(#[trigger] p[i]) == key(s.last());
        assert(p[i] == s[i]);
        assert(s[s.len() - 1] == s.last());
    }
}

pub proof fn lemma_unique_push<E, K>(s: Seq<E>, key: spec_fn(E) -> K, e: E)
    requires
        keys_unique(s, key),
        !has_key(s, key, key(e)),
    ensures
        keys_unique(s.push(e), key),
{
    let t = s.push(e);
    assert forall|i: int, j: int|
        #![trigger t[i], t[j]]
        0 <= i < t.len() && 0 <= j < t.len() && i != j implies key(t[i]) != key(t[j]) by {
        if i < s.len() && j < s.len() {
            assert(t[i] == s[i] && t[j] == s[j]);
        } else if i < s.len() {
            assert(t[i] == s[i]);
        } else {
            assert(t[j] == s[j]);
        }
    }
}

pub proof fn lemma_assoc_value<E, K, V>(
    s: Seq<E>,
    key: spec_fn(E) -> K,
    val: spec_fn(E) -> V,
    i: int,
)
    requires
        keys_unique(s, key),
        0 <= i < s.len(),
    ensures
        assoc_map(s, key, val).contains_key(key(s[i])),
        assoc_map(s, key, val)[key(s[i])] == val(s[i]),
    decreases s.len(),
{
    if i < s.len() - 1 {
        let p = s.drop_last();
        lemma_unique_drop_last(s, key);
        lemma_assoc_value(p, key, val, i);
        assert(p[i] == s[i]);
        assert(s[s.len() - 1] == s.last());
    }
}

/// With unique keys, the map has one key per entry.
pub proof fn lemma_assoc_len<E, K, V>(s: Seq<E>, key: spec_fn(E) -> K, val: spec_fn(E) -> V)
    requires
        keys_unique(s, key),
    ensures
        assoc_map(s, key, val).dom().finite(),
        assoc_map(s, key, val).dom().len() == s.len(),
    decreases s.len(),
{
    if s.len() > 0 {
        let p = s.drop_last();
        lemma_unique_drop_last(s, key);
        lemma_assoc_len(p, key, val);
        lemma_assoc_contains(p, key, val, key(s.last()));
    }
}

/// The map of a prefix one entry longer.
pub proof fn lemma_assoc_take_step<E, K, V>(
    s: Seq<E>,
    key: spec_fn(E) -> K,
    val: spec_fn(E) -> V,
    i: int,
)
    requires
        0 <= i < s.len(),
    ensures
        assoc_map(s.take(i + 1), key, val) == assoc_map(s.take(i), key, val).insert(
            key(s[i]),
            val(s[i]),
        ),
{
    assert(s.take(i + 1).drop_last() =~= s.take(i));
    assert(s.take(i + 1).last() == s[i]);
}

/// Replacing an entry by one with the same key replaces the key's value.
pub proof fn lemma_assoc_update<E, K, V>(
    s: Seq<E>,
    key: spec_fn(E) -> K,
    val: spec_fn(E) -> V,
    i: int,
    e: E,
)
    requires
        keys_unique(s, key),
        0 <= i < s.len(),
        key(e) == key(s[i]),
    ensures
        keys_unique(s.update(i, e), key),
        assoc_map(s.update(i, e), key, val) == assoc_map(s, key, val).insert(key(e), val(e)),
    decreases s.len(),
{
    let t = s.update(i, e);
    assert forall|a: int, b: int|
        #![trigger t[a], t[b]]
        0 <= a < t.len() && 0 <= b < t.len() && a != b implies key(t[a]) != key(t[b]) by {
        assert(key(t[a]) == key(s[a]));
        assert(key(t[b]) == key(s[b]));
    }
    let p = s.drop_last();
    if i == s.len() - 1 {
        assert(t.drop_last() =~= p);
        assert(t.last() == e);
        assert(assoc_map(t, key, val) =~= assoc_map(s, key, val).insert(key(e), val(e)));
    } else {
        lemma_unique_drop_last(s, key);
        lemma_assoc_update(p, key, val, i, e);
        assert(t.drop_last() =~= p.update(i, e));
        assert(t.last() == s.last());
        assert(p[i] == s[i]);
        assert(key(s.last()) != key(e)) by {
            assert(s[s.len() - 1] == s.last());
        }
        assert(assoc_map(t, key, val) =~= assoc_map(s, key, val).insert(key(e), val(e)));
    }
}

} // verus!
