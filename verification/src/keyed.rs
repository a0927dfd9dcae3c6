//! Sequences of entries keyed by text, where each key stands at most once.
use vstd::prelude::*;

verus! {

/// No two entries of `s` have the same key.
pub open spec fn keys_distinct<V>(s: Seq<V>, key: spec_fn(V) -> Seq<char>) -> bool {
    forall|i: int, j: int| 0 <= i < j < s.len() ==> key(#[trigger] s[i]) != key(#[trigger] s[j])
}

/// Replacing an entry by one with the same key keeps the keys distinct.
pub proof fn lemma_keys_distinct_update<V>(s: Seq<V>, key: spec_fn(V) -> Seq<char>, i: int, v: V)
    requires
        0 <= i < s.len(),
        key(v) == key(s[i]),
    ensures
        keys_distinct(s, key) ==> keys_distinct(s.update(i, v), key),
{
    if keys_distinct(s, key) {
        let u = s.update(i, v);
        assert forall|a: int, b: int| 0 <= a < b < u.len() implies key(#[trigger] u[a]) != key(
            #[trigger] u[b],
        ) by {
            assert(key(u[a]) == key(s[a]));
            assert(key(u[b]) == key(s[b]));
            assert(key(s[a]) != key(s[b]));
        }
    }
}

/// A sequence with the same keys, position by position, has distinct keys
/// when the first one has.
pub proof fn lemma_keys_distinct_same_keys<V, W>(
    s: Seq<V>,
    t: Seq<W>,
    key: spec_fn(V) -> Seq<char>,
    key2: spec_fn(W) -> Seq<char>,
)
    requires
        s.len() == t.len(),
        forall|i: int| 0 <= i < s.len() ==> key(#[trigger] s[i]) == key2(t[i]),
    ensures
        keys_distinct(s, key) ==> keys_distinct(t, key2),
{
    if keys_distinct(s, key) {
        assert forall|a: int, b: int| 0 <= a < b < t.len() implies key2(#[trigger] t[a]) != key2(
            #[trigger] t[b],
        ) by {
            assert(key(s[a]) == key2(t[a]));
            assert(key(s[b]) == key2(t[b]));
            assert(key(s[a]) != key(s[b]));
        }
    }
}

/// Appending an entry whose key is new keeps the keys distinct.
pub proof fn lemma_keys_distinct_push<V>(s: Seq<V>, key: spec_fn(V) -> Seq<char>, v: V)
    requires
        forall|j: int| 0 <= j < s.len() ==> key(#[trigger] s[j]) != key(v),
    ensures
        keys_distinct(s, key) ==> keys_distinct(s.push(v), key),
{
    if keys_distinct(s, key) {
        let u = s.push(v);
        assert forall|a: int, b: int| 0 <= a < b < u.len() implies key(#[trigger] u[a]) != key(
            #[trigger] u[b],
        ) by {
            assert(u[a] == s[a]);
            if b < s.len() {
                assert(u[b] == s[b]);
            } else {
                assert(u[b] == v);
                assert(key(s[a]) != key(v));
            }
        }
    }
}

/// Removing an entry keeps the keys distinct.
pub proof fn lemma_keys_distinct_remove<V>(s: Seq<V>, key: spec_fn(V) -> Seq<char>, i: int)
    requires
        0 <= i < s.len(),
    ensures
        keys_distinct(s, key) ==> keys_distinct(s.remove(i), key),
{
    if keys_distinct(s, key) {
        let u = s.remove(i);
        assert forall|a: int, b: int| 0 <= a < b < u.len() implies key(#[trigger] u[a]) != key(
            #[trigger] u[b],
        ) by {
            let a2 = if a < i { a } else { a + 1 };
            let b2 = if b < i { b } else { b + 1 };
            assert(u[a] == s[a2]);
            assert(u[b] == s[b2]);
            assert(key(s[a2]) != key(s[b2]));
        }
    }
}

/// Keeping only some entries keeps the keys distinct.
pub proof fn lemma_keys_distinct_filter<V>(s: Seq<V>, key: spec_fn(V) -> Seq<char>, keep: spec_fn(V) -> bool)
    requires
        keys_distinct(s, key),
    ensures
        keys_distinct(s.filter(keep), key),
    decreases s.len(),
{
    reveal_with_fuel(Seq::<_>::filter, 1);
    if s.len() > 0 {
        let init = s.drop_last();
        assert(keys_distinct(init, key)) by {
            assert forall|a: int, b: int| 0 <= a < b < init.len() implies key(#[trigger] init[a]) != key(
                #[trigger] init[b],
            ) by {
                assert(init[a] == s[a]);
                assert(init[b] == s[b]);
            }
        }
        lemma_keys_distinct_filter(init, key, keep);
        let f = init.filter(keep);
        if keep(s.last()) {
            assert forall|j: int| 0 <= j < f.len() implies key(#[trigger] f[j]) != key(s.last()) by {
                assert(f.contains(f[j]));
                init.lemma_filter_contains_rev(keep, f[j]);
                assert(init.contains(f[j]));
                let k = choose|k: int| 0 <= k < init.len() && init[k] == f[j];
                assert(init[k] == s[k]);
                assert(s.last() == s[s.len() - 1]);
            }
            lemma_keys_distinct_push(f, key, s.last());
        }
    }
}

} // verus!
