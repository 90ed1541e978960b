//! A symmetric two-key memo.
//!
//! Looking up `(a, b)` returns the same stored value as `(b, a)`. The analyzer
//! uses it to avoid recomputing whether two character sets have an empty
//! intersection.
use std::collections::HashMap;
use std::hash::Hash;
use vstd::prelude::*;
use vstd::std_specs::hash::obeys_key_model;

verus! {

/// Cloning a value of `T` gives an equal value.
pub open spec fn clone_is_copy<T: Clone>() -> bool {
    forall|x: T, y: T| #[trigger] cloned::<T>(x, y) ==> x == y
}

/// `after` is `before` with `result` stored under a clone of `(a, b)`
/// (a clone of it) and under `(b, a)`.
pub open spec fn pairs_added<K: Clone, V: Clone>(before: Map<(K, K), V>, after: Map<(K, K), V>, a: K, b: K, result: V) -> bool {
    exists|a2: K, b2: K, r2: V|
        #![trigger cloned::<K>(a, a2), cloned::<K>(b, b2), cloned::<V>(result, r2)]
        {
            &&& cloned::<K>(a, a2)
            &&& cloned::<K>(b, b2)
            &&& cloned::<V>(result, r2)
            &&& after == before.insert((a2, b2), r2).insert((b, a), result)
        }
}

/// After `add_result`, where cloning gives equal values, the pair looks up
/// the stored result in either order and every other pair looks up what it
/// did before.
pub proof fn lemma_add_result_lookups<K: Clone, V: Clone>(
    before: Map<(K, K), V>,
    after: Map<(K, K), V>,
    a: K,
    b: K,
    result: V,
    x: K,
    y: K,
)
    requires
        pairs_added(before, after, a, b, result),
        clone_is_copy::<K>(),
        clone_is_copy::<V>(),
    ensures
        after.contains_key((a, b)) && after[(a, b)] == result,
        after.contains_key((b, a)) && after[(b, a)] == result,
        (x, y) != (a, b) && (x, y) != (b, a) ==> (after.contains_key((x, y)) == before.contains_key((x, y))
            && (before.contains_key((x, y)) ==> after[(x, y)] == before[(x, y)])),
{
    let (a2, b2, r2) = choose|a2: K, b2: K, r2: V|
        #![trigger cloned::<K>(a, a2), cloned::<K>(b, b2), cloned::<V>(result, r2)]
        {
            &&& cloned::<K>(a, a2)
            &&& cloned::<K>(b, b2)
            &&& cloned::<V>(result, r2)
            &&& after == before.insert((a2, b2), r2).insert((b, a), result)
        };
    assert(a2 == a && b2 == b && r2 == result);
}

/// A cache keyed by an unordered pair of keys.
pub struct ResultCache<V, K> {
    /// The stored values, by first key then second key.
    pub cache: HashMap<K, HashMap<K, V>>,
}

/// The pairs a cache holds, with their values.
pub open spec fn pair_view<V, K>(cache: Map<K, HashMap<K, V>>) -> Map<(K, K), V> {
    Map::new(
        |p: (K, K)| cache.contains_key(p.0) && cache[p.0]@.contains_key(p.1),
        |p: (K, K)| cache[p.0]@[p.1],
    )
}

impl<V: Clone, K: Eq + Hash + Clone> ResultCache<V, K> {
    /// The stored values by key pair.
    pub open spec fn view_pairs(&self) -> Map<(K, K), V> {
        pair_view(self.cache@)
    }

    /// Every pair is stored under both orders with the same value.
    pub open spec fn is_symmetric(&self) -> bool {
        forall|a: K, b: K| #[trigger] self.view_pairs().contains_key((a, b)) ==> {
            &&& self.view_pairs().contains_key((b, a))
            &&& self.view_pairs()[(b, a)] == self.view_pairs()[(a, b)]
        }
    }

    /// Builds an empty cache.
    pub fn new() -> (res: Self)
        ensures
            res.view_pairs() == Map::<(K, K), V>::empty(),
            res.is_symmetric(),
    {
        let res = ResultCache { cache: HashMap::new() };
        proof {
            assert(res.view_pairs() =~= Map::<(K, K), V>::empty());
        }
        res
    }

    /// Stores `result` under `(first, second)`.
    fn store(&mut self, first: K, second: K, result: V)
        requires
            obeys_key_model::<K>(),
        ensures
            final(self).view_pairs() == old(self).view_pairs().insert((first, second), result),
    {
        let mut inner = match self.cache.remove(&first) {
            Some(m) => m,
            None => HashMap::new(),
        };
        let ghost before = old(self).cache@;
        let ghost inner_before = inner@;
        inner.insert(second, result);
        self.cache.insert(first, inner);
        proof {
            assert(before.contains_key(first) ==> inner_before == before[first]@);
            assert(!before.contains_key(first) ==> inner_before == Map::<K, V>::empty());
            assert forall|p: (K, K)| #[trigger] self.view_pairs().contains_key(p) <==> old(self).view_pairs().insert((first, second), result).contains_key(p) by {
                if p.0 != first {
                    assert(self.cache@[p.0] == before[p.0]);
                }
            }
            assert forall|p: (K, K)| #[trigger] self.view_pairs().contains_key(p) implies self.view_pairs()[p] == old(self).view_pairs().insert((first, second), result)[p] by {
                if p.0 != first {
                    assert(self.cache@[p.0] == before[p.0]);
                }
            }
            assert(self.view_pairs() =~= old(self).view_pairs().insert((first, second), result));
        }
    }

    /// Stores `result` under both orderings of the key pair: a clone of
    /// it under clones of `(a, b)`, then the value itself under `(b, a)`.
    /// Where cloning gives equal values, the pair is stored both ways round.
    pub fn add_result(&mut self, a: K, b: K, result: V)
        requires
            obeys_key_model::<K>(),
        ensures
            pairs_added(old(self).view_pairs(), final(self).view_pairs(), a, b, result),
            clone_is_copy::<K>() && clone_is_copy::<V>() ==> final(self).view_pairs() == old(self).view_pairs().insert(
                (a, b),
                result,
            ).insert((b, a), result),
            clone_is_copy::<K>() && clone_is_copy::<V>() ==> (old(self).is_symmetric() ==> final(self).is_symmetric()),
    {
        let a2 = a.clone();
        let b2 = b.clone();
        let r2 = result.clone();
        proof {
            assert(cloned::<K>(a, a2));
            assert(cloned::<K>(b, b2));
            assert(cloned::<V>(result, r2));
        }
        self.store(a2, b2, r2);
        self.store(b, a, result);
    }

    /// Returns the stored value for the pair, if any.
    pub fn get_result(&self, a: &K, b: &K) -> (res: Option<V>)
        requires
            obeys_key_model::<K>(),
        ensures
            res is Some <==> self.view_pairs().contains_key((*a, *b)),
            res matches Some(r) ==> cloned::<V>(self.view_pairs()[(*a, *b)], r),
            clone_is_copy::<V>() ==> res == if self.view_pairs().contains_key((*a, *b)) {
                Some(self.view_pairs()[(*a, *b)])
            } else {
                None::<V>
            },
    {
        match self.cache.get(a) {
            Some(m) => match m.get(b) {
                Some(v) => {
                    let r = v.clone();
                    proof {
                        assert(cloned::<V>(*v, r));
                    }
                    Some(r)
                },
                None => None,
            },
            None => None,
        }
    }
}

/// Looking up a pair in either order gives the same answer in a cache whose
/// pairs were all stored by `add_result`.
pub proof fn lemma_lookup_is_symmetric<V: Clone, K: Eq + Hash + Clone>(c: ResultCache<V, K>, a: K, b: K)
    requires
        c.is_symmetric(),
    ensures
        c.view_pairs().contains_key((a, b)) == c.view_pairs().contains_key((b, a)),
        c.view_pairs().contains_key((a, b)) ==> c.view_pairs()[(a, b)] == c.view_pairs()[(b, a)],
{
    if c.view_pairs().contains_key((b, a)) {
        assert(c.view_pairs().contains_key((a, b)));
    }
}

} // verus!
