//! Set helpers with the same semantics the analyzer expects.
use std::collections::HashSet;
use std::hash::Hash;
use vstd::prelude::*;
use vstd::std_specs::hash::{obeys_key_model, spec_hash_keys_iter};
use vstd::std_specs::iter::IteratorSpec;

verus! {

/// A hash set holds finitely many elements.
proof fn lemma_hash_set_finite<T>(s: &HashSet<T>)
    requires
        obeys_key_model::<T>(),
    ensures
        s@.finite(),
{
    let keys = IteratorSpec::remaining(&spec_hash_keys_iter(s)).unref();
    assert(keys.to_set() == s@);
    vstd::seq_lib::seq_to_set_is_finite(keys);
}

/// Returns `true` when both sets contain exactly the same elements.
pub fn are_sets_equal<T: Eq + Hash>(a: &HashSet<T>, b: &HashSet<T>) -> (res: bool)
    requires
        obeys_key_model::<T>(),
    ensures
        res == (a@ == b@),
{
    proof {
        lemma_hash_set_finite(a);
        lemma_hash_set_finite(b);
    }
    if a.len() != b.len() {
        return false;
    }
    let ghost keys: Seq<T> = IteratorSpec::remaining(&spec_hash_keys_iter(a)).unref();
    for x in iter: a.iter()
        invariant
            obeys_key_model::<T>(),
            iter.seq().unref() == keys,
            keys.to_set() == a@,
            a@.finite(),
            b@.finite(),
            a@.len() == b@.len(),
            forall|j: int| 0 <= j < iter.index() ==> b@.contains(#[trigger] keys[j]),
    {
        let ghost idx = iter.index();
        if !b.contains(x) {
            proof {
                assert(keys[idx] == *x);
                assert(keys.to_set().contains(keys[idx]));
            }
            return false;
        }
    }
    proof {
        assert forall|x: T| a@.contains(x) implies b@.contains(x) by {
            assert(keys.to_set().contains(x));
            let j = choose|j: int| 0 <= j < keys.len() && keys[j] == x;
            assert(b@.contains(keys[j]));
        }
        vstd::set_lib::lemma_subset_equality(a@, b@);
    }
    true
}

} // verus!
