//! Small slice helpers used across the analyzer.
use vstd::prelude::*;
use vstd::std_specs::cmp::PartialEqSpec;

verus! {

/// `k` is the length of the longest common prefix of `a` and `b`, with
/// elements compared by their `==`.
pub open spec fn is_common_prefix_len<T: PartialEq>(a: Seq<T>, b: Seq<T>, k: int) -> bool {
    &&& 0 <= k <= a.len()
    &&& k <= b.len()
    &&& forall|i: int| 0 <= i < k ==> (#[trigger] a[i]).eq_spec(&b[i])
    &&& (k < a.len() && k < b.len() ==> !a[k].eq_spec(&b[k]))
}

/// Strips the common prefix of two slices and returns the remaining tails.
///
/// The comparison walks both slices in lockstep and stops at the first index
/// where the elements differ or either slice ends.
pub fn drop_common<'a, T: PartialEq>(a: &'a [T], b: &'a [T]) -> (res: (&'a [T], &'a [T]))
    requires
        T::obeys_eq_spec(),
    ensures
        is_common_prefix_len(a@, b@, a@.len() - res.0@.len()),
        res.0@ == a@.skip(a@.len() - res.0@.len()),
        res.1@ == b@.skip(a@.len() - res.0@.len()),
{
    let mut common: usize = 0;
    while common < a.len() && common < b.len() && a[common] == b[common]
        invariant
            T::obeys_eq_spec(),
            common <= a@.len(),
            common <= b@.len(),
            forall|i: int| 0 <= i < common ==> (#[trigger] a@[i]).eq_spec(&b@[i]),
        decreases a.len() - common,
    {
        common += 1;
    }
    let (_, rest_a) = a.split_at(common);
    let (_, rest_b) = b.split_at(common);
    proof {
        assert(rest_a@ =~= a@.skip(common as int));
        assert(rest_b@ =~= b@.skip(common as int));
    }
    (rest_a, rest_b)
}

/// The length of the longest common prefix of two sequences.
pub open spec fn common_prefix_len<T: PartialEq>(a: Seq<T>, b: Seq<T>) -> int {
    choose|k: int| is_common_prefix_len(a, b, k)
}

/// The longest common prefix has one length.
pub proof fn lemma_common_prefix_len_unique<T: PartialEq>(a: Seq<T>, b: Seq<T>, k: int)
    requires
        is_common_prefix_len(a, b, k),
    ensures
        common_prefix_len(a, b) == k,
{
    let c = common_prefix_len(a, b);
    assert(is_common_prefix_len(a, b, c));
    if c < k {
        assert(a[c].eq_spec(&b[c]));
    } else if k < c {
        assert(a[k].eq_spec(&b[k]));
    }
}

} // verus!
