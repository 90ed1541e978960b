//! Insertion-ordered store that keeps only the deepest unique values.
//!
//! A value is decoded into a sequence of keys. Adding a value whose keys are
//! new stores it. A value whose keys are a prefix of keys added before (or
//! equal to them) is not stored. When a longer sequence is added, every stored
//! value whose keys are a strict prefix of it is shadowed and dropped. `items`
//! returns the live values in insertion order.
use vstd::prelude::*;
use vstd::std_specs::cmp::PartialEqSpec;

verus! {

/// `p` is a prefix of `s`, keys compared by their `==`.
pub open spec fn keys_prefix<K: PartialEq>(p: Seq<K>, s: Seq<K>) -> bool {
    &&& p.len() <= s.len()
    &&& forall|i: int| 0 <= i < p.len() ==> (#[trigger] p[i]).eq_spec(&s[i])
}

/// `p` is a strict prefix of `s`.
pub open spec fn keys_strict_prefix<K: PartialEq>(p: Seq<K>, s: Seq<K>) -> bool {
    keys_prefix(p, s) && p.len() < s.len()
}

/// Keys that are a prefix of keys added before are not stored again.
pub open spec fn is_new_path<K: PartialEq>(paths: Seq<Seq<K>>, keys: Seq<K>) -> bool {
    forall|j: int| 0 <= j < paths.len() ==> !keys_prefix(keys, #[trigger] paths[j])
}

/// The stored values after adding `keys`: those whose keys are a strict
/// prefix of `keys` are dropped.
pub open spec fn shadowed_results<T, K: PartialEq>(results: Seq<Option<T>>, result_paths: Seq<Seq<K>>, keys: Seq<K>) -> Seq<Option<T>> {
    Seq::new(
        results.len(),
        |i: int|
            if keys_strict_prefix(result_paths[i], keys) {
                None
            } else {
                results[i]
            },
    )
}

/// A store keyed by the decoded key sequence of each value.
pub struct Tree<T, K, F> {
    /// Decodes a value into its keys.
    pub decode: F,
    /// Every non-empty key sequence added so far.
    pub paths: Vec<Vec<K>>,
    /// The stored values in insertion order; dropped ones are `None`.
    pub results: Vec<Option<T>>,
    /// For each stored value, the index in `paths` of the keys it was added
    /// with.
    pub result_paths: Vec<usize>,
}

/// The keys of a list of key vectors.
pub open spec fn path_views<K>(v: Seq<Vec<K>>) -> Seq<Seq<K>> {
    v.map_values(|p: Vec<K>| p@)
}

/// The live values of a result list, in order.
pub open spec fn live_values<T>(results: Seq<Option<T>>) -> Seq<T>
    decreases results.len(),
{
    if results.len() == 0 {
        Seq::<T>::empty()
    } else {
        let rest = live_values(results.drop_last());
        match results.last() {
            Some(v) => rest.push(v),
            None => rest,
        }
    }
}

impl<T, K: PartialEq, F: Fn(&T) -> Vec<K>> Tree<T, K, F> {
    /// The keys each stored value was added with.
    pub open spec fn result_keys(&self) -> Seq<Seq<K>> {
        Seq::new(self.result_paths@.len(), |i: int| self.paths@[self.result_paths@[i] as int]@)
    }

    /// The stored values and their keys line up, and the decoder accepts
    /// every value.
    pub open spec fn wf(&self) -> bool {
        &&& self.results@.len() == self.result_paths@.len()
        &&& forall|i: int| 0 <= i < self.result_paths@.len() ==> #[trigger] self.result_paths@[i] < self.paths@.len()
        &&& forall|t: &T| #[trigger] self.decode.requires((t,))
        &&& K::obeys_eq_spec()
    }

    /// `new` is `old` with `input` added under `keys`: an empty key
    /// sequence changes nothing; otherwise the keys are recorded, stored
    /// values whose keys are a strict prefix of them are dropped, and the value
    /// is stored when its keys are not a prefix of keys added before.
    pub open spec fn added(old: Self, new: Self, input: T, keys: Seq<K>) -> bool {
        if keys.len() == 0 {
            &&& new.paths@ == old.paths@
            &&& new.results@ == old.results@
            &&& new.result_keys() == old.result_keys()
        } else {
            let shadowed = shadowed_results(old.results@, old.result_keys(), keys);
            &&& path_views(new.paths@) == path_views(old.paths@).push(keys)
            &&& if is_new_path(path_views(old.paths@), keys) {
                &&& new.results@ == shadowed.push(Some(input))
                &&& new.result_keys() == old.result_keys().push(keys)
            } else {
                &&& new.results@ == shadowed
                &&& new.result_keys() == old.result_keys()
            }
        }
    }

    /// Of two stored values, the later one's keys are no prefix of the
    /// earlier one's, and the earlier one's keys are no strict prefix of the
    /// later one's.
    pub open spec fn live_keys_apart(&self) -> bool {
        forall|i: int, j: int|
            0 <= i < j < self.results@.len() && (#[trigger] self.results@[i]) is Some && (#[trigger] self.results@[j]) is Some
                ==> !keys_prefix(self.result_keys()[j], self.result_keys()[i]) && !keys_strict_prefix(
                self.result_keys()[i],
                self.result_keys()[j],
            )
    }

    /// Adding a value keeps the stored values' keys apart, keeps the stored
    /// values in insertion order (a value is only ever dropped, and a new one
    /// goes last), and stores at most one new value.
    pub proof fn lemma_added_keeps_keys_apart(old: Self, new: Self, input: T, keys: Seq<K>)
        requires
            old.wf(),
            old.live_keys_apart(),
            Self::added(old, new, input, keys),
        ensures
            new.live_keys_apart(),
            new.results@.len() == old.results@.len() || new.results@.len() == old.results@.len() + 1,
            forall|i: int| 0 <= i < old.results@.len() && (#[trigger] new.results@[i]) is Some ==> new.results@[i] == old.results@[i],
            new.results@.len() == old.results@.len() + 1 ==> new.results@.last() == Some(input),
    {
        if keys.len() > 0 {
            let n = old.results@.len() as int;
            let shadowed = shadowed_results(old.results@, old.result_keys(), keys);
            assert forall|i: int, j: int|
                0 <= i < j < new.results@.len() && (#[trigger] new.results@[i]) is Some && (#[trigger] new.results@[j]) is Some
                    implies !keys_prefix(new.result_keys()[j], new.result_keys()[i]) && !keys_strict_prefix(
                    new.result_keys()[i],
                    new.result_keys()[j],
                ) by {
                assert(new.results@[i] == shadowed[i]);
                assert(new.result_keys()[i] == old.result_keys()[i]);
                if j < n {
                    assert(new.results@[j] == shadowed[j]);
                    assert(new.result_keys()[j] == old.result_keys()[j]);
                    assert(old.results@[i] is Some && old.results@[j] is Some);
                } else {
                    assert(is_new_path(path_views(old.paths@), keys));
                    assert(new.result_keys()[j] == keys);
                    let k = old.result_paths@[i] as int;
                    assert(path_views(old.paths@)[k] == old.result_keys()[i]);
                    assert(!keys_prefix(keys, path_views(old.paths@)[k]));
                }
            }
            assert forall|i: int| 0 <= i < old.results@.len() && (#[trigger] new.results@[i]) is Some implies new.results@[i] == old.results@[i] by {
                assert(new.results@[i] == shadowed[i]);
            }
        }
    }

    /// Builds a tree using `decode` to turn a value into its key sequence.
    pub fn new(decode: F) -> (res: Self)
        requires
            forall|t: &T| #[trigger] decode.requires((t,)),
            K::obeys_eq_spec(),
        ensures
            res.wf(),
            res.decode == decode,
            res.paths@.len() == 0,
            res.results@.len() == 0,
            res.live_keys_apart(),
    {
        Tree { decode, paths: Vec::new(), results: Vec::new(), result_paths: Vec::new() }
    }

    /// Returns `true` when `keys` is a prefix of one of `paths`.
    fn prefix_of_any(paths: &Vec<Vec<K>>, keys: &Vec<K>) -> (res: bool)
        requires
            K::obeys_eq_spec(),
        ensures
            res == !is_new_path(path_views(paths@), keys@),
    {
        let mut j: usize = 0;
        while j < paths.len()
            invariant
                K::obeys_eq_spec(),
                j <= paths@.len(),
                forall|i: int| 0 <= i < j ==> !keys_prefix(keys@, #[trigger] path_views(paths@)[i]),
            decreases paths.len() - j,
        {
            if is_prefix(keys, &paths[j]) {
                assert(keys_prefix(keys@, path_views(paths@)[j as int]));
                return true;
            }
            j += 1;
        }
        false
    }

    /// Adds a value with the given keys. Adding an empty sequence is a no-op.
    pub fn add_with_keys(&mut self, input: T, keys: Vec<K>)
        requires
            old(self).wf(),
        ensures
            final(self).wf(),
            final(self).decode == old(self).decode,
            Self::added(*old(self), *final(self), input, keys@),
    {
        if keys.len() == 0 {
            return;
        }
        let stored = !Self::prefix_of_any(&self.paths, &keys);
        let ghost shadowed = shadowed_results(self.results@, self.result_keys(), keys@);
        let mut i: usize = 0;
        while i < self.results.len()
            invariant
                self.wf(),
                self.decode == old(self).decode,
                self.paths == old(self).paths,
                self.result_paths == old(self).result_paths,
                self.results@.len() == old(self).results@.len(),
                i <= self.results@.len(),
                shadowed == shadowed_results(old(self).results@, old(self).result_keys(), keys@),
                forall|j: int| 0 <= j < i ==> self.results@[j] == #[trigger] shadowed[j],
                forall|j: int| i <= j < self.results@.len() ==> self.results@[j] == old(self).results@[j],
            decreases self.results.len() - i,
        {
            let path = &self.paths[self.result_paths[i]];
            if path.len() < keys.len() && is_prefix(path, &keys) {
                self.results.set(i, None);
            }
            proof {
                assert(self.result_keys()[i as int] == path@);
            }
            i += 1;
        }
        proof {
            assert(self.results@ =~= shadowed);
        }
        let ghost paths_before = self.paths@;
        let ghost keys_before = self.result_keys();
        let new_index = self.paths.len();
        self.paths.push(keys);
        proof {
            assert(path_views(self.paths@) =~= path_views(paths_before).push(keys@));
            assert(self.result_keys() =~= keys_before);
        }
        if stored {
            self.results.push(Some(input));
            self.result_paths.push(new_index);
            proof {
                assert(self.result_keys() =~= keys_before.push(keys@));
            }
        }
    }

    /// Adds a value under the keys that `decode` gives for it.
    pub fn add(&mut self, input: T)
        requires
            old(self).wf(),
        ensures
            final(self).wf(),
            final(self).decode == old(self).decode,
            exists|keys: Vec<K>| #[trigger] old(self).decode.ensures((&input,), keys) && Self::added(
                *old(self),
                *final(self),
                input,
                keys@,
            ),
    {
        let keys = (self.decode)(&input);
        let ghost k = keys;
        self.add_with_keys(input, keys);
        proof {
            assert(old(self).decode.ensures((&input,), k));
        }
    }

    /// Returns the live values in insertion order.
    pub fn items(&self) -> (res: Vec<&T>)
        ensures
            res@.len() == live_values(self.results@).len(),
            forall|i: int| 0 <= i < res@.len() ==> *res@[i] == #[trigger] live_values(self.results@)[i],
    {
        let mut out: Vec<&T> = Vec::new();
        let mut i: usize = 0;
        while i < self.results.len()
            invariant
                i <= self.results@.len(),
                out@.len() == live_values(self.results@.take(i as int)).len(),
                forall|j: int| 0 <= j < out@.len() ==> *out@[j] == #[trigger] live_values(self.results@.take(i as int))[j],
            decreases self.results.len() - i,
        {
            proof {
                assert(self.results@.take(i + 1).drop_last() =~= self.results@.take(i as int));
                assert(self.results@.take(i + 1).last() == self.results@[i as int]);
            }
            match &self.results[i] {
                Some(v) => {
                    out.push(v);
                },
                None => {},
            }
            i += 1;
        }
        proof {
            assert(self.results@.take(i as int) =~= self.results@);
        }
        out
    }
}

/// Returns `true` when `p` is a prefix of `s`.
fn is_prefix<K: PartialEq>(p: &Vec<K>, s: &Vec<K>) -> (res: bool)
    requires
        K::obeys_eq_spec(),
    ensures
        res == keys_prefix(p@, s@),
{
    if p.len() > s.len() {
        return false;
    }
    let mut i: usize = 0;
    while i < p.len()
        invariant
            K::obeys_eq_spec(),
            p@.len() <= s@.len(),
            i <= p@.len(),
            forall|j: int| 0 <= j < i ==> (#[trigger] p@[j]).eq_spec(&s@[j]),
        decreases p.len() - i,
    {
        if !(p[i] == s[i]) {
            return false;
        }
        i += 1;
    }
    true
}

} // verus!
