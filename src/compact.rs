//! The compactor: removes adjacent same-bucket elements from a `Vec` in place.

use vstd::prelude::*;
use vstd::std_specs::cmp::PartialEqSpec;
use crate::model::{dedup_seq, eq_pred, key_pred, key_rel, lemma_pure_outcome, outcomes, pure_rel, run_of, scan_step, step_outcome};

verus! {

/// The equality test of `new_dedup`: compares the two elements and changes neither.
fn equal_values<T: PartialEq>(a: &mut T, b: &mut T) -> (r: bool)
    ensures
        T::obeys_eq_spec() ==> r == (*old(a)).eq_spec(&*old(b)),
        *final(a) == *old(a),
        *final(b) == *old(b),
{
    *a == *b
}

/// Adjacent deduplication driven by a caller-supplied equivalence test.
pub trait NewDedup<T>: Sized {
    /// The elements held, in order.
    spec fn elems(&self) -> Seq<T>;

    /// Removes each element equal to the last element kept before it.
    fn new_dedup(&mut self) where T: PartialEq
        ensures
            final(self).elems().len() <= old(self).elems().len(),
            T::obeys_eq_spec() ==> final(self).elems() == dedup_seq(eq_pred::<T>(), old(self).elems()),
    {
        self.new_dedup_by(equal_values::<T>);
        proof {
            if T::obeys_eq_spec() {
                assert(outcomes(pure_rel(eq_pred::<T>()), old(self).elems(), self.elems()));
                lemma_pure_outcome(eq_pred::<T>(), pure_rel(eq_pred::<T>()), old(self).elems(), self.elems());
            }
        }
    }

    /// Scans left to right and calls `same_bucket(later, retained)` on each
    /// element and the most recently retained one; the later element is dropped
    /// when the answer is `true`, kept otherwise. The predicate may change both
    /// elements.
    fn new_dedup_by<F>(&mut self, same_bucket: F) where F: FnMut(&mut T, &mut T) -> bool
        requires
            forall|a: &mut T, b: &mut T| call_requires(same_bucket, (a, b)),
        ensures
            final(self).elems().len() <= old(self).elems().len(),
            forall|rel: spec_fn(T, T, bool, T, T) -> bool|
                (forall|a: &mut T, b: &mut T, q: bool| #[trigger] call_ensures(same_bucket, (a, b), q)
                    ==> rel(*a, *b, q, *final(a), *final(b)))
                ==> #[trigger] outcomes(rel, old(self).elems(), final(self).elems()),
            forall|p: spec_fn(T, T) -> bool|
                (forall|a: &mut T, b: &mut T, q: bool| #[trigger] call_ensures(same_bucket, (a, b), q)
                    ==> q == p(*a, *b) && *final(a) == *a && *final(b) == *b)
                ==> final(self).elems() == #[trigger] dedup_seq(p, old(self).elems()),
    ;

    /// Removes each element whose key equals the key of the last element kept
    /// before it; the key function may change the element it is given.
    fn new_dedup_by_key<F, K>(&mut self, key: F) where F: FnMut(&mut T) -> K, K: PartialEq
        requires
            forall|a: &mut T| call_requires(key, (a,)),
        ensures
            final(self).elems().len() <= old(self).elems().len(),
            forall|krel: spec_fn(T, K, T) -> bool|
                (forall|a: &mut T, k: K| #[trigger] call_ensures(key, (a,), k) ==> krel(*a, k, *final(a)))
                ==> #[trigger] outcomes(key_rel(krel), old(self).elems(), final(self).elems()),
            K::obeys_eq_spec() ==> forall|kf: spec_fn(T) -> K|
                (forall|a: &mut T, k: K| #[trigger] call_ensures(key, (a,), k) ==> k == kf(*a) && *final(a) == *a)
                ==> final(self).elems() == #[trigger] dedup_seq(key_pred(kf), old(self).elems()),
    ;
}

impl<T> NewDedup<T> for Vec<T> {
    open spec fn elems(&self) -> Seq<T> {
        self@
    }

    fn new_dedup_by<F>(&mut self, same_bucket: F) where F: FnMut(&mut T, &mut T) -> bool {
        let ghost input = self@;
        let n = self.len();
        if n < 2 {
            proof {
                if n == 1 {
                    let states = seq![self@];
                    assert(seq![input[0]] =~= input);
                    assert forall|rel: spec_fn(T, T, bool, T, T) -> bool| true implies
                        #[trigger] outcomes(rel, input, self@) by {
                        assert(run_of(rel, input, states));
                    }
                }
                assert forall|p: spec_fn(T, T) -> bool| true implies #[trigger] dedup_seq(p, input) == input by {
                    if n == 1 {
                        assert(input.drop_last() =~= Seq::<T>::empty());
                        assert(dedup_seq(p, input.drop_last()).len() == 0);
                        assert(dedup_seq(p, input) =~= input);
                    }
                }
            }
            return;
        }
        let mut same_bucket = same_bucket;
        let ghost f = same_bucket;
        let mut last: usize = 0;
        let mut read: usize = 1;
        let ghost mut states: Seq<Seq<T>> = seq![seq![input[0]]];
        proof {
            assert(self@.subrange(0, 1) =~= seq![input[0]]);
        }
        while read < n
            invariant
                same_bucket == f,
                forall|a: &mut T, b: &mut T| call_requires(f, (a, b)),
                self@.len() == n,
                n == input.len(),
                last < read <= n,
                forall|k: int| read <= k < n ==> self@[k] == input[k],
                states.len() == read,
                states[0] == seq![input[0]],
                states.last() == self@.subrange(0, last + 1),
                forall|rel: spec_fn(T, T, bool, T, T) -> bool, i: int|
                    (forall|a: &mut T, b: &mut T, q: bool| #[trigger] call_ensures(f, (a, b), q)
                        ==> rel(*a, *b, q, *final(a), *final(b)))
                    && 0 < i < read ==> #[trigger] step_outcome(rel, states[i - 1], input[i], states[i]),
            decreases n - read,
        {
            let ghost before = self@;
            let same = compare_at(self, read, last, &mut same_bucket);
            let ghost mid = self@;
            if !same {
                last += 1;
                if last < read {
                    swap_at(self, last, read);
                }
            }
            proof {
                let d = states.last();
                let next = self@.subrange(0, last + 1);
                assert(d.drop_last() =~= before.subrange(0, d.len() - 1));
                assert(next =~= scan_step(d, same, mid[read as int], mid[d.len() - 1]));
                assert forall|rel: spec_fn(T, T, bool, T, T) -> bool|
                    (forall|a: &mut T, b: &mut T, q: bool| #[trigger] call_ensures(f, (a, b), q)
                        ==> rel(*a, *b, q, *final(a), *final(b)))
                    implies #[trigger] step_outcome(rel, d, input[read as int], next) by {
                    assert(rel(before[read as int], before[d.len() - 1], same, mid[read as int], mid[d.len() - 1]));
                    assert(d.last() == before[d.len() - 1]);
                    assert(input[read as int] == before[read as int]);
                    assert(rel(input[read as int], d.last(), same, mid[read as int], mid[d.len() - 1]));
                }
                states = states.push(next);
            }
            read += 1;
        }
        self.truncate(last + 1);
        proof {
            assert(input.subrange(0, n as int) =~= input);
            assert forall|rel: spec_fn(T, T, bool, T, T) -> bool|
                (forall|a: &mut T, b: &mut T, q: bool| #[trigger] call_ensures(f, (a, b), q)
                    ==> rel(*a, *b, q, *final(a), *final(b)))
                implies #[trigger] outcomes(rel, input, self@) by {
                assert(run_of(rel, input, states));
            }
            assert forall|p: spec_fn(T, T) -> bool|
                (forall|a: &mut T, b: &mut T, q: bool| #[trigger] call_ensures(f, (a, b), q)
                    ==> q == p(*a, *b) && *final(a) == *a && *final(b) == *b)
                implies self@ == #[trigger] dedup_seq(p, input) by {
                assert(outcomes(pure_rel(p), input, self@));
                lemma_pure_outcome(p, pure_rel(p), input, self@);
            }
        }
    }

    // The same scan as `new_dedup_by`, written out here: a closure that calls
    // `key` would borrow it mutably, which Verus does not take.
    fn new_dedup_by_key<F, K>(&mut self, key: F) where F: FnMut(&mut T) -> K, K: PartialEq {
        let ghost input = self@;
        let n = self.len();
        if n < 2 {
            proof {
                if n == 1 {
                    let states = seq![self@];
                    assert(seq![input[0]] =~= input);
                    assert forall|krel: spec_fn(T, K, T) -> bool| true implies
                        #[trigger] outcomes(key_rel(krel), input, self@) by {
                        assert(run_of(key_rel(krel), input, states));
                    }
                }
                assert forall|p: spec_fn(T, T) -> bool| true implies #[trigger] dedup_seq(p, input) == input by {
                    if n == 1 {
                        assert(input.drop_last() =~= Seq::<T>::empty());
                        assert(dedup_seq(p, input.drop_last()).len() == 0);
                        assert(dedup_seq(p, input) =~= input);
                    }
                }
            }
            return;
        }
        let mut key = key;
        let ghost f = key;
        let mut last: usize = 0;
        let mut read: usize = 1;
        let ghost mut states: Seq<Seq<T>> = seq![seq![input[0]]];
        proof {
            assert(self@.subrange(0, 1) =~= seq![input[0]]);
        }
        while read < n
            invariant
                key == f,
                forall|a: &mut T| call_requires(f, (a,)),
                self@.len() == n,
                n == input.len(),
                last < read <= n,
                forall|k: int| read <= k < n ==> self@[k] == input[k],
                states.len() == read,
                states[0] == seq![input[0]],
                states.last() == self@.subrange(0, last + 1),
                forall|krel: spec_fn(T, K, T) -> bool, i: int|
                    (forall|a: &mut T, k: K| #[trigger] call_ensures(f, (a,), k) ==> krel(*a, k, *final(a)))
                    && 0 < i < read ==> #[trigger] step_outcome(key_rel(krel), states[i - 1], input[i], states[i]),
            decreases n - read,
        {
            let ghost before = self@;
            let same = compare_keys_at(self, read, last, &mut key);
            let ghost mid = self@;
            if !same {
                last += 1;
                if last < read {
                    swap_at(self, last, read);
                }
            }
            proof {
                let d = states.last();
                let next = self@.subrange(0, last + 1);
                assert(d.drop_last() =~= before.subrange(0, d.len() - 1));
                assert(next =~= scan_step(d, same, mid[read as int], mid[d.len() - 1]));
                assert forall|krel: spec_fn(T, K, T) -> bool|
                    (forall|a: &mut T, k: K| #[trigger] call_ensures(f, (a,), k) ==> krel(*a, k, *final(a)))
                    implies #[trigger] step_outcome(key_rel(krel), d, input[read as int], next) by {
                    let rel = key_rel(krel);
                    assert(rel(before[read as int], before[d.len() - 1], same, mid[read as int], mid[d.len() - 1]));
                    assert(d.last() == before[d.len() - 1]);
                    assert(input[read as int] == before[read as int]);
                    assert(rel(input[read as int], d.last(), same, mid[read as int], mid[d.len() - 1]));
                }
                states = states.push(next);
            }
            read += 1;
        }
        self.truncate(last + 1);
        proof {
            assert(input.subrange(0, n as int) =~= input);
            assert forall|krel: spec_fn(T, K, T) -> bool|
                (forall|a: &mut T, k: K| #[trigger] call_ensures(f, (a,), k) ==> krel(*a, k, *final(a)))
                implies #[trigger] outcomes(key_rel(krel), input, self@) by {
                assert(run_of(key_rel(krel), input, states));
            }
            if K::obeys_eq_spec() {
                assert forall|kf: spec_fn(T) -> K|
                    (forall|a: &mut T, k: K| #[trigger] call_ensures(f, (a,), k) ==> k == kf(*a) && *final(a) == *a)
                    implies self@ == #[trigger] dedup_seq(key_pred(kf), input) by {
                    let krel = |x: T, k: K, x2: T| k == kf(x) && x2 == x;
                    assert(outcomes(key_rel(krel), input, self@));
                    lemma_pure_outcome(key_pred(kf), key_rel(krel), input, self@);
                }
            }
        }
    }
}

/// Calls `f(&mut v[i], &mut v[j])`, the later element first.
fn compare_at<T, F: FnMut(&mut T, &mut T) -> bool>(v: &mut Vec<T>, i: usize, j: usize, f: &mut F) -> (r: bool)
    requires
        j < i < old(v).len(),
        forall|a: &mut T, b: &mut T| call_requires(*old(f), (a, b)),
    ensures
        final(v).len() == old(v).len(),
        *final(f) == *old(f),
        forall|rel: spec_fn(T, T, bool, T, T) -> bool|
            (forall|a: &mut T, b: &mut T, q: bool| #[trigger] call_ensures(*old(f), (a, b), q)
                ==> rel(*a, *b, q, *final(a), *final(b)))
            ==> #[trigger] rel(old(v)@[i as int], old(v)@[j as int], r, final(v)@[i as int], final(v)@[j as int]),
        forall|k: int| 0 <= k < old(v).len() && k != i && k != j ==> final(v)@[k] == old(v)@[k],
{
    let (left, right) = v.as_mut_slice().split_at_mut(i);
    f(&mut right[0], &mut left[j])
}

/// Calls `key(&mut v[i])`, then `key(&mut v[j])`, and compares the two keys.
fn compare_keys_at<T, K: PartialEq, F: FnMut(&mut T) -> K>(v: &mut Vec<T>, i: usize, j: usize, key: &mut F) -> (r: bool)
    requires
        j < i < old(v).len(),
        forall|a: &mut T| call_requires(*old(key), (a,)),
    ensures
        final(v).len() == old(v).len(),
        *final(key) == *old(key),
        forall|krel: spec_fn(T, K, T) -> bool|
            (forall|a: &mut T, k: K| #[trigger] call_ensures(*old(key), (a,), k) ==> krel(*a, k, *final(a)))
            ==> #[trigger] key_rel(krel)(old(v)@[i as int], old(v)@[j as int], r, final(v)@[i as int], final(v)@[j as int]),
        forall|k: int| 0 <= k < old(v).len() && k != i && k != j ==> final(v)@[k] == old(v)@[k],
{
    let (left, right) = v.as_mut_slice().split_at_mut(i);
    let ka = key(&mut right[0]);
    let kb = key(&mut left[j]);
    ka == kb
}

/// Exchanges `v[j]` and `v[i]`.
fn swap_at<T>(v: &mut Vec<T>, j: usize, i: usize)
    requires
        j < i < old(v).len(),
    ensures
        final(v)@ == old(v)@.update(j as int, old(v)@[i as int]).update(i as int, old(v)@[j as int]),
{
    let (left, right) = v.as_mut_slice().split_at_mut(i);
    core::mem::swap(&mut left[j], &mut right[0]);
}

} // verus!
