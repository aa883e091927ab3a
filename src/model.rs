//! Mathematical model of adjacent deduplication.
//!
//! A comparison is described by a step relation `rel(x, y, r, x2, y2)`: when the
//! predicate is shown the later element `x` and the most recently retained
//! element `y`, it may answer `r` and leave the two elements as `x2` and `y2`.
//! `outcomes` gives every sequence that a left-to-right scan can produce under
//! such a relation; `dedup_seq` is the single outcome of a pure predicate.

use vstd::prelude::*;
use vstd::std_specs::cmp::PartialEqSpec;

verus! {

/// The sequences that a scan of `s` may leave behind when each comparison
/// behaves as `rel` allows.
pub open spec fn outcomes<T>(rel: spec_fn(T, T, bool, T, T) -> bool, s: Seq<T>, out: Seq<T>) -> bool {
    if s.len() == 0 {
        out == s
    } else {
        exists|states: Seq<Seq<T>>| #[trigger] run_of(rel, s, states) && out == states.last()
    }
}

/// `states[i]` is the retained prefix once `s[0..=i]` has been scanned: the
/// first element is retained as it is, and each later one is compared with the
/// last element retained before it.
pub open spec fn run_of<T>(rel: spec_fn(T, T, bool, T, T) -> bool, s: Seq<T>, states: Seq<Seq<T>>) -> bool {
    &&& states.len() == s.len()
    &&& s.len() > 0 ==> states[0] == seq![s[0]]
    &&& forall|i: int| 0 < i < s.len() ==> #[trigger] step_outcome(rel, states[i - 1], s[i], states[i])
}

/// `out` may follow from the retained prefix `d` when the next element is `x`.
pub open spec fn step_outcome<T>(rel: spec_fn(T, T, bool, T, T) -> bool, d: Seq<T>, x: T, out: Seq<T>) -> bool {
    exists|r: bool, x2: T, y2: T|
        #[trigger] rel(x, d.last(), r, x2, y2) && d.len() > 0 && out == scan_step(d, r, x2, y2)
}

/// The retained prefix after one comparison: the retained element becomes
/// `y2`, and `x2` is appended when the answer was "distinct".
pub open spec fn scan_step<T>(d: Seq<T>, r: bool, x2: T, y2: T) -> Seq<T> {
    if r {
        d.drop_last().push(y2)
    } else {
        d.drop_last().push(y2).push(x2)
    }
}

/// The step relation of a predicate `p(later, retained)` that changes neither element.
pub open spec fn pure_rel<T>(p: spec_fn(T, T) -> bool) -> spec_fn(T, T, bool, T, T) -> bool {
    |x: T, y: T, r: bool, x2: T, y2: T| r == p(x, y) && x2 == x && y2 == y
}

/// The step relation of `key(later) == key(retained)`, when each call of the
/// key function behaves as `krel(element, key, element after the call)` allows.
pub open spec fn key_rel<T, K: PartialEq>(krel: spec_fn(T, K, T) -> bool) -> spec_fn(T, T, bool, T, T) -> bool {
    |x: T, y: T, r: bool, x2: T, y2: T|
        exists|kx: K, ky: K|
            #![trigger krel(x, kx, x2), krel(y, ky, y2)]
            krel(x, kx, x2) && krel(y, ky, y2) && (K::obeys_eq_spec() ==> r == kx.eq_spec(&ky))
}

/// Adjacent deduplication of `s` under a pure predicate `p(later, retained)`:
/// an element is dropped when `p` holds between it and the last element kept
/// before it.
pub open spec fn dedup_seq<T>(p: spec_fn(T, T) -> bool, s: Seq<T>) -> Seq<T>
    decreases s.len(),
{
    if s.len() == 0 {
        s
    } else {
        let d = dedup_seq(p, s.drop_last());
        if d.len() > 0 && p(s.last(), d.last()) {
            d
        } else {
            d.push(s.last())
        }
    }
}

/// Equality as `PartialEq` specifies it.
pub open spec fn eq_pred<T: PartialEq>() -> spec_fn(T, T) -> bool {
    |x: T, y: T| x.eq_spec(&y)
}

/// Equality of keys, as the key type's `PartialEq` specifies it.
pub open spec fn key_pred<T, K: PartialEq>(kf: spec_fn(T) -> K) -> spec_fn(T, T) -> bool {
    |x: T, y: T| kf(x).eq_spec(&kf(y))
}

/// `p` is reflexive, symmetric and transitive.
pub open spec fn is_equivalence<T>(p: spec_fn(T, T) -> bool) -> bool {
    &&& forall|x: T| #[trigger] p(x, x)
    &&& forall|x: T, y: T| #[trigger] p(x, y) ==> p(y, x)
    &&& forall|x: T, y: T, z: T| #[trigger] p(x, y) && #[trigger] p(y, z) ==> p(x, z)
}

/// The first element of each maximal run of adjacent elements related by `p`,
/// in order.
pub open spec fn run_heads<T>(p: spec_fn(T, T) -> bool, s: Seq<T>) -> Seq<T>
    decreases s.len(),
{
    if s.len() == 0 {
        s
    } else {
        let h = run_heads(p, s.drop_last());
        if s.len() > 1 && p(s.last(), s[s.len() - 2]) {
            h
        } else {
            h.push(s.last())
        }
    }
}

/// A sequence of `(key, payload)` pairs with each maximal run of equal keys
/// replaced by one pair: that key and the sum of the run's payloads.
pub open spec fn merge_runs<K>(s: Seq<(K, int)>) -> Seq<(K, int)>
    decreases s.len(),
{
    if s.len() == 0 {
        s
    } else {
        let m = merge_runs(s.drop_last());
        if m.len() > 0 && m.last().0 == s.last().0 {
            m.drop_last().push((m.last().0, m.last().1 + s.last().1))
        } else {
            m.push(s.last())
        }
    }
}

/// The step relation of a merging predicate: pairs with equal keys are the
/// same, and the later payload is then added into the retained element.
pub open spec fn merge_rel<K>() -> spec_fn((K, int), (K, int), bool, (K, int), (K, int)) -> bool {
    |x: (K, int), y: (K, int), r: bool, x2: (K, int), y2: (K, int)|
        r == (x.0 == y.0) && x2 == x && y2 == (if r { (y.0, y.1 + x.1) } else { y })
}

/// Deduplication keeps at least one element of a non-empty sequence and never
/// adds any.
pub proof fn lemma_dedup_seq_nonempty<T>(p: spec_fn(T, T) -> bool, s: Seq<T>)
    ensures
        s.len() > 0 ==> dedup_seq(p, s).len() > 0,
        dedup_seq(p, s).len() <= s.len(),
    decreases s.len(),
{
    if s.len() > 0 {
        lemma_dedup_seq_nonempty(p, s.drop_last());
    }
}

/// Under a pure predicate each retained prefix of a run is `dedup_seq` of what
/// has been scanned.
proof fn lemma_pure_states<T>(
    p: spec_fn(T, T) -> bool,
    rel: spec_fn(T, T, bool, T, T) -> bool,
    s: Seq<T>,
    states: Seq<Seq<T>>,
    i: int,
)
    requires
        forall|x: T, y: T, r: bool, x2: T, y2: T|
            #[trigger] rel(x, y, r, x2, y2) ==> r == p(x, y) && x2 == x && y2 == y,
        run_of(rel, s, states),
        0 <= i < s.len(),
    ensures
        states[i] == dedup_seq(p, s.subrange(0, i + 1)),
    decreases i,
{
    let pre = s.subrange(0, i + 1);
    if i == 0 {
        assert(pre.drop_last() =~= Seq::<T>::empty());
        assert(dedup_seq(p, pre.drop_last()).len() == 0);
        assert(dedup_seq(p, pre) =~= states[0]);
    } else {
        lemma_pure_states(p, rel, s, states, i - 1);
        assert(pre.drop_last() =~= s.subrange(0, i));
        let d = states[i - 1];
        assert(step_outcome(rel, d, s[i], states[i]));
        let (r, x2, y2) = choose|r: bool, x2: T, y2: T|
            #[trigger] rel(s[i], d.last(), r, x2, y2) && d.len() > 0 && states[i] == scan_step(d, r, x2, y2);
        assert(d.drop_last().push(d.last()) =~= d);
    }
}

/// Under a pure predicate the scan has exactly one outcome, `dedup_seq`: this
/// holds of every step relation that answers as `p` and changes no element.
pub proof fn lemma_pure_outcome<T>(
    p: spec_fn(T, T) -> bool,
    rel: spec_fn(T, T, bool, T, T) -> bool,
    s: Seq<T>,
    out: Seq<T>,
)
    requires
        forall|x: T, y: T, r: bool, x2: T, y2: T|
            #[trigger] rel(x, y, r, x2, y2) ==> r == p(x, y) && x2 == x && y2 == y,
        outcomes(rel, s, out),
    ensures
        out == dedup_seq(p, s),
{
    if s.len() > 0 {
        let states = choose|states: Seq<Seq<T>>| #[trigger] run_of(rel, s, states) && out == states.last();
        lemma_pure_states(p, rel, s, states, s.len() - 1);
        assert(s.subrange(0, s.len() as int) =~= s);
    }
}

/// No two adjacent elements of `dedup_seq(p, s)` are related by `p`, later
/// one first.
proof fn lemma_no_adjacent_same<T>(p: spec_fn(T, T) -> bool, s: Seq<T>)
    ensures
        forall|k: int| 0 < k < dedup_seq(p, s).len() ==> !p(#[trigger] dedup_seq(p, s)[k], dedup_seq(p, s)[k - 1]),
    decreases s.len(),
{
    if s.len() > 0 {
        let d = dedup_seq(p, s.drop_last());
        let out = dedup_seq(p, s);
        lemma_no_adjacent_same(p, s.drop_last());
        assert forall|k: int| 0 < k < out.len() implies !p(#[trigger] out[k], out[k - 1]) by {
            if k < d.len() {
                assert(out[k] == d[k] && out[k - 1] == d[k - 1]);
            }
        }
    }
}

/// A sequence with no two adjacent elements related by `p` is left as it is.
proof fn lemma_fixed_point<T>(p: spec_fn(T, T) -> bool, t: Seq<T>)
    requires
        forall|k: int| 0 < k < t.len() ==> !p(#[trigger] t[k], t[k - 1]),
    ensures
        dedup_seq(p, t) == t,
    decreases t.len(),
{
    if t.len() > 0 {
        let u = t.drop_last();
        assert forall|k: int| 0 < k < u.len() implies !p(#[trigger] u[k], u[k - 1]) by {
            assert(u[k] == t[k] && u[k - 1] == t[k - 1]);
        }
        lemma_fixed_point(p, u);
        if t.len() > 1 {
            assert(!p(t[t.len() - 1], t[t.len() - 2]));
        }
        assert(u.push(t.last()) =~= t);
    }
}

/// Deduplicating twice gives what deduplicating once gives.
pub proof fn lemma_dedup_idempotent<T>(p: spec_fn(T, T) -> bool, s: Seq<T>)
    ensures
        dedup_seq(p, dedup_seq(p, s)) == dedup_seq(p, s),
{
    lemma_no_adjacent_same(p, s);
    lemma_fixed_point(p, dedup_seq(p, s));
}

/// For an equivalence, deduplication keeps exactly the first element of each
/// maximal run, in their original order; the last element kept is related to
/// the last element of the input.
pub proof fn lemma_dedup_keeps_run_heads<T>(p: spec_fn(T, T) -> bool, s: Seq<T>)
    requires
        is_equivalence(p),
    ensures
        dedup_seq(p, s) == run_heads(p, s),
        s.len() > 0 ==> p(s.last(), dedup_seq(p, s).last()),
    decreases s.len(),
{
    if s.len() > 0 {
        let u = s.drop_last();
        lemma_dedup_keeps_run_heads(p, u);
        lemma_dedup_seq_nonempty(p, u);
        if u.len() > 0 {
            let d = dedup_seq(p, u);
            assert(u.last() == s[s.len() - 2]);
            assert(p(u.last(), d.last()));
            if p(s.last(), u.last()) {
                assert(p(s.last(), d.last()));
            }
            if p(s.last(), d.last()) {
                assert(p(d.last(), u.last()));
                assert(p(s.last(), u.last()));
            }
        }
    }
}

/// The output is never longer than the input; for an equivalence its length is
/// the number of maximal runs.
pub proof fn lemma_dedup_length<T>(p: spec_fn(T, T) -> bool, s: Seq<T>)
    ensures
        dedup_seq(p, s).len() <= s.len(),
        is_equivalence(p) ==> dedup_seq(p, s).len() == run_heads(p, s).len(),
{
    lemma_dedup_seq_nonempty(p, s);
    if is_equivalence(p) {
        lemma_dedup_keeps_run_heads(p, s);
    }
}

/// Each retained prefix of a merging run is `merge_runs` of what has been scanned.
proof fn lemma_merge_states<K>(
    rel: spec_fn((K, int), (K, int), bool, (K, int), (K, int)) -> bool,
    s: Seq<(K, int)>,
    states: Seq<Seq<(K, int)>>,
    i: int,
)
    requires
        rel == merge_rel::<K>(),
        run_of(rel, s, states),
        0 <= i < s.len(),
    ensures
        states[i] == merge_runs(s.subrange(0, i + 1)),
        states[i].len() > 0,
    decreases i,
{
    let pre = s.subrange(0, i + 1);
    if i == 0 {
        assert(pre.drop_last() =~= Seq::<(K, int)>::empty());
        assert(merge_runs(pre.drop_last()).len() == 0);
        assert(merge_runs(pre) =~= states[0]);
    } else {
        lemma_merge_states(rel, s, states, i - 1);
        assert(pre.drop_last() =~= s.subrange(0, i));
        let d = states[i - 1];
        assert(step_outcome(rel, d, s[i], states[i]));
        let (r, x2, y2) = choose|r: bool, x2: (K, int), y2: (K, int)|
            #[trigger] rel(s[i], d.last(), r, x2, y2) && d.len() > 0 && states[i] == scan_step(d, r, x2, y2);
        assert(states[i] =~= merge_runs(pre));
    }
}

/// Merge-on-dedup: a predicate that adds the payload of a later element with
/// the same key into the retained element leaves one element per run, holding
/// the sum of the run's payloads.
pub proof fn lemma_merge_outcome<K>(s: Seq<(K, int)>, out: Seq<(K, int)>)
    requires
        outcomes(merge_rel::<K>(), s, out),
    ensures
        out == merge_runs(s),
{
    if s.len() > 0 {
        let rel = merge_rel::<K>();
        let states = choose|states: Seq<Seq<(K, int)>>| #[trigger] run_of(rel, s, states) && out == states.last();
        lemma_merge_states(rel, s, states, s.len() - 1);
        assert(s.subrange(0, s.len() as int) =~= s);
    }
}

} // verus!
