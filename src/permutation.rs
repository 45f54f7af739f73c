use vstd::prelude::*;

verus! {

/// `s` lists each index of `0..n` exactly once.
pub open spec fn is_permutation(s: Seq<i64>, n: int) -> bool {
    &&& s.len() == n
    &&& n <= i64::MAX
    &&& forall|i: int| 0 <= i < s.len() ==> 0 <= #[trigger] s[i] < n
    &&& s.no_duplicates()
}

/// The indices `0, 1, ..., n - 1` in order.
pub open spec fn identity(n: int) -> Seq<i64> {
    Seq::new(n as nat, |i: int| i as i64)
}

pub proof fn lemma_identity_is_permutation(n: int)
    requires
        0 <= n <= i64::MAX,
    ensures
        is_permutation(identity(n), n),
{
}

/// A reordering of a permutation is a permutation of the same indices.
pub proof fn lemma_same_multiset_permutation(s: Seq<i64>, t: Seq<i64>, n: int)
    requires
        is_permutation(t, n),
        s.to_multiset() == t.to_multiset(),
    ensures
        is_permutation(s, n),
{
    vstd::seq_lib::to_multiset_len(s);
    vstd::seq_lib::to_multiset_len(t);
    assert forall|i: int| 0 <= i < s.len() implies 0 <= #[trigger] s[i] < n by {
        vstd::seq_lib::to_multiset_contains(s, s[i]);
        vstd::seq_lib::to_multiset_contains(t, s[i]);
        assert(s.contains(s[i]));
        assert(t.contains(s[i]));
    }
    t.lemma_multiset_has_no_duplicates();
    assert forall|x: i64| s.to_multiset().contains(x) implies s.to_multiset().count(x) == 1 by {
        assert(t.to_multiset().contains(x));
    }
    s.lemma_multiset_has_no_duplicates_conv();
}

/// Sum of the weights `w[k]` whose mark `m[k]` is set.
pub open spec fn marked_sum(w: Seq<int>, m: Seq<bool>) -> int
    decreases w.len(),
{
    if w.len() == 0 || m.len() == 0 {
        0
    } else {
        marked_sum(w.drop_last(), m.drop_last()) + if m.last() {
            w.last()
        } else {
            0
        }
    }
}

/// Sum of all weights.
pub open spec fn weight_sum(w: Seq<int>) -> int
    decreases w.len(),
{
    if w.len() == 0 {
        0
    } else {
        weight_sum(w.drop_last()) + w.last()
    }
}

pub proof fn lemma_marked_sum_set(w: Seq<int>, m: Seq<bool>, k: int)
    requires
        w.len() == m.len(),
        0 <= k < m.len(),
        !m[k],
    ensures
        marked_sum(w, m.update(k, true)) == marked_sum(w, m) + w[k],
    decreases w.len(),
{
    let m2 = m.update(k, true);
    if k < m.len() - 1 {
        assert(m2.drop_last() =~= m.drop_last().update(k, true));
        lemma_marked_sum_set(w.drop_last(), m.drop_last(), k);
    } else {
        assert(m2.drop_last() =~= m.drop_last());
    }
}

pub proof fn lemma_marked_sum_none(w: Seq<int>, m: Seq<bool>)
    requires
        w.len() == m.len(),
        forall|k: int| 0 <= k < m.len() ==> !#[trigger] m[k],
    ensures
        marked_sum(w, m) == 0,
    decreases w.len(),
{
    if w.len() > 0 {
        lemma_marked_sum_none(w.drop_last(), m.drop_last());
    }
}

pub proof fn lemma_marked_sum_all(w: Seq<int>, m: Seq<bool>)
    requires
        w.len() == m.len(),
        forall|k: int| 0 <= k < m.len() ==> #[trigger] m[k],
    ensures
        marked_sum(w, m) == weight_sum(w),
    decreases w.len(),
{
    if w.len() > 0 {
        lemma_marked_sum_all(w.drop_last(), m.drop_last());
    }
}

pub proof fn lemma_marked_sum_bound(w: Seq<int>, m: Seq<bool>)
    requires
        w.len() == m.len(),
        forall|k: int| 0 <= k < w.len() ==> #[trigger] w[k] >= 0,
    ensures
        0 <= marked_sum(w, m) <= weight_sum(w),
    decreases w.len(),
{
    if w.len() > 0 {
        lemma_marked_sum_bound(w.drop_last(), m.drop_last());
    }
}

/// Number of set marks.
pub open spec fn count_marked(m: Seq<bool>) -> int {
    marked_sum(Seq::new(m.len(), |k: int| 1int), m)
}

pub proof fn lemma_count_marked_set(m: Seq<bool>, k: int)
    requires
        0 <= k < m.len(),
        !m[k],
    ensures
        count_marked(m.update(k, true)) == count_marked(m) + 1,
{
    let w = Seq::new(m.len(), |k: int| 1int);
    assert(Seq::new(m.update(k, true).len(), |k: int| 1int) =~= w);
    lemma_marked_sum_set(w, m, k);
}

pub proof fn lemma_count_marked_all(m: Seq<bool>)
    requires
        forall|k: int| 0 <= k < m.len() ==> #[trigger] m[k],
    ensures
        count_marked(m) == m.len(),
    decreases m.len(),
{
    let w = Seq::new(m.len(), |k: int| 1int);
    lemma_marked_sum_all(w, m);
    lemma_weight_sum_ones(m.len() as int);
}

proof fn lemma_weight_sum_ones(n: int)
    requires
        n >= 0,
    ensures
        weight_sum(Seq::new(n as nat, |k: int| 1int)) == n,
    decreases n,
{
    if n > 0 {
        assert(Seq::new(n as nat, |k: int| 1int).drop_last() =~= Seq::new((n - 1) as nat, |k: int| 1int));
        lemma_weight_sum_ones(n - 1);
    }
}

pub proof fn lemma_count_marked_none(m: Seq<bool>)
    requires
        forall|k: int| 0 <= k < m.len() ==> !#[trigger] m[k],
    ensures
        count_marked(m) == 0,
{
    lemma_marked_sum_none(Seq::new(m.len(), |k: int| 1int), m);
}

pub proof fn lemma_count_marked_bound(m: Seq<bool>)
    ensures
        0 <= count_marked(m) <= m.len(),
{
    let w = Seq::new(m.len(), |k: int| 1int);
    lemma_marked_sum_bound(w, m);
    lemma_weight_sum_ones(m.len() as int);
}

/// When every mark counts, every mark is set.
pub proof fn lemma_count_marked_full(m: Seq<bool>)
    requires
        count_marked(m) >= m.len(),
    ensures
        forall|k: int| 0 <= k < m.len() ==> #[trigger] m[k],
    decreases m.len(),
{
    if m.len() > 0 {
        let w = Seq::new(m.len(), |k: int| 1int);
        let d = m.drop_last();
        assert(w.drop_last() =~= Seq::new(d.len(), |k: int| 1int));
        lemma_count_marked_bound(d);
        lemma_count_marked_full(d);
        assert forall|k: int| 0 <= k < m.len() implies #[trigger] m[k] by {
            if k < m.len() - 1 {
                assert(d[k] == m[k]);
            }
        }
    }
}

/// For each index of `0..n`, whether `s` lists it.
pub open spec fn marks_of(s: Seq<i64>, n: int) -> Seq<bool> {
    Seq::new(n as nat, |k: int| s.contains(k as i64))
}

/// Listing one more index (not listed before) sets its mark.
pub proof fn lemma_marks_of_drop_last(s: Seq<i64>, n: int)
    requires
        0 <= n <= i64::MAX,
        s.len() > 0,
        s.no_duplicates(),
        forall|i: int| 0 <= i < s.len() ==> 0 <= #[trigger] s[i] < n,
    ensures
        !marks_of(s.drop_last(), n)[s.last() as int],
        marks_of(s, n) == marks_of(s.drop_last(), n).update(s.last() as int, true),
        s.drop_last().no_duplicates(),
        forall|i: int| 0 <= i < s.drop_last().len() ==> 0 <= #[trigger] s.drop_last()[i] < n,
{
    let d = s.drop_last();
    let x = s.last();
    assert forall|i: int| 0 <= i < d.len() implies 0 <= #[trigger] d[i] < n by {
        assert(d[i] == s[i]);
    }
    assert(!d.contains(x)) by {
        if d.contains(x) {
            let t = choose|t: int| 0 <= t < d.len() && d[t] == x;
            assert(s[t] == s[s.len() - 1]);
        }
    }
    assert forall|k: int| 0 <= k < n implies #[trigger] marks_of(s, n)[k] == marks_of(d, n).update(x as int, true)[k] by {
        if s.contains(k as i64) && k != x {
            let t = choose|t: int| 0 <= t < s.len() && s[t] == k as i64;
            assert(d[t] == s[t]);
        }
        if d.contains(k as i64) {
            let t = choose|t: int| 0 <= t < d.len() && d[t] == k as i64;
            assert(s[t] == d[t]);
        }
        if k == x {
            assert(s[s.len() - 1] == x);
        }
    }
    assert(marks_of(s, n) =~= marks_of(d, n).update(x as int, true));
}

proof fn lemma_marks_of_count(s: Seq<i64>, n: int)
    requires
        0 <= n <= i64::MAX,
        s.no_duplicates(),
        forall|i: int| 0 <= i < s.len() ==> 0 <= #[trigger] s[i] < n,
    ensures
        count_marked(marks_of(s, n)) == s.len(),
    decreases s.len(),
{
    if s.len() == 0 {
        lemma_count_marked_none(marks_of(s, n));
    } else {
        lemma_marks_of_drop_last(s, n);
        lemma_marks_of_count(s.drop_last(), n);
        lemma_count_marked_set(marks_of(s.drop_last(), n), s.last() as int);
    }
}

/// A permutation of `0..n` lists every index of `0..n`.
pub proof fn lemma_permutation_covers(s: Seq<i64>, n: int)
    requires
        is_permutation(s, n),
    ensures
        forall|k: int| 0 <= k < n ==> s.contains(#[trigger] (k as i64)),
{
    lemma_marks_of_count(s, n);
    lemma_count_marked_full(marks_of(s, n));
    assert forall|k: int| 0 <= k < n implies s.contains(#[trigger] (k as i64)) by {
        assert(marks_of(s, n)[k]);
    }
}

} // verus!
