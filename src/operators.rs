use crate::permutation::{
    count_marked, is_permutation, lemma_count_marked_all, lemma_count_marked_none,
    lemma_count_marked_set, lemma_identity_is_permutation, lemma_permutation_covers,
    lemma_same_multiset_permutation, identity,
};
use crate::random::{probability, draw_below, shuffle};
use rand::rngs::StdRng;
use vstd::prelude::*;

verus! {

/// Percent probability that `mutate` leaves a permutation untouched.
pub const SKIP_MUTATION_PERCENT: u64 = 90;

/// Percent probability that `mutate` leaves a given position in place.
pub const KEEP_POSITION_PERCENT: u64 = 80;

/// Percent probability, after each element, that `crossover` switches parent
/// when it builds an offspring.
pub const OFFSPRING_CROSS_PERCENT: u64 = 10;

/// State of an interleaving after some reads: the cursors into both parents,
/// whether the first parent is active, and the child so far.
pub open spec fn interleave_state(
    list1: Seq<i64>,
    list2: Seq<i64>,
    first: bool,
    switches: Seq<bool>,
    t: nat,
) -> (int, int, bool, Seq<i64>)
    decreases t,
{
    if t == 0 {
        (0, 0, first, Seq::empty())
    } else {
        let (i, j, from_first, out) = interleave_state(list1, list2, first, switches, (t - 1) as nat);
        let take_first = (from_first && i < list1.len()) || j >= list2.len();
        let v = if take_first { list1[i] } else { list2[j] };
        (
            if take_first { i + 1 } else { i },
            if take_first { j } else { j + 1 },
            if switches[t - 1] { !from_first } else { from_first },
            if out.contains(v) { out } else { out.push(v) },
        )
    }
}

/// The child of an interleaving of two parents of length `n`, which takes
/// `2n` reads.
pub open spec fn interleaving(list1: Seq<i64>, list2: Seq<i64>, first: bool, switches: Seq<bool>) -> Seq<i64> {
    interleave_state(list1, list2, first, switches, (2 * list1.len()) as nat).3
}

/// Interleaves two permutations of the same indices into a child permutation.
///
/// The child reads from one parent at a time (the first parent when `first`
/// holds), advancing a separate cursor in each. Every element read is
/// appended unless the child already holds it; after read `t` the active
/// parent switches when `switches[t]` holds. Once one parent is used up, the
/// rest is read from the other.
pub fn interleave(list1: &Vec<i64>, list2: &Vec<i64>, first: bool, switches: &Vec<bool>) -> (r: Vec<i64>)
    requires
        is_permutation(list1@, list1@.len() as int),
        is_permutation(list2@, list1@.len() as int),
        switches@.len() == 2 * list1@.len(),
    ensures
        r@ == interleaving(list1@, list2@, first, switches@),
        is_permutation(r@, list1@.len() as int),
{
    let n: usize = list1.len();
    let reads: usize = switches.len();
    let mut from_first: bool = first;
    let mut i: usize = 0;
    let mut j: usize = 0;
    let mut result: Vec<i64> = Vec::new();
    let mut seen: Vec<bool> = Vec::new();
    let mut k: usize = 0;
    while k < n
        invariant
            k <= n,
            seen@.len() == k,
            forall|a: int| 0 <= a < k ==> !#[trigger] seen@[a],
        decreases n - k,
    {
        seen.push(false);
        k += 1;
    }
    proof {
        lemma_count_marked_none(seen@);
        lemma_permutation_covers(list1@, n as int);
    }
    while i < n || j < n
        invariant
            n == list1@.len(),
            is_permutation(list1@, n as int),
            is_permutation(list2@, n as int),
            switches@.len() == 2 * n,
            reads == switches@.len(),
            i <= n,
            interleave_state(list1@, list2@, first, switches@, (i + j) as nat) == (
                i as int,
                j as int,
                from_first,
                result@,
            ),
            j <= n,
            seen@.len() == n,
            forall|v: int| 0 <= v < n ==> (#[trigger] seen@[v] <==> result@.contains(v as i64)),
            forall|t: int| 0 <= t < result@.len() ==> 0 <= #[trigger] result@[t] < n,
            result@.no_duplicates(),
            result@.len() == count_marked(seen@),
            forall|a: int| 0 <= a < i ==> #[trigger] seen@[list1@[a] as int],
            forall|b: int| 0 <= b < j ==> #[trigger] seen@[list2@[b] as int],
        decreases 2 * n - i - j,
    {
        let step: usize = i + j;
        let ghost t = step as nat;
        let ghost old_result = result@;
        let val: i64;
        if (from_first && i < n) || j >= n {
            val = list1[i];
            i += 1;
        } else {
            val = list2[j];
            j += 1;
        }
        let v: usize = val as usize;
        if !seen[v] {
            proof {
                lemma_count_marked_set(seen@, v as int);
                assert(!result@.contains(val));
            }
            let ghost old_seen = seen@;
            result.push(val);
            seen.set(v, true);
            proof {
                assert forall|u: int| 0 <= u < n implies (#[trigger] seen@[u] <==> result@.contains(u as i64)) by {
                    if u != v {
                        if result@.contains(u as i64) {
                            let t = choose|t: int| 0 <= t < result@.len() && result@[t] == u as i64;
                            assert(t < old_result.len());
                            assert(old_result[t] == u as i64);
                        }
                        if old_result.contains(u as i64) {
                            let t = choose|t: int| 0 <= t < old_result.len() && old_result[t] == u as i64;
                            assert(result@[t] == u as i64);
                        }
                    } else {
                        assert(result@[result@.len() - 1] == val);
                    }
                }
                assert forall|a: int| 0 <= a < i implies #[trigger] seen@[list1@[a] as int] by {
                    if list1@[a] as int != v as int {
                        assert(old_seen[list1@[a] as int]);
                    }
                }
                assert forall|b: int| 0 <= b < j implies #[trigger] seen@[list2@[b] as int] by {
                    if list2@[b] as int != v as int {
                        assert(old_seen[list2@[b] as int]);
                    }
                }
            }
        }
        proof {
            if old_result.contains(val) {
                vstd::seq::axiom_seq_ext_equal(result@, old_result);
            }
        }
        if switches[step] {
            from_first = !from_first;
        }
        assert(interleave_state(list1@, list2@, first, switches@, (t + 1) as nat) == (
            i as int,
            j as int,
            from_first,
            result@,
        ));
    }
    proof {
        assert forall|v: int| 0 <= v < n implies #[trigger] seen@[v] by {
            assert(list1@.contains(v as i64));
            let a = choose|a: int| 0 <= a < list1@.len() && list1@[a] == v as i64;
            assert(seen@[list1@[a] as int]);
        }
        lemma_count_marked_all(seen@);
    }
    result
}

/// Interleaves two permutations of the same indices into a child
/// permutation, as `interleave` does, with the first parent chosen by a fair
/// coin and a switch after each read with probability `cross_percent / 100`.
pub fn crossover(list1: &Vec<i64>, list2: &Vec<i64>, cross_percent: u64, rng: &mut StdRng) -> (r: Vec<i64>)
    requires
        is_permutation(list1@, list1@.len() as int),
        is_permutation(list2@, list1@.len() as int),
        2 * list1@.len() <= usize::MAX,
        cross_percent <= 100,
    ensures
        is_permutation(r@, list1@.len() as int),
        exists|first: bool, switches: Seq<bool>|
            {
                &&& switches.len() == 2 * list1@.len()
                &&& r@ == #[trigger] interleaving(list1@, list2@, first, switches)
                &&& cross_percent == 100 ==> forall|t: int| 0 <= t < switches.len() ==> #[trigger] switches[t]
                &&& cross_percent == 0 ==> forall|t: int| 0 <= t < switches.len() ==> !#[trigger] switches[t]
            },
{
    let first: bool = probability(rng, 50);
    let reads: usize = list1.len() * 2;
    let mut switches: Vec<bool> = Vec::new();
    let mut k: usize = 0;
    while k < reads
        invariant
            reads == 2 * list1@.len(),
            cross_percent <= 100,
            k <= reads,
            switches@.len() == k,
            cross_percent == 100 ==> forall|t: int| 0 <= t < k ==> #[trigger] switches@[t],
            cross_percent == 0 ==> forall|t: int| 0 <= t < k ==> !#[trigger] switches@[t],
        decreases reads - k,
    {
        switches.push(probability(rng, cross_percent));
        k += 1;
    }
    let r = interleave(list1, list2, first, &switches);
    assert(r@ == interleaving(list1@, list2@, first, switches@));
    r
}

/// Swaps the elements at positions `a` and `b`.
fn swap_positions(list: &mut Vec<i64>, a: usize, b: usize)
    requires
        a < old(list)@.len(),
        b < old(list)@.len(),
    ensures
        final(list)@ == old(list)@.update(a as int, old(list)@[b as int]).update(b as int, old(list)@[a as int]),
        final(list)@.to_multiset() == old(list)@.to_multiset(),
{
    broadcast use vstd::seq_lib::to_multiset_update, vstd::multiset::group_multiset_axioms;

    let ghost s = list@;
    let x = list[a];
    let y = list[b];
    list.set(a, y);
    list.set(b, x);
    let ghost s1 = s.update(a as int, y);
    assert(s1[b as int] == y);
    proof {
        vstd::seq_lib::to_multiset_contains(s, x);
        assert(s.contains(x)) by {
            assert(s[a as int] == x);
        }
        let m = s.to_multiset();
        assert(s1.to_multiset() == m.insert(y).remove(x));
        assert(list@ == s1.update(b as int, x));
        assert(list@.to_multiset() == m.insert(y).remove(x).insert(x).remove(y));
        assert forall|v: i64| #[trigger] list@.to_multiset().count(v) == m.count(v) by {}
        assert(list@.to_multiset() =~= m);
    }
}

/// `s` with the elements at positions `i` and `j` exchanged.
pub open spec fn swap_at(s: Seq<i64>, i: int, j: int) -> Seq<i64> {
    s.update(i, s[j]).update(j, s[i])
}

/// `s` after positions `0..k`, in order, are each swapped with their target
/// (a target equal to the position leaves it in place).
pub open spec fn forward_swaps(s: Seq<i64>, targets: Seq<usize>, k: nat) -> Seq<i64>
    decreases k,
{
    if k == 0 {
        s
    } else {
        swap_at(forward_swaps(s, targets, (k - 1) as nat), k - 1, targets[k - 1] as int)
    }
}

/// Every position has a target at or after it and inside the list.
pub open spec fn forward_targets(targets: Seq<usize>, n: int) -> bool {
    &&& targets.len() == n
    &&& forall|i: int| 0 <= i < n ==> i <= #[trigger] targets[i] < n
}

/// Swaps each position, left to right, with its target.
pub fn apply_forward_swaps(list: &mut Vec<i64>, targets: &Vec<usize>)
    requires
        forward_targets(targets@, old(list)@.len() as int),
    ensures
        final(list)@.len() == old(list)@.len(),
        final(list)@ == forward_swaps(old(list)@, targets@, old(list)@.len()),
        final(list)@.to_multiset() == old(list)@.to_multiset(),
{
    let ghost start = list@;
    let n: usize = list.len();
    let mut i: usize = 0;
    while i < n
        invariant
            n == list@.len(),
            n == start.len(),
            forward_targets(targets@, n as int),
            i <= n,
            list@ == forward_swaps(start, targets@, i as nat),
            list@.to_multiset() == start.to_multiset(),
        decreases n - i,
    {
        swap_positions(list, i, targets[i]);
        i += 1;
    }
}

/// `after` is `before` left as it is, or after forward swaps.
pub open spec fn is_mutation_of(after: Seq<i64>, before: Seq<i64>) -> bool {
    after == before || exists|targets: Seq<usize>|
        forward_targets(targets, before.len() as int) && after == #[trigger] forward_swaps(
            before,
            targets,
            before.len(),
        )
}

/// Randomly disturbs a permutation in place. With probability 90% nothing
/// changes; otherwise each position, left to right, is kept with probability
/// 80% or else swapped with a uniformly chosen later position.
pub fn mutate(list: &mut Vec<i64>, rng: &mut StdRng)
    ensures
        final(list)@.len() == old(list)@.len(),
        final(list)@.to_multiset() == old(list)@.to_multiset(),
        is_mutation_of(final(list)@, old(list)@),
{
    if probability(rng, SKIP_MUTATION_PERCENT) {
        return;
    }
    let n: usize = list.len();
    let mut targets: Vec<usize> = Vec::new();
    let mut i: usize = 0;
    while i < n
        invariant
            n == list@.len(),
            i <= n,
            targets@.len() == i,
            forall|k: int| 0 <= k < i ==> k <= #[trigger] targets@[k] < n,
        decreases n - i,
    {
        if !probability(rng, KEEP_POSITION_PERCENT) && i + 1 < n {
            let span: usize = n - i - 1;
            let offset: u64 = draw_below(rng, span as u64);
            targets.push(i + 1 + offset as usize);
        } else {
            targets.push(i);
        }
        i += 1;
    }
    apply_forward_swaps(list, &targets);
}

/// A child of two permutations: their crossover (switching parent with
/// probability 10%), then mutated.
pub fn make_offspring(list1: &Vec<i64>, list2: &Vec<i64>, rng: &mut StdRng) -> (r: Vec<i64>)
    requires
        is_permutation(list1@, list1@.len() as int),
        is_permutation(list2@, list1@.len() as int),
        2 * list1@.len() <= usize::MAX,
    ensures
        is_permutation(r@, list1@.len() as int),
{
    let mut cross = crossover(list1, list2, OFFSPRING_CROSS_PERCENT, rng);
    let ghost before = cross@;
    mutate(&mut cross, rng);
    proof {
        lemma_same_multiset_permutation(cross@, before, list1@.len() as int);
    }
    cross
}

/// A uniformly shuffled permutation of `0..n`.
pub fn random_solution(n: i64, rng: &mut StdRng) -> (r: Vec<i64>)
    requires
        n >= 0,
    ensures
        is_permutation(r@, n as int),
{
    let mut sol: Vec<i64> = Vec::new();
    let mut k: i64 = 0;
    while k < n
        invariant
            0 <= k <= n,
            sol@ =~= identity(k as int),
        decreases n - k,
    {
        sol.push(k);
        k += 1;
    }
    let ghost before = sol@;
    proof {
        lemma_identity_is_permutation(n as int);
    }
    shuffle(rng, &mut sol);
    proof {
        lemma_same_multiset_permutation(sol@, before, n as int);
    }
    sol
}

} // verus!
