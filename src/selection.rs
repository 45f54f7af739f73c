use vstd::prelude::*;

verus! {

/// Number of survivors kept whatever their benefit.
pub const MIN_SURVIVORS: usize = 10;

/// Sum of the values.
pub open spec fn sum(xs: Seq<i64>) -> int
    decreases xs.len(),
{
    if xs.len() == 0 {
        0
    } else {
        sum(xs.drop_last()) + xs.last()
    }
}

/// Sum of the squared distances of the values from `m`.
pub open spec fn sum_sq_from(xs: Seq<i64>, m: int) -> int
    decreases xs.len(),
{
    if xs.len() == 0 {
        0
    } else {
        sum_sq_from(xs.drop_last(), m) + (xs.last() - m) * (xs.last() - m)
    }
}

/// `n² · variance` of the values (population variance about their own mean):
/// `n · Σx² − (Σx)²`, with `n` the number of values.
pub open spec fn spread(xs: Seq<i64>) -> int {
    xs.len() * sum_sq_from(xs, 0) - sum(xs) * sum(xs)
}

/// `x` is greater than the population standard deviation of `xs`, stated
/// without square roots: for `x ≥ 0`, `x > sqrt(variance)` exactly when
/// `x² · n² > n² · variance`.
pub open spec fn exceeds_std_dev(x: int, xs: Seq<i64>) -> bool {
    x >= 0 && x * x * (xs.len() * xs.len()) > spread(xs)
}

/// All values are non-negative.
pub open spec fn all_nonneg(xs: Seq<i64>) -> bool {
    forall|k: int| 0 <= k < xs.len() ==> #[trigger] xs[k] >= 0
}

proof fn lemma_sum_sq_shift(xs: Seq<i64>, m: int)
    ensures
        sum_sq_from(xs, m) == sum_sq_from(xs, 0) - 2 * m * sum(xs) + xs.len() * m * m,
    decreases xs.len(),
{
    if xs.len() > 0 {
        lemma_sum_sq_shift(xs.drop_last(), m);
        let x = xs.last() as int;
        let n = xs.len() as int;
        let q0 = sum_sq_from(xs.drop_last(), 0);
        let s0 = sum(xs.drop_last());
        assert((x - m) * (x - m) == (x - 0) * (x - 0) - 2 * m * x + m * m) by (nonlinear_arith);
        assert((n - 1) * m * m + m * m == n * m * m) by (nonlinear_arith);
        assert(2 * m * s0 + 2 * m * x == 2 * m * (s0 + x)) by (nonlinear_arith);
    }
}

/// The spread, computed around the integer part `m` of the mean, where
/// `Σx = n·m + r`.
proof fn lemma_spread_shift(xs: Seq<i64>, m: int, r: int)
    requires
        sum(xs) == xs.len() * m + r,
    ensures
        spread(xs) == xs.len() * sum_sq_from(xs, m) - r * r,
{
    lemma_sum_sq_shift(xs, m);
    let n = xs.len() as int;
    let q = sum_sq_from(xs, 0);
    let s = sum(xs);
    assert(n * (q - 2 * m * s + n * m * m) - r * r == n * q - s * s) by (nonlinear_arith)
        requires
            s == n * m + r,
    ;
}

/// Summarises `xs` (non-empty, non-negative) as `(a, c, r)` with
/// `spread(xs) == n²·a + n·c − r²`, `c < n` and `r < n`.
fn spread_summary(xs: &Vec<i64>) -> (res: (u128, u128, u128))
    requires
        xs@.len() > 0,
        all_nonneg(xs@),
    ensures
        res.1 < xs@.len(),
        res.2 < xs@.len(),
        res.0 <= 0x4000_0000_0000_0000_0000_0000_0000_0000u128,
        spread(xs@) == xs@.len() * xs@.len() * res.0 + xs@.len() * res.1 - res.2 * res.2,
{
    let len: usize = xs.len();
    let n: u128 = len as u128;
    let ghost big: int = i64::MAX as int;
    let mut total: u128 = 0;
    let mut i: usize = 0;
    while i < len
        invariant
            len == xs@.len(),
            n == len,
            big == i64::MAX,
            all_nonneg(xs@),
            i <= len,
            total == sum(xs@.take(i as int)),
            total <= i * big,
        decreases len - i,
    {
        assert(xs@.take(i + 1).drop_last() =~= xs@.take(i as int));
        assert((i + 1) * big == i * big + big) by (nonlinear_arith);
        assert((i + 1) * big <= 0xffff_ffff_ffff_ffff * big) by (nonlinear_arith)
            requires
                i + 1 <= 0xffff_ffff_ffff_ffff,
                big >= 0,
        ;
        total = total + xs[i] as u128;
        i += 1;
    }
    assert(xs@.take(len as int) =~= xs@);
    let m: u128 = total / n;
    let r: u128 = total % n;
    proof {
        vstd::arithmetic::div_mod::lemma_fundamental_div_mod(total as int, n as int);
        vstd::arithmetic::div_mod::lemma_mod_pos_bound(total as int, n as int);
    }
    assert(m <= big) by (nonlinear_arith)
        requires
            total == n * m + r,
            r >= 0,
            n > 0,
            m >= 0,
            total <= n * big,
    ;
    let ghost sq_bound: int = big * big;
    assert(sq_bound == 85070591730234615847396907784232501249) by (nonlinear_arith)
        requires
            sq_bound == big * big,
            big == 0x7fff_ffff_ffff_ffff,
    ;
    let mut a: u128 = 0;
    let mut c: u128 = 0;
    i = 0;
    while i < len
        invariant
            len == xs@.len(),
            n == len,
            n > 0,
            big == i64::MAX,
            sq_bound == big * big,
            sq_bound == 85070591730234615847396907784232501249,
            all_nonneg(xs@),
            m <= big,
            i <= len,
            c < n,
            n * a + c == sum_sq_from(xs@.take(i as int), m as int),
            n * a + c <= i * sq_bound,
        decreases len - i,
    {
        assert(xs@.take(i + 1).drop_last() =~= xs@.take(i as int));
        let y: i128 = xs[i] as i128 - m as i128;
        assert(0 <= y * y <= sq_bound) by (nonlinear_arith)
            requires
                -big <= y <= big,
                sq_bound == big * big,
        ;
        let sq: u128 = (y * y) as u128;
        assert(n * a <= n * sq_bound) by (nonlinear_arith)
            requires
                n * a + c <= i * sq_bound,
                i < n,
                c >= 0,
                sq_bound >= 0,
        ;
        assert(a <= sq_bound) by (nonlinear_arith)
            requires
                n * a <= n * sq_bound,
                n > 0,
        ;
        let q: u128 = sq / n;
        let rem: u128 = sq % n;
        proof {
            vstd::arithmetic::div_mod::lemma_fundamental_div_mod(sq as int, n as int);
            vstd::arithmetic::div_mod::lemma_mod_pos_bound(sq as int, n as int);
        }
        assert(q <= sq) by (nonlinear_arith)
            requires
                sq == n * q + rem,
                n > 0,
                rem >= 0,
                q >= 0,
        ;
        let ghost a0 = a;
        let ghost c0 = c;
        a = a + q;
        c = c + rem;
        if c >= n {
            c = c - n;
            a = a + 1;
            assert(n * a + c == n * a0 + c0 + n * q + rem) by (nonlinear_arith)
                requires
                    a == a0 + q + 1,
                    c == c0 + rem - n,
            ;
        } else {
            assert(n * a + c == n * a0 + c0 + n * q + rem) by (nonlinear_arith)
                requires
                    a == a0 + q,
                    c == c0 + rem,
            ;
        }
        assert(sq == (xs@[i as int] - m) * (xs@[i as int] - m));
        assert(xs@.take(i + 1).last() == xs@[i as int]);
        assert((i + 1) * sq_bound == i * sq_bound + sq_bound) by (nonlinear_arith);
        i += 1;
    }
    assert(xs@.take(len as int) =~= xs@);
    proof {
        lemma_spread_shift(xs@, m as int, r as int);
        let y = sum_sq_from(xs@, m as int);
        assert(n * (n * a + c) - r * r == n * n * a + n * c - r * r) by (nonlinear_arith);
        assert(n * a <= n * sq_bound) by (nonlinear_arith)
            requires
                n * a + c <= len * sq_bound,
                len == n,
                c >= 0,
        ;
        assert(a <= sq_bound) by (nonlinear_arith)
            requires
                n * a <= n * sq_bound,
                n > 0,
        ;
    }
    (a, c, r)
}

/// Decides `exceeds_std_dev(x, xs)` from the summary of `xs`.
fn exceeds_summary(x: i64, n: u128, summary: (u128, u128, u128), Ghost(xs): Ghost<Seq<i64>>) -> (res: bool)
    requires
        n == xs.len(),
        0 < n <= 0xffff_ffff_ffff_ffff,
        summary.1 < n,
        summary.2 < n,
        summary.0 <= 0x4000_0000_0000_0000_0000_0000_0000_0000u128,
        spread(xs) == n * n * summary.0 + n * summary.1 - summary.2 * summary.2,
    ensures
        res == exceeds_std_dev(x as int, xs),
{
    let (a, c, r) = summary;
    if x < 0 {
        return false;
    }
    assert(0 <= x * x <= 85070591730234615847396907784232501249) by (nonlinear_arith)
        requires
            0 <= x <= 0x7fff_ffff_ffff_ffff,
    ;
    assert(c * n <= 0xffff_ffff_ffff_ffff * 0xffff_ffff_ffff_ffff && r * r <= 0xffff_ffff_ffff_ffff
        * 0xffff_ffff_ffff_ffff) by (nonlinear_arith)
        requires
            c < n <= 0xffff_ffff_ffff_ffff,
            r < n,
    ;
    let xx: u128 = (x as u128) * (x as u128);
    let ghost d = spread(xs);
    let ghost nn = n * n;
    assert(0 <= n * c < nn && 0 <= r * r < nn) by (nonlinear_arith)
        requires
            c < n,
            r < n,
            nn == n * n,
    ;
    assert(x * x * (n * n) - d == nn * (xx - a) - (n * c - r * r)) by (nonlinear_arith)
        requires
            xx == x * x,
            d == n * n * a + n * c - r * r,
            nn == n * n,
    ;
    if xx > a {
        assert(nn * (xx - a) >= nn) by (nonlinear_arith)
            requires
                xx - a >= 1,
                nn >= 0,
        ;
        true
    } else if xx < a {
        assert(nn * (xx - a) <= -nn) by (nonlinear_arith)
            requires
                xx - a <= -1,
                nn >= 0,
        ;
        false
    } else {
        assert(nn * (xx - a) == 0) by (nonlinear_arith)
            requires
                xx == a,
        ;
        c * n < r * r
    }
}

/// Individual `a` is ranked ahead of individual `b`: a higher benefit, then
/// more wasted cells, then a later position in the population.
pub open spec fn ranks_before(scores: Seq<(i64, i64)>, a: int, b: int) -> bool {
    ||| scores[a].0 > scores[b].0
    ||| (scores[a].0 == scores[b].0 && scores[a].1 > scores[b].1)
    ||| (scores[a].0 == scores[b].0 && scores[a].1 == scores[b].1 && a > b)
}

/// `order` lists every position of `0..n` once, best-ranked first.
pub open spec fn is_ranking(scores: Seq<(i64, i64)>, order: Seq<usize>) -> bool {
    &&& order.len() == scores.len()
    &&& forall|p: int| 0 <= p < order.len() ==> #[trigger] order[p] < scores.len()
    &&& order.no_duplicates()
    &&& forall|v: int| 0 <= v < scores.len() ==> order.contains(#[trigger] (v as usize))
    &&& forall|p: int, q: int|
        0 <= p < q < order.len() ==> ranks_before(scores, #[trigger] order[p] as int, #[trigger] order[q] as int)
}

fn ranks_ahead(scores: &Vec<(i64, i64)>, a: usize, b: usize) -> (r: bool)
    requires
        a < scores@.len(),
        b < scores@.len(),
    ensures
        r == ranks_before(scores@, a as int, b as int),
{
    let (ba, wa) = scores[a];
    let (bb, wb) = scores[b];
    ba > bb || (ba == bb && wa > wb) || (ba == bb && wa == wb && a > b)
}

/// Orders the population best first: by descending `(benefit, wasted)`,
/// ties going to the later individual (an ascending stable sort, reversed).
pub fn rank(scores: &Vec<(i64, i64)>) -> (order: Vec<usize>)
    ensures
        is_ranking(scores@, order@),
{
    let n: usize = scores.len();
    let mut order: Vec<usize> = Vec::new();
    let mut k: usize = 0;
    while k < n
        invariant
            n == scores@.len(),
            k <= n,
            order@.len() == k,
            forall|p: int| 0 <= p < order@.len() ==> #[trigger] order@[p] < k,
            order@.no_duplicates(),
            forall|v: int| 0 <= v < k ==> order@.contains(#[trigger] (v as usize)),
            forall|p: int, q: int|
                0 <= p < q < order@.len() ==> ranks_before(scores@, #[trigger] order@[p] as int, #[trigger] order@[q] as int),
        decreases n - k,
    {
        let mut pos: usize = 0;
        while pos < order.len() && !ranks_ahead(scores, k, order[pos])
            invariant
                n == scores@.len(),
                k < n,
                pos <= order@.len(),
                forall|p: int| 0 <= p < order@.len() ==> #[trigger] order@[p] < k,
                forall|p: int| 0 <= p < pos ==> ranks_before(scores@, #[trigger] order@[p] as int, k as int),
            decreases order@.len() - pos,
        {
            pos += 1;
        }
        let ghost before = order@;
        order.insert(pos, k);
        proof {
            assert(order@ == before.insert(pos as int, k));
            assert forall|p: int, q: int|
                0 <= p < q < order@.len() implies ranks_before(scores@, #[trigger] order@[p] as int, #[trigger] order@[q] as int) by {
                if q < pos {
                    assert(order@[p] == before[p] && order@[q] == before[q]);
                } else if q == pos {
                    assert(order@[p] == before[p]);
                } else if p == pos {
                    assert(order@[q] == before[q - 1]);
                    assert(ranks_before(scores@, k as int, before[pos as int] as int));
                    if q - 1 > pos {
                        assert(ranks_before(scores@, before[pos as int] as int, before[q - 1] as int));
                    }
                } else if p < pos {
                    assert(order@[p] == before[p] && order@[q] == before[q - 1]);
                } else {
                    assert(order@[p] == before[p - 1] && order@[q] == before[q - 1]);
                }
            }
            assert forall|v: int| 0 <= v < k + 1 implies order@.contains(#[trigger] (v as usize)) by {
                if v == k {
                    assert(order@[pos as int] == k);
                } else {
                    let t = choose|t: int| 0 <= t < before.len() && before[t] == v as usize;
                    if t < pos {
                        assert(order@[t] == before[t]);
                    } else {
                        assert(order@[t + 1] == before[t]);
                    }
                }
            }
            assert forall|p: int| 0 <= p < order@.len() implies #[trigger] order@[p] < k + 1 by {
                if p < pos {
                    assert(order@[p] == before[p]);
                } else if p > pos {
                    assert(order@[p] == before[p - 1]);
                }
            }
            assert forall|p: int, q: int| 0 <= p < order@.len() && 0 <= q < order@.len() && p != q implies order@[p] != order@[q] by {
                if p != pos && q != pos {
                    let bp = if p < pos { p } else { p - 1 };
                    let bq = if q < pos { q } else { q - 1 };
                    assert(order@[p] == before[bp] && order@[q] == before[bq]);
                } else if p == pos {
                    let bq = if q < pos { q } else { q - 1 };
                    assert(order@[q] == before[bq]);
                } else {
                    let bp = if p < pos { p } else { p - 1 };
                    assert(order@[p] == before[bp]);
                }
            }
        }
        k += 1;
    }
    order
}

/// `keep` individuals of the ranking survive: the walk down the ranking
/// accepts while fewer than ten are accepted or the benefit exceeds the
/// population's standard deviation, and stops at the first that is refused.
pub open spec fn is_survivor_count(benefits: Seq<i64>, order: Seq<usize>, keep: int) -> bool {
    &&& 0 <= keep <= order.len()
    &&& forall|p: int|
        0 <= p < keep ==> p < MIN_SURVIVORS || exceeds_std_dev(
            benefits[#[trigger] order[p] as int] as int,
            benefits,
        )
    &&& keep < order.len() ==> !(keep < MIN_SURVIVORS || exceeds_std_dev(
        benefits[order[keep] as int] as int,
        benefits,
    ))
}

/// How many of the best-ranked individuals survive.
pub fn survivor_count(benefits: &Vec<i64>, order: &Vec<usize>) -> (keep: usize)
    requires
        all_nonneg(benefits@),
        order@.len() == benefits@.len(),
        forall|p: int| 0 <= p < order@.len() ==> #[trigger] order@[p] < benefits@.len(),
    ensures
        is_survivor_count(benefits@, order@, keep as int),
        keep >= if order@.len() < MIN_SURVIVORS { order@.len() } else { MIN_SURVIVORS as nat },
{
    let n: usize = order.len();
    if n == 0 {
        return 0;
    }
    let summary = spread_summary(benefits);
    let mut keep: usize = 0;
    while keep < n
        invariant
            n == order@.len(),
            n == benefits@.len(),
            n > 0,
            forall|p: int| 0 <= p < order@.len() ==> #[trigger] order@[p] < benefits@.len(),
            summary.1 < n,
            summary.2 < n,
            summary.0 <= 0x4000_0000_0000_0000_0000_0000_0000_0000u128,
            spread(benefits@) == n * n * summary.0 + n * summary.1 - summary.2 * summary.2,
            keep <= n,
            forall|p: int|
                0 <= p < keep ==> p < MIN_SURVIVORS || exceeds_std_dev(
                    benefits@[#[trigger] order@[p] as int] as int,
                    benefits@,
                ),
        decreases n - keep,
    {
        let accepted = keep < MIN_SURVIVORS || exceeds_summary(
            benefits[order[keep]],
            n as u128,
            summary,
            Ghost(benefits@),
        );
        if !accepted {
            return keep;
        }
        keep += 1;
    }
    keep
}

} // verus!
