use crate::scenario::ScenarioError;
use crate::types::{
    benefits_nonneg, lemma_total_benefit_prefix, total_benefit, valid_items, Container, Item,
};
use vstd::prelude::*;

verus! {

// A scenario file holds whitespace-separated decimal integers: the
// container's width and height, the item count, then width, height and
// benefit of each item. Anything after the last item is ignored.

/// ASCII whitespace: space, tab, line feed, vertical tab, form feed, carriage return.
pub open spec fn is_space(b: u8) -> bool {
    b == 32 || (9 <= b && b <= 13)
}

pub open spec fn is_digit(b: u8) -> bool {
    48 <= b && b <= 57
}

/// First position at or after `i` that is not whitespace.
pub open spec fn skip_spaces(s: Seq<u8>, i: int) -> int
    decreases s.len() - i,
{
    if 0 <= i < s.len() && is_space(s[i]) {
        skip_spaces(s, i + 1)
    } else {
        i
    }
}

/// First position at or after `i` that is whitespace (or the end).
pub open spec fn token_end(s: Seq<u8>, i: int) -> int
    decreases s.len() - i,
{
    if 0 <= i < s.len() && !is_space(s[i]) {
        token_end(s, i + 1)
    } else {
        i
    }
}

/// Value of a string of decimal digits.
pub open spec fn digits_value(t: Seq<u8>) -> int
    decreases t.len(),
{
    if t.len() == 0 {
        0
    } else {
        10 * digits_value(t.drop_last()) + (t.last() - 48)
    }
}

pub open spec fn all_digits(t: Seq<u8>) -> bool {
    forall|k: int| 0 <= k < t.len() ==> is_digit(#[trigger] t[k])
}

/// Value of a token: digits, optionally preceded by `-` or `+`.
pub open spec fn number_value(t: Seq<u8>) -> Option<int> {
    if t.len() > 1 && (t[0] == 45 || t[0] == 43) && all_digits(t.subrange(1, t.len() as int)) {
        let v = digits_value(t.subrange(1, t.len() as int));
        Some(if t[0] == 45 { -v } else { v })
    } else if t.len() > 0 && all_digits(t) {
        Some(digits_value(t))
    } else {
        None
    }
}

/// The `i64` whose token is the next one at or after `i`, with the position
/// just after it.
pub open spec fn next_number(s: Seq<u8>, i: int) -> Option<(int, int)> {
    let a = skip_spaces(s, i);
    let b = token_end(s, a);
    match number_value(s.subrange(a, b)) {
        Some(v) => if i64::MIN <= v <= i64::MAX {
            Some((v, b))
        } else {
            None
        },
        None => None,
    }
}

/// The item made of the next three numbers at or after `i`.
pub open spec fn next_item(s: Seq<u8>, i: int) -> Option<(Item, int)> {
    match next_number(s, i) {
        Some((w, i1)) => match next_number(s, i1) {
            Some((h, i2)) => match next_number(s, i2) {
                Some((b, i3)) => Some((Item { width: w as i64, height: h as i64, benefit: b as i64 }, i3)),
                None => None,
            },
            None => None,
        },
        None => None,
    }
}

/// `count` items read one after the other from position `i`.
pub open spec fn next_items(s: Seq<u8>, i: int, count: nat) -> Option<(Seq<Item>, int)>
    decreases count,
{
    if count == 0 {
        Some((Seq::empty(), i))
    } else {
        match next_items(s, i, (count - 1) as nat) {
            Some((items, j)) => match next_item(s, j) {
                Some((item, k)) => Some((items.push(item), k)),
                None => None,
            },
            None => None,
        }
    }
}

/// The instance that a scenario file describes; a negative item count
/// means no items.
pub open spec fn scenario_of(s: Seq<u8>) -> Option<(Container, Seq<Item>)> {
    match next_number(s, 0) {
        Some((w, i1)) => match next_number(s, i1) {
            Some((h, i2)) => match next_number(s, i2) {
                Some((n, i3)) => match next_items(s, i3, if n < 0 { 0 } else { n as nat }) {
                    Some((items, _)) => Some((Container { width: w as i64, height: h as i64 }, items)),
                    None => None,
                },
                None => None,
            },
            None => None,
        },
        None => None,
    }
}

fn is_space_byte(b: u8) -> (r: bool)
    ensures
        r == is_space(b),
{
    b == 32 || (9 <= b && b <= 13)
}

proof fn lemma_digits_value_prefix(t: Seq<u8>, j: int)
    requires
        all_digits(t),
        0 <= j <= t.len(),
    ensures
        0 <= digits_value(t.take(j)) <= digits_value(t),
    decreases t.len(),
{
    if j == t.len() {
        assert(t.take(j) =~= t);
        if t.len() > 0 {
            lemma_digits_value_prefix(t.drop_last(), j - 1);
            assert(is_digit(t[t.len() - 1]));
        }
    } else {
        let d = t.drop_last();
        assert(d.take(j) =~= t.take(j));
        assert(all_digits(d)) by {
            assert forall|k: int| 0 <= k < d.len() implies is_digit(#[trigger] d[k]) by {
                assert(d[k] == t[k]);
            }
        }
        lemma_digits_value_prefix(d, j);
        lemma_digits_value_prefix(d, d.len() as int);
        assert(d.take(d.len() as int) =~= d);
        assert(is_digit(t[t.len() - 1]));
    }
}

/// The next number at or after position `i`, and the position after it.
pub fn read_number(s: &Vec<u8>, i: usize) -> (r: Option<(i64, usize)>)
    requires
        i <= s@.len(),
    ensures
        match r {
            Some((v, j)) => next_number(s@, i as int) == Some((v as int, j as int)),
            None => next_number(s@, i as int) is None,
        },
        r matches Some((_, j)) ==> i <= j <= s@.len(),
{
    let len: usize = s.len();
    let ghost ss = s@;
    let mut a: usize = i;
    while a < len && is_space_byte(s[a])
        invariant
            ss == s@,
            len == ss.len(),
            i <= a <= len,
            skip_spaces(ss, i as int) == skip_spaces(ss, a as int),
        decreases len - a,
    {
        a += 1;
    }
    let mut b: usize = a;
    while b < len && !is_space_byte(s[b])
        invariant
            ss == s@,
            len == ss.len(),
            a <= b <= len,
            skip_spaces(ss, i as int) == a,
            token_end(ss, a as int) == token_end(ss, b as int),
            forall|k: int| a <= k < b ==> !is_space(#[trigger] ss[k]),
        decreases len - b,
    {
        b += 1;
    }
    let ghost t = ss.subrange(a as int, b as int);
    assert(token_end(ss, a as int) == b);
    if a == b {
        return None;
    }
    let mut p: usize = a;
    let mut negative: bool = false;
    if b - a > 1 && (s[a] == 45 || s[a] == 43) {
        negative = s[a] == 45;
        p = a + 1;
    }
    let start: usize = p;
    let ghost d = ss.subrange(start as int, b as int);
    assert(start == a ==> d =~= t);
    assert(start == a + 1 ==> d =~= t.subrange(1, t.len() as int));
    assert(start == a + 1 ==> !is_digit(t[0]));
    assert(start == a ==> !(t.len() > 1 && (t[0] == 45 || t[0] == 43)));
    let bound: u128 = 0x8000_0000_0000_0000;
    let mut acc: u128 = 0;
    assert(d.take(0) =~= Seq::<u8>::empty());
    while p < b
        invariant
            ss == s@,
            len == ss.len(),
            a <= start <= p <= b <= len,
            d == ss.subrange(start as int, b as int),
            acc == digits_value(d.take(p - start)),
            acc <= bound,
            bound == 0x8000_0000_0000_0000u128,
            all_digits(d.take(p - start)),
            t == ss.subrange(a as int, b as int),
            skip_spaces(ss, i as int) == a,
            token_end(ss, a as int) == b,
            t.len() > 0,
            start == a || start == a + 1,
            start == a ==> d == t,
            start == a ==> !(t.len() > 1 && (t[0] == 45 || t[0] == 43)),
            start == a + 1 ==> d == t.subrange(1, t.len() as int),
            start == a + 1 ==> !is_digit(t[0]),
            start == a + 1 ==> t.len() > 1 && (t[0] == 45 || t[0] == 43),
            start == a + 1 ==> (negative <==> t[0] == 45),
            start == a ==> !negative,
        decreases b - p,
    {
        let c: u8 = s[p];
        if !(48 <= c && c <= 57) {
            assert(d[p - start] == c);
            assert(!all_digits(d));
            assert(!all_digits(t)) by {
                if start == a {
                    assert(t[p - a] == c);
                }
            }
            return None;
        }
        assert(d.take(p - start + 1).drop_last() =~= d.take(p - start));
        assert(d.take(p - start + 1).last() == c);
        acc = acc * 10 + (c - 48) as u128;
        p += 1;
        assert(all_digits(d.take(p - start))) by {
            assert forall|k: int| 0 <= k < d.take(p - start).len() implies is_digit(#[trigger] d.take(p - start)[k]) by {
                if k < p - start - 1 {
                    assert(d.take(p - start)[k] == d.take(p - start - 1)[k]);
                }
            }
        }
        if acc > bound {
            proof {
                if all_digits(d) {
                    lemma_digits_value_prefix(d, p - start);
                }
            }
            return None;
        }
    }
    assert(d.take(p - start) =~= d);
    if negative {
        if acc == bound {
            Some((i64::MIN, b))
        } else {
            Some((-(acc as i64), b))
        }
    } else if acc >= bound {
        None
    } else {
        Some((acc as i64, b))
    }
}

proof fn lemma_next_items_none(s: Seq<u8>, i: int, c: nat, d: nat)
    requires
        next_items(s, i, c) is None,
        c <= d,
    ensures
        next_items(s, i, d) is None,
    decreases d,
{
    if c < d {
        lemma_next_items_none(s, i, c, (d - 1) as nat);
    }
}

/// The item made of the next three numbers at or after `pos`.
fn read_item(s: &Vec<u8>, pos: usize) -> (r: Option<(Item, usize)>)
    requires
        pos <= s@.len(),
    ensures
        match r {
            Some((item, j)) => next_item(s@, pos as int) == Some((item, j as int)),
            None => next_item(s@, pos as int) is None,
        },
        r matches Some((_, j)) ==> j <= s@.len(),
{
    let (w, p1) = match read_number(s, pos) {
        Some(x) => x,
        None => return None,
    };
    let (h, p2) = match read_number(s, p1) {
        Some(x) => x,
        None => return None,
    };
    let (b, p3) = match read_number(s, p2) {
        Some(x) => x,
        None => return None,
    };
    Some((Item::new(w, h, b), p3))
}

/// Reads a scenario file: container width and height, item count, then the
/// width, height and benefit of each item.
pub fn parse_scenario(s: &Vec<u8>) -> (r: Result<(Container, Vec<Item>), ScenarioError>)
    ensures
        match r {
            Ok((c, items)) => scenario_of(s@) == Some((c, items@)),
            Err(e) => scenario_of(s@) is None && e == ScenarioError::Malformed,
        },
{
    let (w, i1) = match read_number(s, 0) {
        Some(x) => x,
        None => return Err(ScenarioError::Malformed),
    };
    let (h, i2) = match read_number(s, i1) {
        Some(x) => x,
        None => return Err(ScenarioError::Malformed),
    };
    let (n, i3) = match read_number(s, i2) {
        Some(x) => x,
        None => return Err(ScenarioError::Malformed),
    };
    let count: i64 = if n < 0 {
        0
    } else {
        n
    };
    let ghost total: nat = count as nat;
    let container = Container::new(w, h);
    let mut items: Vec<Item> = Vec::new();
    let mut pos: usize = i3;
    let mut k: i64 = 0;
    while k < count
        invariant
            0 <= k <= count,
            total == count,
            total == if n < 0 { 0 } else { n as nat },
            next_number(s@, 0) == Some((w as int, i1 as int)),
            next_number(s@, i1 as int) == Some((h as int, i2 as int)),
            next_number(s@, i2 as int) == Some((n as int, i3 as int)),
            pos <= s@.len(),
            next_items(s@, i3 as int, k as nat) == Some((items@, pos as int)),
        decreases count - k,
    {
        let (item, next) = match read_item(s, pos) {
            Some(x) => x,
            None => {
                proof {
                    lemma_next_items_none(s@, i3 as int, (k + 1) as nat, total);
                }
                return Err(ScenarioError::Malformed);
            },
        };
        items.push(item);
        pos = next;
        k += 1;
    }
    Ok((container, items))
}

/// Both sides, every item side and every benefit are positive.
pub open spec fn all_positive(container: Container, items: Seq<Item>) -> bool {
    &&& container.width > 0
    &&& container.height > 0
    &&& forall|k: int|
        0 <= k < items.len() ==> #[trigger] items[k].width > 0 && items[k].height > 0
            && items[k].benefit > 0
}

/// Accepts an instance that the search can run on: positive values, a number
/// of cells and a total benefit that fit an `i64`, and few enough items that
/// twice their number fits a `usize`.
pub fn check_instance(container: &Container, items: &Vec<Item>) -> (r: Result<(), ScenarioError>)
    ensures
        r is Ok <==> (container.valid() && valid_items(items@) && items@.len() <= i64::MAX && 2
            * items@.len() <= usize::MAX),
        r == Err::<(), ScenarioError>(ScenarioError::NonPositive) <==> !all_positive(*container, items@),
        r is Err ==> r == Err::<(), ScenarioError>(ScenarioError::NonPositive) || r == Err::<(), ScenarioError>(
            ScenarioError::TooLarge,
        ),
{
    if container.width < 1 || container.height < 1 {
        return Err(ScenarioError::NonPositive);
    }
    let mut k: usize = 0;
    while k < items.len()
        invariant
            k <= items@.len(),
            forall|j: int|
                0 <= j < k ==> #[trigger] items@[j].width > 0 && items@[j].height > 0 && items@[j].benefit > 0,
        decreases items@.len() - k,
    {
        let item = items[k];
        if item.width < 1 || item.height < 1 || item.benefit < 1 {
            return Err(ScenarioError::NonPositive);
        }
        k += 1;
    }
    assert(forall|j: int| 0 <= j < items@.len() ==> (#[trigger] items@[j]).valid());
    assert(all_positive(*container, items@));
    assert((container.width as u128) * (container.height as u128) <= 0x7fff_ffff_ffff_ffff * 0x7fff_ffff_ffff_ffffu128)
        by (nonlinear_arith)
        requires
            0 < container.width <= 0x7fff_ffff_ffff_ffff,
            0 < container.height <= 0x7fff_ffff_ffff_ffff,
    ;
    if container.width as u128 > usize::MAX as u128 || container.height as u128 > usize::MAX as u128 {
        return Err(ScenarioError::TooLarge);
    }
    if (container.width as u128) * (container.height as u128) > i64::MAX as u128 {
        return Err(ScenarioError::TooLarge);
    }
    if items.len() as u128 > i64::MAX as u128 || 2 * (items.len() as u128) > usize::MAX as u128 {
        return Err(ScenarioError::TooLarge);
    }
    assert(benefits_nonneg(items@));
    let mut sum: i128 = 0;
    k = 0;
    while k < items.len()
        invariant
            k <= items@.len(),
            benefits_nonneg(items@),
            all_positive(*container, items@),
            forall|j: int| 0 <= j < items@.len() ==> (#[trigger] items@[j]).valid(),
            sum == total_benefit(items@.take(k as int)),
            0 <= sum <= i64::MAX,
        decreases items@.len() - k,
    {
        assert(items@.take(k + 1).drop_last() =~= items@.take(k as int));
        sum = sum + items[k].benefit as i128;
        k += 1;
        if sum > i64::MAX as i128 {
            proof {
                lemma_total_benefit_prefix(items@, k as int);
            }
            return Err(ScenarioError::TooLarge);
        }
    }
    assert(items@.take(k as int) =~= items@);
    Ok(())
}

} // verus!
