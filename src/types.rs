use crate::random::draw_between;
use rand::rngs::StdRng;
use vstd::prelude::*;

verus! {

/// The fixed rectangular area that items are packed into, measured in cells.
#[derive(Clone, Copy, Debug, PartialEq, Eq, Structural)]
pub struct Container {
    pub width: i64,
    pub height: i64,
}

impl Container {
    pub fn new(w: i64, h: i64) -> (r: Container)
        ensures
            r.width == w,
            r.height == h,
    {
        Container { width: w, height: h }
    }

    /// Both sides are positive, each fits a `usize`, and the number of cells
    /// fits an `i64`.
    pub open spec fn valid(self) -> bool {
        &&& self.width > 0
        &&& self.height > 0
        &&& self.width <= usize::MAX
        &&& self.height <= usize::MAX
        &&& self.width * self.height <= i64::MAX
    }
}

/// A rectangle (never rotated) with the benefit earned when it is placed.
#[derive(Clone, Copy, Debug, PartialEq, Eq, Structural)]
pub struct Item {
    pub width: i64,
    pub height: i64,
    pub benefit: i64,
}

impl Item {
    pub fn new(w: i64, h: i64, b: i64) -> (r: Item)
        ensures
            r.width == w,
            r.height == h,
            r.benefit == b,
    {
        Item { width: w, height: h, benefit: b }
    }

    /// A random item with sides in `1..=w` and `1..=h` and a benefit in `1..=benefit`.
    pub fn make_random(w: i64, h: i64, benefit: i64, rng: &mut StdRng) -> (r: Item)
        requires
            w >= 1,
            h >= 1,
            benefit >= 1,
        ensures
            r.valid(),
            r.width <= w,
            r.height <= h,
            r.benefit <= benefit,
    {
        let rand_w = draw_between(rng, 1, w as u64) as i64;
        let rand_h = draw_between(rng, 1, h as u64) as i64;
        let rand_benefit = draw_between(rng, 1, benefit as u64) as i64;
        Item::new(rand_w, rand_h, rand_benefit)
    }

    /// All three attributes are positive.
    pub open spec fn valid(self) -> bool {
        self.width > 0 && self.height > 0 && self.benefit > 0
    }
}

/// Sum of the benefits of all items.
pub open spec fn total_benefit(items: Seq<Item>) -> int
    decreases items.len(),
{
    if items.len() == 0 {
        0
    } else {
        total_benefit(items.drop_last()) + items.last().benefit
    }
}

/// Every item is valid and the sum of all benefits fits an `i64`.
pub open spec fn valid_items(items: Seq<Item>) -> bool {
    &&& forall|k: int| 0 <= k < items.len() ==> (#[trigger] items[k]).valid()
    &&& total_benefit(items) <= i64::MAX
}

/// Every item has a non-negative benefit.
pub open spec fn benefits_nonneg(items: Seq<Item>) -> bool {
    forall|k: int| 0 <= k < items.len() ==> (#[trigger] items[k]).benefit >= 0
}

/// With non-negative benefits, the total of a prefix is at most the total.
pub proof fn lemma_total_benefit_prefix(items: Seq<Item>, k: int)
    requires
        benefits_nonneg(items),
        0 <= k <= items.len(),
    ensures
        0 <= total_benefit(items.take(k)) <= total_benefit(items),
    decreases items.len(),
{
    if items.len() > 0 {
        let d = items.drop_last();
        assert(benefits_nonneg(d)) by {
            assert forall|j: int| 0 <= j < d.len() implies (#[trigger] d[j]).benefit >= 0 by {
                assert(d[j] == items[j]);
            }
        }
        assert(items[items.len() - 1].benefit >= 0);
        if k == items.len() {
            assert(items.take(k) =~= items);
            lemma_total_benefit_prefix(d, d.len() as int);
            assert(d.take(d.len() as int) =~= d);
        } else {
            assert(d.take(k) =~= items.take(k));
            lemma_total_benefit_prefix(d, k);
        }
    } else {
        assert(items.take(k) =~= items);
    }
}

} // verus!
