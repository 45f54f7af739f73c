use crate::permutation::{
    is_permutation, lemma_marked_sum_bound, lemma_marked_sum_none, lemma_marked_sum_set,
    lemma_marks_of_drop_last, marked_sum, marks_of, weight_sum,
};
use crate::types::{total_benefit, valid_items, Container, Item};
use vstd::prelude::*;

verus! {

/// The cells of an occupancy grid, row by row; a cell holding 1 is occupied.
pub open spec fn cells(g: &Vec<Vec<i64>>) -> Seq<Seq<i64>> {
    Seq::new(g@.len(), |i: int| g@[i]@)
}

/// Number of columns of a grid (the length of its first row).
pub open spec fn width_of(g: Seq<Seq<i64>>) -> int {
    if g.len() > 0 {
        g[0].len() as int
    } else {
        0
    }
}

/// Every row has the same length, and both sides fit an `i64`.
pub open spec fn rectangular(g: Seq<Seq<i64>>) -> bool {
    &&& g.len() <= i64::MAX
    &&& width_of(g) <= i64::MAX
    &&& forall|i: int| 0 <= i < g.len() ==> (#[trigger] g[i]).len() == width_of(g)
}

/// A `rows x cols` grid with every cell free.
pub open spec fn empty_grid(rows: int, cols: int) -> Seq<Seq<i64>> {
    Seq::new(rows as nat, |i: int| Seq::new(cols as nat, |j: int| 0i64))
}

/// No cell of the `h x w` rectangle whose top-left cell is `(row, col)` is occupied.
pub open spec fn region_free(g: Seq<Seq<i64>>, row: int, col: int, h: int, w: int) -> bool {
    forall|i: int, j: int| row <= i < row + h && col <= j < col + w ==> #[trigger] g[i][j] != 1
}

/// `item`, with its top-left corner on `(row, col)`, lies inside the grid and
/// covers free cells only.
pub open spec fn fits_at(g: Seq<Seq<i64>>, item: Item, row: int, col: int) -> bool {
    &&& row + item.height <= g.len()
    &&& col + item.width <= width_of(g)
    &&& region_free(g, row, col, item.height as int, item.width as int)
}

/// `(r1, c1)` comes before `(r2, c2)` in row-major order.
pub open spec fn precedes(r1: int, c1: int, r2: int, c2: int) -> bool {
    r1 < r2 || (r1 == r2 && c1 < c2)
}

/// `(row, col)` is a cell of the grid where `item` fits, and it fits on no
/// earlier cell in row-major order.
pub open spec fn is_first_fit(g: Seq<Seq<i64>>, item: Item, row: int, col: int) -> bool {
    &&& 0 <= row < g.len()
    &&& 0 <= col < width_of(g)
    &&& fits_at(g, item, row, col)
    &&& forall|r: int, c: int|
        0 <= r < g.len() && 0 <= c < width_of(g) && precedes(r, c, row, col) ==> !#[trigger] fits_at(
            g,
            item,
            r,
            c,
        )
}

/// The first cell in row-major order where `item` fits, if any.
pub open spec fn first_fit(g: Seq<Seq<i64>>, item: Item) -> Option<(int, int)> {
    if exists|r: int, c: int| is_first_fit(g, item, r, c) {
        let (r, c) = choose|r: int, c: int| is_first_fit(g, item, r, c);
        Some((r, c))
    } else {
        None
    }
}

/// The grid after the cells under `item` placed at `(row, col)` are marked occupied.
pub open spec fn occupy(g: Seq<Seq<i64>>, item: Item, row: int, col: int) -> Seq<Seq<i64>> {
    Seq::new(
        g.len(),
        |i: int|
            Seq::new(
                g[i].len(),
                |j: int|
                    if row <= i < row + item.height && col <= j < col + item.width {
                        1i64
                    } else {
                        g[i][j]
                    },
            ),
    )
}

/// Greedy placement of the items that `sol` lists, in order, into grid `g`:
/// each item goes to its first fit, or is skipped when there is none.
/// Yields the final grid and the total benefit of the placed items.
pub open spec fn place_all(g: Seq<Seq<i64>>, items: Seq<Item>, sol: Seq<i64>) -> (Seq<Seq<i64>>, int)
    decreases sol.len(),
{
    if sol.len() == 0 {
        (g, 0)
    } else {
        let (g1, b) = place_all(g, items, sol.drop_last());
        let item = items[sol.last() as int];
        match first_fit(g1, item) {
            Some((r, c)) => (occupy(g1, item, r, c), b + item.benefit),
            None => (g1, b),
        }
    }
}

/// Number of free cells (holding 0) of one row.
pub open spec fn row_free_cells(row: Seq<i64>) -> int
    decreases row.len(),
{
    if row.len() == 0 {
        0
    } else {
        row_free_cells(row.drop_last()) + if row.last() == 0 {
            1int
        } else {
            0
        }
    }
}

/// Number of free cells (holding 0) of a grid.
pub open spec fn free_cells(g: Seq<Seq<i64>>) -> int
    decreases g.len(),
{
    if g.len() == 0 {
        0
    } else {
        free_cells(g.drop_last()) + row_free_cells(g.last())
    }
}

/// `(benefit, wasted cells)` of the greedy placement of `sol` into an empty container.
pub open spec fn score_of(container: Container, items: Seq<Item>, sol: Seq<i64>) -> (int, int) {
    let (g, b) = place_all(empty_grid(container.height as int, container.width as int), items, sol);
    (b, free_cells(g))
}

/// Sum of the benefits of the items that `sol` lists (with repetitions).
pub open spec fn listed_benefit(items: Seq<Item>, sol: Seq<i64>) -> int
    decreases sol.len(),
{
    if sol.len() == 0 {
        0
    } else {
        listed_benefit(items, sol.drop_last()) + items[sol.last() as int].benefit
    }
}

/// Every entry of `sol` is an index of `items`.
pub open spec fn indices_valid(items: Seq<Item>, sol: Seq<i64>) -> bool {
    forall|k: int| 0 <= k < sol.len() ==> 0 <= #[trigger] sol[k] < items.len()
}

pub proof fn lemma_first_fit_unique(g: Seq<Seq<i64>>, item: Item, r1: int, c1: int, r2: int, c2: int)
    requires
        is_first_fit(g, item, r1, c1),
        is_first_fit(g, item, r2, c2),
    ensures
        r1 == r2 && c1 == c2,
{
    if precedes(r1, c1, r2, c2) {
        assert(!fits_at(g, item, r1, c1));
    } else if precedes(r2, c2, r1, c1) {
        assert(!fits_at(g, item, r2, c2));
    }
}

/// Whether `item` placed with its top-left corner on `(row, col)` stays inside
/// the grid and covers free cells only.
fn item_fits(filled: &Vec<Vec<i64>>, item: &Item, row: usize, col: usize) -> (r: bool)
    requires
        rectangular(cells(filled)),
        row < filled@.len(),
        col < width_of(cells(filled)),
        item.width > 0,
        item.height > 0,
    ensures
        r == fits_at(cells(filled), *item, row as int, col as int),
{
    let ghost g = cells(filled);
    let rows: usize = filled.len();
    let cols: usize = filled[0].len();
    assert(g[0].len() == filled@[0]@.len());
    if item.height as u64 > (rows - row) as u64 {
        return false;
    }
    if item.width as u64 > (cols - col) as u64 {
        return false;
    }
    let h: usize = item.height as usize;
    let w: usize = item.width as usize;
    let mut i: usize = row;
    while i < row + h
        invariant
            g == cells(filled),
            rectangular(g),
            rows == g.len(),
            cols == width_of(g),
            h == item.height,
            w == item.width,
            row <= i <= row + h <= rows,
            col + w <= cols,
            forall|a: int, b: int| row <= a < i && col <= b < col + w ==> #[trigger] g[a][b] != 1,
        decreases row + h - i,
    {
        let mut j: usize = col;
        assert(g[i as int] == filled@[i as int]@);
        while j < col + w
            invariant
                g == cells(filled),
                rectangular(g),
                rows == g.len(),
                cols == width_of(g),
                h == item.height,
                w == item.width,
                row <= i < row + h <= rows,
                col <= j <= col + w <= cols,
                g[i as int] == filled@[i as int]@,
                forall|a: int, b: int| row <= a < i && col <= b < col + w ==> #[trigger] g[a][b] != 1,
                forall|b: int| col <= b < j ==> #[trigger] g[i as int][b] != 1,
            decreases col + w - j,
        {
            if filled[i][j] == 1 {
                assert(g[i as int][j as int] == 1);
                assert(!region_free(g, row as int, col as int, h as int, w as int));
                return false;
            }
            j += 1;
        }
        i += 1;
    }
    true
}

/// The first cell, in row-major order, on which `item` fits, as `(row, col)`.
pub fn first_empty_space(filled: &Vec<Vec<i64>>, item: &Item) -> (r: Option<(i64, i64)>)
    requires
        rectangular(cells(filled)),
        item.width > 0,
        item.height > 0,
    ensures
        match r {
            Some((a, b)) => first_fit(cells(filled), *item) == Some((a as int, b as int)),
            None => first_fit(cells(filled), *item) is None,
        },
{
    let ghost g = cells(filled);
    let rows: usize = filled.len();
    let mut i: usize = 0;
    while i < rows
        invariant
            g == cells(filled),
            rectangular(g),
            rows == g.len(),
            item.width > 0,
            item.height > 0,
            i <= rows,
            forall|a: int, b: int|
                0 <= a < i && 0 <= b < width_of(g) ==> !#[trigger] fits_at(g, *item, a, b),
        decreases rows - i,
    {
        let cols: usize = filled[i].len();
        assert(cols == g[i as int].len());
        let mut j: usize = 0;
        while j < cols
            invariant
                g == cells(filled),
                rectangular(g),
                rows == g.len(),
                cols == width_of(g),
                item.width > 0,
                item.height > 0,
                i < rows,
                j <= cols,
                forall|a: int, b: int|
                    0 <= a < i && 0 <= b < width_of(g) ==> !#[trigger] fits_at(g, *item, a, b),
                forall|b: int| 0 <= b < j ==> !#[trigger] fits_at(g, *item, i as int, b),
            decreases cols - j,
        {
            if item_fits(filled, item, i, j) {
                assert(is_first_fit(g, *item, i as int, j as int));
                proof {
                    let p = choose|r: int, c: int| is_first_fit(g, *item, r, c);
                    lemma_first_fit_unique(g, *item, p.0, p.1, i as int, j as int);
                }
                return Some((i as i64, j as i64));
            }
            j += 1;
        }
        i += 1;
    }
    assert forall|r: int, c: int| !is_first_fit(g, *item, r, c) by {
        if 0 <= r < g.len() && 0 <= c < width_of(g) {
            assert(!fits_at(g, *item, r, c));
        }
    }
    None
}

/// Marks the cells under `item`, placed at `(row, col)`, as occupied.
fn occupy_cells(filled: &mut Vec<Vec<i64>>, item: &Item, row: usize, col: usize)
    requires
        rectangular(cells(old(filled))),
        item.width > 0,
        item.height > 0,
        row + item.height <= old(filled)@.len(),
        col + item.width <= width_of(cells(old(filled))),
    ensures
        cells(final(filled)) == occupy(cells(old(filled)), *item, row as int, col as int),
{
    let ghost g0 = cells(filled);
    let rows: usize = filled.len();
    let cols: usize = filled[0].len();
    assert(g0[0].len() == cols);
    let h: usize = item.height as usize;
    let w: usize = item.width as usize;
    let mut i: usize = row;
    while i < row + h
        invariant
            g0 == cells(old(filled)),
            rectangular(g0),
            h == item.height,
            w == item.width,
            row <= i <= row + h <= g0.len(),
            col + w <= width_of(g0),
            rows == g0.len(),
            cols == width_of(g0),
            filled@.len() == g0.len(),
            forall|a: int| 0 <= a < g0.len() ==> (#[trigger] filled@[a]@).len() == g0[a].len(),
            forall|a: int, b: int|
                0 <= a < g0.len() && 0 <= b < g0[a].len() ==> #[trigger] filled@[a]@[b] == if row <= a < i
                    && col <= b < col + w {
                    1i64
                } else {
                    g0[a][b]
                },
        decreases row + h - i,
    {
        let mut j: usize = col;
        while j < col + w
            invariant
                g0 == cells(old(filled)),
                rectangular(g0),
                h == item.height,
                w == item.width,
                row <= i < row + h <= g0.len(),
                col <= j <= col + w <= width_of(g0),
                rows == g0.len(),
                cols == width_of(g0),
                filled@.len() == g0.len(),
                forall|a: int| 0 <= a < g0.len() ==> (#[trigger] filled@[a]@).len() == g0[a].len(),
                forall|a: int, b: int|
                    0 <= a < g0.len() && 0 <= b < g0[a].len() ==> #[trigger] filled@[a]@[b] == if (row
                        <= a < i && col <= b < col + w) || (a == i && col <= b < j) {
                        1i64
                    } else {
                        g0[a][b]
                    },
            decreases col + w - j,
        {
            filled[i][j] = 1;
            j += 1;
        }
        i += 1;
    }
    assert(cells(filled) =~~= occupy(g0, *item, row as int, col as int));
}

/// Number of free cells (holding 0) of the grid.
pub fn count_zeros(filled: &Vec<Vec<i64>>) -> (r: i64)
    requires
        rectangular(cells(filled)),
        filled@.len() * width_of(cells(filled)) <= i64::MAX,
    ensures
        r == free_cells(cells(filled)),
{
    let ghost g = cells(filled);
    let ghost cols = width_of(g);
    let mut total: i64 = 0;
    let mut i: usize = 0;
    while i < filled.len()
        invariant
            g == cells(filled),
            rectangular(g),
            cols == width_of(g),
            g.len() * cols <= i64::MAX,
            i <= g.len(),
            total == free_cells(g.take(i as int)),
            0 <= total <= i * cols,
        decreases g.len() - i,
    {
        assert(g[i as int] == filled@[i as int]@);
        let mut j: usize = 0;
        while j < filled[i].len()
            invariant
                g == cells(filled),
                rectangular(g),
                cols == width_of(g),
                g.len() * cols <= i64::MAX,
                i < g.len(),
                j <= cols,
                g[i as int] == filled@[i as int]@,
                total == free_cells(g.take(i as int)) + row_free_cells(g[i as int].take(j as int)),
                0 <= total <= i * cols + j,
            decreases cols - j,
        {
            assert((i + 1) * cols <= g.len() * cols && (i + 1) * cols == i * cols + cols)
                by (nonlinear_arith)
                requires
                    i + 1 <= g.len(),
                    cols >= 0,
            ;
            assert(g[i as int].take(j + 1).drop_last() =~= g[i as int].take(j as int));
            if filled[i][j] == 0 {
                total += 1;
            }
            j += 1;
        }
        assert((i + 1) * cols == i * cols + cols) by (nonlinear_arith);
        assert(g[i as int].take(j as int) =~= g[i as int]);
        assert(g.take(i + 1).drop_last() =~= g.take(i as int));
        i += 1;
    }
    assert(g.take(i as int) =~= g);
    total
}

/// Every listed item has a non-negative benefit.
pub open spec fn listed_benefits_nonneg(items: Seq<Item>, sol: Seq<i64>) -> bool {
    forall|k: int| 0 <= k < sol.len() ==> items[#[trigger] sol[k] as int].benefit >= 0
}

pub proof fn lemma_listed_benefit_prefix(items: Seq<Item>, sol: Seq<i64>, i: int)
    requires
        0 <= i <= sol.len(),
        listed_benefits_nonneg(items, sol),
    ensures
        0 <= listed_benefit(items, sol.take(i)) <= listed_benefit(items, sol),
    decreases sol.len(),
{
    if i == sol.len() {
        assert(sol.take(i) =~= sol);
        if sol.len() > 0 {
            lemma_listed_benefit_prefix(items, sol.drop_last(), i - 1);
            assert(sol.drop_last().take(i - 1) =~= sol.drop_last());
        }
    } else {
        assert(sol.drop_last().take(i) =~= sol.take(i));
        assert(listed_benefits_nonneg(items, sol.drop_last())) by {
            assert forall|k: int| 0 <= k < sol.drop_last().len() implies items[#[trigger] sol.drop_last()[k] as int].benefit >= 0 by {
                assert(sol.drop_last()[k] == sol[k]);
            }
        }
        lemma_listed_benefit_prefix(items, sol.drop_last(), i);
        assert(items[sol[sol.len() - 1] as int].benefit >= 0);
    }
}

/// A `rows x cols` grid with every cell free.
fn empty_cells(rows: usize, cols: usize) -> (r: Vec<Vec<i64>>)
    ensures
        cells(&r) == empty_grid(rows as int, cols as int),
{
    let mut filled: Vec<Vec<i64>> = Vec::new();
    let mut i: usize = 0;
    while i < rows
        invariant
            i <= rows,
            filled@.len() == i,
            cells(&filled) == empty_grid(i as int, cols as int),
        decreases rows - i,
    {
        let mut row: Vec<i64> = Vec::new();
        let mut j: usize = 0;
        while j < cols
            invariant
                j <= cols,
                row@ =~= Seq::new(j as nat, |k: int| 0i64),
            decreases cols - j,
        {
            row.push(0);
            j += 1;
        }
        let ghost before = filled@;
        assert(forall|a: int| 0 <= a < i ==> before[a]@ == #[trigger] cells(&filled)[a]);
        let ghost new_row = row@;
        filled.push(row);
        assert(filled@ == before.push(row));
        assert forall|a: int| 0 <= a < i + 1 implies #[trigger] cells(&filled)[a] =~= empty_grid(i + 1, cols as int)[a] by {
            if a < i {
                assert(filled@[a] == before[a]);
                assert(before[a]@ == empty_grid(i as int, cols as int)[a]);
            }
        }
        assert(cells(&filled) =~= empty_grid(i + 1, cols as int));
        i += 1;
    }
    filled
}

/// `(item index, row, col)` of each item that the greedy placement of `sol`
/// into grid `g` places, in placement order.
pub open spec fn placements_from(g: Seq<Seq<i64>>, items: Seq<Item>, sol: Seq<i64>) -> Seq<(i64, i64, i64)>
    decreases sol.len(),
{
    if sol.len() == 0 {
        Seq::empty()
    } else {
        let prev = placements_from(g, items, sol.drop_last());
        let g1 = place_all(g, items, sol.drop_last()).0;
        match first_fit(g1, items[sol.last() as int]) {
            Some((r, c)) => prev.push((sol.last(), r as i64, c as i64)),
            None => prev,
        }
    }
}

/// Where the greedy placement of `sol` into an empty container puts each placed item.
pub open spec fn placements_of(container: Container, items: Seq<Item>, sol: Seq<i64>) -> Seq<(i64, i64, i64)> {
    placements_from(empty_grid(container.height as int, container.width as int), items, sol)
}

/// The greedy placement itself: the final grid, the total benefit and the
/// positions of the placed items.
fn place_items(container: &Container, items: &[Item], solution: &Vec<i64>) -> (r: (Vec<Vec<i64>>, i64, Vec<(i64, i64, i64)>))
    requires
        container.valid(),
        forall|k: int| 0 <= k < items@.len() ==> (#[trigger] items@[k]).valid(),
        indices_valid(items@, solution@),
        listed_benefit(items@, solution@) <= i64::MAX,
    ensures
        ({
            let start = empty_grid(container.height as int, container.width as int);
            &&& cells(&r.0) == place_all(start, items@, solution@).0
            &&& r.1 == place_all(start, items@, solution@).1
            &&& r.2@ == placements_from(start, items@, solution@)
            &&& rectangular(cells(&r.0))
            &&& r.0@.len() == container.height
            &&& width_of(cells(&r.0)) == container.width
        }),
{
    let rows: usize = container.height as usize;
    let cols: usize = container.width as usize;
    assert(rows * cols == container.width * container.height) by (nonlinear_arith)
        requires
            rows == container.height,
            cols == container.width,
    ;
    assert(cols <= i64::MAX) by (nonlinear_arith)
        requires
            rows >= 1,
            rows * cols <= i64::MAX,
            cols >= 0,
    ;
    let n_items: usize = items.len();
    let ghost start = empty_grid(rows as int, cols as int);
    let mut filled = empty_cells(rows, cols);
    let ghost sol = solution@;
    assert(listed_benefits_nonneg(items@, sol)) by {
        assert forall|k: int| 0 <= k < sol.len() implies items@[#[trigger] sol[k] as int].benefit >= 0 by {
            assert(items@[sol[k] as int].valid());
        }
    }
    let mut total: i64 = 0;
    let mut placed: Vec<(i64, i64, i64)> = Vec::new();
    let mut i: usize = 0;
    assert(sol.take(0) =~= Seq::<i64>::empty());
    while i < solution.len()
        invariant
            container.valid(),
            rows == container.height,
            cols == container.width,
            cols <= i64::MAX,
            rows * cols <= i64::MAX,
            items@.len() == n_items,
            start == empty_grid(rows as int, cols as int),
            sol == solution@,
            forall|k: int| 0 <= k < items@.len() ==> (#[trigger] items@[k]).valid(),
            indices_valid(items@, sol),
            listed_benefits_nonneg(items@, sol),
            listed_benefit(items@, sol) <= i64::MAX,
            i <= sol.len(),
            cells(&filled).len() == rows,
            rectangular(cells(&filled)),
            width_of(cells(&filled)) == cols,
            (cells(&filled), total as int) == place_all(start, items@, sol.take(i as int)),
            0 <= total <= listed_benefit(items@, sol.take(i as int)),
            placed@ == placements_from(start, items@, sol.take(i as int)),
        decreases sol.len() - i,
    {
        let ghost g = cells(&filled);
        assert(0 <= solution@[i as int] < n_items);
        let idx: usize = solution[i] as usize;
        let item = &items[idx];
        proof {
            lemma_listed_benefit_prefix(items@, sol, i + 1);
            assert(sol.take(i + 1).drop_last() =~= sol.take(i as int));
            assert(sol.take(i + 1).last() == sol[i as int]);
            assert(items@[idx as int].valid());
        }
        match first_empty_space(&filled, item) {
            Some((row, col)) => {
                proof {
                    assert(is_first_fit(g, *item, row as int, col as int));
                }
                total = total + item.benefit;
                occupy_cells(&mut filled, item, row as usize, col as usize);
                placed.push((solution[i], row, col));
            },
            None => {},
        }
        i += 1;
    }
    assert(sol.take(i as int) =~= sol);
    (filled, total, placed)
}

/// Places the items that `solution` lists, in order, each on the first free
/// position in row-major order where it fits (skipping those that fit
/// nowhere), and returns the total benefit of the placed items and the number
/// of cells left free.
pub fn score(container: &Container, items: &[Item], solution: &Vec<i64>) -> (r: (i64, i64))
    requires
        container.valid(),
        forall|k: int| 0 <= k < items@.len() ==> (#[trigger] items@[k]).valid(),
        indices_valid(items@, solution@),
        listed_benefit(items@, solution@) <= i64::MAX,
    ensures
        r.0 == score_of(*container, items@, solution@).0,
        r.1 == score_of(*container, items@, solution@).1,
{
    let (filled, total, _) = place_items(container, items, solution);
    assert(container.height * container.width == container.width * container.height) by (nonlinear_arith);
    let wasted = count_zeros(&filled);
    (total, wasted)
}

/// Where the greedy placement of `solution` puts each placed item:
/// `(item index, row, col)`, in placement order.
pub fn placements(container: &Container, items: &[Item], solution: &Vec<i64>) -> (r: Vec<(i64, i64, i64)>)
    requires
        container.valid(),
        forall|k: int| 0 <= k < items@.len() ==> (#[trigger] items@[k]).valid(),
        indices_valid(items@, solution@),
        listed_benefit(items@, solution@) <= i64::MAX,
    ensures
        r@ == placements_of(*container, items@, solution@),
{
    let (_, _, placed) = place_items(container, items, solution);
    placed
}

/// `sol` with every occurrence of index `k` removed.
pub open spec fn without(sol: Seq<i64>, k: i64) -> Seq<i64>
    decreases sol.len(),
{
    if sol.len() == 0 {
        sol
    } else if sol.last() == k {
        without(sol.drop_last(), k)
    } else {
        without(sol.drop_last(), k).push(sol.last())
    }
}

proof fn lemma_row_free_cells_empty(n: int)
    requires
        n >= 0,
    ensures
        row_free_cells(Seq::new(n as nat, |j: int| 0i64)) == n,
    decreases n,
{
    if n > 0 {
        assert(Seq::new(n as nat, |j: int| 0i64).drop_last() =~= Seq::new((n - 1) as nat, |j: int| 0i64));
        lemma_row_free_cells_empty(n - 1);
    }
}

proof fn lemma_free_cells_empty(rows: int, cols: int)
    requires
        rows >= 0,
        cols >= 0,
    ensures
        free_cells(empty_grid(rows, cols)) == rows * cols,
    decreases rows,
{
    if rows > 0 {
        assert(empty_grid(rows, cols).drop_last() =~= empty_grid(rows - 1, cols));
        lemma_free_cells_empty(rows - 1, cols);
        lemma_row_free_cells_empty(cols);
        assert(empty_grid(rows, cols).last() =~= Seq::new(cols as nat, |j: int| 0i64));
        assert((rows - 1) * cols + cols == rows * cols) by (nonlinear_arith);
        assert(free_cells(empty_grid(rows, cols)) == free_cells(empty_grid(rows - 1, cols)) + cols);
    } else {
        assert(rows * cols == 0) by (nonlinear_arith)
            requires
                rows == 0,
        ;
    }
}

/// Placing nothing earns nothing and leaves every cell of the container free.
pub proof fn empty_permutation_score(container: Container, items: Seq<Item>)
    requires
        container.valid(),
    ensures
        score_of(container, items, Seq::<i64>::empty()) == (0int, container.width * container.height),
{
    lemma_free_cells_empty(container.height as int, container.width as int);
    assert(container.height * container.width == container.width * container.height) by (nonlinear_arith);
}

/// Scoring is deterministic: equal containers, items and permutations give
/// equal `(benefit, wasted cells)` pairs.
pub proof fn score_is_deterministic(
    c1: Container,
    c2: Container,
    items1: Seq<Item>,
    items2: Seq<Item>,
    sol1: Seq<i64>,
    sol2: Seq<i64>,
)
    requires
        c1 == c2,
        items1 == items2,
        sol1 == sol2,
    ensures
        score_of(c1, items1, sol1) == score_of(c2, items2, sol2),
{
}

proof fn lemma_place_all_shape(g: Seq<Seq<i64>>, items: Seq<Item>, sol: Seq<i64>)
    ensures
        place_all(g, items, sol).0.len() == g.len(),
        width_of(place_all(g, items, sol).0) == width_of(g),
    decreases sol.len(),
{
    if sol.len() > 0 {
        lemma_place_all_shape(g, items, sol.drop_last());
    }
}

proof fn lemma_oversized_never_fits(g: Seq<Seq<i64>>, item: Item)
    requires
        item.height > g.len() || item.width > width_of(g),
    ensures
        first_fit(g, item) is None,
{
    assert forall|r: int, c: int| !is_first_fit(g, item, r, c) by {
        if 0 <= r && 0 <= c {
            assert(!fits_at(g, item, r, c));
        }
    }
}

proof fn lemma_place_all_without(g: Seq<Seq<i64>>, items: Seq<Item>, sol: Seq<i64>, k: i64)
    requires
        0 <= k < items.len(),
        items[k as int].height > g.len() || items[k as int].width > width_of(g),
    ensures
        place_all(g, items, sol) == place_all(g, items, without(sol, k)),
    decreases sol.len(),
{
    if sol.len() > 0 {
        lemma_place_all_without(g, items, sol.drop_last(), k);
        if sol.last() == k {
            lemma_place_all_shape(g, items, sol.drop_last());
            lemma_oversized_never_fits(place_all(g, items, sol.drop_last()).0, items[k as int]);
        } else {
            let w = without(sol.drop_last(), k).push(sol.last());
            assert(w.drop_last() =~= without(sol.drop_last(), k));
        }
    }
}

/// An item wider or taller than the container is never placed: removing it
/// from a permutation changes neither the benefit nor the wasted cells, so
/// it contributes nothing to the benefit.
pub proof fn oversized_item_contributes_nothing(
    container: Container,
    items: Seq<Item>,
    sol: Seq<i64>,
    k: i64,
)
    requires
        container.valid(),
        0 <= k < items.len(),
        items[k as int].width > container.width || items[k as int].height > container.height,
    ensures
        score_of(container, items, sol) == score_of(container, items, without(sol, k)),
{
    let g = empty_grid(container.height as int, container.width as int);
    assert(width_of(g) == container.width);
    lemma_place_all_without(g, items, sol, k);
}

/// The benefits of the items, as weights.
pub open spec fn benefit_weights(items: Seq<Item>) -> Seq<int> {
    Seq::new(items.len(), |k: int| items[k].benefit as int)
}

proof fn lemma_benefit_weights_total(items: Seq<Item>)
    ensures
        weight_sum(benefit_weights(items)) == total_benefit(items),
    decreases items.len(),
{
    if items.len() > 0 {
        assert(benefit_weights(items).drop_last() =~= benefit_weights(items.drop_last()));
        lemma_benefit_weights_total(items.drop_last());
    }
}

proof fn lemma_listed_benefit_marks(items: Seq<Item>, s: Seq<i64>)
    requires
        items.len() <= i64::MAX,
        s.no_duplicates(),
        forall|i: int| 0 <= i < s.len() ==> 0 <= #[trigger] s[i] < items.len(),
    ensures
        listed_benefit(items, s) == marked_sum(benefit_weights(items), marks_of(s, items.len() as int)),
    decreases s.len(),
{
    let n = items.len() as int;
    if s.len() == 0 {
        lemma_marked_sum_none(benefit_weights(items), marks_of(s, n));
    } else {
        lemma_marks_of_drop_last(s, n);
        lemma_listed_benefit_marks(items, s.drop_last());
        lemma_marked_sum_set(benefit_weights(items), marks_of(s.drop_last(), n), s.last() as int);
    }
}

/// Placing a permutation of valid items cannot overflow: the listed
/// benefits add up to the total benefit at most.
pub proof fn lemma_permutation_listed_benefit(items: Seq<Item>, s: Seq<i64>)
    requires
        valid_items(items),
        is_permutation(s, items.len() as int),
    ensures
        listed_benefit(items, s) <= total_benefit(items),
        indices_valid(items, s),
{
    lemma_listed_benefit_marks(items, s);
    assert forall|k: int| 0 <= k < benefit_weights(items).len() implies #[trigger] benefit_weights(items)[k] >= 0 by {
        assert(items[k].valid());
    }
    lemma_marked_sum_bound(benefit_weights(items), marks_of(s, items.len() as int));
    lemma_benefit_weights_total(items);
}

proof fn lemma_place_all_nonneg(g: Seq<Seq<i64>>, items: Seq<Item>, sol: Seq<i64>)
    requires
        forall|k: int| 0 <= k < items.len() ==> (#[trigger] items[k]).valid(),
        indices_valid(items, sol),
    ensures
        place_all(g, items, sol).1 >= 0,
    decreases sol.len(),
{
    if sol.len() > 0 {
        assert(indices_valid(items, sol.drop_last())) by {
            assert forall|k: int| 0 <= k < sol.drop_last().len() implies 0 <= #[trigger] sol.drop_last()[k] < items.len() by {
                assert(sol.drop_last()[k] == sol[k]);
            }
        }
        lemma_place_all_nonneg(g, items, sol.drop_last());
        assert(items[sol[sol.len() - 1] as int].valid());
    }
}

/// The benefit of a placement of valid items is never negative.
pub proof fn lemma_score_nonneg(container: Container, items: Seq<Item>, sol: Seq<i64>)
    requires
        forall|k: int| 0 <= k < items.len() ==> (#[trigger] items[k]).valid(),
        indices_valid(items, sol),
    ensures
        score_of(container, items, sol).0 >= 0,
{
    lemma_place_all_nonneg(empty_grid(container.height as int, container.width as int), items, sol);
}

} // verus!
