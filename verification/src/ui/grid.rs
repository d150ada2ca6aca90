//! The grid every row of tiles is laid out on: as many columns as the square root of the
//! tile count, rounded up, and as many grid rows as it takes to hold every tile.
use vstd::prelude::*;
use ratatui::layout::{Constraint, Direction, Layout, Rect};

verus! {

/// A rectangle of terminal cells.
#[derive(Clone, Copy, Debug, PartialEq, Eq, Structural)]
pub struct Area {
    pub x: u16,
    pub y: u16,
    pub width: u16,
    pub height: u16,
}

/// The least `c` not below `from` whose square reaches `n`.
pub open spec fn ceil_sqrt_from(n: nat, from: nat) -> nat
    decreases n - from,
{
    if from * from >= n || from >= n {
        from
    } else {
        ceil_sqrt_from(n, from + 1)
    }
}

/// The square root of `n`, rounded up.
pub open spec fn ceil_sqrt(n: nat) -> nat {
    ceil_sqrt_from(n, 0)
}

/// The number of columns a grid of `n` tiles has.
pub open spec fn grid_columns(n: nat) -> nat {
    ceil_sqrt(n)
}

/// The number of grid rows `n` tiles take: `n` over the column count, rounded up.
pub open spec fn grid_rows(n: nat) -> nat {
    if n == 0 {
        0
    } else {
        ((n + grid_columns(n) - 1) / (grid_columns(n) as int)) as nat
    }
}

proof fn lemma_ceil_sqrt_from(n: nat, from: nat)
    requires
        from == 0 || (from - 1) * (from - 1) < n,
    ensures
        ceil_sqrt_from(n, from) * ceil_sqrt_from(n, from) >= n,
        ceil_sqrt_from(n, from) == 0 || (ceil_sqrt_from(n, from) - 1) * (ceil_sqrt_from(
            n,
            from,
        ) - 1) < n,
    decreases n - from,
{
    if from * from >= n {
    } else if from >= n {
        assert(from * from >= from) by (nonlinear_arith)
            requires
                from >= 1 || n == 0,
                from >= n,
        ;
    } else {
        lemma_ceil_sqrt_from(n, from + 1);
    }
}

/// The square root rounded up is the least number whose square reaches `n`.
pub proof fn lemma_ceil_sqrt(n: nat)
    ensures
        ceil_sqrt(n) * ceil_sqrt(n) >= n,
        ceil_sqrt(n) == 0 || (ceil_sqrt(n) - 1) * (ceil_sqrt(n) - 1) < n,
        n > 0 ==> ceil_sqrt(n) > 0,
{
    lemma_ceil_sqrt_from(n, 0);
}

/// The number of columns a grid of `count` tiles has.
pub fn columns(count: usize) -> (c: usize)
    ensures
        c == grid_columns(count as nat),
{
    let n = count as u128;
    let mut c: u128 = 0;
    loop
        invariant
            c <= n,
            n == count,
            n <= 0xffff_ffff_ffff_ffff,
            ceil_sqrt_from(n as nat, c as nat) == ceil_sqrt(n as nat),
        ensures
            ceil_sqrt_from(n as nat, c as nat) == c,
            ceil_sqrt_from(n as nat, c as nat) == ceil_sqrt(n as nat),
        decreases n - c,
    {
        if c >= n {
            break;
        }
        assert(c * c < 0x1_0000_0000_0000_0000_0000_0000_0000_0000) by (nonlinear_arith)
            requires
                c < 0x1_0000_0000_0000_0000,
        ;
        if c * c >= n {
            break;
        }
        c = c + 1;
    }
    c as usize
}

/// The number of grid rows `count` tiles take.
pub fn rows(count: usize) -> (r: usize)
    ensures
        r == grid_rows(count as nat),
{
    if count == 0 {
        return 0;
    }
    let c = columns(count);
    proof {
        lemma_ceil_sqrt(count as nat);
        grid_fits(count as nat);
    }
    let r = (count as u128 + c as u128 - 1) / c as u128;
    assert(r <= count) by (nonlinear_arith)
        requires
            c >= 1,
            r == (count + c - 1) / (c as int),
            c <= count,
    ;
    r as usize
}

/// The height a row of `count` tiles is given: nothing when it is empty, four lines per
/// grid row otherwise, as far as a `u16` reaches.
pub open spec fn row_height_of(count: nat) -> nat {
    if 4 * grid_rows(count) > u16::MAX {
        u16::MAX as nat
    } else {
        4 * grid_rows(count)
    }
}

pub fn row_height(count: usize) -> (h: u16)
    ensures
        h == row_height_of(count as nat),
{
    let r = rows(count) as u128;
    if 4 * r > 0xffff {
        0xffff
    } else {
        (4 * r) as u16
    }
}

/// A grid has room for every tile, and no grid row is left empty: the rows hold at least
/// `count` cells, and one row fewer would hold fewer.
pub proof fn grid_fits(count: nat)
    ensures
        grid_rows(count) * grid_columns(count) >= count,
        count > 0 ==> (grid_rows(count) - 1) * grid_columns(count) < count,
        grid_columns(count) <= count,
{
    lemma_ceil_sqrt(count);
    let c = grid_columns(count);
    if count > 0 {
        let r = grid_rows(count);
        assert(r * c >= count && (r - 1) * c < count) by (nonlinear_arith)
            requires
                c >= 1,
                r == (count + c - 1) / (c as int),
        ;
        assert(c <= count) by (nonlinear_arith)
            requires
                c >= 1,
                (c - 1) * (c - 1) < count,
        ;
    }
}

/// A grid is never taller than it is wide.
pub proof fn rows_never_exceed_columns(count: nat)
    ensures
        grid_rows(count) <= grid_columns(count),
{
    lemma_ceil_sqrt(count);
    if count > 0 {
        let c = grid_columns(count);
        let r = grid_rows(count);
        assert(r <= c) by (nonlinear_arith)
            requires
                c >= 1,
                c * c >= count,
                r == (count + c - 1) / (c as int),
        ;
    }
}

/// More tiles never take fewer grid rows.
pub proof fn rows_grow_with_count(count: nat, more: nat)
    requires
        count <= more,
    ensures
        grid_rows(count) <= grid_rows(more),
        grid_columns(count) <= grid_columns(more),
{
    lemma_ceil_sqrt(count);
    lemma_ceil_sqrt(more);
    let c = grid_columns(count);
    let d = grid_columns(more);
    if d < c {
        assert(d * d <= (c - 1) * (c - 1)) by (nonlinear_arith)
            requires
                0 <= d <= c - 1,
        ;
    }
    if count > 0 {
        rows_never_exceed_columns(count);
        let r = grid_rows(count);
        let q = grid_rows(more);
        if c == d {
            assert(r <= q) by (nonlinear_arith)
                requires
                    c >= 1,
                    count <= more,
                    r == (count + c - 1) / (c as int),
                    q == (more + c - 1) / (c as int),
            ;
        } else {
            assert(q >= d - 1) by (nonlinear_arith)
                requires
                    d >= 2,
                    (d - 1) * (d - 1) < more,
                    q == (more + d - 1) / (d as int),
            ;
        }
    }
}

/// The parts ratatui's `Layout::split` cuts `area` into with `count` constraints of
/// `Constraint::Fill(1)`, side by side when `horizontal` and stacked otherwise: a
/// function of those three alone, as ratatui treats it when it caches each split by
/// area and layout and as its own tests take it when they check exact rectangles.
pub uninterp spec fn fill_parts(area: Area, count: nat, horizontal: bool) -> Seq<Area>;

/// Splits `area` with ratatui's `Layout::split` into `count` parts of
/// `Constraint::Fill(1)`, side by side when `horizontal` and stacked otherwise.
///
/// Stated here: the result is `fill_parts` of the arguments, and, from the crate's
/// source, there is one part per constraint (`changes_to_rects`); each part spans the
/// whole of `area` across the split; and each part lies within `area` along the split,
/// since every solver variable is held inside the area by a required constraint
/// (`configure_variable_in_area_constraints`) and each part's end by a required
/// constraint not before its own start (`configure_variable_constraints`). Where within
/// the area each part starts is not stated beyond that: it comes out of the solver's
/// weighing of constraints below required strength. With `Fill` constraints the solver
/// rejects no constraint, so the `expect` in `split_with_spacers` is not reached.
#[verifier::external_body]
fn fill_split(area: Area, count: usize, horizontal: bool) -> (r: Vec<Area>)
    ensures
        r@ == fill_parts(area, count as nat, horizontal),
        r@.len() == count,
        forall|i: int|
            0 <= i < r@.len() ==> if horizontal {
                (#[trigger] r@[i]).y == area.y && r@[i].height == area.height && area.x <= r@[i].x
                    && r@[i].x + r@[i].width <= area.x + area.width
            } else {
                (#[trigger] r@[i]).x == area.x && r@[i].width == area.width && area.y <= r@[i].y
                    && r@[i].y + r@[i].height <= area.y + area.height
            },
{
    let direction = if horizontal { Direction::Horizontal } else { Direction::Vertical };
    let rect = Rect { x: area.x, y: area.y, width: area.width, height: area.height };
    let parts = Layout::default().direction(direction).constraints(vec![Constraint::Fill(1); count]).split(rect);
    parts.iter().map(|p| Area { x: p.x, y: p.y, width: p.width, height: p.height }).collect()
}

/// A cell lies within `area`.
pub open spec fn within(cell: Area, area: Area) -> bool {
    &&& area.x <= cell.x && cell.x + cell.width <= area.x + area.width
    &&& area.y <= cell.y && cell.y + cell.height <= area.y + area.height
}

/// Cuts each of the `bands` into `columns` cells side by side: row `j` of the grid holds
/// the cells of band `j`, each spanning the band's full height and lying within it.
pub fn grid_cells(bands: &Vec<Area>, columns: usize) -> (g: Vec<Vec<Area>>)
    ensures
        g@.len() == bands@.len(),
        forall|j: int|
            0 <= j < g@.len() ==> {
                &&& (#[trigger] g@[j])@ == fill_parts(bands@[j], columns as nat, true)
                &&& g@[j]@.len() == columns
                &&& forall|k: int|
                    0 <= k < g@[j]@.len() ==> (#[trigger] g@[j]@[k]).y == bands@[j].y
                        && g@[j]@[k].height == bands@[j].height && within(g@[j]@[k], bands@[j])
            },
{
    let mut g: Vec<Vec<Area>> = Vec::new();
    let mut j: usize = 0;
    while j < bands.len()
        invariant
            j <= bands@.len(),
            g@.len() == j,
            forall|i: int| 0 <= i < j ==> (#[trigger] g@[i])@.len() == columns,
            forall|i: int| 0 <= i < j ==> (#[trigger] g@[i])@ == fill_parts(bands@[i], columns as nat, true),
            forall|i: int, k: int|
                0 <= i < j && 0 <= k < g@[i]@.len() ==> (#[trigger] g@[i]@[k]).y == bands@[i].y
                    && g@[i]@[k].height == bands@[i].height && within(g@[i]@[k], bands@[i]),
        decreases bands@.len() - j,
    {
        let cells = fill_split(bands[j], columns, true);
        let ghost before = g@;
        g.push(cells);
        proof {
            assert forall|i: int, k: int|
                0 <= i < j + 1 && 0 <= k < g@[i]@.len() implies (#[trigger] g@[i]@[k]).y
                    == bands@[i].y && g@[i]@[k].height == bands@[i].height && within(
                    g@[i]@[k],
                    bands@[i],
                ) by {
                if i < j {
                    assert(g@[i] == before[i]);
                }
            }
        }
        j = j + 1;
    }
    g
}

/// The bands of the grid for `count` tiles in `area`: the area cut into as many
/// stacked parts as the grid has rows.
pub open spec fn grid_bands(area: Area, count: nat) -> Seq<Area> {
    fill_parts(area, grid_rows(count), false)
}

/// Where each cell of the grid for `count` tiles lies in `area`: the area is cut into as
/// many stacked bands as the grid has rows, each spanning its full width, and band `j` is
/// cut side by side into the cells of row `j`, each spanning the band's full height;
/// nothing when there are no tiles.
pub fn calculate_grid(area: Area, count: usize) -> (g: Vec<Vec<Area>>)
    ensures
        g@.len() == grid_rows(count as nat),
        forall|j: int|
            0 <= j < g@.len() ==> {
                let band = grid_bands(area, count as nat)[j];
                &&& (#[trigger] g@[j])@ == fill_parts(band, grid_columns(count as nat), true)
                &&& g@[j]@.len() == grid_columns(count as nat)
                &&& band.x == area.x && band.width == area.width && within(band, area)
                &&& forall|k: int|
                    0 <= k < g@[j]@.len() ==> (#[trigger] g@[j]@[k]).y == band.y && g@[j]@[k].height
                        == band.height && within(g@[j]@[k], band)
            },
{
    if count == 0 {
        let g: Vec<Vec<Area>> = Vec::new();
        assert(g@.len() == Seq::<Area>::empty().len());
        return g;
    }
    let c = columns(count);
    let r = rows(count);
    proof {
        lemma_ceil_sqrt(count as nat);
    }
    let stacked = fill_split(area, r, false);
    let g = grid_cells(&stacked, c);
    assert(forall|j: int| 0 <= j < r ==> (#[trigger] g@[j])@.len() == c);
    g
}

} // verus!
