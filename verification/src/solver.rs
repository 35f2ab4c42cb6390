//! The two-phase greedy solver: a seed pass that grows minimal valid slices
//! from unclaimed cells, and an expansion pass that grows the placed slices
//! outward until no slice can grow any further.

use vstd::prelude::*;
use vstd::pervasive::VecAdditionalExecFns;

use crate::pizza::{
    lemma_area_fits, lemma_rect_count_bound, lemma_rect_count_split_x, lemma_rect_count_split_y,
    lemma_rect_count_total, rect_count, row_count, Ingredient, Pizza,
};

verus! {

/// An axis-aligned rectangle of the grid, described by its top-left corner,
/// its width and height, and cached counts of each ingredient within it.
#[derive(Clone, Copy, Debug, PartialEq, Eq, Structural)]
pub struct Slice {
    pub x: usize,
    pub y: usize,
    pub width: usize,
    pub height: usize,
    pub tomato_count: usize,
    pub mushroom_count: usize,
}

/// Whether (x, y) lies inside the slice's rectangle.
pub open spec fn in_slice(s: Slice, x: int, y: int) -> bool {
    &&& s.x <= x < s.x + s.width
    &&& s.y <= y < s.y + s.height
}

/// The slice's rectangle is non-degenerate and lies inside the grid.
pub open spec fn slice_in_bounds(p: Pizza, s: Slice) -> bool {
    &&& 1 <= s.width
    &&& 1 <= s.height
    &&& s.x + s.width <= p.columns
    &&& s.y + s.height <= p.rows
}

/// The number of cells the slice covers.
pub open spec fn slice_area(s: Slice) -> int {
    s.width * s.height
}

/// The cached ingredient counts agree with the grid's content.
pub open spec fn slice_counts_ok(p: Pizza, s: Slice) -> bool {
    &&& s.tomato_count == rect_count(
        p,
        Ingredient::Tomato,
        s.x as int,
        s.x + s.width,
        s.y as int,
        s.y + s.height,
    )
    &&& s.mushroom_count == rect_count(
        p,
        Ingredient::Mushroom,
        s.x as int,
        s.x + s.width,
        s.y as int,
        s.y + s.height,
    )
}

/// A well-formed slice: in bounds, with truthful cached counts.
pub open spec fn slice_wf(p: Pizza, s: Slice) -> bool {
    &&& slice_in_bounds(p, s)
    &&& slice_counts_ok(p, s)
}

/// The puzzle's validity predicate: enough of each ingredient, and not too
/// many cells.
pub open spec fn spec_slice_valid(min_per_type: int, max_cells: int, s: Slice) -> bool {
    &&& s.tomato_count >= min_per_type
    &&& s.mushroom_count >= min_per_type
    &&& slice_area(s) <= max_cells
}

/// No cell lies in both slices' rectangles.
pub open spec fn slices_disjoint(a: Slice, b: Slice) -> bool {
    forall|x: int, y: int| !(#[trigger] in_slice(a, x, y) && in_slice(b, x, y))
}

/// Whether (x, y) lies inside some slice of the list.
pub open spec fn covered_by(slices: Seq<Slice>, x: int, y: int) -> bool {
    exists|i: int| 0 <= i < slices.len() && in_slice(#[trigger] slices[i], x, y)
}

/// The occupancy map is a flat boolean grid in row-major order: cell (x, y)
/// lives at index `y * columns + x`.
pub open spec fn occ_at(occ: Seq<bool>, columns: int, x: int, y: int) -> bool {
    occ[y * columns + x]
}

/// A cell's row-major index lies within the map.
proof fn lemma_cell_index(p: Pizza, x: int, y: int)
    requires
        p.wf(),
        p.cell_in_bounds(x, y),
    ensures
        0 <= y * p.columns + x < p.rows * p.columns,
{
    assert(0 <= y * p.columns + x < p.rows * p.columns) by (nonlinear_arith)
        requires
            0 <= x < p.columns,
            0 <= y < p.rows,
    ;
}

/// Distinct cells have distinct row-major indices.
proof fn lemma_cell_index_injective(columns: int, x1: int, y1: int, x2: int, y2: int)
    requires
        columns >= 1,
        0 <= x1 < columns,
        0 <= x2 < columns,
        0 <= y1,
        0 <= y2,
        y1 * columns + x1 == y2 * columns + x2,
    ensures
        x1 == x2,
        y1 == y2,
{
    vstd::arithmetic::div_mod::lemma_fundamental_div_mod_converse(
        y1 * columns + x1,
        columns,
        y1,
        x1,
    );
    vstd::arithmetic::div_mod::lemma_fundamental_div_mod_converse(
        y2 * columns + x2,
        columns,
        y2,
        x2,
    );
}

/// Reads one cell of the occupancy map.
fn occ_get(p: &Pizza, occ: &Vec<bool>, x: usize, y: usize) -> (r: bool)
    requires
        p.wf(),
        occ@.len() == p.rows * p.columns,
        p.cell_in_bounds(x as int, y as int),
    ensures
        r == occ_at(occ@, p.columns as int, x as int, y as int),
{
    proof {
        lemma_cell_index(*p, x as int, y as int);
    }
    occ[y * p.columns + x]
}

/// Marks one cell of the occupancy map as claimed.
fn occ_set(p: &Pizza, occ: &mut Vec<bool>, x: usize, y: usize)
    requires
        p.wf(),
        old(occ)@.len() == p.rows * p.columns,
        p.cell_in_bounds(x as int, y as int),
    ensures
        final(occ)@.len() == old(occ)@.len(),
        forall|xx: int, yy: int|
            p.cell_in_bounds(xx, yy) ==> #[trigger] occ_at(final(occ)@, p.columns as int, xx, yy)
                == (occ_at(old(occ)@, p.columns as int, xx, yy) || (xx == x && yy == y)),
{
    proof {
        lemma_cell_index(*p, x as int, y as int);
    }
    occ.set(y * p.columns + x, true);
    proof {
        assert forall|xx: int, yy: int| p.cell_in_bounds(xx, yy) implies #[trigger] occ_at(
            occ@,
            p.columns as int,
            xx,
            yy,
        ) == (occ_at(old(occ)@, p.columns as int, xx, yy) || (xx == x && yy == y)) by {
            lemma_cell_index(*p, xx, yy);
            if yy * p.columns + xx == y * p.columns + x {
                lemma_cell_index_injective(p.columns as int, xx, yy, x as int, y as int);
            }
        }
    }
}

/// Whether every cell of the rectangle `x0 <= x < x1`, `y0 <= y < y1` is
/// still unclaimed.
fn rect_free(p: &Pizza, occ: &Vec<bool>, x0: usize, x1: usize, y0: usize, y1: usize) -> (r: bool)
    requires
        p.wf(),
        occ@.len() == p.rows * p.columns,
        x0 <= x1 <= p.columns,
        y0 <= y1 <= p.rows,
    ensures
        r == forall|x: int, y: int|
            x0 <= x < x1 && y0 <= y < y1 ==> !occ_at(occ@, p.columns as int, x, y),
{
    let mut y: usize = y0;
    while y < y1
        invariant
            p.wf(),
            occ@.len() == p.rows * p.columns,
            x0 <= x1 <= p.columns,
            y0 <= y <= y1 <= p.rows,
            forall|xx: int, yy: int|
                x0 <= xx < x1 && y0 <= yy < y ==> !occ_at(occ@, p.columns as int, xx, yy),
        decreases y1 - y,
    {
        let mut x: usize = x0;
        while x < x1
            invariant
                p.wf(),
                occ@.len() == p.rows * p.columns,
                x0 <= x <= x1 <= p.columns,
                y0 <= y < y1 <= p.rows,
                forall|xx: int, yy: int|
                    x0 <= xx < x1 && y0 <= yy < y ==> !occ_at(occ@, p.columns as int, xx, yy),
                forall|xx: int| x0 <= xx < x ==> !occ_at(occ@, p.columns as int, xx, y as int),
            decreases x1 - x,
        {
            if occ_get(p, occ, x, y) {
                return false;
            }
            x += 1;
        }
        y += 1;
    }
    true
}

/// Marks every cell of the rectangle `x0 <= x < x1`, `y0 <= y < y1` as
/// claimed.
fn mark_rect(p: &Pizza, occ: &mut Vec<bool>, x0: usize, x1: usize, y0: usize, y1: usize)
    requires
        p.wf(),
        old(occ)@.len() == p.rows * p.columns,
        x0 <= x1 <= p.columns,
        y0 <= y1 <= p.rows,
    ensures
        final(occ)@.len() == old(occ)@.len(),
        forall|x: int, y: int|
            p.cell_in_bounds(x, y) ==> #[trigger] occ_at(final(occ)@, p.columns as int, x, y)
                == (occ_at(old(occ)@, p.columns as int, x, y) || (x0 <= x < x1 && y0 <= y < y1)),
{
    let mut y: usize = y0;
    while y < y1
        invariant
            p.wf(),
            occ@.len() == p.rows * p.columns,
            x0 <= x1 <= p.columns,
            y0 <= y <= y1 <= p.rows,
            forall|xx: int, yy: int|
                p.cell_in_bounds(xx, yy) ==> #[trigger] occ_at(occ@, p.columns as int, xx, yy)
                    == (occ_at(old(occ)@, p.columns as int, xx, yy) || (x0 <= xx < x1 && y0 <= yy
                    < y)),
        decreases y1 - y,
    {
        let mut x: usize = x0;
        while x < x1
            invariant
                p.wf(),
                occ@.len() == p.rows * p.columns,
                x0 <= x <= x1 <= p.columns,
                y0 <= y < y1 <= p.rows,
                forall|xx: int, yy: int|
                    p.cell_in_bounds(xx, yy) ==> #[trigger] occ_at(occ@, p.columns as int, xx, yy)
                        == (occ_at(old(occ)@, p.columns as int, xx, yy) || (x0 <= xx < x1 && y0
                        <= yy < y) || (yy == y && x0 <= xx < x)),
            decreases x1 - x,
        {
            occ_set(p, occ, x, y);
            x += 1;
        }
        y += 1;
    }
}

} // verus!

verus! {

/// Growth directions are unit offsets: each component is -1, 0 or 1, and at
/// least one is non-zero.
pub open spec fn dir_in_range(dx: int, dy: int) -> bool {
    &&& -1 <= dx <= 1
    &&& -1 <= dy <= 1
    &&& !(dx == 0 && dy == 0)
}

/// The left edge of the slice grown one unit towards `dx`.
pub open spec fn grown_x(s: Slice, dx: int) -> int {
    if dx < 0 {
        s.x - 1
    } else {
        s.x as int
    }
}

/// The top edge of the slice grown one unit towards `dy`.
pub open spec fn grown_y(s: Slice, dy: int) -> int {
    if dy < 0 {
        s.y - 1
    } else {
        s.y as int
    }
}

/// The width of the slice grown one unit towards `dx`.
pub open spec fn grown_width(s: Slice, dx: int) -> int {
    if dx == 0 {
        s.width as int
    } else {
        s.width + 1
    }
}

/// The height of the slice grown one unit towards `dy`.
pub open spec fn grown_height(s: Slice, dy: int) -> int {
    if dy == 0 {
        s.height as int
    } else {
        s.height + 1
    }
}

/// The column the growth would newly claim (meaningful when `dx != 0`).
pub open spec fn new_column(s: Slice, dx: int) -> int {
    if dx < 0 {
        s.x - 1
    } else {
        s.x + s.width
    }
}

/// The row the growth would newly claim (meaningful when `dy != 0`).
pub open spec fn new_row(s: Slice, dy: int) -> int {
    if dy < 0 {
        s.y - 1
    } else {
        s.y + s.height
    }
}

/// The grown rectangle stays within the grid.
pub open spec fn expansion_fits(p: Pizza, s: Slice, dx: int, dy: int) -> bool {
    &&& (dx < 0 ==> s.x >= 1)
    &&& (dx > 0 ==> s.x + s.width < p.columns)
    &&& (dy < 0 ==> s.y >= 1)
    &&& (dy > 0 ==> s.y + s.height < p.rows)
}

/// Whether (x, y) lies inside the grown rectangle.
pub open spec fn in_grown(s: Slice, dx: int, dy: int, x: int, y: int) -> bool {
    &&& grown_x(s, dx) <= x < grown_x(s, dx) + grown_width(s, dx)
    &&& grown_y(s, dy) <= y < grown_y(s, dy) + grown_height(s, dy)
}

/// Every cell the growth would newly claim is still unclaimed.
pub open spec fn expansion_free(p: Pizza, occ: Seq<bool>, s: Slice, dx: int, dy: int) -> bool {
    forall|x: int, y: int|
        in_grown(s, dx, dy, x, y) && !in_slice(s, x, y) ==> !#[trigger] occ_at(
            occ,
            p.columns as int,
            x,
            y,
        )
}

/// A growth attempt succeeds exactly when the grown rectangle stays within
/// the grid, does not exceed the cell budget, and claims no occupied cell.
pub open spec fn can_expand(
    p: Pizza,
    occ: Seq<bool>,
    max_cells: int,
    s: Slice,
    dx: int,
    dy: int,
) -> bool {
    &&& expansion_fits(p, s, dx, dy)
    &&& grown_width(s, dx) * grown_height(s, dy) <= max_cells
    &&& expansion_free(p, occ, s, dx, dy)
}

/// The slice after a successful growth step: the grown rectangle with
/// freshly recounted ingredients.
pub open spec fn grown_slice(p: Pizza, s: Slice, dx: int, dy: int) -> Slice {
    Slice {
        x: grown_x(s, dx) as usize,
        y: grown_y(s, dy) as usize,
        width: grown_width(s, dx) as usize,
        height: grown_height(s, dy) as usize,
        tomato_count: rect_count(
            p,
            Ingredient::Tomato,
            grown_x(s, dx),
            grown_x(s, dx) + grown_width(s, dx),
            grown_y(s, dy),
            grown_y(s, dy) + grown_height(s, dy),
        ) as usize,
        mushroom_count: rect_count(
            p,
            Ingredient::Mushroom,
            grown_x(s, dx),
            grown_x(s, dx) + grown_width(s, dx),
            grown_y(s, dy),
            grown_y(s, dy) + grown_height(s, dy),
        ) as usize,
    }
}

/// The cells the growth newly claims are exactly one column strip (when the
/// growth moves horizontally) and one row strip (when it moves vertically).
proof fn lemma_grown_region_split(s: Slice, dx: int, dy: int)
    requires
        dir_in_range(dx, dy),
        1 <= s.width,
        1 <= s.height,
    ensures
        forall|x: int, y: int|
            (#[trigger] in_grown(s, dx, dy, x, y) && !in_slice(s, x, y)) <==> ((dx != 0 && x
                == new_column(s, dx) && s.y <= y < s.y + s.height) || (dy != 0 && y == new_row(
                s,
                dy,
            ) && grown_x(s, dx) <= x < grown_x(s, dx) + grown_width(s, dx))),
{
}

/// Counting the grown rectangle decomposes into the old rectangle plus the
/// newly claimed column and row strips.
proof fn lemma_grown_count_decomposition(p: Pizza, ing: Ingredient, s: Slice, dx: int, dy: int)
    requires
        p.wf(),
        slice_in_bounds(p, s),
        dir_in_range(dx, dy),
        expansion_fits(p, s, dx, dy),
    ensures
        rect_count(
            p,
            ing,
            grown_x(s, dx),
            grown_x(s, dx) + grown_width(s, dx),
            grown_y(s, dy),
            grown_y(s, dy) + grown_height(s, dy),
        ) == rect_count(p, ing, s.x as int, s.x + s.width, s.y as int, s.y + s.height) + (
        if dx == 0 {
            0int
        } else {
            rect_count(p, ing, new_column(s, dx), new_column(s, dx) + 1, s.y as int, s.y + s.height)
        }) + (
        if dy == 0 {
            0int
        } else {
            rect_count(
                p,
                ing,
                grown_x(s, dx),
                grown_x(s, dx) + grown_width(s, dx),
                new_row(s, dy),
                new_row(s, dy) + 1,
            )
        }),
{
    let gx0 = grown_x(s, dx);
    let gx1 = grown_x(s, dx) + grown_width(s, dx);
    let gy0 = grown_y(s, dy);
    let gy1 = grown_y(s, dy) + grown_height(s, dy);
    let sx0 = s.x as int;
    let sx1 = s.x + s.width;
    let sy0 = s.y as int;
    let sy1 = s.y + s.height;
    lemma_rect_count_split_y(p, ing, gx0, gx1, gy0, sy0, gy1);
    lemma_rect_count_split_y(p, ing, gx0, gx1, sy0, sy1, gy1);
    lemma_rect_count_split_x(p, ing, gx0, sx0, gx1, sy0, sy1);
    lemma_rect_count_split_x(p, ing, sx0, sx1, gx1, sy0, sy1);
    lemma_rect_count_bound(p, ing, gx0, sx0, sy0, sy1);
    lemma_rect_count_bound(p, ing, sx1, gx1, sy0, sy1);
    lemma_rect_count_bound(p, ing, gx0, gx1, gy0, sy0);
    lemma_rect_count_bound(p, ing, gx0, gx1, sy1, gy1);
}

/// Tries to grow `slice` one unit towards (direction_x, direction_y): the
/// attempt succeeds exactly when the grown rectangle stays within the grid,
/// keeps at most `max_cells_per_slice` cells, and claims no occupied cell.
/// On success the slice becomes the grown rectangle with updated counts, and
/// when `update_occupied` is set the newly claimed cells are marked; on
/// failure nothing changes.
#[verifier::rlimit(60)]
pub fn try_expand_slice_towards(
    max_cells_per_slice: usize,
    update_occupied: bool,
    pizza: &Pizza,
    occupied: &mut Vec<bool>,
    slice: &mut Slice,
    direction_x: isize,
    direction_y: isize,
) -> (r: bool)
    requires
        pizza.wf(),
        old(occupied)@.len() == pizza.rows * pizza.columns,
        slice_wf(*pizza, *old(slice)),
        dir_in_range(direction_x as int, direction_y as int),
    ensures
        r == can_expand(
            *pizza,
            old(occupied)@,
            max_cells_per_slice as int,
            *old(slice),
            direction_x as int,
            direction_y as int,
        ),
        final(occupied)@.len() == old(occupied)@.len(),
        !r ==> *final(slice) == *old(slice) && final(occupied)@ == old(occupied)@,
        !update_occupied ==> final(occupied)@ == old(occupied)@,
        r ==> *final(slice) == grown_slice(
            *pizza,
            *old(slice),
            direction_x as int,
            direction_y as int,
        ),
        r ==> slice_wf(*pizza, *final(slice)),
        r ==> slice_area(*final(slice)) <= max_cells_per_slice,
        r ==> slice_area(*old(slice)) < slice_area(*final(slice)),
        r ==> final(slice).tomato_count >= old(slice).tomato_count,
        r ==> final(slice).mushroom_count >= old(slice).mushroom_count,
        r ==> forall|x: int, y: int|
            #[trigger] in_slice(*old(slice), x, y) ==> in_slice(*final(slice), x, y),
        r ==> forall|x: int, y: int|
            #[trigger] in_slice(*final(slice), x, y) && !in_slice(*old(slice), x, y) ==> !occ_at(
                old(occupied)@,
                pizza.columns as int,
                x,
                y,
            ),
        r && update_occupied ==> forall|x: int, y: int|
            pizza.cell_in_bounds(x, y) ==> #[trigger] occ_at(
                final(occupied)@,
                pizza.columns as int,
                x,
                y,
            ) == (occ_at(old(occupied)@, pizza.columns as int, x, y) || (in_slice(
                *final(slice),
                x,
                y,
            ) && !in_slice(*old(slice), x, y))),
{
    let s = *slice;
    let ghost dx = direction_x as int;
    let ghost dy = direction_y as int;

    // Grown geometry, with bounds checks.
    let nx: usize;
    let nw: usize;
    if direction_x < 0 {
        if s.x < 1 {
            return false;
        }
        nx = s.x - 1;
        nw = s.width + 1;
    } else if direction_x > 0 {
        if s.x + s.width >= pizza.columns {
            return false;
        }
        nx = s.x;
        nw = s.width + 1;
    } else {
        nx = s.x;
        nw = s.width;
    }
    let ny: usize;
    let nh: usize;
    if direction_y < 0 {
        if s.y < 1 {
            return false;
        }
        ny = s.y - 1;
        nh = s.height + 1;
    } else if direction_y > 0 {
        if s.y + s.height >= pizza.rows {
            return false;
        }
        ny = s.y;
        nh = s.height + 1;
    } else {
        ny = s.y;
        nh = s.height;
    }
    proof {
        assert(nx == grown_x(s, dx));
        assert(ny == grown_y(s, dy));
        assert(nw == grown_width(s, dx));
        assert(nh == grown_height(s, dy));
        assert(nx + nw <= pizza.columns);
        assert(ny + nh <= pizza.rows);
        lemma_area_fits(*pizza, 0, nw as int, 0, nh as int);
    }

    // Cell budget check.
    if nw * nh > max_cells_per_slice {
        return false;
    }

    // The newly claimed cells must all be unclaimed.
    proof {
        lemma_grown_region_split(s, dx, dy);
    }
    let cx = if direction_x < 0 {
        nx
    } else {
        s.x + s.width
    };
    if direction_x != 0 {
        if !rect_free(pizza, occupied, cx, cx + 1, s.y, s.y + s.height) {
            proof {
                assert(!expansion_free(*pizza, occupied@, s, dx, dy)) by {
                    if expansion_free(*pizza, occupied@, s, dx, dy) {
                        assert forall|xx: int, yy: int|
                            cx <= xx < cx + 1 && s.y <= yy < s.y + s.height implies !occ_at(
                            occupied@,
                            pizza.columns as int,
                            xx,
                            yy,
                        ) by {
                            assert(in_grown(s, dx, dy, xx, yy) && !in_slice(s, xx, yy));
                        }
                    }
                }
            }
            return false;
        }
    }
    let ry = if direction_y < 0 {
        ny
    } else {
        s.y + s.height
    };
    if direction_y != 0 {
        if !rect_free(pizza, occupied, nx, nx + nw, ry, ry + 1) {
            proof {
                assert(!expansion_free(*pizza, occupied@, s, dx, dy)) by {
                    if expansion_free(*pizza, occupied@, s, dx, dy) {
                        assert forall|xx: int, yy: int|
                            nx <= xx < nx + nw && ry <= yy < ry + 1 implies !occ_at(
                            occupied@,
                            pizza.columns as int,
                            xx,
                            yy,
                        ) by {
                            assert(in_grown(s, dx, dy, xx, yy) && !in_slice(s, xx, yy));
                        }
                    }
                }
            }
            return false;
        }
    }
    proof {
        assert(expansion_free(*pizza, occupied@, s, dx, dy));
        assert(can_expand(*pizza, occupied@, max_cells_per_slice as int, s, dx, dy));
    }

    // Recount: the old counts plus the counts of the newly claimed strips.
    proof {
        lemma_grown_count_decomposition(*pizza, Ingredient::Tomato, s, dx, dy);
        lemma_grown_count_decomposition(*pizza, Ingredient::Mushroom, s, dx, dy);
        lemma_rect_count_bound(
            *pizza,
            Ingredient::Tomato,
            nx as int,
            nx + nw,
            ny as int,
            ny + nh,
        );
        lemma_rect_count_bound(
            *pizza,
            Ingredient::Mushroom,
            nx as int,
            nx + nw,
            ny as int,
            ny + nh,
        );
        if direction_x != 0 {
            lemma_rect_count_bound(
                *pizza,
                Ingredient::Tomato,
                cx as int,
                cx + 1,
                s.y as int,
                s.y + s.height,
            );
            lemma_rect_count_bound(
                *pizza,
                Ingredient::Mushroom,
                cx as int,
                cx + 1,
                s.y as int,
                s.y + s.height,
            );
        }
        if direction_y != 0 {
            lemma_rect_count_bound(
                *pizza,
                Ingredient::Tomato,
                nx as int,
                nx + nw,
                ry as int,
                ry + 1,
            );
            lemma_rect_count_bound(
                *pizza,
                Ingredient::Mushroom,
                nx as int,
                nx + nw,
                ry as int,
                ry + 1,
            );
        }
        lemma_rect_count_bound(
            *pizza,
            Ingredient::Tomato,
            s.x as int,
            s.x + s.width,
            s.y as int,
            s.y + s.height,
        );
        lemma_rect_count_bound(
            *pizza,
            Ingredient::Mushroom,
            s.x as int,
            s.x + s.width,
            s.y as int,
            s.y + s.height,
        );
    }
    let mut tomato_count = s.tomato_count;
    let mut mushroom_count = s.mushroom_count;
    if direction_x != 0 {
        let (t, m) = pizza.count_rect(cx, cx + 1, s.y, s.y + s.height);
        tomato_count += t;
        mushroom_count += m;
    }
    if direction_y != 0 {
        let (t, m) = pizza.count_rect(nx, nx + nw, ry, ry + 1);
        tomato_count += t;
        mushroom_count += m;
    }
    proof {
        assert(tomato_count == rect_count(
            *pizza,
            Ingredient::Tomato,
            nx as int,
            nx + nw,
            ny as int,
            ny + nh,
        ));
        assert(mushroom_count == rect_count(
            *pizza,
            Ingredient::Mushroom,
            nx as int,
            nx + nw,
            ny as int,
            ny + nh,
        ));
    }

    // Claim the new cells.
    if update_occupied {
        if direction_x != 0 {
            mark_rect(pizza, occupied, cx, cx + 1, s.y, s.y + s.height);
        }
        if direction_y != 0 {
            mark_rect(pizza, occupied, nx, nx + nw, ry, ry + 1);
        }
    }

    let grown = Slice { x: nx, y: ny, width: nw, height: nh, tomato_count, mushroom_count };
    proof {
        assert(grown == grown_slice(*pizza, s, dx, dy));
        assert(slice_area(s) < slice_area(grown)) by (nonlinear_arith)
            requires
                grown.width >= s.width >= 1,
                grown.height >= s.height >= 1,
                grown.width + grown.height > s.width + s.height,
                slice_area(s) == s.width * s.height,
                slice_area(grown) == grown.width * grown.height,
        ;
        assert forall|x: int, y: int|
            #[trigger] in_slice(grown, x, y) && !in_slice(s, x, y) implies !occ_at(
            old(occupied)@,
            pizza.columns as int,
            x,
            y,
        ) by {
            assert(in_grown(s, dx, dy, x, y));
        }
        if update_occupied {
            assert forall|x: int, y: int| pizza.cell_in_bounds(x, y) implies #[trigger] occ_at(
                occupied@,
                pizza.columns as int,
                x,
                y,
            ) == (occ_at(old(occupied)@, pizza.columns as int, x, y) || (in_slice(grown, x, y)
                && !in_slice(s, x, y))) by {
                assert(in_slice(grown, x, y) == in_grown(s, dx, dy, x, y));
            }
        }
    }
    *slice = grown;
    true
}

} // verus!

verus! {

/// The solver's state: the grid, the puzzle limits, the occupancy map (one
/// flag per cell, row-major), and the slices placed so far in discovery
/// order.
pub struct PizzaSolver<'a> {
    pub pizza: &'a Pizza,
    pub min_of_each_per_slice: usize,
    pub max_cells_per_slice: usize,
    pub occupied: Vec<bool>,
    pub slices: Vec<Slice>,
}

impl<'a> PizzaSolver<'a> {
    /// The occupancy map's true cells are exactly the union of all placed
    /// slices' rectangles.
    pub open spec fn occ_matches(self) -> bool {
        forall|x: int, y: int|
            self.pizza.cell_in_bounds(x, y) ==> #[trigger] occ_at(
                self.occupied@,
                self.pizza.columns as int,
                x,
                y,
            ) == covered_by(self.slices@, x, y)
    }

    /// The solver's invariant: sane limits, an occupancy map of the grid's
    /// size, and placed slices that are well-formed, valid, pairwise
    /// disjoint, and in exact agreement with the occupancy map.
    pub open spec fn wf(self) -> bool {
        &&& self.pizza.wf()
        &&& 1 <= self.max_cells_per_slice
        &&& self.min_of_each_per_slice <= self.max_cells_per_slice
        &&& self.occupied@.len() == self.pizza.rows * self.pizza.columns
        &&& forall|i: int|
            0 <= i < self.slices@.len() ==> slice_wf(*self.pizza, #[trigger] self.slices@[i])
        &&& forall|i: int|
            0 <= i < self.slices@.len() ==> spec_slice_valid(
                self.min_of_each_per_slice as int,
                self.max_cells_per_slice as int,
                #[trigger] self.slices@[i],
            )
        &&& forall|i: int, j: int|
            0 <= i < j < self.slices@.len() ==> slices_disjoint(
                #[trigger] self.slices@[i],
                #[trigger] self.slices@[j],
            )
        &&& self.occ_matches()
    }
}

/// Appending a slice extends the covered region by exactly that slice's
/// rectangle.
proof fn lemma_covered_push(slices: Seq<Slice>, s: Slice, x: int, y: int)
    ensures
        covered_by(slices.push(s), x, y) == (covered_by(slices, x, y) || in_slice(s, x, y)),
{
    if covered_by(slices, x, y) {
        let i = choose|i: int| 0 <= i < slices.len() && in_slice(#[trigger] slices[i], x, y);
        assert(slices.push(s)[i] == slices[i]);
        assert(covered_by(slices.push(s), x, y));
    }
    if in_slice(s, x, y) {
        assert(slices.push(s)[slices.len() as int] == s);
        assert(covered_by(slices.push(s), x, y));
    }
    if covered_by(slices.push(s), x, y) {
        let i = choose|i: int|
            0 <= i < slices.push(s).len() && in_slice(#[trigger] slices.push(s)[i], x, y);
        if i < slices.len() {
            assert(slices[i] == slices.push(s)[i]);
            assert(covered_by(slices, x, y));
        } else {
            assert(slices.push(s)[i] == s);
        }
    }
}

/// Growing one slice in place extends the covered region by exactly the
/// grown slice's rectangle.
proof fn lemma_covered_update(slices: Seq<Slice>, i: int, s: Slice, x: int, y: int)
    requires
        0 <= i < slices.len(),
        forall|xx: int, yy: int| #[trigger] in_slice(slices[i], xx, yy) ==> in_slice(s, xx, yy),
    ensures
        covered_by(slices.update(i, s), x, y) == (covered_by(slices, x, y) || in_slice(s, x, y)),
{
    let upd = slices.update(i, s);
    if covered_by(upd, x, y) {
        let j = choose|j: int| 0 <= j < upd.len() && in_slice(#[trigger] upd[j], x, y);
        if j == i {
            assert(in_slice(s, x, y));
        } else {
            assert(upd[j] == slices[j]);
            assert(covered_by(slices, x, y));
        }
    }
    if in_slice(s, x, y) {
        assert(upd[i] == s);
        assert(covered_by(upd, x, y));
    }
    if covered_by(slices, x, y) {
        let j = choose|j: int| 0 <= j < slices.len() && in_slice(#[trigger] slices[j], x, y);
        if j == i {
            assert(in_slice(s, x, y));
            assert(upd[i] == s);
            assert(covered_by(upd, x, y));
        } else {
            assert(upd[j] == slices[j]);
            assert(covered_by(upd, x, y));
        }
    }
}

/// Marking more cells never makes a blocked growth attempt possible: once a
/// direction fails for a slice, it keeps failing while the occupancy map
/// only gains cells and the slice stays put.
pub proof fn lemma_can_expand_monotone(
    p: Pizza,
    occ1: Seq<bool>,
    occ2: Seq<bool>,
    max_cells: int,
    s: Slice,
    dx: int,
    dy: int,
)
    requires
        p.wf(),
        slice_in_bounds(p, s),
        dir_in_range(dx, dy),
        forall|x: int, y: int|
            p.cell_in_bounds(x, y) && #[trigger] occ_at(occ1, p.columns as int, x, y) ==> occ_at(
                occ2,
                p.columns as int,
                x,
                y,
            ),
        !can_expand(p, occ1, max_cells, s, dx, dy),
    ensures
        !can_expand(p, occ2, max_cells, s, dx, dy),
{
    if can_expand(p, occ2, max_cells, s, dx, dy) {
        assert(!expansion_free(p, occ1, s, dx, dy));
        let (x, y) = choose|x: int, y: int|
            !(in_grown(s, dx, dy, x, y) && !in_slice(s, x, y) ==> !#[trigger] occ_at(
                occ1,
                p.columns as int,
                x,
                y,
            ));
        assert(p.cell_in_bounds(x, y));
        assert(occ_at(occ2, p.columns as int, x, y));
        assert(false);
    }
}

impl<'a> PizzaSolver<'a> {
    /// A fresh solver over `pizza`: an all-false occupancy map and no
    /// slices.
    pub fn new(pizza: &'a Pizza, min_of_each_per_slice: usize, max_cells_per_slice: usize) -> (r:
        Self)
        requires
            pizza.wf(),
            1 <= max_cells_per_slice,
            min_of_each_per_slice <= max_cells_per_slice,
        ensures
            r.wf(),
            r.pizza == pizza,
            r.min_of_each_per_slice == min_of_each_per_slice,
            r.max_cells_per_slice == max_cells_per_slice,
            r.slices@.len() == 0,
            forall|x: int, y: int|
                pizza.cell_in_bounds(x, y) ==> !#[trigger] occ_at(
                    r.occupied@,
                    pizza.columns as int,
                    x,
                    y,
                ),
    {
        let total = pizza.total_ingredients();
        let mut occupied: Vec<bool> = Vec::new();
        while occupied.len() < total
            invariant
                occupied@.len() <= total,
                forall|i: int| 0 <= i < occupied@.len() ==> !occupied@[i],
            decreases total - occupied@.len(),
        {
            occupied.push(false);
        }
        let r = PizzaSolver {
            pizza,
            min_of_each_per_slice,
            max_cells_per_slice,
            occupied,
            slices: Vec::new(),
        };
        proof {
            assert forall|x: int, y: int| pizza.cell_in_bounds(x, y) implies !#[trigger] occ_at(
                r.occupied@,
                pizza.columns as int,
                x,
                y,
            ) by {
                lemma_cell_index(*pizza, x, y);
            }
        }
        r
    }

    /// Whether cell (x, y) is already claimed by some placed slice.
    pub fn occupied(&self, x: usize, y: usize) -> (r: bool)
        requires
            self.wf(),
            self.pizza.cell_in_bounds(x as int, y as int),
        ensures
            r == occ_at(self.occupied@, self.pizza.columns as int, x as int, y as int),
    {
        occ_get(self.pizza, &self.occupied, x, y)
    }

    /// Commits a slice: marks its cells as claimed and appends it to the
    /// list.  Its cells must all be unclaimed; that `width * height ==
    /// tomato_count + mushroom_count` holds of any well-formed slice is
    /// proved on the way, so no defensive check is needed.
    pub fn add_slice(&mut self, slice: Slice)
        requires
            old(self).wf(),
            slice_wf(*old(self).pizza, slice),
            spec_slice_valid(
                old(self).min_of_each_per_slice as int,
                old(self).max_cells_per_slice as int,
                slice,
            ),
            forall|x: int, y: int|
                #[trigger] in_slice(slice, x, y) ==> !occ_at(
                    old(self).occupied@,
                    old(self).pizza.columns as int,
                    x,
                    y,
                ),
        ensures
            final(self).wf(),
            final(self).pizza == old(self).pizza,
            final(self).min_of_each_per_slice == old(self).min_of_each_per_slice,
            final(self).max_cells_per_slice == old(self).max_cells_per_slice,
            final(self).slices@ == old(self).slices@.push(slice),
            forall|x: int, y: int|
                old(self).pizza.cell_in_bounds(x, y) ==> #[trigger] occ_at(
                    final(self).occupied@,
                    old(self).pizza.columns as int,
                    x,
                    y,
                ) == (occ_at(old(self).occupied@, old(self).pizza.columns as int, x, y)
                    || in_slice(slice, x, y)),
    {
        proof {
            lemma_rect_count_total(
                *self.pizza,
                slice.x as int,
                slice.x + slice.width,
                slice.y as int,
                slice.y + slice.height,
            );
            assert(slice.width * slice.height == slice.tomato_count + slice.mushroom_count);
        }
        let p = self.pizza;
        mark_rect(
            p,
            &mut self.occupied,
            slice.x,
            slice.x + slice.width,
            slice.y,
            slice.y + slice.height,
        );
        self.slices.push(slice);
        proof {
            let cols = p.columns as int;
            let olds = old(self).slices@;
            assert forall|x: int, y: int| p.cell_in_bounds(x, y) implies #[trigger] occ_at(
                self.occupied@,
                cols,
                x,
                y,
            ) == covered_by(self.slices@, x, y) by {
                lemma_covered_push(olds, slice, x, y);
            }
            assert forall|i: int, j: int|
                0 <= i < j < self.slices@.len() implies slices_disjoint(
                #[trigger] self.slices@[i],
                #[trigger] self.slices@[j],
            ) by {
                if j == olds.len() {
                    assert(self.slices@[j] == slice);
                    assert(self.slices@[i] == olds[i]);
                    assert forall|x: int, y: int|
                        !(#[trigger] in_slice(olds[i], x, y) && in_slice(slice, x, y)) by {
                        if in_slice(olds[i], x, y) && in_slice(slice, x, y) {
                            assert(slice_in_bounds(*p, olds[i]));
                            assert(p.cell_in_bounds(x, y));
                            assert(covered_by(olds, x, y));
                            assert(occ_at(old(self).occupied@, cols, x, y));
                            assert(false);
                        }
                    }
                } else {
                    assert(self.slices@[i] == olds[i]);
                    assert(self.slices@[j] == olds[j]);
                }
            }
        }
    }
}

/// The puzzle's validity predicate on a placed or candidate slice: at least
/// the required amount of each ingredient, and at most the cell budget.
pub fn slice_valid(solver: &PizzaSolver, slice: &Slice) -> (r: bool)
    requires
        solver.wf(),
        slice_wf(*solver.pizza, *slice),
    ensures
        r == spec_slice_valid(
            solver.min_of_each_per_slice as int,
            solver.max_cells_per_slice as int,
            *slice,
        ),
{
    proof {
        lemma_area_fits(*solver.pizza, 0, slice.width as int, 0, slice.height as int);
    }
    slice.tomato_count >= solver.min_of_each_per_slice && slice.mushroom_count
        >= solver.min_of_each_per_slice && slice.width * slice.height
        <= solver.max_cells_per_slice
}

} // verus!

verus! {

/// The expansion phase's cyclic direction priority: up-left, up, left,
/// down-right, down, right.
pub open spec fn expansion_direction(k: int) -> (int, int) {
    if k == 0 {
        (-1int, -1int)
    } else if k == 1 {
        (0int, -1int)
    } else if k == 2 {
        (-1int, 0int)
    } else if k == 3 {
        (1int, 1int)
    } else if k == 4 {
        (0int, 1int)
    } else {
        (1int, 0int)
    }
}

/// The expansion priority list as runnable offsets.
fn expansion_direction_at(k: usize) -> (r: (isize, isize))
    requires
        k < 6,
    ensures
        r.0 as int == expansion_direction(k as int).0,
        r.1 as int == expansion_direction(k as int).1,
        dir_in_range(r.0 as int, r.1 as int),
{
    if k == 0 {
        (-1, -1)
    } else if k == 1 {
        (0, -1)
    } else if k == 2 {
        (-1, 0)
    } else if k == 3 {
        (1, 1)
    } else if k == 4 {
        (0, 1)
    } else {
        (1, 0)
    }
}

/// No direction of the expansion priority list can grow the slice.
pub open spec fn slice_fully_expanded(p: Pizza, occ: Seq<bool>, max_cells: int, s: Slice) -> bool {
    forall|k: int|
        0 <= k < 6 ==> !can_expand(
            p,
            occ,
            max_cells,
            s,
            (#[trigger] expansion_direction(k)).0,
            expansion_direction(k).1,
        )
}

/// Every placed slice is fully expanded against the current occupancy map.
pub open spec fn solver_fully_expanded(s: PizzaSolver) -> bool {
    forall|i: int|
        0 <= i < s.slices@.len() ==> slice_fully_expanded(
            *s.pizza,
            s.occupied@,
            s.max_cells_per_slice as int,
            #[trigger] s.slices@[i],
        )
}

/// A fully expanded slice stays fully expanded while the occupancy map only
/// gains cells.
pub proof fn lemma_fully_expanded_monotone(
    p: Pizza,
    occ1: Seq<bool>,
    occ2: Seq<bool>,
    max_cells: int,
    s: Slice,
)
    requires
        p.wf(),
        slice_in_bounds(p, s),
        forall|x: int, y: int|
            p.cell_in_bounds(x, y) && #[trigger] occ_at(occ1, p.columns as int, x, y) ==> occ_at(
                occ2,
                p.columns as int,
                x,
                y,
            ),
        slice_fully_expanded(p, occ1, max_cells, s),
    ensures
        slice_fully_expanded(p, occ2, max_cells, s),
{
    assert forall|k: int| 0 <= k < 6 implies !can_expand(
        p,
        occ2,
        max_cells,
        s,
        (#[trigger] expansion_direction(k)).0,
        expansion_direction(k).1,
    ) by {
        let (dx, dy) = expansion_direction(k);
        assert(dir_in_range(dx, dy));
        lemma_can_expand_monotone(p, occ1, occ2, max_cells, s, dx, dy);
    }
}

/// One round of the expansion loop for a single slice: tries the directions
/// in priority order and applies the first possible growth step.  Returns
/// whether the slice grew; it grew exactly when it was not already fully
/// expanded.
fn expand_once(
    max_cells_per_slice: usize,
    pizza: &Pizza,
    occupied: &mut Vec<bool>,
    slice: &mut Slice,
) -> (r: bool)
    requires
        pizza.wf(),
        old(occupied)@.len() == pizza.rows * pizza.columns,
        slice_wf(*pizza, *old(slice)),
    ensures
        final(occupied)@.len() == old(occupied)@.len(),
        r == !slice_fully_expanded(
            *pizza,
            old(occupied)@,
            max_cells_per_slice as int,
            *old(slice),
        ),
        !r ==> *final(slice) == *old(slice) && final(occupied)@ == old(occupied)@,
        r ==> slice_wf(*pizza, *final(slice)),
        r ==> slice_area(*final(slice)) <= max_cells_per_slice,
        r ==> slice_area(*old(slice)) < slice_area(*final(slice)),
        r ==> final(slice).tomato_count >= old(slice).tomato_count,
        r ==> final(slice).mushroom_count >= old(slice).mushroom_count,
        r ==> forall|x: int, y: int|
            #[trigger] in_slice(*old(slice), x, y) ==> in_slice(*final(slice), x, y),
        r ==> forall|x: int, y: int|
            #[trigger] in_slice(*final(slice), x, y) && !in_slice(*old(slice), x, y) ==> !occ_at(
                old(occupied)@,
                pizza.columns as int,
                x,
                y,
            ),
        r ==> forall|x: int, y: int|
            pizza.cell_in_bounds(x, y) ==> #[trigger] occ_at(
                final(occupied)@,
                pizza.columns as int,
                x,
                y,
            ) == (occ_at(old(occupied)@, pizza.columns as int, x, y) || (in_slice(
                *final(slice),
                x,
                y,
            ) && !in_slice(*old(slice), x, y))),
        r ==> first_expand_dir(
            *pizza,
            old(occupied)@,
            max_cells_per_slice as int,
            *old(slice),
            0,
        ) < 6 && *final(slice) == grown_slice(
            *pizza,
            *old(slice),
            expansion_direction(
                first_expand_dir(
                    *pizza,
                    old(occupied)@,
                    max_cells_per_slice as int,
                    *old(slice),
                    0,
                ),
            ).0,
            expansion_direction(
                first_expand_dir(
                    *pizza,
                    old(occupied)@,
                    max_cells_per_slice as int,
                    *old(slice),
                    0,
                ),
            ).1,
        ),
{
    let mut k: usize = 0;
    while k < 6
        invariant
            pizza.wf(),
            occupied@.len() == pizza.rows * pizza.columns,
            slice_wf(*pizza, *slice),
            *slice == *old(slice),
            occupied@ == old(occupied)@,
            k <= 6,
            forall|j: int|
                0 <= j < k ==> !can_expand(
                    *pizza,
                    occupied@,
                    max_cells_per_slice as int,
                    *slice,
                    (#[trigger] expansion_direction(j)).0,
                    expansion_direction(j).1,
                ),
            first_expand_dir(*pizza, old(occupied)@, max_cells_per_slice as int, *old(slice), 0)
                == first_expand_dir(
                *pizza,
                old(occupied)@,
                max_cells_per_slice as int,
                *old(slice),
                k as int,
            ),
        decreases 6 - k,
    {
        let (dx, dy) = expansion_direction_at(k);
        if try_expand_slice_towards(
            max_cells_per_slice,
            true,
            pizza,
            occupied,
            slice,
            dx,
            dy,
        ) {
            proof {
                assert(can_expand(
                    *pizza,
                    old(occupied)@,
                    max_cells_per_slice as int,
                    *old(slice),
                    expansion_direction(k as int).0,
                    expansion_direction(k as int).1,
                ));
                assert(first_expand_dir(
                    *pizza,
                    old(occupied)@,
                    max_cells_per_slice as int,
                    *old(slice),
                    k as int,
                ) == k as int);
            }
            return true;
        }
        proof {
            assert(first_expand_dir(
                *pizza,
                old(occupied)@,
                max_cells_per_slice as int,
                *old(slice),
                k as int,
            ) == first_expand_dir(
                *pizza,
                old(occupied)@,
                max_cells_per_slice as int,
                *old(slice),
                k as int + 1,
            ));
        }
        k += 1;
    }
    false
}

impl<'a> PizzaSolver<'a> {
    /// The expansion phase: grows each placed slice, in discovery order, one
    /// unit at a time along the direction priority list until a full pass
    /// over the list yields no growth.  Afterwards every slice is fully
    /// expanded, and running the phase again on its own output changes
    /// nothing.
    pub fn expand_slices(&mut self)
        requires
            old(self).wf(),
        ensures
            final(self).wf(),
            final(self).pizza == old(self).pizza,
            final(self).min_of_each_per_slice == old(self).min_of_each_per_slice,
            final(self).max_cells_per_slice == old(self).max_cells_per_slice,
            final(self).slices@.len() == old(self).slices@.len(),
            forall|i: int, x: int, y: int|
                0 <= i < old(self).slices@.len() && #[trigger] in_slice(
                    old(self).slices@[i],
                    x,
                    y,
                ) ==> in_slice(final(self).slices@[i], x, y),
            solver_fully_expanded(*final(self)),
            solver_fully_expanded(*old(self)) ==> final(self).slices@ == old(self).slices@
                && final(self).occupied@ == old(self).occupied@,
            final(self).slices@ == expand_pass(
                *old(self).pizza,
                old(self).slices@,
                old(self).max_cells_per_slice as int,
                0,
                old(self).slices@.len() as int,
            ),
    {
        let ghost orig = *self;
        let ghost cols = self.pizza.columns as int;
        let ghost pz = *orig.pizza;
        let ghost maxx = orig.max_cells_per_slice as int;
        let n = self.slices.len();
        let mut i: usize = 0;
        while i < n
            invariant
                self.wf(),
                self.pizza == orig.pizza,
                self.min_of_each_per_slice == orig.min_of_each_per_slice,
                self.max_cells_per_slice == orig.max_cells_per_slice,
                orig.wf(),
                cols == orig.pizza.columns as int,
                pz == *orig.pizza,
                maxx == self.max_cells_per_slice as int,
                n == self.slices@.len(),
                n == orig.slices@.len(),
                i <= n,
                expand_pass(pz, self.slices@, maxx, i as int, n as int) == expand_pass(
                    pz,
                    orig.slices@,
                    maxx,
                    0,
                    n as int,
                ),
                forall|j: int| i <= j < n ==> self.slices@[j] == orig.slices@[j],
                forall|j: int, x: int, y: int|
                    0 <= j < n && #[trigger] in_slice(orig.slices@[j], x, y) ==> in_slice(
                        self.slices@[j],
                        x,
                        y,
                    ),
                forall|j: int|
                    0 <= j < i ==> slice_fully_expanded(
                        *self.pizza,
                        self.occupied@,
                        self.max_cells_per_slice as int,
                        #[trigger] self.slices@[j],
                    ),
                forall|x: int, y: int|
                    self.pizza.cell_in_bounds(x, y) && #[trigger] occ_at(orig.occupied@, cols, x, y)
                        ==> occ_at(self.occupied@, cols, x, y),
                solver_fully_expanded(orig) ==> self.slices@ == orig.slices@ && self.occupied@
                    == orig.occupied@,
            decreases n - i,
        {
            let ghost entry_slices = self.slices@;
            loop
                invariant
                    self.wf(),
                    self.pizza == orig.pizza,
                    self.min_of_each_per_slice == orig.min_of_each_per_slice,
                    self.max_cells_per_slice == orig.max_cells_per_slice,
                    orig.wf(),
                    cols == orig.pizza.columns as int,
                    pz == *orig.pizza,
                    maxx == self.max_cells_per_slice as int,
                    n == self.slices@.len(),
                    n == orig.slices@.len(),
                    i < n,
                    expand_slice_fixpoint(pz, self.slices@, maxx, i as int)
                        == expand_slice_fixpoint(pz, entry_slices, maxx, i as int),
                    forall|j: int| i < j < n ==> self.slices@[j] == orig.slices@[j],
                    forall|j: int, x: int, y: int|
                        0 <= j < n && #[trigger] in_slice(orig.slices@[j], x, y) ==> in_slice(
                            self.slices@[j],
                            x,
                            y,
                        ),
                    forall|j: int|
                        0 <= j < i ==> slice_fully_expanded(
                            *self.pizza,
                            self.occupied@,
                            self.max_cells_per_slice as int,
                            #[trigger] self.slices@[j],
                        ),
                    forall|x: int, y: int|
                        self.pizza.cell_in_bounds(x, y) && #[trigger] occ_at(
                            orig.occupied@,
                            cols,
                            x,
                            y,
                        ) ==> occ_at(self.occupied@, cols, x, y),
                    solver_fully_expanded(orig) ==> self.slices@ == orig.slices@ && self.occupied@
                        == orig.occupied@,
                ensures
                    slice_fully_expanded(
                        *self.pizza,
                        self.occupied@,
                        self.max_cells_per_slice as int,
                        self.slices@[i as int],
                    ),
                    self.slices@ == expand_slice_fixpoint(pz, entry_slices, maxx, i as int),
                decreases self.max_cells_per_slice - slice_area(self.slices@[i as int]),
            {
                let ghost pre = *self;
                let mut s = self.slices[i];
                let p = self.pizza;
                let max_cells = self.max_cells_per_slice;
                let grew = expand_once(max_cells, p, &mut self.occupied, &mut s);
                if !grew {
                    proof {
                        let cur = self.slices@[i as int];
                        assert(slice_fully_expanded(pz, self.occupied@, maxx, cur));
                        lemma_first_expand_dir_props(pz, self.occupied@, maxx, cur, 0);
                        lemma_first_expand_dir_congruence(
                            pz,
                            self.occupied@,
                            self.slices@,
                            maxx,
                            cur,
                            0,
                        );
                        assert(first_expand_dir(pz, cov_occ(pz, self.slices@), maxx, cur, 0)
                            == 6);
                        assert(expand_slice_fixpoint(pz, self.slices@, maxx, i as int)
                            == self.slices@);
                    }
                    break;
                }
                let ghost olds = pre.slices@[i as int];
                self.slices.set(i, s);
                proof {
                    let news = self.slices@;
                    assert(news == pre.slices@.update(i as int, s));

                    // Pairwise disjointness: the grown slice claims only
                    // cells no other slice covers.
                    assert forall|a: int, b: int| 0 <= a < b < n implies slices_disjoint(
                        #[trigger] news[a],
                        #[trigger] news[b],
                    ) by {
                        if a != i && b != i {
                            assert(news[a] == pre.slices@[a]);
                            assert(news[b] == pre.slices@[b]);
                        } else {
                            let o = if a == i {
                                b
                            } else {
                                a
                            };
                            assert(news[o] == pre.slices@[o]);
                            assert forall|x: int, y: int|
                                !(#[trigger] in_slice(s, x, y) && in_slice(pre.slices@[o], x, y))
                            by {
                                if in_slice(s, x, y) && in_slice(pre.slices@[o], x, y) {
                                    assert(slice_in_bounds(*pre.pizza, pre.slices@[o]));
                                    assert(pre.pizza.cell_in_bounds(x, y));
                                    assert(covered_by(pre.slices@, x, y));
                                    assert(occ_at(pre.occupied@, cols, x, y));
                                    if in_slice(olds, x, y) {
                                        if a == i {
                                            assert(slices_disjoint(
                                                pre.slices@[i as int],
                                                pre.slices@[b],
                                            ));
                                        } else {
                                            assert(slices_disjoint(
                                                pre.slices@[a],
                                                pre.slices@[i as int],
                                            ));
                                        }
                                        assert(false);
                                    } else {
                                        assert(!occ_at(pre.occupied@, cols, x, y));
                                    }
                                }
                            }
                        }
                    }

                    // The occupancy map matches the updated slice list.
                    assert forall|x: int, y: int| self.pizza.cell_in_bounds(x, y) implies
                        #[trigger] occ_at(self.occupied@, cols, x, y) == covered_by(news, x, y) by {
                        lemma_covered_update(pre.slices@, i as int, s, x, y);
                        if in_slice(olds, x, y) {
                            assert(covered_by(pre.slices@, x, y));
                        }
                    }

                    // Earlier slices stay fully expanded: the map only grew.
                    assert forall|j: int| 0 <= j < i implies slice_fully_expanded(
                        *self.pizza,
                        self.occupied@,
                        self.max_cells_per_slice as int,
                        #[trigger] news[j],
                    ) by {
                        assert(news[j] == pre.slices@[j]);
                        lemma_fully_expanded_monotone(
                            *self.pizza,
                            pre.occupied@,
                            self.occupied@,
                            self.max_cells_per_slice as int,
                            news[j],
                        );
                    }

                    // An already fully expanded state never grows.
                    if solver_fully_expanded(orig) {
                        assert(slice_fully_expanded(
                            *orig.pizza,
                            orig.occupied@,
                            orig.max_cells_per_slice as int,
                            orig.slices@[i as int],
                        ));
                        assert(false);
                    }

                    // The step taken is the model's step, so the fixpoint is
                    // unchanged.
                    let kk = first_expand_dir(pz, pre.occupied@, maxx, olds, 0);
                    lemma_first_expand_dir_props(pz, pre.occupied@, maxx, olds, 0);
                    lemma_first_expand_dir_congruence(
                        pz,
                        pre.occupied@,
                        pre.slices@,
                        maxx,
                        olds,
                        0,
                    );
                    assert(dir_in_range(expansion_direction(kk).0, expansion_direction(kk).1));
                    lemma_grown_slice_facts(
                        pz,
                        olds,
                        expansion_direction(kk).0,
                        expansion_direction(kk).1,
                    );
                    assert(expand_slice_fixpoint(pz, pre.slices@, maxx, i as int)
                        == expand_slice_fixpoint(pz, news, maxx, i as int));
                }
            }
            proof {
                assert(expand_pass(pz, entry_slices, maxx, i as int, n as int) == expand_pass(
                    pz,
                    expand_slice_fixpoint(pz, entry_slices, maxx, i as int),
                    maxx,
                    i as int + 1,
                    n as int,
                ));
            }
            i += 1;
        }
        proof {
            assert(expand_pass(pz, self.slices@, maxx, n as int, n as int) == self.slices@);
        }
    }
}

} // verus!

verus! {

/// The seed phase's direction priority: left, down, up, right, then the two
/// diagonal pairs.
pub open spec fn seed_direction(k: int) -> (int, int) {
    if k == 0 {
        (-1int, 0int)
    } else if k == 1 {
        (0int, 1int)
    } else if k == 2 {
        (0int, -1int)
    } else if k == 3 {
        (1int, 0int)
    } else if k == 4 {
        (-1int, -1int)
    } else {
        (1int, 1int)
    }
}

/// The seed priority list as runnable offsets.
fn seed_direction_at(k: usize) -> (r: (isize, isize))
    requires
        k < 6,
    ensures
        r.0 as int == seed_direction(k as int).0,
        r.1 as int == seed_direction(k as int).1,
        dir_in_range(r.0 as int, r.1 as int),
{
    if k == 0 {
        (-1, 0)
    } else if k == 1 {
        (0, 1)
    } else if k == 2 {
        (0, -1)
    } else if k == 3 {
        (1, 0)
    } else if k == 4 {
        (-1, -1)
    } else {
        (1, 1)
    }
}

/// A one-cell rectangle holds one cell of the cell's own ingredient and none
/// of the other.
proof fn lemma_rect_count_single(p: Pizza, ing: Ingredient, x: int, y: int)
    ensures
        rect_count(p, ing, x, x + 1, y, y + 1) == if p.spec_at(x, y) == ing {
            1int
        } else {
            0int
        },
{
    assert(rect_count(p, ing, x, x + 1, y, y) == 0);
    assert(row_count(p, ing, y, x, x) == 0);
    assert(row_count(p, ing, y, x, x + 1) == if p.spec_at(x, y) == ing {
        1int
    } else {
        0int
    });
}

impl<'a> PizzaSolver<'a> {
    /// Tries to place a new slice seeded at the unclaimed cell (x, y): grows
    /// a 1x1 candidate greedily, re-scanning the direction priority list
    /// after every successful step, and, failing that, commits to each
    /// single direction in turn.  Commits the first candidate that becomes
    /// valid; if none does, the cell stays unclaimed and nothing changes.
    pub fn try_create_slice_at(&mut self, x: usize, y: usize)
        requires
            old(self).wf(),
            old(self).pizza.cell_in_bounds(x as int, y as int),
        ensures
            final(self).wf(),
            final(self).pizza == old(self).pizza,
            final(self).min_of_each_per_slice == old(self).min_of_each_per_slice,
            final(self).max_cells_per_slice == old(self).max_cells_per_slice,
            final(self).slices@ == match created_at(
                *old(self).pizza,
                old(self).slices@,
                old(self).min_of_each_per_slice as int,
                old(self).max_cells_per_slice as int,
                x as int,
                y as int,
            ) {
                Some(s) => old(self).slices@.push(s),
                None => old(self).slices@,
            },
            final(self).slices@ == old(self).slices@ ==> final(self).occupied@ == old(
                self,
            ).occupied@,
            forall|j: int|
                0 <= j < old(self).slices@.len() ==> final(self).slices@[j] == old(
                    self,
                ).slices@[j],
            final(self).slices@.len() == old(self).slices@.len() + 1 ==> in_slice(
                final(self).slices@.last(),
                x as int,
                y as int,
            ) && spec_slice_valid(
                old(self).min_of_each_per_slice as int,
                old(self).max_cells_per_slice as int,
                final(self).slices@.last(),
            ),
    {
        let ghost sl0 = old(self).slices@;
        let ghost minn = old(self).min_of_each_per_slice as int;
        let ghost maxx = old(self).max_cells_per_slice as int;
        if self.occupied(x, y) {
            proof {
                assert(covered_by(sl0, x as int, y as int));
            }
            return ;
        }
        proof {
            assert(!covered_by(sl0, x as int, y as int));
        }
        let p = self.pizza;
        let is_tomato = p.at(x, y) == Ingredient::Tomato;
        let base = Slice {
            x,
            y,
            width: 1,
            height: 1,
            tomato_count: if is_tomato {
                1
            } else {
                0
            },
            mushroom_count: if is_tomato {
                0
            } else {
                1
            },
        };
        proof {
            lemma_rect_count_single(*p, Ingredient::Tomato, x as int, y as int);
            lemma_rect_count_single(*p, Ingredient::Mushroom, x as int, y as int);
            assert(slice_wf(*p, base));
            assert(base == base_slice(*p, x as int, y as int));
            assert forall|xx: int, yy: int| #[trigger] in_slice(base, xx, yy) implies !occ_at(
                self.occupied@,
                p.columns as int,
                xx,
                yy,
            ) by {
                assert(xx == x && yy == y);
            }
        }

        // First strategy: after every successful growth step, re-scan the
        // whole direction list and take the first direction that works.
        let mut slice = base;
        loop
            invariant
                self.wf(),
                self.pizza == old(self).pizza,
                self.min_of_each_per_slice == old(self).min_of_each_per_slice,
                self.max_cells_per_slice == old(self).max_cells_per_slice,
                self.occupied@ == old(self).occupied@,
                self.slices@ == sl0,
                p == self.pizza,
                minn == self.min_of_each_per_slice as int,
                maxx == self.max_cells_per_slice as int,
                slice_wf(*p, slice),
                slice_area(slice) <= self.max_cells_per_slice,
                in_slice(slice, x as int, y as int),
                forall|xx: int, yy: int|
                    #[trigger] in_slice(slice, xx, yy) ==> !occ_at(
                        self.occupied@,
                        p.columns as int,
                        xx,
                        yy,
                    ),
                grow_round_robin(*p, sl0, minn, maxx, slice) == grow_round_robin(
                    *p,
                    sl0,
                    minn,
                    maxx,
                    base,
                ),
            ensures
                slice == grow_round_robin(*p, sl0, minn, maxx, base),
            decreases self.max_cells_per_slice - slice_area(slice),
        {
            if slice_valid(self, &slice) {
                proof {
                    assert(grow_round_robin(*p, sl0, minn, maxx, slice) == slice);
                }
                break ;
            }
            let ghost slice0 = slice;
            let mut grew = false;
            let mut k: usize = 0;
            while k < 6
                invariant_except_break
                    !grew,
                invariant
                    self.wf(),
                    self.pizza == old(self).pizza,
                    self.min_of_each_per_slice == old(self).min_of_each_per_slice,
                    self.max_cells_per_slice == old(self).max_cells_per_slice,
                    self.occupied@ == old(self).occupied@,
                    self.slices@ == sl0,
                    p == self.pizza,
                    minn == self.min_of_each_per_slice as int,
                    maxx == self.max_cells_per_slice as int,
                    k <= 6,
                    slice_wf(*p, slice),
                    slice_area(slice) <= self.max_cells_per_slice,
                    in_slice(slice, x as int, y as int),
                    forall|xx: int, yy: int|
                        #[trigger] in_slice(slice, xx, yy) ==> !occ_at(
                            self.occupied@,
                            p.columns as int,
                            xx,
                            yy,
                        ),
                    !spec_slice_valid(minn, maxx, slice0),
                    !grew ==> slice == slice0,
                    !grew ==> first_seed_dir(*p, sl0, maxx, slice0, 0) == first_seed_dir(
                        *p,
                        sl0,
                        maxx,
                        slice0,
                        k as int,
                    ),
                    grew ==> slice_area(slice0) < slice_area(slice),
                    grew ==> grow_round_robin(*p, sl0, minn, maxx, slice0) == grow_round_robin(
                        *p,
                        sl0,
                        minn,
                        maxx,
                        slice,
                    ),
                ensures
                    !grew ==> slice == slice0 && first_seed_dir(*p, sl0, maxx, slice0, 0)
                        == first_seed_dir(*p, sl0, maxx, slice0, 6),
                decreases 6 - k,
            {
                let (dx, dy) = seed_direction_at(k);
                let max_cells = self.max_cells_per_slice;
                if try_expand_slice_towards(
                    max_cells,
                    false,
                    p,
                    &mut self.occupied,
                    &mut slice,
                    dx,
                    dy,
                ) {
                    proof {
                        lemma_can_expand_congruence(
                            *p,
                            self.occupied@,
                            sl0,
                            maxx,
                            slice0,
                            dx as int,
                            dy as int,
                        );
                        assert(can_expand(
                            *p,
                            cov_occ(*p, sl0),
                            maxx,
                            slice0,
                            seed_direction(k as int).0,
                            seed_direction(k as int).1,
                        ));
                        assert(first_seed_dir(*p, sl0, maxx, slice0, k as int) == k as int);
                        assert(first_seed_dir(*p, sl0, maxx, slice0, 0) == k as int);
                        lemma_grown_slice_facts(
                            *p,
                            slice0,
                            seed_direction(k as int).0,
                            seed_direction(k as int).1,
                        );
                        assert(grow_round_robin(*p, sl0, minn, maxx, slice0) == grow_round_robin(
                            *p,
                            sl0,
                            minn,
                            maxx,
                            slice,
                        ));
                    }
                    grew = true;
                    break ;
                }
                proof {
                    lemma_can_expand_congruence(
                        *p,
                        self.occupied@,
                        sl0,
                        maxx,
                        slice0,
                        dx as int,
                        dy as int,
                    );
                    assert(first_seed_dir(*p, sl0, maxx, slice0, k as int) == first_seed_dir(
                        *p,
                        sl0,
                        maxx,
                        slice0,
                        k as int + 1,
                    ));
                }
                k += 1;
            }
            if !grew {
                proof {
                    assert(first_seed_dir(*p, sl0, maxx, slice0, 6) == 6);
                    assert(grow_round_robin(*p, sl0, minn, maxx, slice) == slice);
                }
                break ;
            }
        }
        if slice_valid(self, &slice) {
            proof {
                assert(created_at(*p, sl0, minn, maxx, x as int, y as int) == Some(slice));
            }
            self.add_slice(slice);
            proof {
                assert(self.slices@.len() == sl0.len() + 1);
            }
            return ;
        }
        proof {
            assert(!spec_slice_valid(minn, maxx, grow_round_robin(*p, sl0, minn, maxx, base)));
        }

        // Second strategy: commit to one direction at a time and exhaust it
        // before falling back to the next.
        let mut k: usize = 0;
        while k < 6
            invariant
                self.wf(),
                self.pizza == old(self).pizza,
                self.min_of_each_per_slice == old(self).min_of_each_per_slice,
                self.max_cells_per_slice == old(self).max_cells_per_slice,
                self.occupied@ == old(self).occupied@,
                self.slices@ == sl0,
                p == self.pizza,
                minn == self.min_of_each_per_slice as int,
                maxx == self.max_cells_per_slice as int,
                sl0 == old(self).slices@,
                k <= 6,
                slice_wf(*p, base),
                base == base_slice(*p, x as int, y as int),
                slice_area(base) <= self.max_cells_per_slice,
                in_slice(base, x as int, y as int),
                forall|xx: int, yy: int|
                    #[trigger] in_slice(base, xx, yy) ==> !occ_at(
                        self.occupied@,
                        p.columns as int,
                        xx,
                        yy,
                    ),
                !covered_by(sl0, x as int, y as int),
                !spec_slice_valid(minn, maxx, grow_round_robin(*p, sl0, minn, maxx, base)),
                straight_attempts(*p, sl0, minn, maxx, base, 0) == straight_attempts(
                    *p,
                    sl0,
                    minn,
                    maxx,
                    base,
                    k as int,
                ),
            decreases 6 - k,
        {
            let (dx, dy) = seed_direction_at(k);
            let ghost dxi = dx as int;
            let ghost dyi = dy as int;
            let mut cand = base;
            loop
                invariant
                    self.wf(),
                    self.pizza == old(self).pizza,
                    self.min_of_each_per_slice == old(self).min_of_each_per_slice,
                    self.max_cells_per_slice == old(self).max_cells_per_slice,
                    self.occupied@ == old(self).occupied@,
                    self.slices@ == sl0,
                    p == self.pizza,
                    minn == self.min_of_each_per_slice as int,
                    maxx == self.max_cells_per_slice as int,
                    dir_in_range(dxi, dyi),
                    dxi == dx as int,
                    dyi == dy as int,
                    slice_wf(*p, cand),
                    slice_area(cand) <= self.max_cells_per_slice,
                    in_slice(cand, x as int, y as int),
                    forall|xx: int, yy: int|
                        #[trigger] in_slice(cand, xx, yy) ==> !occ_at(
                            self.occupied@,
                            p.columns as int,
                            xx,
                            yy,
                        ),
                    grow_straight(*p, sl0, minn, maxx, cand, dxi, dyi) == grow_straight(
                        *p,
                        sl0,
                        minn,
                        maxx,
                        base,
                        dxi,
                        dyi,
                    ),
                ensures
                    cand == grow_straight(*p, sl0, minn, maxx, base, dxi, dyi),
                decreases self.max_cells_per_slice - slice_area(cand),
            {
                if slice_valid(self, &cand) {
                    proof {
                        assert(grow_straight(*p, sl0, minn, maxx, cand, dxi, dyi) == cand);
                    }
                    break ;
                }
                let max_cells = self.max_cells_per_slice;
                let ghost pre = cand;
                if !try_expand_slice_towards(
                    max_cells,
                    false,
                    p,
                    &mut self.occupied,
                    &mut cand,
                    dx,
                    dy,
                ) {
                    proof {
                        lemma_can_expand_congruence(
                            *p,
                            self.occupied@,
                            sl0,
                            maxx,
                            cand,
                            dxi,
                            dyi,
                        );
                        assert(grow_straight(*p, sl0, minn, maxx, cand, dxi, dyi) == cand);
                    }
                    break ;
                }
                proof {
                    lemma_can_expand_congruence(*p, self.occupied@, sl0, maxx, pre, dxi, dyi);
                    lemma_grown_slice_facts(*p, pre, dxi, dyi);
                    assert(grow_straight(*p, sl0, minn, maxx, pre, dxi, dyi) == grow_straight(
                        *p,
                        sl0,
                        minn,
                        maxx,
                        cand,
                        dxi,
                        dyi,
                    ));
                }
            }
            if slice_valid(self, &cand) {
                proof {
                    assert(straight_attempts(*p, sl0, minn, maxx, base, k as int) == Some(cand));
                    assert(created_at(*p, sl0, minn, maxx, x as int, y as int) == Some(cand));
                }
                self.add_slice(cand);
                proof {
                    assert(self.slices@.len() == sl0.len() + 1);
                }
                return ;
            }
            proof {
                assert(straight_attempts(*p, sl0, minn, maxx, base, k as int)
                    == straight_attempts(*p, sl0, minn, maxx, base, k as int + 1));
            }
            k += 1;
        }
        proof {
            assert(straight_attempts(*p, sl0, minn, maxx, base, 0) == None::<Slice>);
            assert(created_at(*p, sl0, minn, maxx, x as int, y as int) == None::<Slice>);
        }
    }

    /// The seed phase: scans the cells in row-major order and tries to grow
    /// a minimal valid slice from each still-unclaimed cell.
    pub fn find_minimal_slices(&mut self)
        requires
            old(self).wf(),
            old(self).slices@.len() == 0,
        ensures
            final(self).wf(),
            final(self).pizza == old(self).pizza,
            final(self).min_of_each_per_slice == old(self).min_of_each_per_slice,
            final(self).max_cells_per_slice == old(self).max_cells_per_slice,
            final(self).slices@ == seed_pass(
                *old(self).pizza,
                old(self).slices@,
                old(self).min_of_each_per_slice as int,
                old(self).max_cells_per_slice as int,
                0,
            ),
    {
        let ghost pz = *old(self).pizza;
        let ghost sl0 = old(self).slices@;
        let ghost minn = old(self).min_of_each_per_slice as int;
        let ghost maxx = old(self).max_cells_per_slice as int;
        let rows = self.pizza.rows();
        let columns = self.pizza.columns();
        let mut y: usize = 0;
        while y < rows
            invariant
                self.wf(),
                self.pizza == old(self).pizza,
                self.min_of_each_per_slice == old(self).min_of_each_per_slice,
                self.max_cells_per_slice == old(self).max_cells_per_slice,
                pz == *old(self).pizza,
                minn == self.min_of_each_per_slice as int,
                maxx == self.max_cells_per_slice as int,
                rows == self.pizza.rows,
                columns == self.pizza.columns,
                y <= rows,
                seed_pass(pz, self.slices@, minn, maxx, y * pz.columns) == seed_pass(
                    pz,
                    sl0,
                    minn,
                    maxx,
                    0,
                ),
            decreases rows - y,
        {
            let mut x: usize = 0;
            while x < columns
                invariant
                    self.wf(),
                    self.pizza == old(self).pizza,
                    self.min_of_each_per_slice == old(self).min_of_each_per_slice,
                    self.max_cells_per_slice == old(self).max_cells_per_slice,
                    pz == *old(self).pizza,
                    minn == self.min_of_each_per_slice as int,
                    maxx == self.max_cells_per_slice as int,
                    rows == self.pizza.rows,
                    columns == self.pizza.columns,
                    y < rows,
                    x <= columns,
                    seed_pass(pz, self.slices@, minn, maxx, y * pz.columns + x) == seed_pass(
                        pz,
                        sl0,
                        minn,
                        maxx,
                        0,
                    ),
                decreases columns - x,
            {
                proof {
                    lemma_cell_index(pz, x as int, y as int);
                    vstd::arithmetic::div_mod::lemma_fundamental_div_mod_converse(
                        y * (pz.columns as int) + x,
                        pz.columns as int,
                        y as int,
                        x as int,
                    );
                }
                let ghost pre = self.slices@;
                self.try_create_slice_at(x, y);
                proof {
                    assert(seed_pass(pz, pre, minn, maxx, y * pz.columns + x) == seed_pass(
                        pz,
                        self.slices@,
                        minn,
                        maxx,
                        y * pz.columns + x + 1,
                    ));
                }
                x += 1;
            }
            proof {
                assert(y * pz.columns + pz.columns == (y + 1) * pz.columns) by (nonlinear_arith);
            }
            y += 1;
        }
        proof {
            assert(y * pz.columns == pz.rows * pz.columns);
            assert(seed_pass(pz, self.slices@, minn, maxx, pz.rows * pz.columns)
                == self.slices@);
        }
    }

    /// Runs both phases and returns the placed slices: every returned slice
    /// is well-formed and valid, no two overlap, none can grow any further
    /// against the returned coverage, and the list equals `solve_spec`, a
    /// function of the grid and the two limits alone — so identical inputs
    /// always give an identical slice list.  The closing pass re-checks each
    /// slice against the validity predicate, as a caller of the list would;
    /// the check provably never fails.
    pub fn solve(self) -> (r: Vec<Slice>)
        requires
            self.wf(),
            self.slices@.len() == 0,
        ensures
            forall|i: int| 0 <= i < r@.len() ==> slice_wf(*self.pizza, #[trigger] r@[i]),
            forall|i: int|
                0 <= i < r@.len() ==> spec_slice_valid(
                    self.min_of_each_per_slice as int,
                    self.max_cells_per_slice as int,
                    #[trigger] r@[i],
                ),
            forall|i: int, j: int|
                0 <= i < j < r@.len() ==> slices_disjoint(#[trigger] r@[i], #[trigger] r@[j]),
            forall|i: int|
                0 <= i < r@.len() ==> slice_fully_expanded(
                    *self.pizza,
                    cov_occ(*self.pizza, r@),
                    self.max_cells_per_slice as int,
                    #[trigger] r@[i],
                ),
            r@ == solve_spec(
                *self.pizza,
                self.min_of_each_per_slice as int,
                self.max_cells_per_slice as int,
            ),
    {
        let ghost orig = self;
        let mut state = self;
        proof {
            assert(state.slices@ =~= Seq::<Slice>::empty());
        }
        state.find_minimal_slices();
        let ghost seeded = state.slices@;
        state.expand_slices();
        proof {
            assert(seeded == seed_pass(
                *orig.pizza,
                Seq::<Slice>::empty(),
                orig.min_of_each_per_slice as int,
                orig.max_cells_per_slice as int,
                0,
            ));
            assert(state.slices@ == expand_pass(
                *orig.pizza,
                seeded,
                orig.max_cells_per_slice as int,
                0,
                seeded.len() as int,
            ));
        }
        proof {
            let pz = *orig.pizza;
            let maxx = orig.max_cells_per_slice as int;
            assert forall|i: int| 0 <= i < state.slices@.len() implies slice_fully_expanded(
                pz,
                cov_occ(pz, state.slices@),
                maxx,
                #[trigger] state.slices@[i],
            ) by {
                assert(slice_fully_expanded(pz, state.occupied@, maxx, state.slices@[i]));
                assert forall|k: int| 0 <= k < 6 implies !can_expand(
                    pz,
                    cov_occ(pz, state.slices@),
                    maxx,
                    state.slices@[i],
                    (#[trigger] expansion_direction(k)).0,
                    expansion_direction(k).1,
                ) by {
                    let (dx, dy) = expansion_direction(k);
                    assert(dir_in_range(dx, dy));
                    lemma_can_expand_congruence(
                        pz,
                        state.occupied@,
                        state.slices@,
                        maxx,
                        state.slices@[i],
                        dx,
                        dy,
                    );
                }
            }
        }
        let mut idx: usize = 0;
        while idx < state.slices.len()
            invariant
                state.wf(),
                state.pizza == orig.pizza,
                state.min_of_each_per_slice == orig.min_of_each_per_slice,
                state.max_cells_per_slice == orig.max_cells_per_slice,
                idx <= state.slices@.len(),
            decreases state.slices@.len() - idx,
        {
            let s = state.slices[idx];
            let ok = slice_valid(&state, &s);
            assert(ok);
            idx += 1;
        }
        state.slices
    }
}

impl Pizza {
    /// Solves the puzzle over this grid: returns non-overlapping valid
    /// slices, grown greedily by the seed and expansion phases.  The result
    /// is `solve_spec` of the grid and the two limits, and of nothing else:
    /// the solve is deterministic.
    pub fn solve(&self, min_per_slice: usize, max_per_slice: usize) -> (r: Vec<Slice>)
        requires
            self.wf(),
            1 <= max_per_slice,
            min_per_slice <= max_per_slice,
        ensures
            forall|i: int| 0 <= i < r@.len() ==> slice_wf(*self, #[trigger] r@[i]),
            forall|i: int|
                0 <= i < r@.len() ==> spec_slice_valid(
                    min_per_slice as int,
                    max_per_slice as int,
                    #[trigger] r@[i],
                ),
            forall|i: int, j: int|
                0 <= i < j < r@.len() ==> slices_disjoint(#[trigger] r@[i], #[trigger] r@[j]),
            forall|i: int|
                0 <= i < r@.len() ==> slice_fully_expanded(
                    *self,
                    cov_occ(*self, r@),
                    max_per_slice as int,
                    #[trigger] r@[i],
                ),
            r@ == solve_spec(*self, min_per_slice as int, max_per_slice as int),
    {
        let state = PizzaSolver::new(self, min_per_slice, max_per_slice);
        state.solve()
    }
}

} // verus!

verus! {

/// A well-formed valid slice truly holds at least `min_per_type` cells of
/// each ingredient, within at most `max_cells` cells: the cached counts that
/// the validity predicate reads agree with the grid.
pub proof fn lemma_valid_slice_counts(p: Pizza, min_per_type: int, max_cells: int, s: Slice)
    requires
        slice_wf(p, s),
        spec_slice_valid(min_per_type, max_cells, s),
    ensures
        rect_count(p, Ingredient::Tomato, s.x as int, s.x + s.width, s.y as int, s.y + s.height)
            >= min_per_type,
        rect_count(p, Ingredient::Mushroom, s.x as int, s.x + s.width, s.y as int, s.y + s.height)
            >= min_per_type,
        s.width * s.height <= max_cells,
{
}

/// In every well-formed solver state the occupancy map's true cells are
/// exactly the union of the placed slices' rectangles: no claimed cell
/// without a slice over it, and no slice cell left unclaimed.
pub proof fn lemma_occupancy_is_union_of_slices(s: PizzaSolver)
    requires
        s.wf(),
    ensures
        forall|x: int, y: int|
            s.pizza.cell_in_bounds(x, y) ==> #[trigger] occ_at(
                s.occupied@,
                s.pizza.columns as int,
                x,
                y,
            ) == covered_by(s.slices@, x, y),
{
}

} // verus!

verus! {

/// The canonical occupancy map of a slice list: cell (x, y) is claimed
/// exactly when some slice of the list covers it.
pub open spec fn cov_occ(p: Pizza, slices: Seq<Slice>) -> Seq<bool> {
    Seq::new(
        (p.rows * p.columns) as nat,
        |k: int| covered_by(slices, k % (p.columns as int), k / (p.columns as int)),
    )
}

/// Reading the canonical map at a cell gives that cell's coverage.
proof fn lemma_cov_occ_at(p: Pizza, slices: Seq<Slice>, x: int, y: int)
    requires
        p.wf(),
        p.cell_in_bounds(x, y),
    ensures
        occ_at(cov_occ(p, slices), p.columns as int, x, y) == covered_by(slices, x, y),
{
    lemma_cell_index(p, x, y);
    vstd::arithmetic::div_mod::lemma_fundamental_div_mod_converse(
        y * (p.columns as int) + x,
        p.columns as int,
        y,
        x,
    );
}

/// An occupancy map that agrees with a slice list on every cell admits
/// exactly the growth steps that the list's canonical map admits.
proof fn lemma_can_expand_congruence(
    p: Pizza,
    occ: Seq<bool>,
    slices: Seq<Slice>,
    max_cells: int,
    s: Slice,
    dx: int,
    dy: int,
)
    requires
        p.wf(),
        slice_in_bounds(p, s),
        dir_in_range(dx, dy),
        forall|x: int, y: int|
            p.cell_in_bounds(x, y) ==> #[trigger] occ_at(occ, p.columns as int, x, y)
                == covered_by(slices, x, y),
    ensures
        can_expand(p, occ, max_cells, s, dx, dy) == can_expand(
            p,
            cov_occ(p, slices),
            max_cells,
            s,
            dx,
            dy,
        ),
{
    if expansion_fits(p, s, dx, dy) {
        if expansion_free(p, occ, s, dx, dy) {
            assert forall|x: int, y: int|
                in_grown(s, dx, dy, x, y) && !in_slice(s, x, y) implies !#[trigger] occ_at(
                cov_occ(p, slices),
                p.columns as int,
                x,
                y,
            ) by {
                assert(p.cell_in_bounds(x, y));
                lemma_cov_occ_at(p, slices, x, y);
                assert(!occ_at(occ, p.columns as int, x, y));
            }
        }
        if expansion_free(p, cov_occ(p, slices), s, dx, dy) {
            assert forall|x: int, y: int|
                in_grown(s, dx, dy, x, y) && !in_slice(s, x, y) implies !#[trigger] occ_at(
                occ,
                p.columns as int,
                x,
                y,
            ) by {
                assert(p.cell_in_bounds(x, y));
                lemma_cov_occ_at(p, slices, x, y);
                assert(!occ_at(cov_occ(p, slices), p.columns as int, x, y));
            }
        }
    }
}

/// Geometry of a growth step that fits: the grown slice is well-formed,
/// strictly larger, and its area is the grown rectangle's area.
proof fn lemma_grown_slice_facts(p: Pizza, s: Slice, dx: int, dy: int)
    requires
        p.wf(),
        slice_in_bounds(p, s),
        dir_in_range(dx, dy),
        expansion_fits(p, s, dx, dy),
    ensures
        slice_wf(p, grown_slice(p, s, dx, dy)),
        slice_area(grown_slice(p, s, dx, dy)) == grown_width(s, dx) * grown_height(s, dy),
        slice_area(s) < slice_area(grown_slice(p, s, dx, dy)),
        0 <= slice_area(s),
{
    let gw = grown_width(s, dx);
    let gh = grown_height(s, dy);
    let gx = grown_x(s, dx);
    let gy = grown_y(s, dy);
    lemma_area_fits(p, 0, gw, 0, gh);
    lemma_rect_count_bound(p, Ingredient::Tomato, gx, gx + gw, gy, gy + gh);
    lemma_rect_count_bound(p, Ingredient::Mushroom, gx, gx + gw, gy, gy + gh);
    assert(s.width * s.height < gw * gh && 0 <= s.width * s.height) by (nonlinear_arith)
        requires
            1 <= s.width <= gw,
            1 <= s.height <= gh,
            s.width + s.height < gw + gh,
    ;
}

} // verus!

verus! {

/// The 1x1 candidate seeded at cell (x, y).
pub open spec fn base_slice(p: Pizza, x: int, y: int) -> Slice {
    Slice {
        x: x as usize,
        y: y as usize,
        width: 1usize,
        height: 1usize,
        tomato_count: if p.spec_at(x, y) == Ingredient::Tomato {
            1usize
        } else {
            0usize
        },
        mushroom_count: if p.spec_at(x, y) == Ingredient::Mushroom {
            1usize
        } else {
            0usize
        },
    }
}

/// The first seed-phase direction, from position k on, that can grow `s`
/// against the slice list's canonical occupancy; 6 when none can.
pub open spec fn first_seed_dir(
    p: Pizza,
    slices: Seq<Slice>,
    max_cells: int,
    s: Slice,
    k: int,
) -> int
    decreases 6 - k,
{
    if !(0 <= k < 6) {
        6
    } else if can_expand(
        p,
        cov_occ(p, slices),
        max_cells,
        s,
        seed_direction(k).0,
        seed_direction(k).1,
    ) {
        k
    } else {
        first_seed_dir(p, slices, max_cells, s, k + 1)
    }
}

/// The seed phase's first strategy: while the candidate is invalid, re-scan
/// the direction list and grow one unit along the first direction that
/// works; stop when the candidate is valid or no direction works.
pub open spec fn grow_round_robin(
    p: Pizza,
    slices: Seq<Slice>,
    min_per: int,
    max_cells: int,
    s: Slice,
) -> Slice
    decreases max_cells - slice_area(s),
{
    if spec_slice_valid(min_per, max_cells, s) {
        s
    } else {
        let k = first_seed_dir(p, slices, max_cells, s, 0);
        if k < 6 {
            let g = grown_slice(p, s, seed_direction(k).0, seed_direction(k).1);
            if 0 <= slice_area(s) && slice_area(s) < slice_area(g) && slice_area(g) <= max_cells {
                grow_round_robin(p, slices, min_per, max_cells, g)
            } else {
                s
            }
        } else {
            s
        }
    }
}

/// The seed phase's second strategy, for one direction: grow along it until
/// the candidate is valid or the direction stops working.
pub open spec fn grow_straight(
    p: Pizza,
    slices: Seq<Slice>,
    min_per: int,
    max_cells: int,
    s: Slice,
    dx: int,
    dy: int,
) -> Slice
    decreases max_cells - slice_area(s),
{
    if spec_slice_valid(min_per, max_cells, s) {
        s
    } else if can_expand(p, cov_occ(p, slices), max_cells, s, dx, dy) {
        let g = grown_slice(p, s, dx, dy);
        if 0 <= slice_area(s) && slice_area(s) < slice_area(g) && slice_area(g) <= max_cells {
            grow_straight(p, slices, min_per, max_cells, g, dx, dy)
        } else {
            s
        }
    } else {
        s
    }
}

/// The second strategy over the direction list, from position k on: the
/// first direction whose exhausted candidate is valid, or nothing.
pub open spec fn straight_attempts(
    p: Pizza,
    slices: Seq<Slice>,
    min_per: int,
    max_cells: int,
    base: Slice,
    k: int,
) -> Option<Slice>
    decreases 6 - k,
{
    if !(0 <= k < 6) {
        None
    } else {
        let c = grow_straight(
            p,
            slices,
            min_per,
            max_cells,
            base,
            seed_direction(k).0,
            seed_direction(k).1,
        );
        if spec_slice_valid(min_per, max_cells, c) {
            Some(c)
        } else {
            straight_attempts(p, slices, min_per, max_cells, base, k + 1)
        }
    }
}

/// The slice the seed pass commits at cell (x, y), if any: nothing when the
/// cell is already claimed; otherwise the first strategy's result when it
/// reaches validity, else the first valid result of the second strategy.
pub open spec fn created_at(
    p: Pizza,
    slices: Seq<Slice>,
    min_per: int,
    max_cells: int,
    x: int,
    y: int,
) -> Option<Slice> {
    if covered_by(slices, x, y) {
        None
    } else {
        let b = grow_round_robin(p, slices, min_per, max_cells, base_slice(p, x, y));
        if spec_slice_valid(min_per, max_cells, b) {
            Some(b)
        } else {
            straight_attempts(p, slices, min_per, max_cells, base_slice(p, x, y), 0)
        }
    }
}

} // verus!

verus! {

/// The whole seed pass from cell index k on, in row-major order: each cell
/// appends the slice it commits, if any.
pub open spec fn seed_pass(
    p: Pizza,
    slices: Seq<Slice>,
    min_per: int,
    max_cells: int,
    k: int,
) -> Seq<Slice>
    decreases p.rows * p.columns - k,
{
    if !(0 <= k < p.rows * p.columns) {
        slices
    } else {
        let next = match created_at(
            p,
            slices,
            min_per,
            max_cells,
            k % (p.columns as int),
            k / (p.columns as int),
        ) {
            Some(s) => slices.push(s),
            None => slices,
        };
        seed_pass(p, next, min_per, max_cells, k + 1)
    }
}

} // verus!

verus! {

/// The first expansion direction, from position k on, that can grow `s`
/// against the given occupancy map; 6 when none can.
pub open spec fn first_expand_dir(
    p: Pizza,
    occ: Seq<bool>,
    max_cells: int,
    s: Slice,
    k: int,
) -> int
    decreases 6 - k,
{
    if !(0 <= k < 6) {
        6
    } else if can_expand(
        p,
        occ,
        max_cells,
        s,
        expansion_direction(k).0,
        expansion_direction(k).1,
    ) {
        k
    } else {
        first_expand_dir(p, occ, max_cells, s, k + 1)
    }
}

/// What the first expansion direction means: 6 exactly when every direction
/// from k on is blocked, and otherwise a direction that works.
proof fn lemma_first_expand_dir_props(p: Pizza, occ: Seq<bool>, max_cells: int, s: Slice, k: int)
    requires
        0 <= k <= 6,
    ensures
        (first_expand_dir(p, occ, max_cells, s, k) == 6) == (forall|j: int|
            k <= j < 6 ==> !can_expand(
                p,
                occ,
                max_cells,
                s,
                (#[trigger] expansion_direction(j)).0,
                expansion_direction(j).1,
            )),
        first_expand_dir(p, occ, max_cells, s, k) < 6 ==> k <= first_expand_dir(
            p,
            occ,
            max_cells,
            s,
            k,
        ) && can_expand(
            p,
            occ,
            max_cells,
            s,
            expansion_direction(first_expand_dir(p, occ, max_cells, s, k)).0,
            expansion_direction(first_expand_dir(p, occ, max_cells, s, k)).1,
        ),
    decreases 6 - k,
{
    if k < 6 {
        lemma_first_expand_dir_props(p, occ, max_cells, s, k + 1);
    }
}

/// An occupancy map that agrees with a slice list on every cell picks the
/// same first expansion direction as the list's canonical map.
proof fn lemma_first_expand_dir_congruence(
    p: Pizza,
    occ: Seq<bool>,
    slices: Seq<Slice>,
    max_cells: int,
    s: Slice,
    k: int,
)
    requires
        p.wf(),
        slice_in_bounds(p, s),
        forall|x: int, y: int|
            p.cell_in_bounds(x, y) ==> #[trigger] occ_at(occ, p.columns as int, x, y)
                == covered_by(slices, x, y),
    ensures
        first_expand_dir(p, occ, max_cells, s, k) == first_expand_dir(
            p,
            cov_occ(p, slices),
            max_cells,
            s,
            k,
        ),
    decreases 6 - k,
{
    if 0 <= k < 6 {
        let (dx, dy) = expansion_direction(k);
        assert(dir_in_range(dx, dy));
        lemma_can_expand_congruence(p, occ, slices, max_cells, s, dx, dy);
        lemma_first_expand_dir_congruence(p, occ, slices, max_cells, s, k + 1);
    }
}

/// Grows slice i of the list, one unit at a time along the first workable
/// direction of the priority list, until no direction works.
pub open spec fn expand_slice_fixpoint(
    p: Pizza,
    slices: Seq<Slice>,
    max_cells: int,
    i: int,
) -> Seq<Slice>
    decreases max_cells - slice_area(slices[i]),
{
    if !(0 <= i < slices.len()) {
        slices
    } else {
        let k = first_expand_dir(p, cov_occ(p, slices), max_cells, slices[i], 0);
        if k < 6 {
            let g = grown_slice(p, slices[i], expansion_direction(k).0, expansion_direction(k).1);
            if 0 <= slice_area(slices[i]) && slice_area(slices[i]) < slice_area(g) && slice_area(g)
                <= max_cells {
                expand_slice_fixpoint(p, slices.update(i, g), max_cells, i)
            } else {
                slices
            }
        } else {
            slices
        }
    }
}

/// The expansion pass over the first n slices, from slice i on, in
/// discovery order.
pub open spec fn expand_pass(
    p: Pizza,
    slices: Seq<Slice>,
    max_cells: int,
    i: int,
    n: int,
) -> Seq<Slice>
    decreases n - i,
{
    if !(0 <= i < n) {
        slices
    } else {
        expand_pass(p, expand_slice_fixpoint(p, slices, max_cells, i), max_cells, i + 1, n)
    }
}

/// The whole solve, as a function of the grid and the two limits alone: the
/// seed pass over the empty state, then the expansion pass.  Identical
/// inputs give an identical slice list.
pub open spec fn solve_spec(p: Pizza, min_per: int, max_cells: int) -> Seq<Slice> {
    let seeded = seed_pass(p, Seq::empty(), min_per, max_cells, 0);
    expand_pass(p, seeded, max_cells, 0, seeded.len() as int)
}

} // verus!
