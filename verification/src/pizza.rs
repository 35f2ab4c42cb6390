//! The ingredient grid: an immutable rows x columns matrix of two-valued
//! cells, with bounds-checked lookup and ingredient counting over
//! axis-aligned rectangles.

use vstd::prelude::*;

verus! {

/// One cell of the grid holds exactly one of two ingredients.
#[derive(Clone, Copy, Debug, PartialEq, Eq, Structural)]
pub enum Ingredient {
    Tomato,
    Mushroom,
}

/// The fatal input conditions: a grid that is empty or ragged, and a grid
/// character that names no ingredient.
#[derive(Clone, Copy, Debug, PartialEq, Eq, Structural)]
pub enum InputError {
    MalformedInput,
    InvalidCharacter,
}

impl Ingredient {
    /// Parses one grid character: `'T'` is tomato, `'M'` is mushroom, and
    /// anything else is rejected.
    pub fn from_char(c: char) -> (r: Result<Ingredient, InputError>)
        ensures
            c == 'T' ==> r == Ok::<Ingredient, InputError>(Ingredient::Tomato),
            c == 'M' ==> r == Ok::<Ingredient, InputError>(Ingredient::Mushroom),
            c != 'T' && c != 'M' ==> r == Err::<Ingredient, InputError>(
                InputError::InvalidCharacter,
            ),
    {
        if c == 'T' {
            Ok(Ingredient::Tomato)
        } else if c == 'M' {
            Ok(Ingredient::Mushroom)
        } else {
            Err(InputError::InvalidCharacter)
        }
    }
}

/// The pizza: a non-empty rectangular grid of ingredients, read-only for the
/// lifetime of a solve.
pub struct Pizza {
    pub field: Vec<Vec<Ingredient>>,
    pub rows: usize,
    pub columns: usize,
}

impl Pizza {
    /// The grid is non-empty and rectangular, the cached dimensions match the
    /// data, and the cell count fits in a `usize`.
    pub open spec fn wf(self) -> bool {
        &&& self.rows == self.field@.len()
        &&& 1 <= self.rows
        &&& 1 <= self.columns
        &&& self.rows * self.columns <= usize::MAX
        &&& forall|y: int|
            0 <= y < self.rows ==> (#[trigger] self.field@[y])@.len() == self.columns
    }

    /// The ingredient at column `x`, row `y`.
    pub open spec fn spec_at(self, x: int, y: int) -> Ingredient {
        self.field@[y]@[x]
    }

    /// Whether (x, y) names a cell of the grid.
    pub open spec fn cell_in_bounds(self, x: int, y: int) -> bool {
        &&& 0 <= x < self.columns
        &&& 0 <= y < self.rows
    }

    /// Builds a pizza from the rows of the grid.  Fails with
    /// `MalformedInput` when there is no row, no column, the rows do not all
    /// have the same length, or the grid is too large for its cell count to
    /// be represented.
    pub fn new(field: Vec<Vec<Ingredient>>) -> (r: Result<Pizza, InputError>)
        ensures
            match r {
                Ok(p) => {
                    &&& p.wf()
                    &&& p.field == field
                    &&& p.rows == field@.len()
                    &&& p.columns == field@[0]@.len()
                },
                Err(e) => {
                    &&& e == InputError::MalformedInput
                    &&& !{
                        &&& field@.len() >= 1
                        &&& field@[0]@.len() >= 1
                        &&& field@.len() * field@[0]@.len() <= usize::MAX
                        &&& forall|y: int|
                            0 <= y < field@.len() ==> (#[trigger] field@[y])@.len()
                                == field@[0]@.len()
                    }
                },
            },
    {
        let rows = field.len();
        if rows == 0 {
            return Err(InputError::MalformedInput);
        }
        let columns = field[0].len();
        if columns == 0 {
            return Err(InputError::MalformedInput);
        }
        if rows.checked_mul(columns).is_none() {
            return Err(InputError::MalformedInput);
        }
        let mut y: usize = 0;
        while y < rows
            invariant
                rows == field@.len(),
                y <= rows,
                columns == field@[0]@.len(),
                forall|yy: int| 0 <= yy < y ==> (#[trigger] field@[yy])@.len() == columns,
            decreases rows - y,
        {
            if field[y].len() != columns {
                return Err(InputError::MalformedInput);
            }
            y += 1;
        }
        Ok(Pizza { field, rows, columns })
    }

    /// The number of rows.
    pub fn rows(&self) -> (r: usize)
        ensures
            r == self.rows,
    {
        self.rows
    }

    /// The number of columns.
    pub fn columns(&self) -> (r: usize)
        ensures
            r == self.columns,
    {
        self.columns
    }

    /// The total number of cells.
    pub fn total_ingredients(&self) -> (r: usize)
        requires
            self.wf(),
        ensures
            r == self.rows * self.columns,
    {
        self.rows * self.columns
    }

    /// Bounds-checked cell lookup by (column, row).
    pub fn at(&self, x: usize, y: usize) -> (r: Ingredient)
        requires
            self.wf(),
            self.cell_in_bounds(x as int, y as int),
        ensures
            r == self.spec_at(x as int, y as int),
    {
        self.field[y][x]
    }
}

/// How many cells of row `y`, columns `x0 <= x < x1`, hold `ing`.
pub open spec fn row_count(p: Pizza, ing: Ingredient, y: int, x0: int, x1: int) -> int
    decreases x1 - x0,
{
    if x1 <= x0 {
        0
    } else {
        row_count(p, ing, y, x0, x1 - 1) + if p.spec_at(x1 - 1, y) == ing {
            1int
        } else {
            0int
        }
    }
}

/// How many cells of the rectangle `x0 <= x < x1`, `y0 <= y < y1` hold `ing`.
pub open spec fn rect_count(p: Pizza, ing: Ingredient, x0: int, x1: int, y0: int, y1: int) -> int
    decreases y1 - y0,
{
    if y1 <= y0 {
        0
    } else {
        rect_count(p, ing, x0, x1, y0, y1 - 1) + row_count(p, ing, y1 - 1, x0, x1)
    }
}

/// A row count lies between 0 and the width counted.
pub proof fn lemma_row_count_bound(p: Pizza, ing: Ingredient, y: int, x0: int, x1: int)
    ensures
        0 <= row_count(p, ing, y, x0, x1),
        x0 <= x1 ==> row_count(p, ing, y, x0, x1) <= x1 - x0,
    decreases x1 - x0,
{
    if x1 > x0 {
        lemma_row_count_bound(p, ing, y, x0, x1 - 1);
    }
}

/// A rectangle count lies between 0 and the area counted.
pub proof fn lemma_rect_count_bound(p: Pizza, ing: Ingredient, x0: int, x1: int, y0: int, y1: int)
    ensures
        0 <= rect_count(p, ing, x0, x1, y0, y1),
        x0 <= x1 && y0 <= y1 ==> rect_count(p, ing, x0, x1, y0, y1) <= (x1 - x0) * (y1 - y0),
    decreases y1 - y0,
{
    if y1 > y0 {
        lemma_rect_count_bound(p, ing, x0, x1, y0, y1 - 1);
        lemma_row_count_bound(p, ing, y1 - 1, x0, x1);
        if x0 <= x1 {
            assert((x1 - x0) * (y1 - 1 - y0) + (x1 - x0) == (x1 - x0) * (y1 - y0))
                by (nonlinear_arith);
        }
    }
}

/// Counting a row splits at any point between its ends.
pub proof fn lemma_row_count_split(p: Pizza, ing: Ingredient, y: int, x0: int, xm: int, x1: int)
    requires
        x0 <= xm <= x1,
    ensures
        row_count(p, ing, y, x0, x1) == row_count(p, ing, y, x0, xm) + row_count(
            p,
            ing,
            y,
            xm,
            x1,
        ),
    decreases x1 - xm,
{
    if x1 > xm {
        lemma_row_count_split(p, ing, y, x0, xm, x1 - 1);
    }
}

/// Counting a rectangle splits at any row between its top and bottom.
pub proof fn lemma_rect_count_split_y(
    p: Pizza,
    ing: Ingredient,
    x0: int,
    x1: int,
    y0: int,
    ym: int,
    y1: int,
)
    requires
        y0 <= ym <= y1,
    ensures
        rect_count(p, ing, x0, x1, y0, y1) == rect_count(p, ing, x0, x1, y0, ym) + rect_count(
            p,
            ing,
            x0,
            x1,
            ym,
            y1,
        ),
    decreases y1 - ym,
{
    if y1 > ym {
        lemma_rect_count_split_y(p, ing, x0, x1, y0, ym, y1 - 1);
    }
}

/// Counting a rectangle splits at any column between its sides.
pub proof fn lemma_rect_count_split_x(
    p: Pizza,
    ing: Ingredient,
    x0: int,
    xm: int,
    x1: int,
    y0: int,
    y1: int,
)
    requires
        x0 <= xm <= x1,
    ensures
        rect_count(p, ing, x0, x1, y0, y1) == rect_count(p, ing, x0, xm, y0, y1) + rect_count(
            p,
            ing,
            xm,
            x1,
            y0,
            y1,
        ),
    decreases y1 - y0,
{
    if y1 > y0 {
        lemma_rect_count_split_x(p, ing, x0, xm, x1, y0, y1 - 1);
        lemma_row_count_split(p, ing, y1 - 1, x0, xm, x1);
    }
}

/// Every cell holds one of the two ingredients, so the two counts of a row
/// sum to its width.
pub proof fn lemma_row_count_total(p: Pizza, y: int, x0: int, x1: int)
    requires
        x0 <= x1,
    ensures
        row_count(p, Ingredient::Tomato, y, x0, x1) + row_count(
            p,
            Ingredient::Mushroom,
            y,
            x0,
            x1,
        ) == x1 - x0,
    decreases x1 - x0,
{
    if x1 > x0 {
        lemma_row_count_total(p, y, x0, x1 - 1);
    }
}

/// The two counts of a rectangle sum to its area.
pub proof fn lemma_rect_count_total(p: Pizza, x0: int, x1: int, y0: int, y1: int)
    requires
        x0 <= x1,
        y0 <= y1,
    ensures
        rect_count(p, Ingredient::Tomato, x0, x1, y0, y1) + rect_count(
            p,
            Ingredient::Mushroom,
            x0,
            x1,
            y0,
            y1,
        ) == (x1 - x0) * (y1 - y0),
    decreases y1 - y0,
{
    if y1 > y0 {
        lemma_rect_count_total(p, x0, x1, y0, y1 - 1);
        lemma_row_count_total(p, y1 - 1, x0, x1);
        assert((x1 - x0) * ((y1 - 1) - y0) + (x1 - x0) == (x1 - x0) * (y1 - y0))
            by (nonlinear_arith);
    } else {
        assert((x1 - x0) * (y1 - y0) == 0) by (nonlinear_arith)
            requires
                y1 == y0,
        ;
    }
}

impl Pizza {
    /// Counts both ingredients inside the rectangle `x0 <= x < x1`,
    /// `y0 <= y < y1`, returning (tomatoes, mushrooms).
    pub fn count_rect(&self, x0: usize, x1: usize, y0: usize, y1: usize) -> (r: (usize, usize))
        requires
            self.wf(),
            x0 <= x1 <= self.columns,
            y0 <= y1 <= self.rows,
        ensures
            r.0 == rect_count(*self, Ingredient::Tomato, x0 as int, x1 as int, y0 as int, y1 as int),
            r.1 == rect_count(
                *self,
                Ingredient::Mushroom,
                x0 as int,
                x1 as int,
                y0 as int,
                y1 as int,
            ),
    {
        proof {
            lemma_area_fits(*self, x0 as int, x1 as int, y0 as int, y1 as int);
        }
        let mut tomatoes: usize = 0;
        let mut mushrooms: usize = 0;
        let mut y: usize = y0;
        while y < y1
            invariant
                self.wf(),
                x0 <= x1 <= self.columns,
                y0 <= y <= y1 <= self.rows,
                tomatoes == rect_count(
                    *self,
                    Ingredient::Tomato,
                    x0 as int,
                    x1 as int,
                    y0 as int,
                    y as int,
                ),
                mushrooms == rect_count(
                    *self,
                    Ingredient::Mushroom,
                    x0 as int,
                    x1 as int,
                    y0 as int,
                    y as int,
                ),
                tomatoes + mushrooms == (x1 - x0) * (y - y0),
                (x1 - x0) * (y1 - y0) <= usize::MAX,
            decreases y1 - y,
        {
            let mut x: usize = x0;
            while x < x1
                invariant
                    self.wf(),
                    x0 <= x <= x1 <= self.columns,
                    y0 <= y < y1 <= self.rows,
                    tomatoes == rect_count(
                        *self,
                        Ingredient::Tomato,
                        x0 as int,
                        x1 as int,
                        y0 as int,
                        y as int,
                    ) + row_count(*self, Ingredient::Tomato, y as int, x0 as int, x as int),
                    mushrooms == rect_count(
                        *self,
                        Ingredient::Mushroom,
                        x0 as int,
                        x1 as int,
                        y0 as int,
                        y as int,
                    ) + row_count(*self, Ingredient::Mushroom, y as int, x0 as int, x as int),
                    tomatoes + mushrooms == (x1 - x0) * (y - y0) + (x - x0),
                    (x1 - x0) * (y1 - y0) <= usize::MAX,
                decreases x1 - x,
            {
                proof {
                    lemma_partial_area_bound(
                        x0 as int,
                        x as int,
                        x1 as int,
                        y0 as int,
                        y as int,
                        y1 as int,
                    );
                }
                match self.at(x, y) {
                    Ingredient::Tomato => {
                        tomatoes += 1;
                    },
                    Ingredient::Mushroom => {
                        mushrooms += 1;
                    },
                }
                x += 1;
            }
            y += 1;
            proof {
                assert((x1 - x0) * (y - 1 - y0) + (x1 - x0) == (x1 - x0) * (y - y0))
                    by (nonlinear_arith);
            }
        }
        (tomatoes, mushrooms)
    }

    /// The ingredient with globally fewer occurrences; mushroom wins ties.
    pub fn less_present_ingredient(&self) -> (r: Ingredient)
        requires
            self.wf(),
        ensures
            r == if self.rows * self.columns - rect_count(
                *self,
                Ingredient::Tomato,
                0,
                self.columns as int,
                0,
                self.rows as int,
            ) > rect_count(
                *self,
                Ingredient::Tomato,
                0,
                self.columns as int,
                0,
                self.rows as int,
            ) {
                Ingredient::Tomato
            } else {
                Ingredient::Mushroom
            },
    {
        let (tomatoes, _mushrooms) = self.count_rect(0, self.columns, 0, self.rows);
        let total = self.total_ingredients();
        proof {
            lemma_rect_count_bound(
                *self,
                Ingredient::Tomato,
                0,
                self.columns as int,
                0,
                self.rows as int,
            );
            assert(self.columns * self.rows == self.rows * self.columns) by (nonlinear_arith);
        }
        if total - tomatoes > tomatoes {
            Ingredient::Tomato
        } else {
            Ingredient::Mushroom
        }
    }

    /// Row-major iteration: the cells as (ingredient, x, y) triples, in
    /// reading order.  Entry `k` describes the cell at column `k % columns`,
    /// row `k / columns`.
    pub fn each(&self) -> (r: Vec<(Ingredient, usize, usize)>)
        requires
            self.wf(),
        ensures
            r@.len() == self.rows * self.columns,
            row_major_entries(*self, r@),
    {
        let mut r: Vec<(Ingredient, usize, usize)> = Vec::new();
        let mut y: usize = 0;
        while y < self.rows
            invariant
                self.wf(),
                y <= self.rows,
                r@.len() == y * self.columns,
                row_major_entries(*self, r@),
            decreases self.rows - y,
        {
            let mut x: usize = 0;
            while x < self.columns
                invariant
                    self.wf(),
                    y < self.rows,
                    x <= self.columns,
                    r@.len() == y * self.columns + x,
                    row_major_entries(*self, r@),
                decreases self.columns - x,
            {
                proof {
                    assert(y * self.columns + self.columns <= self.rows * self.columns)
                        by (nonlinear_arith)
                        requires
                            y < self.rows,
                            self.columns >= 1,
                    ;
                    vstd::arithmetic::div_mod::lemma_fundamental_div_mod_converse(
                        y * (self.columns as int) + x,
                        self.columns as int,
                        y as int,
                        x as int,
                    );
                }
                r.push((self.at(x, y), x, y));
                x += 1;
            }
            proof {
                assert((y + 1) * self.columns == y * self.columns + self.columns)
                    by (nonlinear_arith);
            }
            y += 1;
        }
        r
    }
}

/// Entry `k` of `r` is the cell at column `k % columns`, row `k / columns`,
/// together with those coordinates.
pub open spec fn row_major_entries(p: Pizza, r: Seq<(Ingredient, usize, usize)>) -> bool {
    forall|k: int|
        0 <= k < r.len() ==> {
            let x = k % (p.columns as int);
            let y = k / (p.columns as int);
            #[trigger] r[k] == (p.spec_at(x, y), x as usize, y as usize)
        }
}

/// The area of a sub-rectangle of a well-formed pizza fits in a `usize`.
pub proof fn lemma_area_fits(p: Pizza, x0: int, x1: int, y0: int, y1: int)
    requires
        p.wf(),
        0 <= x0 <= x1 <= p.columns,
        0 <= y0 <= y1 <= p.rows,
    ensures
        0 <= (x1 - x0) * (y1 - y0) <= p.rows * p.columns <= usize::MAX,
{
    assert(0 <= (x1 - x0) * (y1 - y0) <= p.rows * p.columns) by (nonlinear_arith)
        requires
            0 <= x0 <= x1 <= p.columns,
            0 <= y0 <= y1 <= p.rows,
    ;
}

/// The cells already scanned stay within the rectangle being counted.
proof fn lemma_partial_area_bound(x0: int, x: int, x1: int, y0: int, y: int, y1: int)
    requires
        x0 <= x < x1,
        y0 <= y < y1,
    ensures
        (x1 - x0) * (y - y0) + (x - x0) < (x1 - x0) * (y1 - y0),
{
    assert((x1 - x0) * (y - y0) + (x - x0) < (x1 - x0) * (y1 - y0)) by (nonlinear_arith)
        requires
            x0 <= x < x1,
            y0 <= y < y1,
    ;
}

} // verus!
