//! The grid model: cells, frames and frame sequences, with the color
//! counter kept exactly equal to the number of colored cells.

use vstd::prelude::*;

use crate::chars::{char_allowed, Char};
use crate::colors::ColorPair;
use crate::error::Error;
use crate::palette::{PalEntry, Palette};

verus! {

/// A single cell: a text character and an optional color reference into
/// the palette.
#[derive(Debug, Clone, Copy, PartialEq, Eq, Hash)]
pub struct Cell {
    /// The text character displayed in this cell.
    pub text: Char,
    /// The palette character giving this cell its colors, if any.
    pub color: Option<Char>,
}

/// A cell is well formed when its characters are allowed.
pub open spec fn cell_wf(c: Cell) -> bool {
    &&& c.text.wf()
    &&& c.color matches Some(k) ==> k.wf()
}

/// Whether a cell carries a color reference.
pub open spec fn cell_colored(c: Cell) -> bool {
    c.color is Some
}

impl Default for Cell {
    /// The default cell: a space with no color.
    fn default() -> (r: Self)
        ensures
            r.text@ == ' ',
            r.color is None,
            cell_wf(r),
    {
        Cell { text: Char::space(), color: None }
    }
}

impl Cell {
    /// Whether this cell has a color assigned.
    pub fn color(&self) -> (r: bool)
        ensures
            r == cell_colored(*self),
    {
        match self.color {
            Some(_) => true,
            None => false,
        }
    }

    /// Whether two cells are equal, field by field.
    pub fn same(&self, other: &Cell) -> (r: bool)
        ensures
            r == (*self == *other),
    {
        let texts = self.text.to_char() == other.text.to_char();
        let colors = match (self.color, other.color) {
            (None, None) => true,
            (Some(a), Some(b)) => a.to_char() == b.to_char(),
            _ => false,
        };
        proof {
            if self.text@ == other.text@ {
                crate::chars::lemma_char_view_eq(self.text, other.text);
            }
            match (self.color, other.color) {
                (Some(a), Some(b)) => {
                    if a@ == b@ {
                        crate::chars::lemma_char_view_eq(a, b);
                    }
                },
                _ => {},
            }
        }
        texts && colors
    }

    /// The color pair this cell resolves to under a palette.
    pub fn to_pair(&self, palette: &Palette) -> (r: ColorPair)
        ensures
            r == spec_cell_pair(*self, palette.entries()),
    {
        match self.color {
            Some(color) => palette.get_color(color),
            None => ColorPair { fg: crate::colors::Color::NoColor, bg: crate::colors::Color::NoColor },
        }
    }
}

/// The color pair of a cell under given palette entries.
pub open spec fn spec_cell_pair(c: Cell, es: Seq<PalEntry>) -> ColorPair {
    match c.color {
        Some(k) => crate::palette::spec_get_color(es, k@),
        None => ColorPair { fg: crate::colors::Color::NoColor, bg: crate::colors::Color::NoColor },
    }
}

/// The number of colored cells in a row.
pub open spec fn row_colors(r: Seq<Cell>) -> nat
    decreases r.len(),
{
    if r.len() == 0 {
        0
    } else {
        row_colors(r.drop_last()) + if cell_colored(r.last()) {
            1nat
        } else {
            0nat
        }
    }
}

/// The number of colored cells in a grid.
pub open spec fn grid_colors(g: Seq<Seq<Cell>>) -> nat
    decreases g.len(),
{
    if g.len() == 0 {
        0
    } else {
        grid_colors(g.drop_last()) + row_colors(g.last())
    }
}

/// A row holds at most as many colored cells as cells.
pub proof fn lemma_row_colors_bound(r: Seq<Cell>)
    ensures
        row_colors(r) <= r.len(),
    decreases r.len(),
{
    if r.len() > 0 {
        lemma_row_colors_bound(r.drop_last());
    }
}

/// A grid of equal-width rows holds at most width-times-height colored cells.
pub proof fn lemma_grid_colors_bound(g: Seq<Seq<Cell>>, w: nat)
    requires
        forall|i: int| 0 <= i < g.len() ==> (#[trigger] g[i]).len() == w,
    ensures
        grid_colors(g) <= g.len() * w,
    decreases g.len(),
{
    if g.len() > 0 {
        assert(forall|i: int|
            0 <= i < g.drop_last().len() ==> (#[trigger] g.drop_last()[i]).len() == w);
        lemma_grid_colors_bound(g.drop_last(), w);
        lemma_row_colors_bound(g.last());
        assert(g.last().len() == w);
        assert((g.len() - 1) * w + w == g.len() * w) by (nonlinear_arith);
    }
}

/// Updating one cell changes the row's count by the presence difference.
pub proof fn lemma_row_colors_update(r: Seq<Cell>, i: int, c: Cell)
    requires
        0 <= i < r.len(),
    ensures
        row_colors(r.update(i, c)) + (if cell_colored(r[i]) {
            1nat
        } else {
            0nat
        }) == row_colors(r) + (if cell_colored(c) {
            1nat
        } else {
            0nat
        }),
    decreases r.len(),
{
    if i == r.len() - 1 {
        assert(r.update(i, c).drop_last() =~= r.drop_last());
        assert(r.update(i, c).last() == c);
        assert(r.last() == r[i]);
    } else {
        assert(r.update(i, c).drop_last() =~= r.drop_last().update(i, c));
        assert(r.update(i, c).last() == r.last());
        lemma_row_colors_update(r.drop_last(), i, c);
        assert(r.drop_last()[i] == r[i]);
    }
}

/// Updating one cell changes the grid's count by the presence difference.
pub proof fn lemma_grid_colors_update(g: Seq<Seq<Cell>>, row: int, col: int, c: Cell)
    requires
        0 <= row < g.len(),
        0 <= col < g[row].len(),
    ensures
        grid_colors(g.update(row, g[row].update(col, c))) + (if cell_colored(g[row][col]) {
            1nat
        } else {
            0nat
        }) == grid_colors(g) + (if cell_colored(c) {
            1nat
        } else {
            0nat
        }),
    decreases g.len(),
{
    let g2 = g.update(row, g[row].update(col, c));
    if row == g.len() - 1 {
        assert(g2.drop_last() =~= g.drop_last());
        assert(g2.last() == g[row].update(col, c));
        assert(g.last() == g[row]);
        lemma_row_colors_update(g[row], col, c);
    } else {
        assert(g2.drop_last() =~= g.drop_last().update(row, g[row].update(col, c)));
        assert(g2.last() == g.last());
        assert(g.drop_last()[row] == g[row]);
        lemma_grid_colors_update(g.drop_last(), row, col, c);
    }
}

/// The count of a row of one repeated cell.
pub proof fn lemma_row_colors_const(r: Seq<Cell>, c: Cell)
    requires
        forall|i: int| 0 <= i < r.len() ==> r[i] == c,
    ensures
        row_colors(r) == if cell_colored(c) {
            r.len()
        } else {
            0nat
        },
    decreases r.len(),
{
    if r.len() > 0 {
        lemma_row_colors_const(r.drop_last(), c);
    }
}

/// The count of a grid whose rows all count alike.
pub proof fn lemma_grid_colors_const(g: Seq<Seq<Cell>>, k: nat)
    requires
        forall|i: int| 0 <= i < g.len() ==> row_colors(#[trigger] g[i]) == k,
    ensures
        grid_colors(g) == g.len() * k,
    decreases g.len(),
{
    if g.len() > 0 {
        assert(forall|i: int|
            0 <= i < g.drop_last().len() ==> row_colors(#[trigger] g.drop_last()[i]) == k);
        lemma_grid_colors_const(g.drop_last(), k);
        assert(row_colors(g.last()) == k);
        assert((g.len() - 1) * k + k == g.len() * k) by (nonlinear_arith);
    }
}

/// A single frame: a rectangular grid of cells with a maintained count of
/// colored cells.
#[derive(Debug, Clone)]
pub struct Frame {
    pub(crate) color: usize,
    pub(crate) width: usize,
    pub(crate) rows: Vec<Vec<Cell>>,
}

impl Frame {
    /// The grid of cells, row by row.
    pub closed spec fn grid(&self) -> Seq<Seq<Cell>> {
        self.rows@.map_values(|r: Vec<Cell>| r@)
    }

    /// The width every row has.
    pub closed spec fn spec_width(&self) -> nat {
        self.width as nat
    }

    /// The height: the number of rows.
    pub open spec fn spec_height(&self) -> nat {
        self.grid().len()
    }

    /// The maintained count of colored cells.
    pub closed spec fn spec_colors(&self) -> nat {
        self.color as nat
    }

    /// The invariant: rows all have the frame's width, the counter equals a
    /// fresh recount, every cell is well formed, and the cell count fits the
    /// machine.
    pub open spec fn wf(&self) -> bool {
        &&& forall|r: int| 0 <= r < self.grid().len() ==> (#[trigger] self.grid()[r]).len() == self.spec_width()
        &&& self.spec_colors() == grid_colors(self.grid())
        &&& forall|r: int, c: int|
            0 <= r < self.grid().len() && 0 <= c < self.grid()[r].len() ==> cell_wf(
                #[trigger] self.grid()[r][c],
            )
        &&& self.spec_height() * self.spec_width() <= usize::MAX
    }

    /// Whether the frame contains any colored cell.
    pub fn color(&self) -> (r: bool)
        ensures
            r == (self.spec_colors() > 0),
    {
        self.color > 0
    }

    /// The width of the frame in cells.
    pub fn width(&self) -> (r: usize)
        ensures
            r == self.spec_width(),
    {
        self.width
    }

    /// The height of the frame in cells.
    pub fn height(&self) -> (r: usize)
        ensures
            r == self.spec_height(),
    {
        self.rows.len()
    }

    /// A new frame of the given dimensions filled with one cell.
    pub fn new(width: usize, height: usize, fill: Cell) -> (r: Frame)
        requires
            width * height <= usize::MAX,
            cell_wf(fill),
        ensures
            r.wf(),
            r.spec_width() == width,
            r.spec_height() == height,
            forall|i: int, j: int|
                0 <= i < height && 0 <= j < width ==> (#[trigger] r.grid()[i][j]) == fill,
            r.spec_colors() == if cell_colored(fill) {
                (width * height) as nat
            } else {
                0nat
            },
    {
        let mut row: Vec<Cell> = Vec::new();
        let mut j: usize = 0;
        while j < width
            invariant
                j <= width,
                row@.len() == j,
                forall|x: int| 0 <= x < j ==> row@[x] == fill,
            decreases width - j,
        {
            row.push(fill);
            j = j + 1;
        }
        let mut rows: Vec<Vec<Cell>> = Vec::new();
        let mut i: usize = 0;
        while i < height
            invariant
                i <= height,
                rows@.len() == i,
                row@.len() == width,
                forall|x: int| 0 <= x < width ==> row@[x] == fill,
                forall|x: int| 0 <= x < i ==> #[trigger] rows@[x]@ == row@,
            decreases height - i,
        {
            rows.push(row.clone());
            i = i + 1;
        }
        let color: usize = if fill.color() {
            proof {
                assert(width * height == height * width) by (nonlinear_arith);
            }
            width * height
        } else {
            0
        };
        let r = Frame { color, width, rows };
        proof {
            assert(r.grid().len() == height);
            assert(forall|x: int| 0 <= x < height ==> (#[trigger] r.grid()[x]) == row@);
            lemma_row_colors_const(row@, fill);
            lemma_grid_colors_const(
                r.grid(),
                if cell_colored(fill) {
                    width as nat
                } else {
                    0nat
                },
            );
            if !cell_colored(fill) {
                assert(r.grid().len() * 0nat == 0) by (nonlinear_arith);
            }
            assert(r.spec_height() * r.spec_width() <= usize::MAX) by (nonlinear_arith)
                requires
                    r.spec_height() == height,
                    r.spec_width() == width,
                    width * height <= usize::MAX,
            ;
        }
        r
    }

    /// The cell at a position, or the given default out of bounds.
    pub fn get(&self, column: usize, row: usize, default: Cell) -> (r: Cell)
        requires
            self.wf(),
        ensures
            r == if row < self.spec_height() && column < self.spec_width() {
                self.grid()[row as int][column as int]
            } else {
                default
            },
    {
        if column < self.width && row < self.rows.len() {
            self.rows[row][column]
        } else {
            default
        }
    }

    /// Sets the cell at a position, adjusting the color counter by the
    /// presence difference; out of bounds, nothing changes.
    pub fn set(&mut self, column: usize, row: usize, new: Cell)
        requires
            old(self).wf(),
            cell_wf(new),
        ensures
            final(self).wf(),
            final(self).spec_width() == old(self).spec_width(),
            final(self).grid() == if row < old(self).spec_height() && column < old(
                self,
            ).spec_width() {
                old(self).grid().update(
                    row as int,
                    old(self).grid()[row as int].update(column as int, new),
                )
            } else {
                old(self).grid()
            },
    {
        if column < self.width && row < self.rows.len() {
            let ghost g = self.grid();
            proof {
                assert(g[row as int] == self.rows@[row as int]@);
                assert(g[row as int].len() == self.spec_width());
            }
            let old_cell = self.rows[row][column];
            self.rows[row][column] = new;
            proof {
                assert(self.grid() =~= g.update(
                    row as int,
                    g[row as int].update(column as int, new),
                ));
                lemma_grid_colors_update(g, row as int, column as int, new);
                lemma_grid_colors_bound(self.grid(), self.spec_width());
            }
            self.adjust_color(old_cell, new);
        }
    }

    /// Adjusts the counter for one replaced cell.
    fn adjust_color(&mut self, old_cell: Cell, new: Cell)
        requires
            grid_colors(old(self).grid()) + (if cell_colored(old_cell) {
                1nat
            } else {
                0nat
            }) == old(self).color + (if cell_colored(new) {
                1nat
            } else {
                0nat
            }),
            grid_colors(old(self).grid()) <= usize::MAX,
        ensures
            final(self).color == grid_colors(old(self).grid()),
            final(self).rows == old(self).rows,
            final(self).width == old(self).width,
    {
        match (old_cell.color(), new.color()) {
            (true, false) => {
                self.color = self.color - 1;
            },
            (false, true) => {
                self.color = self.color + 1;
            },
            _ => (),
        }
    }
}

/// All rows of a grid have the given width.
pub open spec fn frame_shape_ok(g: Seq<Seq<Cell>>, w: nat) -> bool {
    forall|r: int| 0 <= r < g.len() ==> (#[trigger] g[r]).len() == w
}

/// Every cell of a grid is well formed.
pub open spec fn grid_cells_wf(g: Seq<Seq<Cell>>) -> bool {
    forall|r: int, c: int|
        0 <= r < g.len() && 0 <= c < g[r].len() ==> cell_wf(#[trigger] g[r][c])
}

/// Rows with pointwise equal color presence count alike.
pub proof fn lemma_row_colors_pointwise(a: Seq<Cell>, b: Seq<Cell>)
    requires
        a.len() == b.len(),
        forall|i: int| 0 <= i < a.len() ==> cell_colored(#[trigger] a[i]) == cell_colored(b[i]),
    ensures
        row_colors(a) == row_colors(b),
    decreases a.len(),
{
    if a.len() > 0 {
        lemma_row_colors_pointwise(a.drop_last(), b.drop_last());
        assert(cell_colored(a.last()) == cell_colored(b.last()));
    }
}

/// Grids with pointwise equal color presence count alike.
pub proof fn lemma_grid_colors_pointwise(a: Seq<Seq<Cell>>, b: Seq<Seq<Cell>>)
    requires
        a.len() == b.len(),
        forall|r: int| 0 <= r < a.len() ==> (#[trigger] a[r]).len() == b[r].len(),
        forall|r: int, c: int|
            0 <= r < a.len() && 0 <= c < a[r].len() ==> cell_colored(#[trigger] a[r][c])
                == cell_colored(b[r][c]),
    ensures
        grid_colors(a) == grid_colors(b),
    decreases a.len(),
{
    if a.len() > 0 {
        lemma_grid_colors_pointwise(a.drop_last(), b.drop_last());
        lemma_row_colors_pointwise(a.last(), b.last());
    }
}

/// One more row extends the count by the row's count.
pub proof fn lemma_grid_colors_prefix(g: Seq<Seq<Cell>>, i: int)
    requires
        0 <= i < g.len(),
    ensures
        grid_colors(g.subrange(0, i + 1)) == grid_colors(g.subrange(0, i)) + row_colors(g[i]),
{
    assert(g.subrange(0, i + 1).drop_last() =~= g.subrange(0, i));
    assert(g.subrange(0, i + 1).last() == g[i]);
}

/// One more cell extends the row count by its presence.
pub proof fn lemma_row_colors_prefix(r: Seq<Cell>, j: int)
    requires
        0 <= j < r.len(),
    ensures
        row_colors(r.subrange(0, j + 1)) == row_colors(r.subrange(0, j)) + (if cell_colored(
            r[j],
        ) {
            1nat
        } else {
            0nat
        }),
{
    assert(r.subrange(0, j + 1).drop_last() =~= r.subrange(0, j));
    assert(r.subrange(0, j + 1).last() == r[j]);
}

impl Frame {
    /// Recomputes the color counter from scratch.
    pub(crate) fn recalc_colors(&mut self)
        requires
            frame_shape_ok(old(self).grid(), old(self).spec_width()),
            old(self).spec_height() * old(self).spec_width() <= usize::MAX,
        ensures
            final(self).rows == old(self).rows,
            final(self).width == old(self).width,
            final(self).spec_colors() == grid_colors(final(self).grid()),
    {
        let ghost g = self.grid();
        let ghost w = self.spec_width();
        let ghost h = self.spec_height();
        let mut total: usize = 0;
        let mut r: usize = 0;
        proof {
            assert(g.subrange(0, 0) =~= Seq::<Seq<Cell>>::empty());
        }
        while r < self.rows.len()
            invariant
                r <= self.rows.len(),
                self == old(self),
                g == self.grid(),
                w == self.spec_width(),
                h == self.spec_height(),
                frame_shape_ok(g, w),
                h * w <= usize::MAX,
                total == grid_colors(g.subrange(0, r as int)),
                total <= r * w,
            decreases self.rows.len() - r,
        {
            proof {
                assert(g[r as int] == self.rows@[r as int]@);
            }
            let row = &self.rows[r];
            let mut j: usize = 0;
            let row_total_start = total;
            proof {
                assert(g[r as int].subrange(0, 0) =~= Seq::<Cell>::empty());
            }
            while j < row.len()
                invariant
                    j <= row.len(),
                    row@ == g[r as int],
                    r < g.len(),
                    frame_shape_ok(g, w),
                    h == g.len(),
                    h * w <= usize::MAX,
                    row_total_start <= (r as int) * w,
                    row_total_start == grid_colors(g.subrange(0, r as int)),
                    total == row_total_start + row_colors(g[r as int].subrange(0, j as int)),
                    total <= row_total_start + j,
                decreases row.len() - j,
            {
                proof {
                    lemma_row_colors_prefix(g[r as int], j as int);
                    assert((r as int) * w + w <= h * w) by (nonlinear_arith)
                        requires
                            0 <= r < h,
                            w >= 0,
                    ;
                    assert(g[r as int].len() == w);
                }
                if row[j].color() {
                    total = total + 1;
                }
                j = j + 1;
            }
            proof {
                assert(g[r as int].subrange(0, g[r as int].len() as int) =~= g[r as int]);
                lemma_grid_colors_prefix(g, r as int);
                lemma_row_colors_bound(g[r as int]);
                assert((r as int) * w + w == (r + 1) as int * w) by (nonlinear_arith);
            }
            r = r + 1;
        }
        proof {
            assert(g.subrange(0, g.len() as int) =~= g);
        }
        self.color = total;
    }

    /// Drops every reference to one palette character from the cells.
    pub fn remove_color(&mut self, color: Char)
        requires
            old(self).wf(),
        ensures
            final(self).wf(),
            final(self).spec_width() == old(self).spec_width(),
            final(self).spec_height() == old(self).spec_height(),
            forall|r: int, c: int|
                0 <= r < old(self).grid().len() && 0 <= c < old(self).grid()[r].len() ==> (
                #[trigger] final(self).grid()[r][c]) == cell_remove_color(
                    old(self).grid()[r][c],
                    color@,
                ),
    {
        let ghost g0 = self.grid();
        let h = self.rows.len();
        let mut r: usize = 0;
        while r < h
            invariant
                r <= h,
                h == self.grid().len(),
                h == g0.len(),
                self.width == old(self).width,
                self.color == old(self).color,
                frame_shape_ok(self.grid(), self.spec_width()),
                frame_shape_ok(g0, self.spec_width()),
                grid_cells_wf(self.grid()),
                self.spec_height() * self.spec_width() <= usize::MAX,
                forall|i: int, c: int|
                    0 <= i < r && 0 <= c < g0[i].len() ==> (#[trigger] self.grid()[i][c])
                        == cell_remove_color(g0[i][c], color@),
                forall|i: int, c: int|
                    r <= i < h && 0 <= c < g0[i].len() ==> (#[trigger] self.grid()[i][c])
                        == g0[i][c],
            decreases h - r,
        {
            let w = self.width;
            let mut c: usize = 0;
            while c < w
                invariant
                    c <= w,
                    r < h,
                    h == self.grid().len(),
                    h == g0.len(),
                    w == self.width,
                    self.color == old(self).color,
                    frame_shape_ok(self.grid(), self.spec_width()),
                    frame_shape_ok(g0, self.spec_width()),
                    grid_cells_wf(self.grid()),
                    self.spec_height() * self.spec_width() <= usize::MAX,
                    forall|i: int, x: int|
                        0 <= i < r && 0 <= x < g0[i].len() ==> (#[trigger] self.grid()[i][x])
                            == cell_remove_color(g0[i][x], color@),
                    forall|x: int|
                        0 <= x < c ==> (#[trigger] self.grid()[r as int][x]) == cell_remove_color(
                            g0[r as int][x],
                            color@,
                        ),
                    forall|x: int|
                        c <= x < w ==> (#[trigger] self.grid()[r as int][x]) == g0[r as int][x],
                    forall|i: int, x: int|
                        r < i < h && 0 <= x < g0[i].len() ==> (#[trigger] self.grid()[i][x])
                            == g0[i][x],
                decreases w - c,
            {
                let ghost gc = self.grid();
                proof {
                    assert(gc[r as int] == self.rows@[r as int]@);
                }
                let cell = self.rows[r][c];
                let drop = match cell.color {
                    Some(k) => k.to_char() == color.to_char(),
                    None => false,
                };
                if drop {
                    self.rows[r][c] = Cell { text: cell.text, color: None };
                    proof {
                        assert(self.grid() =~= gc.update(
                            r as int,
                            gc[r as int].update(c as int, Cell { text: cell.text, color: None }),
                        ));
                        match cell.color {
                            Some(k) => {
                                if k@ == color@ {
                                    crate::chars::lemma_char_view_eq(k, color);
                                }
                            },
                            None => {},
                        }
                    }
                }
                proof {
                    match cell.color {
                        Some(k) => {
                            if k@ == color@ {
                                crate::chars::lemma_char_view_eq(k, color);
                            }
                        },
                        None => {},
                    }
                }
                c = c + 1;
            }
            r = r + 1;
        }
        self.recalc_colors();
    }
}

/// Whether a value occurs in a list of indices.
pub open spec fn in_list(l: Seq<usize>, x: int) -> bool {
    exists|k: int| 0 <= k < l.len() && l[k] == x
}

/// Whether a grid holds a given cell.
pub open spec fn grid_contains(g: Seq<Seq<Cell>>, cell: Cell) -> bool {
    exists|r: int, c: int| 0 <= r < g.len() && 0 <= c < g[r].len() && g[r][c] == cell
}

/// Whether a grid holds a given text character.
pub open spec fn grid_contains_text(g: Seq<Seq<Cell>>, ch: char) -> bool {
    exists|r: int, c: int| 0 <= r < g.len() && 0 <= c < g[r].len() && g[r][c].text@ == ch
}

/// Whether a grid holds a given color reference.
pub open spec fn grid_contains_color(g: Seq<Seq<Cell>>, k: char) -> bool {
    exists|r: int, c: int|
        0 <= r < g.len() && 0 <= c < g[r].len() && ((#[trigger] g[r][c]).color matches Some(x)
            && x@ == k)
}

/// An exact copy of a row.
fn copy_row(row: &Vec<Cell>) -> (out: Vec<Cell>)
    ensures
        out@ == row@,
{
    let mut out: Vec<Cell> = Vec::new();
    let mut i: usize = 0;
    while i < row.len()
        invariant
            i <= row.len(),
            out@ == row@.subrange(0, i as int),
        decreases row.len() - i,
    {
        out.push(row[i]);
        proof {
            assert(row@.subrange(0, i as int).push(row@[i as int]) =~= row@.subrange(0, i + 1));
        }
        i = i + 1;
    }
    proof {
        assert(row@.subrange(0, row@.len() as int) =~= row@);
    }
    out
}

/// A row of one repeated cell.
fn fill_row(width: usize, fill: Cell) -> (out: Vec<Cell>)
    ensures
        out@.len() == width,
        forall|c: int| 0 <= c < width ==> out@[c] == fill,
{
    let mut out: Vec<Cell> = Vec::new();
    let mut i: usize = 0;
    while i < width
        invariant
            i <= width,
            out@.len() == i,
            forall|c: int| 0 <= c < i ==> out@[c] == fill,
        decreases width - i,
    {
        out.push(fill);
        i = i + 1;
    }
    out
}

impl Frame {
    /// Fills the whole frame with one cell.
    pub fn fill(&mut self, fill: Cell)
        requires
            old(self).wf(),
            cell_wf(fill),
        ensures
            final(self).wf(),
            final(self).spec_width() == old(self).spec_width(),
            final(self).spec_height() == old(self).spec_height(),
            forall|r: int, c: int|
                0 <= r < final(self).grid().len() && 0 <= c < final(self).grid()[r].len() ==> (
                #[trigger] final(self).grid()[r][c]) == fill,
    {
        let w = self.width;
        let h = self.rows.len();
        proof {
            let hw = old(self).spec_height() * old(self).spec_width();
            assert(w * h <= hw) by (nonlinear_arith)
                requires
                    hw == h * w,
            ;
        }
        *self = Frame::new(w, h, fill);
    }

    /// Sets every cell's text, keeping the colors.
    pub fn fill_text(&mut self, fill: Char)
        requires
            old(self).wf(),
            fill.wf(),
        ensures
            final(self).wf(),
            final(self).spec_width() == old(self).spec_width(),
            final(self).spec_height() == old(self).spec_height(),
            forall|r: int, c: int|
                0 <= r < old(self).grid().len() && 0 <= c < old(self).grid()[r].len() ==> (
                #[trigger] final(self).grid()[r][c]) == (Cell {
                    text: fill,
                    color: old(self).grid()[r][c].color,
                }),
    {
        let h = self.rows.len();
        let w = self.width;
        let ghost g0 = self.grid();
        let mut r: usize = 0;
        while r < h
            invariant
                r <= h,
                h == self.grid().len(),
                h == g0.len(),
                w == self.width,
                self.color == old(self).color,
                frame_shape_ok(g0, w as nat),
                frame_shape_ok(self.grid(), w as nat),
                grid_cells_wf(self.grid()),
                self.spec_height() * self.spec_width() <= usize::MAX,
                fill.wf(),
                forall|i: int, c: int|
                    0 <= i < r && 0 <= c < g0[i].len() ==> (#[trigger] self.grid()[i][c]) == (Cell {
                        text: fill,
                        color: g0[i][c].color,
                    }),
                forall|i: int, c: int|
                    r <= i < h && 0 <= c < g0[i].len() ==> (#[trigger] self.grid()[i][c])
                        == g0[i][c],
            decreases h - r,
        {
            let mut c: usize = 0;
            while c < w
                invariant
                    c <= w,
                    r < h,
                    h == self.grid().len(),
                    h == g0.len(),
                    w == self.width,
                    self.color == old(self).color,
                    frame_shape_ok(g0, w as nat),
                    frame_shape_ok(self.grid(), w as nat),
                    grid_cells_wf(self.grid()),
                    self.spec_height() * self.spec_width() <= usize::MAX,
                    fill.wf(),
                    forall|i: int, x: int|
                        0 <= i < r && 0 <= x < g0[i].len() ==> (#[trigger] self.grid()[i][x]) == (
                        Cell { text: fill, color: g0[i][x].color }),
                    forall|x: int|
                        0 <= x < c ==> (#[trigger] self.grid()[r as int][x]) == (Cell {
                            text: fill,
                            color: g0[r as int][x].color,
                        }),
                    forall|x: int|
                        c <= x < w ==> (#[trigger] self.grid()[r as int][x]) == g0[r as int][x],
                    forall|i: int, x: int|
                        r < i < h && 0 <= x < g0[i].len() ==> (#[trigger] self.grid()[i][x])
                            == g0[i][x],
                decreases w - c,
            {
                let ghost gc = self.grid();
                proof {
                    assert(gc[r as int] == self.rows@[r as int]@);
                }
                let cell = self.rows[r][c];
                self.rows[r][c] = Cell { text: fill, color: cell.color };
                proof {
                    assert(self.grid() =~= gc.update(
                        r as int,
                        gc[r as int].update(c as int, Cell { text: fill, color: cell.color }),
                    ));
                }
                c = c + 1;
            }
            r = r + 1;
        }
        proof {
            lemma_grid_colors_pointwise(self.grid(), g0);
        }
    }

    /// Sets every cell's color reference, keeping the text.
    pub fn fill_color(&mut self, fill: Option<Char>)
        requires
            old(self).wf(),
            fill matches Some(k) ==> k.wf(),
        ensures
            final(self).wf(),
            final(self).spec_width() == old(self).spec_width(),
            final(self).spec_height() == old(self).spec_height(),
            forall|r: int, c: int|
                0 <= r < old(self).grid().len() && 0 <= c < old(self).grid()[r].len() ==> (
                #[trigger] final(self).grid()[r][c]) == (Cell {
                    text: old(self).grid()[r][c].text,
                    color: fill,
                }),
    {
        let h = self.rows.len();
        let w = self.width;
        let ghost g0 = self.grid();
        let mut r: usize = 0;
        while r < h
            invariant
                r <= h,
                h == self.grid().len(),
                h == g0.len(),
                w == self.width,
                frame_shape_ok(g0, w as nat),
                frame_shape_ok(self.grid(), w as nat),
                grid_cells_wf(self.grid()),
                self.spec_height() * self.spec_width() <= usize::MAX,
                fill matches Some(k) ==> k.wf(),
                forall|i: int, c: int|
                    0 <= i < r && 0 <= c < g0[i].len() ==> (#[trigger] self.grid()[i][c]) == (Cell {
                        text: g0[i][c].text,
                        color: fill,
                    }),
                forall|i: int, c: int|
                    r <= i < h && 0 <= c < g0[i].len() ==> (#[trigger] self.grid()[i][c])
                        == g0[i][c],
            decreases h - r,
        {
            let mut c: usize = 0;
            while c < w
                invariant
                    c <= w,
                    r < h,
                    h == self.grid().len(),
                    h == g0.len(),
                    w == self.width,
                    frame_shape_ok(g0, w as nat),
                    frame_shape_ok(self.grid(), w as nat),
                    grid_cells_wf(self.grid()),
                    self.spec_height() * self.spec_width() <= usize::MAX,
                    fill matches Some(k) ==> k.wf(),
                    forall|i: int, x: int|
                        0 <= i < r && 0 <= x < g0[i].len() ==> (#[trigger] self.grid()[i][x]) == (
                        Cell { text: g0[i][x].text, color: fill }),
                    forall|x: int|
                        0 <= x < c ==> (#[trigger] self.grid()[r as int][x]) == (Cell {
                            text: g0[r as int][x].text,
                            color: fill,
                        }),
                    forall|x: int|
                        c <= x < w ==> (#[trigger] self.grid()[r as int][x]) == g0[r as int][x],
                    forall|i: int, x: int|
                        r < i < h && 0 <= x < g0[i].len() ==> (#[trigger] self.grid()[i][x])
                            == g0[i][x],
                decreases w - c,
            {
                let ghost gc = self.grid();
                proof {
                    assert(gc[r as int] == self.rows@[r as int]@);
                }
                let cell = self.rows[r][c];
                self.rows[r][c] = Cell { text: cell.text, color: fill };
                proof {
                    assert(self.grid() =~= gc.update(
                        r as int,
                        gc[r as int].update(c as int, Cell { text: cell.text, color: fill }),
                    ));
                }
                c = c + 1;
            }
            r = r + 1;
        }
        self.recalc_colors();
    }

    /// Clears the frame: all text becomes spaces; when any cell was colored
    /// every cell gets the `_` color mark, else no cell keeps a color.
    pub fn clean(&mut self)
        requires
            old(self).wf(),
        ensures
            final(self).wf(),
            final(self).spec_width() == old(self).spec_width(),
            final(self).spec_height() == old(self).spec_height(),
            forall|r: int, c: int|
                0 <= r < final(self).grid().len() && 0 <= c < final(self).grid()[r].len() ==> (
                #[trigger] final(self).grid()[r][c]) == (Cell {
                    text: crate::chars::spec_char(' '),
                    color: if old(self).spec_colors() > 0 {
                        Some(crate::chars::spec_char('_'))
                    } else {
                        None
                    },
                }),
    {
        let color: Option<Char> = if self.color() {
            Some(Char::underscore())
        } else {
            None
        };
        let sp = Char::space();
        proof {
            crate::chars::lemma_spec_char(' ');
            crate::chars::lemma_spec_char('_');
            crate::chars::lemma_char_view_eq(sp, crate::chars::spec_char(' '));
            match color {
                Some(k) => {
                    crate::chars::lemma_char_view_eq(k, crate::chars::spec_char('_'));
                },
                None => {},
            }
        }
        self.fill(Cell { text: sp, color });
    }

    /// Whether the frame holds the given cell.
    pub fn contains(&self, cell: Cell) -> (r: bool)
        requires
            self.wf(),
        ensures
            r == grid_contains(self.grid(), cell),
    {
        let h = self.rows.len();
        let mut i: usize = 0;
        while i < h
            invariant
                i <= h,
                h == self.grid().len(),
                self.wf(),
                forall|a: int, b: int|
                    0 <= a < i && 0 <= b < self.grid()[a].len() ==> (#[trigger] self.grid()[a][b])
                        != cell,
            decreases h - i,
        {
            proof {
                assert(self.grid()[i as int] == self.rows@[i as int]@);
            }
            let w = self.rows[i].len();
            let mut j: usize = 0;
            while j < w
                invariant
                    j <= w,
                    i < h,
                    h == self.grid().len(),
                    self.wf(),
                    w == self.grid()[i as int].len(),
                    forall|a: int, b: int|
                        0 <= a < i && 0 <= b < self.grid()[a].len() ==> (
                        #[trigger] self.grid()[a][b]) != cell,
                    forall|b: int| 0 <= b < j ==> (#[trigger] self.grid()[i as int][b]) != cell,
                decreases w - j,
            {
                proof {
                    assert(self.grid()[i as int] == self.rows@[i as int]@);
                }
                if self.rows[i][j].same(&cell) {
                    return true;
                }
                j = j + 1;
            }
            i = i + 1;
        }
        false
    }

    /// Whether the frame holds the given text character.
    pub fn contains_text(&self, ch: Char) -> (r: bool)
        requires
            self.wf(),
        ensures
            r == grid_contains_text(self.grid(), ch@),
    {
        let h = self.rows.len();
        let mut i: usize = 0;
        while i < h
            invariant
                i <= h,
                h == self.grid().len(),
                self.wf(),
                forall|a: int, b: int|
                    0 <= a < i && 0 <= b < self.grid()[a].len() ==> (
                    #[trigger] self.grid()[a][b]).text@ != ch@,
            decreases h - i,
        {
            proof {
                assert(self.grid()[i as int] == self.rows@[i as int]@);
            }
            let w = self.rows[i].len();
            let mut j: usize = 0;
            while j < w
                invariant
                    j <= w,
                    i < h,
                    h == self.grid().len(),
                    self.wf(),
                    w == self.grid()[i as int].len(),
                    forall|a: int, b: int|
                        0 <= a < i && 0 <= b < self.grid()[a].len() ==> (
                        #[trigger] self.grid()[a][b]).text@ != ch@,
                    forall|b: int|
                        0 <= b < j ==> (#[trigger] self.grid()[i as int][b]).text@ != ch@,
                decreases w - j,
            {
                proof {
                    assert(self.grid()[i as int] == self.rows@[i as int]@);
                }
                if self.rows[i][j].text.to_char() == ch.to_char() {
                    return true;
                }
                j = j + 1;
            }
            i = i + 1;
        }
        false
    }

    /// Whether the frame holds the given color reference.
    pub fn contains_color(&self, col: Char) -> (r: bool)
        requires
            self.wf(),
        ensures
            r == grid_contains_color(self.grid(), col@),
    {
        let h = self.rows.len();
        let mut i: usize = 0;
        while i < h
            invariant
                i <= h,
                h == self.grid().len(),
                self.wf(),
                forall|a: int, b: int|
                    0 <= a < i && 0 <= b < self.grid()[a].len() ==> !((
                    #[trigger] self.grid()[a][b]).color matches Some(x) && x@ == col@),
            decreases h - i,
        {
            proof {
                assert(self.grid()[i as int] == self.rows@[i as int]@);
            }
            let w = self.rows[i].len();
            let mut j: usize = 0;
            while j < w
                invariant
                    j <= w,
                    i < h,
                    h == self.grid().len(),
                    self.wf(),
                    w == self.grid()[i as int].len(),
                    forall|a: int, b: int|
                        0 <= a < i && 0 <= b < self.grid()[a].len() ==> !((
                        #[trigger] self.grid()[a][b]).color matches Some(x) && x@ == col@),
                    forall|b: int|
                        0 <= b < j ==> !((#[trigger] self.grid()[i as int][b]).color matches Some(
                            x,
                        ) && x@ == col@),
                decreases w - j,
            {
                proof {
                    assert(self.grid()[i as int] == self.rows@[i as int]@);
                }
                let hit = match self.rows[i][j].color {
                    Some(x) => x.to_char() == col.to_char(),
                    None => false,
                };
                if hit {
                    return true;
                }
                j = j + 1;
            }
            i = i + 1;
        }
        false
    }
}

/// A row shifted right: vacated positions get the fill; a shift wider than
/// the row fills it whole.
pub open spec fn spec_shift_right_row(row: Seq<Cell>, cols: int, fill: Cell) -> Seq<Cell> {
    Seq::new(
        row.len(),
        |i: int|
            if cols <= row.len() && i >= cols {
                row[i - cols]
            } else {
                fill
            },
    )
}

/// A row shifted left: vacated positions get the fill; a shift wider than
/// the row fills it whole.
pub open spec fn spec_shift_left_row(row: Seq<Cell>, cols: int, fill: Cell) -> Seq<Cell> {
    Seq::new(
        row.len(),
        |i: int|
            if cols <= row.len() && i < row.len() - cols {
                row[i + cols]
            } else {
                fill
            },
    )
}

/// A row resized: truncated, or padded at the end with the fill.
pub open spec fn spec_resize_row(row: Seq<Cell>, width: int, fill: Cell) -> Seq<Cell> {
    Seq::new(
        width as nat,
        |i: int|
            if i < row.len() {
                row[i]
            } else {
                fill
            },
    )
}

/// A shifted row, built cell by cell.
fn shift_row(row: &Vec<Cell>, cols: usize, fill: Cell, right: bool) -> (out: Vec<Cell>)
    ensures
        right ==> out@ == spec_shift_right_row(row@, cols as int, fill),
        !right ==> out@ == spec_shift_left_row(row@, cols as int, fill),
{
    let w = row.len();
    let mut out: Vec<Cell> = Vec::new();
    let mut i: usize = 0;
    while i < w
        invariant
            i <= w,
            w == row@.len(),
            out@.len() == i,
            forall|x: int|
                0 <= x < i ==> out@[x] == (if right {
                    spec_shift_right_row(row@, cols as int, fill)
                } else {
                    spec_shift_left_row(row@, cols as int, fill)
                })[x],
        decreases w - i,
    {
        let c: Cell = if right {
            if cols <= w && i >= cols {
                row[i - cols]
            } else {
                fill
            }
        } else {
            if cols <= w && i < w - cols {
                row[i + cols]
            } else {
                fill
            }
        };
        out.push(c);
        i = i + 1;
    }
    proof {
        if right {
            assert(out@ =~= spec_shift_right_row(row@, cols as int, fill));
        } else {
            assert(out@ =~= spec_shift_left_row(row@, cols as int, fill));
        }
    }
    out
}

/// A resized row, built cell by cell.
fn resize_row(row: &Vec<Cell>, width: usize, fill: Cell) -> (out: Vec<Cell>)
    ensures
        out@ == spec_resize_row(row@, width as int, fill),
{
    let mut out: Vec<Cell> = Vec::new();
    let mut i: usize = 0;
    while i < width
        invariant
            i <= width,
            out@.len() == i,
            forall|x: int| 0 <= x < i ==> out@[x] == spec_resize_row(row@, width as int, fill)[x],
        decreases width - i,
    {
        let c: Cell = if i < row.len() {
            row[i]
        } else {
            fill
        };
        out.push(c);
        i = i + 1;
    }
    proof {
        assert(out@ =~= spec_resize_row(row@, width as int, fill));
    }
    out
}

impl Frame {
    /// Shifts all rows right, filling the vacated left edge.
    pub fn shift_right(&mut self, cols: usize, fill: Cell)
        requires
            old(self).wf(),
            cell_wf(fill),
        ensures
            final(self).wf(),
            final(self).spec_width() == old(self).spec_width(),
            final(self).spec_height() == old(self).spec_height(),
            forall|r: int|
                0 <= r < old(self).grid().len() ==> (#[trigger] final(self).grid()[r])
                    == spec_shift_right_row(old(self).grid()[r], cols as int, fill),
    {
        self.shift_rows(cols, fill, true);
    }

    /// Shifts all rows left, filling the vacated right edge.
    pub fn shift_left(&mut self, cols: usize, fill: Cell)
        requires
            old(self).wf(),
            cell_wf(fill),
        ensures
            final(self).wf(),
            final(self).spec_width() == old(self).spec_width(),
            final(self).spec_height() == old(self).spec_height(),
            forall|r: int|
                0 <= r < old(self).grid().len() ==> (#[trigger] final(self).grid()[r])
                    == spec_shift_left_row(old(self).grid()[r], cols as int, fill),
    {
        self.shift_rows(cols, fill, false);
    }

    /// Shifts every row one way.
    fn shift_rows(&mut self, cols: usize, fill: Cell, right: bool)
        requires
            old(self).wf(),
            cell_wf(fill),
        ensures
            final(self).wf(),
            final(self).spec_width() == old(self).spec_width(),
            final(self).spec_height() == old(self).spec_height(),
            forall|r: int|
                0 <= r < old(self).grid().len() ==> (#[trigger] final(self).grid()[r]) == (if right {
                    spec_shift_right_row(old(self).grid()[r], cols as int, fill)
                } else {
                    spec_shift_left_row(old(self).grid()[r], cols as int, fill)
                }),
    {
        let ghost g0 = self.grid();
        let h = self.rows.len();
        let mut rows: Vec<Vec<Cell>> = Vec::new();
        let mut r: usize = 0;
        while r < h
            invariant
                r <= h,
                h == self.rows@.len(),
                self == old(self),
                g0 == self.grid(),
                rows@.len() == r,
                cell_wf(fill),
                old(self).wf(),
                forall|i: int|
                    0 <= i < r ==> #[trigger] rows@[i]@ == (if right {
                        spec_shift_right_row(g0[i], cols as int, fill)
                    } else {
                        spec_shift_left_row(g0[i], cols as int, fill)
                    }),
            decreases h - r,
        {
            proof {
                assert(g0[r as int] == self.rows@[r as int]@);
            }
            let nr = shift_row(&self.rows[r], cols, fill, right);
            rows.push(nr);
            r = r + 1;
        }
        self.rows = rows;
        proof {
            assert(forall|i: int|
                0 <= i < h ==> (#[trigger] self.grid()[i]) == self.rows@[i]@);
            assert(frame_shape_ok(self.grid(), self.spec_width()));
        }
        self.recalc_colors();
    }

    /// Shifts all rows down, filling the vacated top rows.
    pub fn shift_down(&mut self, count: usize, fill: Cell)
        requires
            old(self).wf(),
            cell_wf(fill),
        ensures
            final(self).wf(),
            final(self).spec_width() == old(self).spec_width(),
            final(self).spec_height() == old(self).spec_height(),
            forall|r: int, c: int|
                0 <= r < old(self).grid().len() && 0 <= c < old(self).spec_width() ==> (
                #[trigger] final(self).grid()[r][c]) == (if count <= old(self).grid().len() && r
                    >= count {
                    old(self).grid()[r - count][c]
                } else {
                    fill
                }),
    {
        self.shift_frames_vertical(count, fill, true);
    }

    /// Shifts all rows up, filling the vacated bottom rows.
    pub fn shift_up(&mut self, count: usize, fill: Cell)
        requires
            old(self).wf(),
            cell_wf(fill),
        ensures
            final(self).wf(),
            final(self).spec_width() == old(self).spec_width(),
            final(self).spec_height() == old(self).spec_height(),
            forall|r: int, c: int|
                0 <= r < old(self).grid().len() && 0 <= c < old(self).spec_width() ==> (
                #[trigger] final(self).grid()[r][c]) == (if count <= old(self).grid().len() && r
                    < old(self).grid().len() - count {
                    old(self).grid()[r + count][c]
                } else {
                    fill
                }),
    {
        self.shift_frames_vertical(count, fill, false);
    }

    /// Shifts the rows one way vertically.
    fn shift_frames_vertical(&mut self, count: usize, fill: Cell, down: bool)
        requires
            old(self).wf(),
            cell_wf(fill),
        ensures
            final(self).wf(),
            final(self).spec_width() == old(self).spec_width(),
            final(self).spec_height() == old(self).spec_height(),
            forall|r: int, c: int|
                0 <= r < old(self).grid().len() && 0 <= c < old(self).spec_width() ==> (
                #[trigger] final(self).grid()[r][c]) == (if down {
                    if count <= old(self).grid().len() && r >= count {
                        old(self).grid()[r - count][c]
                    } else {
                        fill
                    }
                } else {
                    if count <= old(self).grid().len() && r < old(self).grid().len() - count {
                        old(self).grid()[r + count][c]
                    } else {
                        fill
                    }
                }),
    {
        let ghost g0 = self.grid();
        let h = self.rows.len();
        let w = self.width;
        let mut rows: Vec<Vec<Cell>> = Vec::new();
        let mut r: usize = 0;
        while r < h
            invariant
                r <= h,
                h == self.rows@.len(),
                w == self.width,
                self == old(self),
                g0 == self.grid(),
                rows@.len() == r,
                cell_wf(fill),
                old(self).wf(),
                forall|i: int|
                    0 <= i < r ==> (#[trigger] rows@[i]@).len() == w,
                forall|i: int, c: int|
                    0 <= i < r && 0 <= c < w ==> #[trigger] rows@[i]@[c] == (if down {
                        if count <= h && i >= count {
                            g0[i - count][c]
                        } else {
                            fill
                        }
                    } else {
                        if count <= h && i < h - count {
                            g0[i + count][c]
                        } else {
                            fill
                        }
                    }),
            decreases h - r,
        {
            let take: bool = if down {
                count <= h && r >= count
            } else {
                count <= h && r < h - count
            };
            let nr: Vec<Cell> = if take {
                let src = if down {
                    r - count
                } else {
                    r + count
                };
                proof {
                    assert(g0[src as int] == self.rows@[src as int]@);
                }
                copy_row(&self.rows[src])
            } else {
                fill_row(w, fill)
            };
            rows.push(nr);
            r = r + 1;
        }
        self.rows = rows;
        proof {
            assert(forall|i: int|
                0 <= i < h ==> (#[trigger] self.grid()[i]) == self.rows@[i]@);
            assert(frame_shape_ok(self.grid(), self.spec_width()));
        }
        self.recalc_colors();
    }

    /// Resizes the width of every row exactly, truncating or padding.
    pub fn resize_width(&mut self, width: usize, fill: Cell)
        requires
            old(self).wf(),
            cell_wf(fill),
            old(self).spec_height() * width <= usize::MAX,
        ensures
            final(self).wf(),
            final(self).spec_width() == width,
            final(self).spec_height() == old(self).spec_height(),
            forall|r: int|
                0 <= r < old(self).grid().len() ==> (#[trigger] final(self).grid()[r])
                    == spec_resize_row(old(self).grid()[r], width as int, fill),
    {
        let ghost g0 = self.grid();
        let h = self.rows.len();
        let mut rows: Vec<Vec<Cell>> = Vec::new();
        let mut r: usize = 0;
        while r < h
            invariant
                r <= h,
                h == self.rows@.len(),
                self == old(self),
                g0 == self.grid(),
                rows@.len() == r,
                cell_wf(fill),
                old(self).wf(),
                forall|i: int|
                    0 <= i < r ==> #[trigger] rows@[i]@ == spec_resize_row(
                        g0[i],
                        width as int,
                        fill,
                    ),
            decreases h - r,
        {
            proof {
                assert(g0[r as int] == self.rows@[r as int]@);
            }
            let nr = resize_row(&self.rows[r], width, fill);
            rows.push(nr);
            r = r + 1;
        }
        self.rows = rows;
        self.width = width;
        proof {
            assert(forall|i: int|
                0 <= i < h ==> (#[trigger] self.grid()[i]) == self.rows@[i]@);
            assert(frame_shape_ok(self.grid(), self.spec_width()));
        }
        self.recalc_colors();
    }

    /// Resizes the height exactly, truncating or padding with fill rows.
    pub fn resize_height(&mut self, height: usize, fill: Cell)
        requires
            old(self).wf(),
            cell_wf(fill),
            height * old(self).spec_width() <= usize::MAX,
        ensures
            final(self).wf(),
            final(self).spec_width() == old(self).spec_width(),
            final(self).spec_height() == height,
            forall|r: int|
                0 <= r < height && r < old(self).grid().len() ==> #[trigger] final(self).grid()[r]
                    == old(self).grid()[r],
            forall|r: int, c: int|
                old(self).grid().len() <= r < height && 0 <= c < old(self).spec_width() ==> (
                #[trigger] final(self).grid()[r][c]) == fill,
    {
        let ghost g0 = self.grid();
        let h = self.rows.len();
        let w = self.width;
        let mut rows: Vec<Vec<Cell>> = Vec::new();
        let mut r: usize = 0;
        while r < height
            invariant
                r <= height,
                h == self.rows@.len(),
                w == self.width,
                self == old(self),
                g0 == self.grid(),
                rows@.len() == r,
                cell_wf(fill),
                old(self).wf(),
                forall|i: int| 0 <= i < r && i < h ==> #[trigger] rows@[i]@ == g0[i],
                forall|i: int|
                    0 <= i < r ==> (#[trigger] rows@[i]@).len() == w,
                forall|i: int, c: int|
                    h <= i < r && 0 <= c < w ==> #[trigger] rows@[i]@[c] == fill,
            decreases height - r,
        {
            let nr: Vec<Cell> = if r < h {
                proof {
                    assert(g0[r as int] == self.rows@[r as int]@);
                }
                copy_row(&self.rows[r])
            } else {
                fill_row(w, fill)
            };
            rows.push(nr);
            r = r + 1;
        }
        self.rows = rows;
        proof {
            assert(forall|i: int|
                0 <= i < height ==> (#[trigger] self.grid()[i]) == self.rows@[i]@);
            assert(frame_shape_ok(self.grid(), self.spec_width()));
        }
        self.recalc_colors();
    }

    /// Resizes to exact dimensions: kept positions keep their cells, new
    /// positions get the fill.
    pub fn resize(&mut self, width: usize, height: usize, fill: Cell)
        requires
            old(self).wf(),
            cell_wf(fill),
            old(self).spec_height() * width <= usize::MAX,
            height * width <= usize::MAX,
        ensures
            final(self).wf(),
            final(self).spec_width() == width,
            final(self).spec_height() == height,
            forall|r: int, c: int|
                0 <= r < height && 0 <= c < width ==> (#[trigger] final(self).grid()[r][c]) == (if r
                    < old(self).spec_height() && c < old(self).spec_width() {
                    old(self).grid()[r][c]
                } else {
                    fill
                }),
    {
        self.resize_width(width, fill);
        self.resize_height(height, fill);
    }

    /// Grows the width to at least the given value, never shrinking.
    pub fn adjust_width(&mut self, width: usize, fill: Cell)
        requires
            old(self).wf(),
            cell_wf(fill),
            old(self).spec_height() * width <= usize::MAX,
        ensures
            final(self).wf(),
            final(self).spec_width() == if width > old(self).spec_width() {
                width as nat
            } else {
                old(self).spec_width()
            },
            final(self).spec_height() == old(self).spec_height(),
            forall|r: int, c: int|
                0 <= r < final(self).spec_height() && 0 <= c < final(self).spec_width() ==> (
                #[trigger] final(self).grid()[r][c]) == (if c < old(self).spec_width() {
                    old(self).grid()[r][c]
                } else {
                    fill
                }),
    {
        if width > self.width {
            self.resize_width(width, fill);
        }
    }

    /// Grows the height to at least the given value, never shrinking.
    pub fn adjust_height(&mut self, height: usize, fill: Cell)
        requires
            old(self).wf(),
            cell_wf(fill),
            height * old(self).spec_width() <= usize::MAX,
        ensures
            final(self).wf(),
            final(self).spec_width() == old(self).spec_width(),
            final(self).spec_height() == if height > old(self).spec_height() {
                height as nat
            } else {
                old(self).spec_height()
            },
            forall|r: int, c: int|
                0 <= r < final(self).spec_height() && 0 <= c < final(self).spec_width() ==> (
                #[trigger] final(self).grid()[r][c]) == (if r < old(self).spec_height() {
                    old(self).grid()[r][c]
                } else {
                    fill
                }),
    {
        if height > self.rows.len() {
            self.resize_height(height, fill);
        }
    }

    /// Grows to at least the given dimensions, never shrinking.
    pub fn adjust(&mut self, width: usize, height: usize, fill: Cell)
        requires
            old(self).wf(),
            cell_wf(fill),
            old(self).spec_height() * width <= usize::MAX,
            height * width <= usize::MAX,
            height * old(self).spec_width() <= usize::MAX,
        ensures
            final(self).wf(),
            final(self).spec_width() == if width > old(self).spec_width() {
                width as nat
            } else {
                old(self).spec_width()
            },
            final(self).spec_height() == if height > old(self).spec_height() {
                height as nat
            } else {
                old(self).spec_height()
            },
            forall|r: int, c: int|
                0 <= r < final(self).spec_height() && 0 <= c < final(self).spec_width() ==> (
                #[trigger] final(self).grid()[r][c]) == (if r < old(self).spec_height() && c < old(
                    self,
                ).spec_width() {
                    old(self).grid()[r][c]
                } else {
                    fill
                }),
    {
        self.adjust_width(width, fill);
        proof {
            let w2 = self.spec_width();
            let w0 = old(self).spec_width();
            let hw = height * width;
            let hw0 = height * w0;
            assert(height * w2 <= usize::MAX) by (nonlinear_arith)
                requires
                    w2 == w0 || w2 == width,
                    hw == height * width,
                    hw0 == height * w0,
                    hw <= usize::MAX,
                    hw0 <= usize::MAX,
            ;
        }
        self.adjust_height(height, fill);
    }

    /// Fills every listed (column, row) position with one cell; positions
    /// out of bounds are ignored.
    pub fn fill_area(&mut self, columns: &Vec<usize>, rows: &Vec<usize>, new: Cell)
        requires
            old(self).wf(),
            cell_wf(new),
        ensures
            final(self).wf(),
            final(self).spec_width() == old(self).spec_width(),
            final(self).spec_height() == old(self).spec_height(),
            forall|r: int, c: int|
                0 <= r < old(self).grid().len() && 0 <= c < old(self).spec_width() ==> (
                #[trigger] final(self).grid()[r][c]) == (if in_list(columns@, c) && in_list(
                    rows@,
                    r,
                ) {
                    new
                } else {
                    old(self).grid()[r][c]
                }),
    {
        let mut i: usize = 0;
        while i < columns.len()
            invariant
                i <= columns.len(),
                self.wf(),
                cell_wf(new),
                self.spec_width() == old(self).spec_width(),
                self.spec_height() == old(self).spec_height(),
                forall|r: int, c: int|
                    0 <= r < old(self).grid().len() && 0 <= c < old(self).spec_width() ==> (
                    #[trigger] self.grid()[r][c]) == (if in_list(
                        columns@.subrange(0, i as int),
                        c,
                    ) && in_list(rows@, r) {
                        new
                    } else {
                        old(self).grid()[r][c]
                    }),
            decreases columns.len() - i,
        {
            let col = columns[i];
            let ghost gi = self.grid();
            let mut j: usize = 0;
            while j < rows.len()
                invariant
                    j <= rows.len(),
                    i < columns.len(),
                    col == columns@[i as int],
                    self.wf(),
                    cell_wf(new),
                    self.spec_width() == old(self).spec_width(),
                    self.spec_height() == old(self).spec_height(),
                    gi.len() == self.grid().len(),
                    forall|r: int| 0 <= r < gi.len() ==> (#[trigger] gi[r]).len() == self.grid()[r].len(),
                    forall|r: int, c: int|
                        0 <= r < self.grid().len() && 0 <= c < self.spec_width() && c != col ==> (
                        #[trigger] self.grid()[r][c]) == gi[r][c],
                    forall|r: int|
                        0 <= r < self.grid().len() && col < self.spec_width() ==> (
                        #[trigger] self.grid()[r][col as int]) == (if in_list(
                            rows@.subrange(0, j as int),
                            r,
                        ) {
                            new
                        } else {
                            gi[r][col as int]
                        }),
                decreases rows.len() - j,
            {
                self.set(col, rows[j], new);
                proof {
                    assert(rows@.subrange(0, j + 1).drop_last() =~= rows@.subrange(0, j as int));
                    assert forall|r: int|
                        0 <= r < self.grid().len() && col < self.spec_width() implies (
                    #[trigger] self.grid()[r][col as int]) == (if in_list(
                        rows@.subrange(0, j + 1),
                        r,
                    ) {
                        new
                    } else {
                        gi[r][col as int]
                    }) by {
                        if in_list(rows@.subrange(0, j + 1), r) {
                            let k = choose|k: int|
                                0 <= k < j + 1 && (#[trigger] rows@.subrange(0, j + 1)[k]) == r;
                            if k < j {
                                assert(rows@.subrange(0, j as int)[k] == r);
                                assert(in_list(rows@.subrange(0, j as int), r));
                            }
                        } else {
                            assert(forall|k: int|
                                0 <= k < j ==> rows@.subrange(0, j as int)[k] == rows@.subrange(
                                    0,
                                    j + 1,
                                )[k]);
                            assert(!in_list(rows@.subrange(0, j as int), r));
                            assert(rows@.subrange(0, j + 1)[j as int] == rows@[j as int]);
                            assert(rows@[j as int] != r);
                        }
                    }
                }
                j = j + 1;
            }
            proof {
                assert(rows@.subrange(0, rows@.len() as int) =~= rows@);
                assert(columns@.subrange(0, i + 1).last() == columns@[i as int]);
                assert(columns@.subrange(0, i + 1).drop_last() =~= columns@.subrange(0, i as int));
                assert forall|r: int, c: int|
                    0 <= r < old(self).grid().len() && 0 <= c < old(self).spec_width() implies (
                #[trigger] self.grid()[r][c]) == (if in_list(columns@.subrange(0, i + 1), c)
                    && in_list(rows@, r) {
                    new
                } else {
                    old(self).grid()[r][c]
                }) by {
                    if in_list(columns@.subrange(0, i + 1), c) {
                        let k = choose|k: int|
                            0 <= k < i + 1 && (#[trigger] columns@.subrange(0, i + 1)[k]) == c;
                        if k < i {
                            assert(columns@.subrange(0, i as int)[k] == c);
                            assert(in_list(columns@.subrange(0, i as int), c));
                        }
                    } else {
                        assert(forall|k: int|
                            0 <= k < i ==> columns@.subrange(0, i as int)[k] == columns@.subrange(
                                0,
                                i + 1,
                            )[k]);
                        assert(!in_list(columns@.subrange(0, i as int), c));
                        assert(columns@.subrange(0, i + 1)[i as int] == columns@[i as int]);
                        assert(columns@[i as int] != c);
                    }
                }
            }
            i = i + 1;
        }
        proof {
            assert(columns@.subrange(0, columns@.len() as int) =~= columns@);
        }
    }
}

/// What printing a text into a grid leaves: each accepted character lands
/// in the next column (skipping rejected ones does not advance), the color
/// reference is overridden only when an override is given, and positions
/// out of bounds change nothing.
pub open spec fn spec_print(
    g: Seq<Seq<Cell>>,
    col: int,
    row: int,
    s: Seq<char>,
    color: Option<Option<Char>>,
) -> Seq<Seq<Cell>>
    decreases s.len(),
{
    if s.len() == 0 {
        g
    } else {
        match crate::chars::spec_check_char(s[0]) {
            Some(k) => {
                let g2 = if 0 <= row < g.len() && 0 <= col < g[row].len() {
                    let oldc = g[row][col];
                    let nc = Cell {
                        text: crate::chars::spec_char(k),
                        color: match color {
                            Some(oc) => oc,
                            None => oldc.color,
                        },
                    };
                    g.update(row, g[row].update(col, nc))
                } else {
                    g
                };
                spec_print(g2, col + 1, row, s.drop_first(), color)
            },
            None => spec_print(g, col, row, s.drop_first(), color),
        }
    }
}

impl Frame {
    /// Prints a text into the frame at a position: accepted characters are
    /// written left to right, rejected ones are skipped, and the optional
    /// override replaces each written cell's color reference.
    pub fn print(&mut self, col: usize, row: usize, line: &str, color: Option<Option<Char>>)
        requires
            old(self).wf(),
            color matches Some(oc) ==> (oc matches Some(k) ==> k.wf()),
            col + line@.len() <= usize::MAX,
        ensures
            final(self).wf(),
            final(self).spec_width() == old(self).spec_width(),
            final(self).spec_height() == old(self).spec_height(),
            final(self).grid() == spec_print(
                old(self).grid(),
                col as int,
                row as int,
                line@,
                color,
            ),
    {
        let chars = crate::text::str_to_chars(line);
        let mut cur: usize = col;
        let mut i: usize = 0;
        proof {
            assert(line@.skip(0) =~= line@);
        }
        while i < chars.len()
            invariant
                i <= chars.len(),
                chars@ == line@,
                cur <= col + i,
                self.wf(),
                self.spec_width() == old(self).spec_width(),
                self.spec_height() == old(self).spec_height(),
                col + line@.len() <= usize::MAX,
                color matches Some(oc) ==> (oc matches Some(k) ==> k.wf()),
                spec_print(old(self).grid(), col as int, row as int, line@, color) == spec_print(
                    self.grid(),
                    cur as int,
                    row as int,
                    line@.skip(i as int),
                    color,
                ),
            decreases chars.len() - i,
        {
            let ghost gpre = self.grid();
            proof {
                assert(line@.skip(i as int)[0] == line@[i as int]);
                assert(line@.skip(i as int).drop_first() =~= line@.skip(i + 1));
            }
            match crate::chars::check_char(chars[i]) {
                Some(k) => {
                    let ch = Char::new_must(chars[i]);
                    let mut cell = self.get(cur, row, Cell::default());
                    cell.text = ch;
                    match color {
                        Some(oc) => {
                            cell.color = oc;
                        },
                        None => (),
                    }
                    proof {
                        crate::chars::lemma_spec_char(k);
                        crate::chars::lemma_char_view_eq(ch, crate::chars::spec_char(k));
                    }
                    self.set(cur, row, cell);
                    cur = cur + 1;
                },
                None => (),
            }
            i = i + 1;
        }
        proof {
            assert(line@.skip(line@.len() as int) =~= Seq::<char>::empty());
        }
    }
}

/// The text characters of a row.
pub open spec fn spec_row_text_chars(row: Seq<Cell>) -> Seq<char> {
    Seq::new(row.len(), |i: int| row[i].text@)
}

/// The color characters of a row, `_` where a cell has none.
pub open spec fn spec_row_color_chars(row: Seq<Cell>) -> Seq<char> {
    Seq::new(
        row.len(),
        |i: int|
            match row[i].color {
                Some(k) => k@,
                None => '_',
            },
    )
}

/// The text channel of a grid: one line per row, each newline-terminated.
pub open spec fn spec_text_block(g: Seq<Seq<Cell>>) -> Seq<char>
    decreases g.len(),
{
    if g.len() == 0 {
        Seq::empty()
    } else {
        spec_text_block(g.drop_last()) + spec_row_text_chars(g.last()) + seq!['\n']
    }
}

/// The color channel of a grid: one line per row, each newline-terminated.
pub open spec fn spec_colors_block(g: Seq<Seq<Cell>>) -> Seq<char>
    decreases g.len(),
{
    if g.len() == 0 {
        Seq::empty()
    } else {
        spec_colors_block(g.drop_last()) + spec_row_color_chars(g.last()) + seq!['\n']
    }
}

/// Both channels of a grid: per row the text characters, then the color
/// characters, newline-terminated.
pub open spec fn spec_both_block(g: Seq<Seq<Cell>>) -> Seq<char>
    decreases g.len(),
{
    if g.len() == 0 {
        Seq::empty()
    } else {
        spec_both_block(g.drop_last()) + spec_row_text_chars(g.last()) + spec_row_color_chars(
            g.last(),
        ) + seq!['\n']
    }
}

/// The text characters of a row, executably.
fn row_text_chars(row: &Vec<Cell>) -> (out: Vec<char>)
    ensures
        out@ == spec_row_text_chars(row@),
{
    let mut out: Vec<char> = Vec::new();
    let mut i: usize = 0;
    while i < row.len()
        invariant
            i <= row.len(),
            out@.len() == i,
            forall|x: int| 0 <= x < i ==> out@[x] == spec_row_text_chars(row@)[x],
        decreases row.len() - i,
    {
        out.push(row[i].text.to_char());
        i = i + 1;
    }
    proof {
        assert(out@ =~= spec_row_text_chars(row@));
    }
    out
}

/// The color characters of a row, executably.
fn row_color_chars(row: &Vec<Cell>) -> (out: Vec<char>)
    ensures
        out@ == spec_row_color_chars(row@),
{
    let mut out: Vec<char> = Vec::new();
    let mut i: usize = 0;
    while i < row.len()
        invariant
            i <= row.len(),
            out@.len() == i,
            forall|x: int| 0 <= x < i ==> out@[x] == spec_row_color_chars(row@)[x],
        decreases row.len() - i,
    {
        match row[i].color {
            Some(k) => out.push(k.to_char()),
            None => out.push('_'),
        }
        i = i + 1;
    }
    proof {
        assert(out@ =~= spec_row_color_chars(row@));
    }
    out
}

impl Frame {
    /// The text channel as lines of text, newline-terminated.
    pub fn fmt_text(&self) -> (r: String)
        requires
            self.wf(),
        ensures
            r@ == spec_text_block(self.grid()),
    {
        let v = self.fmt_block_chars(0);
        crate::text::chars_to_string(&v)
    }

    /// The color channel as lines of color characters, newline-terminated.
    pub fn fmt_colors(&self) -> (r: String)
        requires
            self.wf(),
        ensures
            r@ == spec_colors_block(self.grid()),
    {
        let v = self.fmt_block_chars(1);
        crate::text::chars_to_string(&v)
    }

    /// Both channels per line: text characters then color characters.
    pub fn fmt_both(&self) -> (r: String)
        requires
            self.wf(),
        ensures
            r@ == spec_both_block(self.grid()),
    {
        let v = self.fmt_block_chars(2);
        crate::text::chars_to_string(&v)
    }

    /// The requested channel block as characters.
    fn fmt_block_chars(&self, kind: u8) -> (out: Vec<char>)
        requires
            self.wf(),
            kind < 3,
        ensures
            kind == 0 ==> out@ == spec_text_block(self.grid()),
            kind == 1 ==> out@ == spec_colors_block(self.grid()),
            kind == 2 ==> out@ == spec_both_block(self.grid()),
    {
        let ghost g = self.grid();
        let mut out: Vec<char> = Vec::new();
        let mut r: usize = 0;
        proof {
            assert(g.subrange(0, 0) =~= Seq::<Seq<Cell>>::empty());
        }
        while r < self.rows.len()
            invariant
                r <= self.rows.len(),
                g == self.grid(),
                self.wf(),
                kind < 3,
                out@ == (if kind == 0 {
                    spec_text_block(g.subrange(0, r as int))
                } else if kind == 1 {
                    spec_colors_block(g.subrange(0, r as int))
                } else {
                    spec_both_block(g.subrange(0, r as int))
                }),
            decreases self.rows.len() - r,
        {
            proof {
                assert(g[r as int] == self.rows@[r as int]@);
                assert(g.subrange(0, r + 1).drop_last() =~= g.subrange(0, r as int));
                assert(g.subrange(0, r + 1).last() == g[r as int]);
            }
            if kind == 0 || kind == 2 {
                let t = row_text_chars(&self.rows[r]);
                crate::colors::push_all(&mut out, &t);
            }
            if kind == 1 || kind == 2 {
                let c = row_color_chars(&self.rows[r]);
                crate::colors::push_all(&mut out, &c);
            }
            out.push('\n');
            proof {
                if kind == 0 {
                    assert(out@ =~= spec_text_block(g.subrange(0, r + 1)));
                } else if kind == 1 {
                    assert(out@ =~= spec_colors_block(g.subrange(0, r + 1)));
                } else {
                    assert(out@ =~= spec_both_block(g.subrange(0, r + 1)));
                }
            }
            r = r + 1;
        }
        proof {
            assert(g.subrange(0, g.len() as int) =~= g);
        }
        out
    }
}

/// The rendering of one cell in a row under adjacency compression: codes
/// are emitted only when the pair differs from the previous cell's.
pub open spec fn spec_cell_render(row: Seq<Cell>, i: int, es: Seq<PalEntry>) -> Seq<char> {
    (if i > 0 && spec_cell_pair(row[i - 1], es) == spec_cell_pair(row[i], es) {
        Seq::<char>::empty()
    } else {
        crate::colors::spec_ansi_pair(spec_cell_pair(row[i], es))
    }) + seq![row[i].text@]
}

/// The colored ANSI rendering of a row.
pub open spec fn spec_row_ansi(row: Seq<Cell>, es: Seq<PalEntry>) -> Seq<char>
    decreases row.len(),
{
    if row.len() == 0 {
        Seq::empty()
    } else {
        spec_row_ansi(row.drop_last(), es) + spec_cell_render(row, row.len() - 1, es)
    }
}

/// One row of the frame rendering: colored cells followed by a reset, or
/// the bare text.
pub open spec fn spec_row_render(row: Seq<Cell>, es: Seq<PalEntry>, color: bool) -> Seq<char> {
    if color {
        spec_row_ansi(row, es) + crate::colors::spec_ansi_pair(
            ColorPair { fg: crate::colors::Color::NoColor, bg: crate::colors::Color::NoColor },
        )
    } else {
        spec_row_text_chars(row)
    }
}

/// The ANSI rendering of a grid: rows separated by newlines.
pub open spec fn spec_frame_ansi(g: Seq<Seq<Cell>>, es: Seq<PalEntry>, color: bool) -> Seq<char>
    decreases g.len(),
{
    if g.len() == 0 {
        Seq::empty()
    } else if g.len() == 1 {
        spec_row_render(g[0], es, color)
    } else {
        spec_frame_ansi(g.drop_last(), es, color) + seq!['\n'] + spec_row_render(
            g.last(),
            es,
            color,
        )
    }
}

impl Frame {
    /// Renders the frame as ANSI escape sequences: per cell the pair's
    /// codes (skipped when unchanged from the previous cell), the text, a
    /// reset after each colored row, and newlines between rows.
    pub fn ansi(&self, palette: &Palette, color: bool) -> (r: String)
        requires
            self.wf(),
        ensures
            r@ == spec_frame_ansi(self.grid(), palette.entries(), color),
    {
        let ghost g = self.grid();
        let ghost es = palette.entries();
        let mut out: Vec<char> = Vec::new();
        let mut r: usize = 0;
        proof {
            assert(g.subrange(0, 0) =~= Seq::<Seq<Cell>>::empty());
        }
        while r < self.rows.len()
            invariant
                r <= self.rows.len(),
                g == self.grid(),
                es == palette.entries(),
                self.wf(),
                out@ == spec_frame_ansi(g.subrange(0, r as int), es, color),
            decreases self.rows.len() - r,
        {
            proof {
                assert(g[r as int] == self.rows@[r as int]@);
                assert(g.subrange(0, r + 1).drop_last() =~= g.subrange(0, r as int));
                assert(g.subrange(0, r + 1).last() == g[r as int]);
            }
            if r > 0 {
                out.push('\n');
            }
            let row = &self.rows[r];
            if color {
                let mut prev: Option<ColorPair> = None;
                let mut j: usize = 0;
                let ghost out_start = out@;
                proof {
                    assert(g[r as int].subrange(0, 0) =~= Seq::<Cell>::empty());
                }
                while j < row.len()
                    invariant
                        j <= row.len(),
                        row@ == g[r as int],
                        es == palette.entries(),
                        self.wf(),
                        out@ == out_start + spec_row_ansi(g[r as int].subrange(0, j as int), es),
                        prev == (if j == 0 {
                            Option::<ColorPair>::None
                        } else {
                            Some(spec_cell_pair(g[r as int][j - 1], es))
                        }),
                    decreases row.len() - j,
                {
                    let cell = row[j];
                    let p = cell.to_pair(palette);
                    let emit: bool = match prev {
                        Some(q) => !(q == p),
                        None => true,
                    };
                    if emit {
                        let codes = p.ansi_chars();
                        crate::colors::push_all(&mut out, &codes);
                    }
                    out.push(cell.text.to_char());
                    proof {
                        let sub1 = g[r as int].subrange(0, j + 1);
                        assert(sub1.drop_last() =~= g[r as int].subrange(0, j as int));
                        assert(sub1.last() == g[r as int][j as int]);
                        assert(sub1[j as int] == g[r as int][j as int]);
                        if j > 0 {
                            assert(sub1[j - 1] == g[r as int][j - 1]);
                        }
                        assert(out@ =~= out_start + spec_row_ansi(sub1, es));
                    }
                    prev = Some(p);
                    j = j + 1;
                }
                let reset = ColorPair { fg: crate::colors::Color::NoColor, bg: crate::colors::Color::NoColor };
                let codes = reset.ansi_chars();
                crate::colors::push_all(&mut out, &codes);
                proof {
                    assert(g[r as int].subrange(0, g[r as int].len() as int) =~= g[r as int]);
                    assert(out@ =~= spec_frame_ansi(g.subrange(0, r + 1), es, color));
                }
            } else {
                let t = row_text_chars(row);
                crate::colors::push_all(&mut out, &t);
                proof {
                    assert(out@ =~= spec_frame_ansi(g.subrange(0, r + 1), es, color));
                }
            }
            r = r + 1;
        }
        proof {
            assert(g.subrange(0, g.len() as int) =~= g);
        }
        crate::text::chars_to_string(&out)
    }
}

/// An animation: an ordered sequence of frames sharing one width and
/// height, with two transient pin frames used while parsing.
#[derive(Debug, Clone)]
pub struct Frames {
    pub(crate) text_pin: Option<Frame>,
    pub(crate) color_pin: Option<Frame>,
    pub(crate) width: usize,
    pub(crate) height: usize,
    pub(crate) frames: Vec<Frame>,
}

impl Frames {
    /// The frames in order.
    pub closed spec fn spec_frames(&self) -> Seq<Frame> {
        self.frames@
    }

    /// The shared width.
    pub closed spec fn spec_width(&self) -> nat {
        self.width as nat
    }

    /// The shared height.
    pub closed spec fn spec_height(&self) -> nat {
        self.height as nat
    }

    /// The transient text pin.
    pub closed spec fn spec_text_pin(&self) -> Option<Frame> {
        self.text_pin
    }

    /// The transient color pin.
    pub closed spec fn spec_color_pin(&self) -> Option<Frame> {
        self.color_pin
    }

    /// The invariant: every frame is well formed with the shared
    /// dimensions, the pins are well formed, and the cell count fits.
    pub open spec fn wf(&self) -> bool {
        &&& forall|i: int|
            0 <= i < self.spec_frames().len() ==> {
                &&& (#[trigger] self.spec_frames()[i]).wf()
                &&& self.spec_frames()[i].spec_width() == self.spec_width()
                &&& self.spec_frames()[i].spec_height() == self.spec_height()
            }
        &&& self.spec_text_pin() matches Some(f) ==> f.wf()
        &&& self.spec_color_pin() matches Some(f) ==> f.wf()
        &&& self.spec_height() * self.spec_width() <= usize::MAX
    }

    /// A new animation of identical filled frames.
    pub fn new(frames: usize, width: usize, height: usize, fill: Cell) -> (r: Frames)
        requires
            width * height <= usize::MAX,
            cell_wf(fill),
        ensures
            r.wf(),
            r.spec_width() == width,
            r.spec_height() == height,
            r.spec_frames().len() == frames,
            r.spec_text_pin() is None,
            r.spec_color_pin() is None,
            forall|i: int, x: int, y: int|
                0 <= i < frames && 0 <= x < height && 0 <= y < width ==> (
                #[trigger] r.spec_frames()[i].grid()[x][y]) == fill,
    {
        let mut fs: Vec<Frame> = Vec::new();
        let mut i: usize = 0;
        while i < frames
            invariant
                i <= frames,
                width * height <= usize::MAX,
                cell_wf(fill),
                fs@.len() == i,
                forall|k: int|
                    0 <= k < i ==> {
                        &&& (#[trigger] fs@[k]).wf()
                        &&& fs@[k].spec_width() == width
                        &&& fs@[k].spec_height() == height
                        &&& forall|x: int, y: int|
                            0 <= x < height && 0 <= y < width ==> (#[trigger] fs@[k].grid()[x][y])
                                == fill
                    },
            decreases frames - i,
        {
            fs.push(Frame::new(width, height, fill));
            i = i + 1;
        }
        let r = Frames { text_pin: None, color_pin: None, width, height, frames: fs };
        proof {
            assert(r.spec_height() * r.spec_width() <= usize::MAX) by (nonlinear_arith)
                requires
                    r.spec_height() == height,
                    r.spec_width() == width,
                    width * height <= usize::MAX,
            ;
        }
        r
    }

    /// The number of frames.
    pub fn frames(&self) -> (r: usize)
        ensures
            r == self.spec_frames().len(),
    {
        self.frames.len()
    }

    /// The shared width.
    pub fn width(&self) -> (r: usize)
        ensures
            r == self.spec_width(),
    {
        self.width
    }

    /// The shared height.
    pub fn height(&self) -> (r: usize)
        ensures
            r == self.spec_height(),
    {
        self.height
    }

    /// Whether any frame holds a colored cell.
    pub fn color(&self) -> (r: bool)
        requires
            self.wf(),
        ensures
            r == exists|i: int|
                0 <= i < self.spec_frames().len() && (#[trigger] self.spec_frames()[i]).spec_colors()
                    > 0,
    {
        let mut i: usize = 0;
        while i < self.frames.len()
            invariant
                i <= self.spec_frames().len(),
                forall|k: int|
                    0 <= k < i ==> (#[trigger] self.spec_frames()[k]).spec_colors() == 0,
            decreases self.frames.len() - i,
        {
            proof {
                assert(self.spec_frames()[i as int] == self.frames@[i as int]);
            }
            if self.frames[i].color() {
                return true;
            }
            i = i + 1;
        }
        false
    }

    /// The cell of one frame at a position, or the default out of bounds.
    pub fn get(&self, frame: usize, column: usize, row: usize, default: Cell) -> (r: Cell)
        requires
            self.wf(),
        ensures
            r == if frame < self.spec_frames().len() && row < self.spec_height() && column
                < self.spec_width() {
                self.spec_frames()[frame as int].grid()[row as int][column as int]
            } else {
                default
            },
    {
        if frame < self.frames.len() {
            self.frames[frame].get(column, row, default)
        } else {
            default
        }
    }

    /// Sets the cell of one frame at a position; out of bounds, nothing
    /// changes.
    pub fn set(&mut self, frame: usize, column: usize, row: usize, new: Cell)
        requires
            old(self).wf(),
            cell_wf(new),
        ensures
            final(self).wf(),
            final(self).spec_width() == old(self).spec_width(),
            final(self).spec_height() == old(self).spec_height(),
            final(self).spec_text_pin() == old(self).spec_text_pin(),
            final(self).spec_color_pin() == old(self).spec_color_pin(),
            final(self).spec_frames().len() == old(self).spec_frames().len(),
            forall|i: int|
                0 <= i < old(self).spec_frames().len() && i != frame ==> #[trigger] final(self).spec_frames()[i] == old(self).spec_frames()[i],
            frame < old(self).spec_frames().len() ==> final(self).spec_frames()[frame as int].grid() == (if row < old(self).spec_height() && column
                < old(self).spec_width() {
                old(self).spec_frames()[frame as int].grid().update(
                    row as int,
                    old(self).spec_frames()[frame as int].grid()[row as int].update(
                        column as int,
                        new,
                    ),
                )
            } else {
                old(self).spec_frames()[frame as int].grid()
            }),
    {
        if frame < self.frames.len() {
            proof {
                assert(self.spec_frames()[frame as int] == self.frames@[frame as int]);
            }
            self.frames[frame].set(column, row, new);
            proof {
                assert(forall|i: int|
                    0 <= i < self.frames@.len() && i != frame ==> (#[trigger] self.frames@[i])
                        == old(self).frames@[i]);
            }
        }
    }
}


/// Two frames with the same dimensions.
pub open spec fn frame_dims(a: Frame, b: Frame) -> bool {
    b.spec_width() == a.spec_width() && b.spec_height() == a.spec_height()
}

/// `b` is `a` shifted right.
pub open spec fn frame_shifted_right(a: Frame, b: Frame, cols: int, fill: Cell) -> bool {
    &&& frame_dims(a, b)
    &&& forall|r: int|
        0 <= r < a.grid().len() ==> (#[trigger] b.grid()[r]) == spec_shift_right_row(
            a.grid()[r],
            cols,
            fill,
        )
}

/// `b` is `a` shifted left.
pub open spec fn frame_shifted_left(a: Frame, b: Frame, cols: int, fill: Cell) -> bool {
    &&& frame_dims(a, b)
    &&& forall|r: int|
        0 <= r < a.grid().len() ==> (#[trigger] b.grid()[r]) == spec_shift_left_row(
            a.grid()[r],
            cols,
            fill,
        )
}

/// `b` is `a` shifted down.
pub open spec fn frame_shifted_down(a: Frame, b: Frame, count: int, fill: Cell) -> bool {
    &&& frame_dims(a, b)
    &&& forall|r: int, c: int|
        0 <= r < a.grid().len() && 0 <= c < a.spec_width() ==> (#[trigger] b.grid()[r][c]) == (
        if count <= a.grid().len() && r >= count {
            a.grid()[r - count][c]
        } else {
            fill
        })
}

/// `b` is `a` shifted up.
pub open spec fn frame_shifted_up(a: Frame, b: Frame, count: int, fill: Cell) -> bool {
    &&& frame_dims(a, b)
    &&& forall|r: int, c: int|
        0 <= r < a.grid().len() && 0 <= c < a.spec_width() ==> (#[trigger] b.grid()[r][c]) == (
        if count <= a.grid().len() && r < a.grid().len() - count {
            a.grid()[r + count][c]
        } else {
            fill
        })
}

/// `b` is `a` filled whole with one cell.
pub open spec fn frame_filled(a: Frame, b: Frame, fill: Cell) -> bool {
    &&& frame_dims(a, b)
    &&& forall|r: int, c: int|
        0 <= r < b.grid().len() && 0 <= c < b.grid()[r].len() ==> (#[trigger] b.grid()[r][c])
            == fill
}

/// `b` is `a` with every text set, colors kept.
pub open spec fn frame_text_filled(a: Frame, b: Frame, ch: Char) -> bool {
    &&& frame_dims(a, b)
    &&& forall|r: int, c: int|
        0 <= r < a.grid().len() && 0 <= c < a.grid()[r].len() ==> (#[trigger] b.grid()[r][c]) == (
        Cell { text: ch, color: a.grid()[r][c].color })
}

/// `b` is `a` with every color reference set, text kept.
pub open spec fn frame_color_filled(a: Frame, b: Frame, fill: Option<Char>) -> bool {
    &&& frame_dims(a, b)
    &&& forall|r: int, c: int|
        0 <= r < a.grid().len() && 0 <= c < a.grid()[r].len() ==> (#[trigger] b.grid()[r][c]) == (
        Cell { text: a.grid()[r][c].text, color: fill })
}

/// `b` is `a` cleared: spaces, with a `_` color mark when `a` had color.
pub open spec fn frame_cleaned(a: Frame, b: Frame) -> bool {
    &&& frame_dims(a, b)
    &&& forall|r: int, c: int|
        0 <= r < b.grid().len() && 0 <= c < b.grid()[r].len() ==> (#[trigger] b.grid()[r][c]) == (
        Cell {
            text: crate::chars::spec_char(' '),
            color: if a.spec_colors() > 0 {
                Some(crate::chars::spec_char('_'))
            } else {
                None
            },
        })
}

/// `b` is `a` with one palette character's references dropped.
pub open spec fn frame_color_removed(a: Frame, b: Frame, k: char) -> bool {
    &&& frame_dims(a, b)
    &&& forall|r: int, c: int|
        0 <= r < a.grid().len() && 0 <= c < a.grid()[r].len() ==> (#[trigger] b.grid()[r][c])
            == cell_remove_color(a.grid()[r][c], k)
}

/// `b` is `a` with the listed positions filled.
pub open spec fn frame_area_filled(
    a: Frame,
    b: Frame,
    columns: Seq<usize>,
    rows: Seq<usize>,
    new: Cell,
) -> bool {
    &&& frame_dims(a, b)
    &&& forall|r: int, c: int|
        0 <= r < a.grid().len() && 0 <= c < a.spec_width() ==> (#[trigger] b.grid()[r][c]) == (
        if in_list(columns, c) && in_list(rows, r) {
            new
        } else {
            a.grid()[r][c]
        })
}

/// `b` is `a` resized to exact dimensions.
pub open spec fn frame_resized(a: Frame, b: Frame, w: int, h: int, fill: Cell) -> bool {
    &&& b.spec_width() == w
    &&& b.spec_height() == h
    &&& forall|r: int, c: int|
        0 <= r < h && 0 <= c < w ==> (#[trigger] b.grid()[r][c]) == (if r < a.spec_height() && c
            < a.spec_width() {
            a.grid()[r][c]
        } else {
            fill
        })
}

/// `b` is `a` grown to at least the given dimensions.
pub open spec fn frame_adjusted(a: Frame, b: Frame, w: int, h: int, fill: Cell) -> bool {
    &&& b.spec_width() == (if w > a.spec_width() { w as nat } else { a.spec_width() })
    &&& b.spec_height() == (if h > a.spec_height() { h as nat } else { a.spec_height() })
    &&& forall|r: int, c: int|
        0 <= r < b.spec_height() && 0 <= c < b.spec_width() ==> (#[trigger] b.grid()[r][c]) == (
        if r < a.spec_height() && c < a.spec_width() {
            a.grid()[r][c]
        } else {
            fill
        })
}

impl Frames {

    /// Shifts every frame right, filling the vacated left edge.
    pub fn shift_right(&mut self, cols: usize, fill: Cell)
        requires
            old(self).wf(),
            cell_wf(fill),
        ensures
            final(self).wf(),
            final(self).spec_width() == old(self).spec_width(),
            final(self).spec_height() == old(self).spec_height(),
            final(self).spec_text_pin() == old(self).spec_text_pin(),
            final(self).spec_color_pin() == old(self).spec_color_pin(),
            final(self).spec_frames().len() == old(self).spec_frames().len(),
            forall|i: int|
                0 <= i < old(self).spec_frames().len() ==> #[trigger] frame_shifted_right(old(self).spec_frames()[i], final(self).spec_frames()[i], cols as int, fill),
    {
        let ghost fs0 = self.frames@;
        let n = self.frames.len();
        let mut i: usize = 0;
        while i < n
            invariant
                i <= n,
                n == self.frames@.len(),
                fs0 == old(self).frames@,
                fs0.len() == n,
                self.width == old(self).width,
                self.height == old(self).height,
                self.text_pin == old(self).text_pin,
                self.color_pin == old(self).color_pin,
                old(self).wf(),
                cell_wf(fill),
                forall|k: int| i <= k < n ==> #[trigger] self.frames@[k] == fs0[k],
                forall|k: int| 0 <= k < i ==> #[trigger] frame_shifted_right(fs0[k], self.frames@[k], cols as int, fill),
                forall|k: int|
                    0 <= k < i ==> (#[trigger] self.frames@[k]).wf() && self.frames@[k].spec_width()
                        == self.spec_width() && self.frames@[k].spec_height() == self.spec_height(),
            decreases n - i,
        {
            proof {
                assert(self.frames@[i as int] == fs0[i as int]);
                assert(old(self).spec_frames()[i as int] == fs0[i as int]);
            }
            self.frames[i].shift_right(cols, fill);
            i = i + 1;
        }
    }

    /// Shifts every frame left, filling the vacated right edge.
    pub fn shift_left(&mut self, cols: usize, fill: Cell)
        requires
            old(self).wf(),
            cell_wf(fill),
        ensures
            final(self).wf(),
            final(self).spec_width() == old(self).spec_width(),
            final(self).spec_height() == old(self).spec_height(),
            final(self).spec_text_pin() == old(self).spec_text_pin(),
            final(self).spec_color_pin() == old(self).spec_color_pin(),
            final(self).spec_frames().len() == old(self).spec_frames().len(),
            forall|i: int|
                0 <= i < old(self).spec_frames().len() ==> #[trigger] frame_shifted_left(old(self).spec_frames()[i], final(self).spec_frames()[i], cols as int, fill),
    {
        let ghost fs0 = self.frames@;
        let n = self.frames.len();
        let mut i: usize = 0;
        while i < n
            invariant
                i <= n,
                n == self.frames@.len(),
                fs0 == old(self).frames@,
                fs0.len() == n,
                self.width == old(self).width,
                self.height == old(self).height,
                self.text_pin == old(self).text_pin,
                self.color_pin == old(self).color_pin,
                old(self).wf(),
                cell_wf(fill),
                forall|k: int| i <= k < n ==> #[trigger] self.frames@[k] == fs0[k],
                forall|k: int| 0 <= k < i ==> #[trigger] frame_shifted_left(fs0[k], self.frames@[k], cols as int, fill),
                forall|k: int|
                    0 <= k < i ==> (#[trigger] self.frames@[k]).wf() && self.frames@[k].spec_width()
                        == self.spec_width() && self.frames@[k].spec_height() == self.spec_height(),
            decreases n - i,
        {
            proof {
                assert(self.frames@[i as int] == fs0[i as int]);
                assert(old(self).spec_frames()[i as int] == fs0[i as int]);
            }
            self.frames[i].shift_left(cols, fill);
            i = i + 1;
        }
    }

    /// Shifts every frame down, filling the vacated top rows.
    pub fn shift_down(&mut self, count: usize, fill: Cell)
        requires
            old(self).wf(),
            cell_wf(fill),
        ensures
            final(self).wf(),
            final(self).spec_width() == old(self).spec_width(),
            final(self).spec_height() == old(self).spec_height(),
            final(self).spec_text_pin() == old(self).spec_text_pin(),
            final(self).spec_color_pin() == old(self).spec_color_pin(),
            final(self).spec_frames().len() == old(self).spec_frames().len(),
            forall|i: int|
                0 <= i < old(self).spec_frames().len() ==> #[trigger] frame_shifted_down(old(self).spec_frames()[i], final(self).spec_frames()[i], count as int, fill),
    {
        let ghost fs0 = self.frames@;
        let n = self.frames.len();
        let mut i: usize = 0;
        while i < n
            invariant
                i <= n,
                n == self.frames@.len(),
                fs0 == old(self).frames@,
                fs0.len() == n,
                self.width == old(self).width,
                self.height == old(self).height,
                self.text_pin == old(self).text_pin,
                self.color_pin == old(self).color_pin,
                old(self).wf(),
                cell_wf(fill),
                forall|k: int| i <= k < n ==> #[trigger] self.frames@[k] == fs0[k],
                forall|k: int| 0 <= k < i ==> #[trigger] frame_shifted_down(fs0[k], self.frames@[k], count as int, fill),
                forall|k: int|
                    0 <= k < i ==> (#[trigger] self.frames@[k]).wf() && self.frames@[k].spec_width()
                        == self.spec_width() && self.frames@[k].spec_height() == self.spec_height(),
            decreases n - i,
        {
            proof {
                assert(self.frames@[i as int] == fs0[i as int]);
                assert(old(self).spec_frames()[i as int] == fs0[i as int]);
            }
            self.frames[i].shift_down(count, fill);
            i = i + 1;
        }
    }

    /// Shifts every frame up, filling the vacated bottom rows.
    pub fn shift_up(&mut self, count: usize, fill: Cell)
        requires
            old(self).wf(),
            cell_wf(fill),
        ensures
            final(self).wf(),
            final(self).spec_width() == old(self).spec_width(),
            final(self).spec_height() == old(self).spec_height(),
            final(self).spec_text_pin() == old(self).spec_text_pin(),
            final(self).spec_color_pin() == old(self).spec_color_pin(),
            final(self).spec_frames().len() == old(self).spec_frames().len(),
            forall|i: int|
                0 <= i < old(self).spec_frames().len() ==> #[trigger] frame_shifted_up(old(self).spec_frames()[i], final(self).spec_frames()[i], count as int, fill),
    {
        let ghost fs0 = self.frames@;
        let n = self.frames.len();
        let mut i: usize = 0;
        while i < n
            invariant
                i <= n,
                n == self.frames@.len(),
                fs0 == old(self).frames@,
                fs0.len() == n,
                self.width == old(self).width,
                self.height == old(self).height,
                self.text_pin == old(self).text_pin,
                self.color_pin == old(self).color_pin,
                old(self).wf(),
                cell_wf(fill),
                forall|k: int| i <= k < n ==> #[trigger] self.frames@[k] == fs0[k],
                forall|k: int| 0 <= k < i ==> #[trigger] frame_shifted_up(fs0[k], self.frames@[k], count as int, fill),
                forall|k: int|
                    0 <= k < i ==> (#[trigger] self.frames@[k]).wf() && self.frames@[k].spec_width()
                        == self.spec_width() && self.frames@[k].spec_height() == self.spec_height(),
            decreases n - i,
        {
            proof {
                assert(self.frames@[i as int] == fs0[i as int]);
                assert(old(self).spec_frames()[i as int] == fs0[i as int]);
            }
            self.frames[i].shift_up(count, fill);
            i = i + 1;
        }
    }

    /// Fills every frame whole with one cell.
    pub fn fill(&mut self, fill: Cell)
        requires
            old(self).wf(),
            cell_wf(fill),
        ensures
            final(self).wf(),
            final(self).spec_width() == old(self).spec_width(),
            final(self).spec_height() == old(self).spec_height(),
            final(self).spec_text_pin() == old(self).spec_text_pin(),
            final(self).spec_color_pin() == old(self).spec_color_pin(),
            final(self).spec_frames().len() == old(self).spec_frames().len(),
            forall|i: int|
                0 <= i < old(self).spec_frames().len() ==> #[trigger] frame_filled(old(self).spec_frames()[i], final(self).spec_frames()[i], fill),
    {
        let ghost fs0 = self.frames@;
        let n = self.frames.len();
        let mut i: usize = 0;
        while i < n
            invariant
                i <= n,
                n == self.frames@.len(),
                fs0 == old(self).frames@,
                fs0.len() == n,
                self.width == old(self).width,
                self.height == old(self).height,
                self.text_pin == old(self).text_pin,
                self.color_pin == old(self).color_pin,
                old(self).wf(),
                cell_wf(fill),
                forall|k: int| i <= k < n ==> #[trigger] self.frames@[k] == fs0[k],
                forall|k: int| 0 <= k < i ==> #[trigger] frame_filled(fs0[k], self.frames@[k], fill),
                forall|k: int|
                    0 <= k < i ==> (#[trigger] self.frames@[k]).wf() && self.frames@[k].spec_width()
                        == self.spec_width() && self.frames@[k].spec_height() == self.spec_height(),
            decreases n - i,
        {
            proof {
                assert(self.frames@[i as int] == fs0[i as int]);
                assert(old(self).spec_frames()[i as int] == fs0[i as int]);
            }
            self.frames[i].fill(fill);
            i = i + 1;
        }
    }

    /// Sets every cell's text in every frame, keeping the colors.
    pub fn fill_text(&mut self, fill: Char)
        requires
            old(self).wf(),
            fill.wf(),
        ensures
            final(self).wf(),
            final(self).spec_width() == old(self).spec_width(),
            final(self).spec_height() == old(self).spec_height(),
            final(self).spec_text_pin() == old(self).spec_text_pin(),
            final(self).spec_color_pin() == old(self).spec_color_pin(),
            final(self).spec_frames().len() == old(self).spec_frames().len(),
            forall|i: int|
                0 <= i < old(self).spec_frames().len() ==> #[trigger] frame_text_filled(old(self).spec_frames()[i], final(self).spec_frames()[i], fill),
    {
        let ghost fs0 = self.frames@;
        let n = self.frames.len();
        let mut i: usize = 0;
        while i < n
            invariant
                i <= n,
                n == self.frames@.len(),
                fs0 == old(self).frames@,
                fs0.len() == n,
                self.width == old(self).width,
                self.height == old(self).height,
                self.text_pin == old(self).text_pin,
                self.color_pin == old(self).color_pin,
                old(self).wf(),
                fill.wf(),
                forall|k: int| i <= k < n ==> #[trigger] self.frames@[k] == fs0[k],
                forall|k: int| 0 <= k < i ==> #[trigger] frame_text_filled(fs0[k], self.frames@[k], fill),
                forall|k: int|
                    0 <= k < i ==> (#[trigger] self.frames@[k]).wf() && self.frames@[k].spec_width()
                        == self.spec_width() && self.frames@[k].spec_height() == self.spec_height(),
            decreases n - i,
        {
            proof {
                assert(self.frames@[i as int] == fs0[i as int]);
                assert(old(self).spec_frames()[i as int] == fs0[i as int]);
            }
            self.frames[i].fill_text(fill);
            i = i + 1;
        }
    }

    /// Sets every cell's color reference in every frame, keeping the text.
    pub fn fill_color(&mut self, fill: Option<Char>)
        requires
            old(self).wf(),
            fill matches Some(k) ==> k.wf(),
        ensures
            final(self).wf(),
            final(self).spec_width() == old(self).spec_width(),
            final(self).spec_height() == old(self).spec_height(),
            final(self).spec_text_pin() == old(self).spec_text_pin(),
            final(self).spec_color_pin() == old(self).spec_color_pin(),
            final(self).spec_frames().len() == old(self).spec_frames().len(),
            forall|i: int|
                0 <= i < old(self).spec_frames().len() ==> #[trigger] frame_color_filled(old(self).spec_frames()[i], final(self).spec_frames()[i], fill),
    {
        let ghost fs0 = self.frames@;
        let n = self.frames.len();
        let mut i: usize = 0;
        while i < n
            invariant
                i <= n,
                n == self.frames@.len(),
                fs0 == old(self).frames@,
                fs0.len() == n,
                self.width == old(self).width,
                self.height == old(self).height,
                self.text_pin == old(self).text_pin,
                self.color_pin == old(self).color_pin,
                old(self).wf(),
                fill matches Some(k) ==> k.wf(),
                forall|k: int| i <= k < n ==> #[trigger] self.frames@[k] == fs0[k],
                forall|k: int| 0 <= k < i ==> #[trigger] frame_color_filled(fs0[k], self.frames@[k], fill),
                forall|k: int|
                    0 <= k < i ==> (#[trigger] self.frames@[k]).wf() && self.frames@[k].spec_width()
                        == self.spec_width() && self.frames@[k].spec_height() == self.spec_height(),
            decreases n - i,
        {
            proof {
                assert(self.frames@[i as int] == fs0[i as int]);
                assert(old(self).spec_frames()[i as int] == fs0[i as int]);
            }
            self.frames[i].fill_color(fill);
            i = i + 1;
        }
    }

    /// Clears every frame: spaces, with the `_` mark where a frame had color.
    pub fn clean(&mut self, )
        requires
            old(self).wf(),
        ensures
            final(self).wf(),
            final(self).spec_width() == old(self).spec_width(),
            final(self).spec_height() == old(self).spec_height(),
            final(self).spec_text_pin() == old(self).spec_text_pin(),
            final(self).spec_color_pin() == old(self).spec_color_pin(),
            final(self).spec_frames().len() == old(self).spec_frames().len(),
            forall|i: int|
                0 <= i < old(self).spec_frames().len() ==> #[trigger] frame_cleaned(old(self).spec_frames()[i], final(self).spec_frames()[i]),
    {
        let ghost fs0 = self.frames@;
        let n = self.frames.len();
        let mut i: usize = 0;
        while i < n
            invariant
                i <= n,
                n == self.frames@.len(),
                fs0 == old(self).frames@,
                fs0.len() == n,
                self.width == old(self).width,
                self.height == old(self).height,
                self.text_pin == old(self).text_pin,
                self.color_pin == old(self).color_pin,
                old(self).wf(),
                forall|k: int| i <= k < n ==> #[trigger] self.frames@[k] == fs0[k],
                forall|k: int| 0 <= k < i ==> #[trigger] frame_cleaned(fs0[k], self.frames@[k]),
                forall|k: int|
                    0 <= k < i ==> (#[trigger] self.frames@[k]).wf() && self.frames@[k].spec_width()
                        == self.spec_width() && self.frames@[k].spec_height() == self.spec_height(),
            decreases n - i,
        {
            proof {
                assert(self.frames@[i as int] == fs0[i as int]);
                assert(old(self).spec_frames()[i as int] == fs0[i as int]);
            }
            self.frames[i].clean();
            i = i + 1;
        }
    }

    /// Drops every reference to one palette character from every frame.
    pub fn remove_color(&mut self, color: Char)
        requires
            old(self).wf(),
        ensures
            final(self).wf(),
            final(self).spec_width() == old(self).spec_width(),
            final(self).spec_height() == old(self).spec_height(),
            final(self).spec_text_pin() == old(self).spec_text_pin(),
            final(self).spec_color_pin() == old(self).spec_color_pin(),
            final(self).spec_frames().len() == old(self).spec_frames().len(),
            forall|i: int|
                0 <= i < old(self).spec_frames().len() ==> #[trigger] frame_color_removed(old(self).spec_frames()[i], final(self).spec_frames()[i], color@),
    {
        let ghost fs0 = self.frames@;
        let n = self.frames.len();
        let mut i: usize = 0;
        while i < n
            invariant
                i <= n,
                n == self.frames@.len(),
                fs0 == old(self).frames@,
                fs0.len() == n,
                self.width == old(self).width,
                self.height == old(self).height,
                self.text_pin == old(self).text_pin,
                self.color_pin == old(self).color_pin,
                old(self).wf(),
                forall|k: int| i <= k < n ==> #[trigger] self.frames@[k] == fs0[k],
                forall|k: int| 0 <= k < i ==> #[trigger] frame_color_removed(fs0[k], self.frames@[k], color@),
                forall|k: int|
                    0 <= k < i ==> (#[trigger] self.frames@[k]).wf() && self.frames@[k].spec_width()
                        == self.spec_width() && self.frames@[k].spec_height() == self.spec_height(),
            decreases n - i,
        {
            proof {
                assert(self.frames@[i as int] == fs0[i as int]);
                assert(old(self).spec_frames()[i as int] == fs0[i as int]);
            }
            self.frames[i].remove_color(color);
            i = i + 1;
        }
    }

    /// Fills the listed positions in every frame.
    pub fn fill_area(&mut self, columns: &Vec<usize>, rows: &Vec<usize>, new: Cell)
        requires
            old(self).wf(),
            cell_wf(new),
        ensures
            final(self).wf(),
            final(self).spec_width() == old(self).spec_width(),
            final(self).spec_height() == old(self).spec_height(),
            final(self).spec_text_pin() == old(self).spec_text_pin(),
            final(self).spec_color_pin() == old(self).spec_color_pin(),
            final(self).spec_frames().len() == old(self).spec_frames().len(),
            forall|i: int|
                0 <= i < old(self).spec_frames().len() ==> #[trigger] frame_area_filled(old(self).spec_frames()[i], final(self).spec_frames()[i], columns@, rows@, new),
    {
        let ghost fs0 = self.frames@;
        let n = self.frames.len();
        let mut i: usize = 0;
        while i < n
            invariant
                i <= n,
                n == self.frames@.len(),
                fs0 == old(self).frames@,
                fs0.len() == n,
                self.width == old(self).width,
                self.height == old(self).height,
                self.text_pin == old(self).text_pin,
                self.color_pin == old(self).color_pin,
                old(self).wf(),
                cell_wf(new),
                forall|k: int| i <= k < n ==> #[trigger] self.frames@[k] == fs0[k],
                forall|k: int| 0 <= k < i ==> #[trigger] frame_area_filled(fs0[k], self.frames@[k], columns@, rows@, new),
                forall|k: int|
                    0 <= k < i ==> (#[trigger] self.frames@[k]).wf() && self.frames@[k].spec_width()
                        == self.spec_width() && self.frames@[k].spec_height() == self.spec_height(),
            decreases n - i,
        {
            proof {
                assert(self.frames@[i as int] == fs0[i as int]);
                assert(old(self).spec_frames()[i as int] == fs0[i as int]);
            }
            self.frames[i].fill_area(columns, rows, new);
            i = i + 1;
        }
    }

    /// Shifts one frame right; an index out of range changes nothing.
    pub fn shift_right_frame(&mut self, frame: usize, cols: usize, fill: Cell)
        requires
            old(self).wf(),
            cell_wf(fill),
        ensures
            final(self).wf(),
            final(self).spec_width() == old(self).spec_width(),
            final(self).spec_height() == old(self).spec_height(),
            final(self).spec_text_pin() == old(self).spec_text_pin(),
            final(self).spec_color_pin() == old(self).spec_color_pin(),
            final(self).spec_frames().len() == old(self).spec_frames().len(),
            forall|i: int|
                0 <= i < old(self).spec_frames().len() && i != frame ==> #[trigger] final(self).spec_frames()[i] == old(self).spec_frames()[i],
            frame < old(self).spec_frames().len() ==> frame_shifted_right(old(self).spec_frames()[frame as int], final(self).spec_frames()[frame as int], cols as int, fill),
    {
        if frame < self.frames.len() {
            proof {
                assert(self.frames@[frame as int] == old(self).spec_frames()[frame as int]);
            }
            self.frames[frame].shift_right(cols, fill);
        }
    }

    /// Shifts one frame left; an index out of range changes nothing.
    pub fn shift_left_frame(&mut self, frame: usize, cols: usize, fill: Cell)
        requires
            old(self).wf(),
            cell_wf(fill),
        ensures
            final(self).wf(),
            final(self).spec_width() == old(self).spec_width(),
            final(self).spec_height() == old(self).spec_height(),
            final(self).spec_text_pin() == old(self).spec_text_pin(),
            final(self).spec_color_pin() == old(self).spec_color_pin(),
            final(self).spec_frames().len() == old(self).spec_frames().len(),
            forall|i: int|
                0 <= i < old(self).spec_frames().len() && i != frame ==> #[trigger] final(self).spec_frames()[i] == old(self).spec_frames()[i],
            frame < old(self).spec_frames().len() ==> frame_shifted_left(old(self).spec_frames()[frame as int], final(self).spec_frames()[frame as int], cols as int, fill),
    {
        if frame < self.frames.len() {
            proof {
                assert(self.frames@[frame as int] == old(self).spec_frames()[frame as int]);
            }
            self.frames[frame].shift_left(cols, fill);
        }
    }

    /// Shifts one frame down; an index out of range changes nothing.
    pub fn shift_down_frame(&mut self, frame: usize, count: usize, fill: Cell)
        requires
            old(self).wf(),
            cell_wf(fill),
        ensures
            final(self).wf(),
            final(self).spec_width() == old(self).spec_width(),
            final(self).spec_height() == old(self).spec_height(),
            final(self).spec_text_pin() == old(self).spec_text_pin(),
            final(self).spec_color_pin() == old(self).spec_color_pin(),
            final(self).spec_frames().len() == old(self).spec_frames().len(),
            forall|i: int|
                0 <= i < old(self).spec_frames().len() && i != frame ==> #[trigger] final(self).spec_frames()[i] == old(self).spec_frames()[i],
            frame < old(self).spec_frames().len() ==> frame_shifted_down(old(self).spec_frames()[frame as int], final(self).spec_frames()[frame as int], count as int, fill),
    {
        if frame < self.frames.len() {
            proof {
                assert(self.frames@[frame as int] == old(self).spec_frames()[frame as int]);
            }
            self.frames[frame].shift_down(count, fill);
        }
    }

    /// Shifts one frame up; an index out of range changes nothing.
    pub fn shift_up_frame(&mut self, frame: usize, count: usize, fill: Cell)
        requires
            old(self).wf(),
            cell_wf(fill),
        ensures
            final(self).wf(),
            final(self).spec_width() == old(self).spec_width(),
            final(self).spec_height() == old(self).spec_height(),
            final(self).spec_text_pin() == old(self).spec_text_pin(),
            final(self).spec_color_pin() == old(self).spec_color_pin(),
            final(self).spec_frames().len() == old(self).spec_frames().len(),
            forall|i: int|
                0 <= i < old(self).spec_frames().len() && i != frame ==> #[trigger] final(self).spec_frames()[i] == old(self).spec_frames()[i],
            frame < old(self).spec_frames().len() ==> frame_shifted_up(old(self).spec_frames()[frame as int], final(self).spec_frames()[frame as int], count as int, fill),
    {
        if frame < self.frames.len() {
            proof {
                assert(self.frames@[frame as int] == old(self).spec_frames()[frame as int]);
            }
            self.frames[frame].shift_up(count, fill);
        }
    }

    /// Fills one frame whole; an index out of range changes nothing.
    pub fn fill_frame(&mut self, frame: usize, fill: Cell)
        requires
            old(self).wf(),
            cell_wf(fill),
        ensures
            final(self).wf(),
            final(self).spec_width() == old(self).spec_width(),
            final(self).spec_height() == old(self).spec_height(),
            final(self).spec_text_pin() == old(self).spec_text_pin(),
            final(self).spec_color_pin() == old(self).spec_color_pin(),
            final(self).spec_frames().len() == old(self).spec_frames().len(),
            forall|i: int|
                0 <= i < old(self).spec_frames().len() && i != frame ==> #[trigger] final(self).spec_frames()[i] == old(self).spec_frames()[i],
            frame < old(self).spec_frames().len() ==> frame_filled(old(self).spec_frames()[frame as int], final(self).spec_frames()[frame as int], fill),
    {
        if frame < self.frames.len() {
            proof {
                assert(self.frames@[frame as int] == old(self).spec_frames()[frame as int]);
            }
            self.frames[frame].fill(fill);
        }
    }

    /// Sets every cell's text in one frame; an index out of range changes nothing.
    pub fn fill_text_frame(&mut self, frame: usize, fill: Char)
        requires
            old(self).wf(),
            fill.wf(),
        ensures
            final(self).wf(),
            final(self).spec_width() == old(self).spec_width(),
            final(self).spec_height() == old(self).spec_height(),
            final(self).spec_text_pin() == old(self).spec_text_pin(),
            final(self).spec_color_pin() == old(self).spec_color_pin(),
            final(self).spec_frames().len() == old(self).spec_frames().len(),
            forall|i: int|
                0 <= i < old(self).spec_frames().len() && i != frame ==> #[trigger] final(self).spec_frames()[i] == old(self).spec_frames()[i],
            frame < old(self).spec_frames().len() ==> frame_text_filled(old(self).spec_frames()[frame as int], final(self).spec_frames()[frame as int], fill),
    {
        if frame < self.frames.len() {
            proof {
                assert(self.frames@[frame as int] == old(self).spec_frames()[frame as int]);
            }
            self.frames[frame].fill_text(fill);
        }
    }

    /// Sets every cell's color in one frame; an index out of range changes nothing.
    pub fn fill_color_frame(&mut self, frame: usize, fill: Option<Char>)
        requires
            old(self).wf(),
            fill matches Some(k) ==> k.wf(),
        ensures
            final(self).wf(),
            final(self).spec_width() == old(self).spec_width(),
            final(self).spec_height() == old(self).spec_height(),
            final(self).spec_text_pin() == old(self).spec_text_pin(),
            final(self).spec_color_pin() == old(self).spec_color_pin(),
            final(self).spec_frames().len() == old(self).spec_frames().len(),
            forall|i: int|
                0 <= i < old(self).spec_frames().len() && i != frame ==> #[trigger] final(self).spec_frames()[i] == old(self).spec_frames()[i],
            frame < old(self).spec_frames().len() ==> frame_color_filled(old(self).spec_frames()[frame as int], final(self).spec_frames()[frame as int], fill),
    {
        if frame < self.frames.len() {
            proof {
                assert(self.frames@[frame as int] == old(self).spec_frames()[frame as int]);
            }
            self.frames[frame].fill_color(fill);
        }
    }

    /// Clears one frame; an index out of range changes nothing.
    pub fn clean_frame(&mut self, frame: usize)
        requires
            old(self).wf(),
        ensures
            final(self).wf(),
            final(self).spec_width() == old(self).spec_width(),
            final(self).spec_height() == old(self).spec_height(),
            final(self).spec_text_pin() == old(self).spec_text_pin(),
            final(self).spec_color_pin() == old(self).spec_color_pin(),
            final(self).spec_frames().len() == old(self).spec_frames().len(),
            forall|i: int|
                0 <= i < old(self).spec_frames().len() && i != frame ==> #[trigger] final(self).spec_frames()[i] == old(self).spec_frames()[i],
            frame < old(self).spec_frames().len() ==> frame_cleaned(old(self).spec_frames()[frame as int], final(self).spec_frames()[frame as int]),
    {
        if frame < self.frames.len() {
            proof {
                assert(self.frames@[frame as int] == old(self).spec_frames()[frame as int]);
            }
            self.frames[frame].clean();
        }
    }
}


/// `b` is `a` with only the width resized.
pub open spec fn frame_width_resized(a: Frame, b: Frame, w: int, fill: Cell) -> bool {
    &&& b.spec_width() == w
    &&& b.spec_height() == a.spec_height()
    &&& forall|r: int|
        0 <= r < a.grid().len() ==> (#[trigger] b.grid()[r]) == spec_resize_row(
            a.grid()[r],
            w,
            fill,
        )
}

/// `b` is `a` with only the height resized.
pub open spec fn frame_height_resized(a: Frame, b: Frame, h: int, fill: Cell) -> bool {
    &&& b.spec_width() == a.spec_width()
    &&& b.spec_height() == h
    &&& forall|r: int| 0 <= r < h && r < a.spec_height() ==> #[trigger] b.grid()[r] == a.grid()[r]
    &&& forall|r: int, c: int|
        a.spec_height() <= r < h && 0 <= c < a.spec_width() ==> (#[trigger] b.grid()[r][c]) == fill
}

impl Frames {
    /// Resizes every frame and the shared dimensions exactly.
    pub fn resize(&mut self, width: usize, height: usize, fill: Cell)
        requires
            old(self).wf(),
            cell_wf(fill),
            old(self).spec_height() * width <= usize::MAX,
            height * width <= usize::MAX,
        ensures
            final(self).wf(),
            final(self).spec_width() == width,
            final(self).spec_height() == height,
            final(self).spec_text_pin() == old(self).spec_text_pin(),
            final(self).spec_color_pin() == old(self).spec_color_pin(),
            final(self).spec_frames().len() == old(self).spec_frames().len(),
            forall|i: int|
                0 <= i < old(self).spec_frames().len() ==> #[trigger] frame_resized(
                    old(self).spec_frames()[i],
                    final(self).spec_frames()[i],
                    width as int,
                    height as int,
                    fill,
                ),
    {
        let ghost fs0 = self.frames@;
        let n = self.frames.len();
        let mut i: usize = 0;
        while i < n
            invariant
                i <= n,
                n == self.frames@.len(),
                fs0 == old(self).frames@,
                fs0.len() == n,
                self.width == old(self).width,
                self.height == old(self).height,
                self.text_pin == old(self).text_pin,
                self.color_pin == old(self).color_pin,
                old(self).wf(),
                cell_wf(fill),
                old(self).spec_height() * width <= usize::MAX,
                height * width <= usize::MAX,
                forall|k: int| i <= k < n ==> #[trigger] self.frames@[k] == fs0[k],
                forall|k: int|
                    0 <= k < i ==> #[trigger] frame_resized(
                        fs0[k],
                        self.frames@[k],
                        width as int,
                        height as int,
                        fill,
                    ),
                forall|k: int|
                    0 <= k < i ==> (#[trigger] self.frames@[k]).wf() && self.frames@[k].spec_width()
                        == width && self.frames@[k].spec_height() == height,
            decreases n - i,
        {
            proof {
                assert(self.frames@[i as int] == fs0[i as int]);
                assert(old(self).spec_frames()[i as int] == fs0[i as int]);
            }
            self.frames[i].resize(width, height, fill);
            i = i + 1;
        }
        self.width = width;
        self.height = height;
        proof {
            let h2 = self.spec_height();
            let w2 = self.spec_width();
            assert(h2 * w2 <= usize::MAX) by (nonlinear_arith)
                requires
                    h2 == height,
                    w2 == width,
                    height * width <= usize::MAX,
            ;
        }
    }

    /// Resizes the width of every frame and the shared width exactly.
    pub fn resize_width(&mut self, width: usize, fill: Cell)
        requires
            old(self).wf(),
            cell_wf(fill),
            old(self).spec_height() * width <= usize::MAX,
        ensures
            final(self).wf(),
            final(self).spec_width() == width,
            final(self).spec_height() == old(self).spec_height(),
            final(self).spec_text_pin() == old(self).spec_text_pin(),
            final(self).spec_color_pin() == old(self).spec_color_pin(),
            final(self).spec_frames().len() == old(self).spec_frames().len(),
            forall|i: int|
                0 <= i < old(self).spec_frames().len() ==> #[trigger] frame_width_resized(
                    old(self).spec_frames()[i],
                    final(self).spec_frames()[i],
                    width as int,
                    fill,
                ),
    {
        let ghost fs0 = self.frames@;
        let n = self.frames.len();
        let mut i: usize = 0;
        while i < n
            invariant
                i <= n,
                n == self.frames@.len(),
                fs0 == old(self).frames@,
                fs0.len() == n,
                self.width == old(self).width,
                self.height == old(self).height,
                self.text_pin == old(self).text_pin,
                self.color_pin == old(self).color_pin,
                old(self).wf(),
                cell_wf(fill),
                old(self).spec_height() * width <= usize::MAX,
                forall|k: int| i <= k < n ==> #[trigger] self.frames@[k] == fs0[k],
                forall|k: int|
                    0 <= k < i ==> #[trigger] frame_width_resized(
                        fs0[k],
                        self.frames@[k],
                        width as int,
                        fill,
                    ),
                forall|k: int|
                    0 <= k < i ==> (#[trigger] self.frames@[k]).wf() && self.frames@[k].spec_width()
                        == width && self.frames@[k].spec_height() == self.spec_height(),
            decreases n - i,
        {
            proof {
                assert(self.frames@[i as int] == fs0[i as int]);
                assert(old(self).spec_frames()[i as int] == fs0[i as int]);
            }
            self.frames[i].resize_width(width, fill);
            i = i + 1;
        }
        self.width = width;
        proof {
            let h2 = self.spec_height();
            let w2 = self.spec_width();
            let bound = old(self).spec_height() * width;
            assert(h2 * w2 <= usize::MAX) by (nonlinear_arith)
                requires
                    h2 * w2 == bound,
                    bound <= usize::MAX,
            ;
        }
    }

    /// Resizes the height of every frame and the shared height exactly.
    pub fn resize_height(&mut self, height: usize, fill: Cell)
        requires
            old(self).wf(),
            cell_wf(fill),
            height * old(self).spec_width() <= usize::MAX,
        ensures
            final(self).wf(),
            final(self).spec_width() == old(self).spec_width(),
            final(self).spec_height() == height,
            final(self).spec_text_pin() == old(self).spec_text_pin(),
            final(self).spec_color_pin() == old(self).spec_color_pin(),
            final(self).spec_frames().len() == old(self).spec_frames().len(),
            forall|i: int|
                0 <= i < old(self).spec_frames().len() ==> #[trigger] frame_height_resized(
                    old(self).spec_frames()[i],
                    final(self).spec_frames()[i],
                    height as int,
                    fill,
                ),
    {
        let ghost fs0 = self.frames@;
        let n = self.frames.len();
        let mut i: usize = 0;
        while i < n
            invariant
                i <= n,
                n == self.frames@.len(),
                fs0 == old(self).frames@,
                fs0.len() == n,
                self.width == old(self).width,
                self.height == old(self).height,
                self.text_pin == old(self).text_pin,
                self.color_pin == old(self).color_pin,
                old(self).wf(),
                cell_wf(fill),
                height * old(self).spec_width() <= usize::MAX,
                forall|k: int| i <= k < n ==> #[trigger] self.frames@[k] == fs0[k],
                forall|k: int|
                    0 <= k < i ==> #[trigger] frame_height_resized(
                        fs0[k],
                        self.frames@[k],
                        height as int,
                        fill,
                    ),
                forall|k: int|
                    0 <= k < i ==> (#[trigger] self.frames@[k]).wf() && self.frames@[k].spec_width()
                        == self.spec_width() && self.frames@[k].spec_height() == height,
            decreases n - i,
        {
            proof {
                assert(self.frames@[i as int] == fs0[i as int]);
                assert(old(self).spec_frames()[i as int] == fs0[i as int]);
            }
            self.frames[i].resize_height(height, fill);
            i = i + 1;
        }
        self.height = height;
        proof {
            let h2 = self.spec_height();
            let w2 = self.spec_width();
            let bound = height * old(self).spec_width();
            assert(h2 * w2 <= usize::MAX) by (nonlinear_arith)
                requires
                    h2 * w2 == bound,
                    bound <= usize::MAX,
            ;
        }
    }

    /// Grows every frame and the shared dimensions, never shrinking.
    pub fn adjust(&mut self, width: usize, height: usize, fill: Cell)
        requires
            old(self).wf(),
            cell_wf(fill),
            old(self).spec_height() * width <= usize::MAX,
            height * width <= usize::MAX,
            height * old(self).spec_width() <= usize::MAX,
        ensures
            final(self).wf(),
            final(self).spec_width() == (if width > old(self).spec_width() {
                width as nat
            } else {
                old(self).spec_width()
            }),
            final(self).spec_height() == (if height > old(self).spec_height() {
                height as nat
            } else {
                old(self).spec_height()
            }),
            final(self).spec_text_pin() == old(self).spec_text_pin(),
            final(self).spec_color_pin() == old(self).spec_color_pin(),
            final(self).spec_frames().len() == old(self).spec_frames().len(),
            forall|i: int|
                0 <= i < old(self).spec_frames().len() ==> #[trigger] frame_adjusted(
                    old(self).spec_frames()[i],
                    final(self).spec_frames()[i],
                    width as int,
                    height as int,
                    fill,
                ),
    {
        let ghost fs0 = self.frames@;
        let n = self.frames.len();
        let mut i: usize = 0;
        while i < n
            invariant
                i <= n,
                n == self.frames@.len(),
                fs0 == old(self).frames@,
                fs0.len() == n,
                self.width == old(self).width,
                self.height == old(self).height,
                self.text_pin == old(self).text_pin,
                self.color_pin == old(self).color_pin,
                old(self).wf(),
                cell_wf(fill),
                old(self).spec_height() * width <= usize::MAX,
                height * width <= usize::MAX,
                height * old(self).spec_width() <= usize::MAX,
                forall|k: int| i <= k < n ==> #[trigger] self.frames@[k] == fs0[k],
                forall|k: int|
                    0 <= k < i ==> #[trigger] frame_adjusted(
                        fs0[k],
                        self.frames@[k],
                        width as int,
                        height as int,
                        fill,
                    ),
                forall|k: int|
                    0 <= k < i ==> (#[trigger] self.frames@[k]).wf() && self.frames@[k].spec_width()
                        == (if width > old(self).spec_width() {
                        width as nat
                    } else {
                        old(self).spec_width()
                    }) && self.frames@[k].spec_height() == (if height > old(self).spec_height() {
                        height as nat
                    } else {
                        old(self).spec_height()
                    }),
            decreases n - i,
        {
            proof {
                assert(self.frames@[i as int] == fs0[i as int]);
                assert(old(self).spec_frames()[i as int] == fs0[i as int]);
            }
            self.frames[i].adjust(width, height, fill);
            i = i + 1;
        }
        if width > self.width {
            self.width = width;
        }
        if height > self.height {
            self.height = height;
        }
        proof {
            let w2 = self.spec_width();
            let h2 = self.spec_height();
            let w0 = old(self).spec_width();
            let h0 = old(self).spec_height();
            let b1 = h0 * w0;
            let b2 = h0 * width;
            let b3 = height * width;
            let b4 = height * w0;
            assert(h2 * w2 <= usize::MAX) by (nonlinear_arith)
                requires
                    (w2 == w0 || w2 == width) && (h2 == h0 || h2 == height),
                    b1 == h0 * w0 && b2 == h0 * width && b3 == height * width && b4 == height * w0,
                    b1 <= usize::MAX,
                    b2 <= usize::MAX,
                    b3 <= usize::MAX,
                    b4 <= usize::MAX,
            ;
        }
    }

    /// Grows the width of every frame, never shrinking.
    pub fn adjust_width(&mut self, width: usize, fill: Cell)
        requires
            old(self).wf(),
            cell_wf(fill),
            old(self).spec_height() * width <= usize::MAX,
        ensures
            final(self).wf(),
            final(self).spec_width() == (if width > old(self).spec_width() {
                width as nat
            } else {
                old(self).spec_width()
            }),
            final(self).spec_height() == old(self).spec_height(),
            final(self).spec_frames().len() == old(self).spec_frames().len(),
            final(self).spec_text_pin() == old(self).spec_text_pin(),
            final(self).spec_color_pin() == old(self).spec_color_pin(),
            forall|i: int|
                0 <= i < old(self).spec_frames().len() ==> #[trigger] frame_adjusted(
                    old(self).spec_frames()[i],
                    final(self).spec_frames()[i],
                    width as int,
                    old(self).spec_height() as int,
                    fill,
                ),
    {
        let h = self.height;
        self.adjust(width, h, fill);
    }

    /// Grows the height of every frame, never shrinking.
    pub fn adjust_height(&mut self, height: usize, fill: Cell)
        requires
            old(self).wf(),
            cell_wf(fill),
            height * old(self).spec_width() <= usize::MAX,
        ensures
            final(self).wf(),
            final(self).spec_width() == old(self).spec_width(),
            final(self).spec_height() == (if height > old(self).spec_height() {
                height as nat
            } else {
                old(self).spec_height()
            }),
            final(self).spec_frames().len() == old(self).spec_frames().len(),
            final(self).spec_text_pin() == old(self).spec_text_pin(),
            final(self).spec_color_pin() == old(self).spec_color_pin(),
            forall|i: int|
                0 <= i < old(self).spec_frames().len() ==> #[trigger] frame_adjusted(
                    old(self).spec_frames()[i],
                    final(self).spec_frames()[i],
                    old(self).spec_width() as int,
                    height as int,
                    fill,
                ),
    {
        let w = self.width;
        self.adjust(w, height, fill);
    }
}

impl Frame {
    /// An exact copy of the frame.
    pub fn duplicate(&self) -> (r: Frame)
        ensures
            r.grid() == self.grid(),
            r.spec_width() == self.spec_width(),
            r.spec_colors() == self.spec_colors(),
            r.spec_height() == self.spec_height(),
    {
        let mut rows: Vec<Vec<Cell>> = Vec::new();
        let mut i: usize = 0;
        while i < self.rows.len()
            invariant
                i <= self.rows@.len(),
                rows@.len() == i,
                forall|k: int| 0 <= k < i ==> #[trigger] rows@[k]@ == self.rows@[k]@,
            decreases self.rows@.len() - i,
        {
            let nr = copy_row(&self.rows[i]);
            rows.push(nr);
            i = i + 1;
        }
        let r = Frame { color: self.color, width: self.width, rows };
        proof {
            assert(r.grid() =~= self.grid());
        }
        r
    }
}

/// Merges the text channel of one frame with the color channel of another.
/// The dimensions must match exactly: a height or width mismatch is the
/// corresponding error, never a coercion.
pub fn merge_frames(text: &Frame, color: &Frame) -> (r: Result<Frame, Error>)
    requires
        text.wf(),
        color.wf(),
    ensures
        text.spec_height() != color.spec_height() ==> (r matches Err(e) && e is HeightMismatch),
        text.spec_height() == color.spec_height() && text.spec_width() != color.spec_width() ==> (
        r matches Err(e) && e is WidthMismatch),
        text.spec_height() == color.spec_height() && text.spec_width() == color.spec_width() ==> (
        r matches Ok(f) && {
            &&& f.wf()
            &&& f.spec_width() == text.spec_width()
            &&& f.spec_height() == text.spec_height()
            &&& forall|x: int, y: int|
                0 <= x < f.spec_height() && 0 <= y < f.spec_width() ==> (#[trigger] f.grid()[x][y])
                    == (Cell {
                    text: text.grid()[x][y].text,
                    color: color.grid()[x][y].color,
                })
        }),
{
    if text.height() != color.height() {
        return Err(Error::HeightMismatch);
    }
    if text.width() != color.width() {
        return Err(Error::WidthMismatch);
    }
    let h = text.height();
    let w = text.width();
    let mut rows: Vec<Vec<Cell>> = Vec::new();
    let mut x: usize = 0;
    while x < h
        invariant
            x <= h,
            text.wf(),
            color.wf(),
            h == text.spec_height() == color.spec_height(),
            w == text.spec_width() == color.spec_width(),
            rows@.len() == x,
            forall|i: int| 0 <= i < x ==> (#[trigger] rows@[i]@).len() == w,
            forall|i: int, y: int|
                0 <= i < x && 0 <= y < w ==> (#[trigger] rows@[i]@[y]) == (Cell {
                    text: text.grid()[i][y].text,
                    color: color.grid()[i][y].color,
                }),
        decreases h - x,
    {
        let mut row: Vec<Cell> = Vec::new();
        let mut y: usize = 0;
        while y < w
            invariant
                y <= w,
                x < h,
                text.wf(),
                color.wf(),
                h == text.spec_height() == color.spec_height(),
                w == text.spec_width() == color.spec_width(),
                row@.len() == y,
                forall|k: int|
                    0 <= k < y ==> (#[trigger] row@[k]) == (Cell {
                        text: text.grid()[x as int][k].text,
                        color: color.grid()[x as int][k].color,
                    }),
            decreases w - y,
        {
            let tc = text.get(y, x, Cell::default());
            let cc = color.get(y, x, Cell::default());
            row.push(Cell { text: tc.text, color: cc.color });
            y = y + 1;
        }
        rows.push(row);
        x = x + 1;
    }
    let mut f = Frame { color: 0, width: w, rows };
    proof {
        assert(forall|i: int| 0 <= i < h ==> (#[trigger] f.grid()[i]) == f.rows@[i]@);
        assert(frame_shape_ok(f.grid(), f.spec_width()));
        assert(f.spec_height() * f.spec_width() <= usize::MAX) by (nonlinear_arith)
            requires
                f.spec_height() * f.spec_width() == text.spec_height() * text.spec_width(),
                text.spec_height() * text.spec_width() <= usize::MAX,
        ;
    }
    f.recalc_colors();
    Ok(f)
}

/// All frames agree on the text at every position.
pub open spec fn spec_text_pinned(fs: Seq<Frame>, w: nat, h: nat) -> bool {
    forall|i: int, r: int, c: int|
        0 <= i < fs.len() && 0 <= r < h && 0 <= c < w ==> (#[trigger] fs[i].grid()[r][c]).text
            == fs[0].grid()[r][c].text
}

/// All frames agree on the color at every position.
pub open spec fn spec_color_pinned(fs: Seq<Frame>, w: nat, h: nat) -> bool {
    forall|i: int, r: int, c: int|
        0 <= i < fs.len() && 0 <= r < h && 0 <= c < w ==> (#[trigger] fs[i].grid()[r][c]).color
            == fs[0].grid()[r][c].color
}

impl Frames {
    /// Whether the two channels match a reference frame everywhere.
    fn frame_channels_match(a: &Frame, b: &Frame) -> (r: (bool, bool))
        requires
            a.wf(),
            b.wf(),
            frame_dims(*a, *b),
        ensures
            r.0 == forall|x: int, y: int|
                0 <= x < a.spec_height() && 0 <= y < a.spec_width() ==> (
                #[trigger] b.grid()[x][y]).text == a.grid()[x][y].text,
            r.1 == forall|x: int, y: int|
                0 <= x < a.spec_height() && 0 <= y < a.spec_width() ==> (
                #[trigger] b.grid()[x][y]).color == a.grid()[x][y].color,
    {
        let h = a.height();
        let w = a.width();
        let mut text_ok = true;
        let mut color_ok = true;
        let mut x: usize = 0;
        while x < h
            invariant
                x <= h,
                a.wf(),
                b.wf(),
                frame_dims(*a, *b),
                h == a.spec_height(),
                w == a.spec_width(),
                text_ok == forall|i: int, y: int|
                    0 <= i < x && 0 <= y < w ==> (#[trigger] b.grid()[i][y]).text
                        == a.grid()[i][y].text,
                color_ok == forall|i: int, y: int|
                    0 <= i < x && 0 <= y < w ==> (#[trigger] b.grid()[i][y]).color
                        == a.grid()[i][y].color,
            decreases h - x,
        {
            let mut y: usize = 0;
            let mut row_text_ok = true;
            let mut row_color_ok = true;
            while y < w
                invariant
                    y <= w,
                    x < h,
                    a.wf(),
                    b.wf(),
                    frame_dims(*a, *b),
                    h == a.spec_height(),
                    w == a.spec_width(),
                    row_text_ok == forall|k: int|
                        0 <= k < y ==> (#[trigger] b.grid()[x as int][k]).text
                            == a.grid()[x as int][k].text,
                    row_color_ok == forall|k: int|
                        0 <= k < y ==> (#[trigger] b.grid()[x as int][k]).color
                            == a.grid()[x as int][k].color,
                decreases w - y,
            {
                let ca = a.get(y, x, Cell::default());
                let cb = b.get(y, x, Cell::default());
                if !(ca.text.to_char() == cb.text.to_char()) {
                    row_text_ok = false;
                } else {
                    proof {
                        crate::chars::lemma_char_view_eq(ca.text, cb.text);
                    }
                }
                let col_eq: bool = match (ca.color, cb.color) {
                    (None, None) => true,
                    (Some(p), Some(q)) => p.to_char() == q.to_char(),
                    _ => false,
                };
                if !col_eq {
                    row_color_ok = false;
                } else {
                    proof {
                        match (ca.color, cb.color) {
                            (Some(p), Some(q)) => {
                                if p@ == q@ {
                                    crate::chars::lemma_char_view_eq(p, q);
                                }
                            },
                            _ => {},
                        }
                    }
                }
                y = y + 1;
            }
            text_ok = text_ok && row_text_ok;
            color_ok = color_ok && row_color_ok;
            x = x + 1;
        }
        (text_ok, color_ok)
    }

    /// Whether the text and the color channel are each identical across all
    /// frames.  With fewer than two frames nothing counts as pinned.
    pub fn pinned(&self) -> (r: (bool, bool))
        requires
            self.wf(),
        ensures
            self.spec_frames().len() < 2 ==> r == (false, false),
            self.spec_frames().len() >= 2 ==> {
                &&& r.0 == spec_text_pinned(
                    self.spec_frames(),
                    self.spec_width(),
                    self.spec_height(),
                )
                &&& r.1 == spec_color_pinned(
                    self.spec_frames(),
                    self.spec_width(),
                    self.spec_height(),
                )
            },
    {
        let n = self.frames.len();
        if n < 2 {
            return (false, false);
        }
        let mut text_pinned = true;
        let mut color_pinned = true;
        let mut i: usize = 1;
        while i < n
            invariant
                1 <= i <= n,
                n == self.spec_frames().len(),
                self.wf(),
                text_pinned == forall|k: int, x: int, y: int|
                    0 <= k < i && 0 <= x < self.spec_height() && 0 <= y < self.spec_width() ==> (
                    #[trigger] self.spec_frames()[k].grid()[x][y]).text
                        == self.spec_frames()[0].grid()[x][y].text,
                color_pinned == forall|k: int, x: int, y: int|
                    0 <= k < i && 0 <= x < self.spec_height() && 0 <= y < self.spec_width() ==> (
                    #[trigger] self.spec_frames()[k].grid()[x][y]).color
                        == self.spec_frames()[0].grid()[x][y].color,
            decreases n - i,
        {
            proof {
                assert(self.spec_frames()[0] == self.frames@[0]);
                assert(self.spec_frames()[i as int] == self.frames@[i as int]);
            }
            let (t, c) = Self::frame_channels_match(&self.frames[0], &self.frames[i]);
            text_pinned = text_pinned && t;
            color_pinned = color_pinned && c;
            i = i + 1;
        }
        (text_pinned, color_pinned)
    }
}

/// On at least two frames with identical grids, both channels are pinned.
pub proof fn lemma_identical_frames_pinned(fs: Seq<Frame>, w: nat, h: nat)
    requires
        forall|i: int| 0 <= i < fs.len() ==> (#[trigger] fs[i]).grid() == fs[0].grid(),
    ensures
        spec_text_pinned(fs, w, h),
        spec_color_pinned(fs, w, h),
{
}

impl Frames {
    /// A pin frame fits when its dimensions equal the shared ones, or there
    /// is nothing to merge it into.
    pub open spec fn pin_fits(&self, p: Option<Frame>) -> bool {
        match p {
            Some(f) => self.spec_frames().len() > 0 ==> (f.spec_width() == self.spec_width()
                && f.spec_height() == self.spec_height()),
            None => true,
        }
    }

    /// Replaces every frame's channels from the pins: the color pin gives
    /// every frame its color channel, the text pin its text channel; both
    /// pins are consumed.  A pin of different dimensions is a hard error.
    pub fn merge(&mut self) -> (r: Result<(), Error>)
        requires
            old(self).wf(),
        ensures
            final(self).wf(),
            final(self).spec_width() == old(self).spec_width(),
            final(self).spec_height() == old(self).spec_height(),
            final(self).spec_frames().len() == old(self).spec_frames().len(),
            (r is Ok) == (old(self).pin_fits(old(self).spec_color_pin()) && old(self).pin_fits(
                old(self).spec_text_pin(),
            )),
            r matches Err(e) ==> (e is WidthMismatch || e is HeightMismatch),
            r is Ok ==> {
                &&& final(self).spec_text_pin() is None
                &&& final(self).spec_color_pin() is None
                &&& forall|i: int, x: int, y: int|
                    0 <= i < old(self).spec_frames().len() && 0 <= x < old(self).spec_height() && 0
                        <= y < old(self).spec_width() ==> (#[trigger] final(
                        self).spec_frames()[i].grid()[x][y]) == (Cell {
                        text: match old(self).spec_text_pin() {
                            Some(tp) => tp.grid()[x][y].text,
                            None => old(self).spec_frames()[i].grid()[x][y].text,
                        },
                        color: match old(self).spec_color_pin() {
                            Some(cp) => cp.grid()[x][y].color,
                            None => old(self).spec_frames()[i].grid()[x][y].color,
                        },
                    })
            },
    {
        let ghost fs0 = self.frames@;
        let cp: Option<Frame> = match &self.color_pin {
            Some(f) => Some(f.duplicate()),
            None => None,
        };
        match cp {
            Some(cpf) => {
                let n = self.frames.len();
                let mut i: usize = 0;
                while i < n
                    invariant
                        i <= n,
                        n == self.frames@.len(),
                        fs0 == old(self).frames@,
                        fs0.len() == n,
                        self.width == old(self).width,
                        self.height == old(self).height,
                        self.text_pin == old(self).text_pin,
                        self.color_pin == old(self).color_pin,
                        old(self).wf(),
                        cpf.wf(),
                        old(self).spec_color_pin() matches Some(f) && cpf.grid() == f.grid()
                            && cpf.spec_width() == f.spec_width() && cpf.spec_height()
                            == f.spec_height(),
                        i > 0 ==> cpf.spec_width() == self.spec_width() && cpf.spec_height()
                            == self.spec_height(),
                        forall|k: int| i <= k < n ==> #[trigger] self.frames@[k] == fs0[k],
                        forall|k: int|
                            0 <= k < i ==> (#[trigger] self.frames@[k]).wf()
                                && self.frames@[k].spec_width() == self.spec_width()
                                && self.frames@[k].spec_height() == self.spec_height(),
                        forall|k: int, x: int, y: int|
                            0 <= k < i && 0 <= x < self.spec_height() && 0 <= y
                                < self.spec_width() ==> (
                            #[trigger] self.frames@[k].grid()[x][y]) == (Cell {
                                text: fs0[k].grid()[x][y].text,
                                color: cpf.grid()[x][y].color,
                            }),
                    decreases n - i,
                {
                    proof {
                        assert(self.frames@[i as int] == fs0[i as int]);
                        assert(old(self).spec_frames()[i as int] == fs0[i as int]);
                    }
                    match merge_frames(&self.frames[i], &cpf) {
                        Ok(f) => {
                            self.frames[i] = f;
                        },
                        Err(e) => {
                            return Err(e);
                        },
                    }
                    i = i + 1;
                }
            },
            None => {},
        }
        let ghost fs1 = self.frames@;
        let tp: Option<Frame> = match &self.text_pin {
            Some(f) => Some(f.duplicate()),
            None => None,
        };
        match tp {
            Some(tpf) => {
                let n = self.frames.len();
                let mut i: usize = 0;
                while i < n
                    invariant
                        i <= n,
                        n == self.frames@.len(),
                        n == old(self).spec_frames().len(),
                        fs1.len() == n,
                        self.width == old(self).width,
                        self.height == old(self).height,
                        self.text_pin == old(self).text_pin,
                        self.color_pin == old(self).color_pin,
                        old(self).wf(),
                        tpf.wf(),
                        old(self).spec_text_pin() matches Some(f) && tpf.grid() == f.grid()
                            && tpf.spec_width() == f.spec_width() && tpf.spec_height()
                            == f.spec_height(),
                        i > 0 ==> tpf.spec_width() == self.spec_width() && tpf.spec_height()
                            == self.spec_height(),
                        forall|k: int| i <= k < n ==> #[trigger] self.frames@[k] == fs1[k],
                        forall|k: int|
                            i <= k < n ==> (#[trigger] self.frames@[k]).wf()
                                && self.frames@[k].spec_width() == self.spec_width()
                                && self.frames@[k].spec_height() == self.spec_height(),
                        forall|k: int|
                            0 <= k < i ==> (#[trigger] self.frames@[k]).wf()
                                && self.frames@[k].spec_width() == self.spec_width()
                                && self.frames@[k].spec_height() == self.spec_height(),
                        forall|k: int, x: int, y: int|
                            0 <= k < i && 0 <= x < self.spec_height() && 0 <= y
                                < self.spec_width() ==> (
                            #[trigger] self.frames@[k].grid()[x][y]) == (Cell {
                                text: tpf.grid()[x][y].text,
                                color: fs1[k].grid()[x][y].color,
                            }),
                    decreases n - i,
                {
                    proof {
                        assert(self.frames@[i as int] == fs1[i as int]);
                    }
                    match merge_frames(&tpf, &self.frames[i]) {
                        Ok(f) => {
                            self.frames[i] = f;
                        },
                        Err(e) => {
                            return Err(e);
                        },
                    }
                    i = i + 1;
                }
            },
            None => {},
        }
        self.color_pin = None;
        self.text_pin = None;
        Ok(())
    }
}

impl Frames {
    /// Pins the color channel of one frame onto every frame; an index out
    /// of range changes nothing.
    pub fn pin_color(&mut self, frame: usize) -> (r: Result<(), Error>)
        requires
            old(self).wf(),
            old(self).spec_text_pin() is None,
            old(self).spec_color_pin() is None,
        ensures
            final(self).wf(),
            final(self).spec_width() == old(self).spec_width(),
            final(self).spec_height() == old(self).spec_height(),
            final(self).spec_frames().len() == old(self).spec_frames().len(),
            r is Ok,
            final(self).spec_text_pin() is None,
            final(self).spec_color_pin() is None,
            frame >= old(self).spec_frames().len() ==> final(self).spec_frames() == old(
                self,
            ).spec_frames(),
            frame < old(self).spec_frames().len() ==> forall|i: int, x: int, y: int|
                0 <= i < old(self).spec_frames().len() && 0 <= x < old(self).spec_height() && 0 <= y
                    < old(self).spec_width() ==> (#[trigger] final(
                    self).spec_frames()[i].grid()[x][y]) == (Cell {
                    text: old(self).spec_frames()[i].grid()[x][y].text,
                    color: old(self).spec_frames()[frame as int].grid()[x][y].color,
                }),
    {
        if frame >= self.frames.len() {
            return Ok(());
        }
        proof {
            assert(self.frames@[frame as int] == self.spec_frames()[frame as int]);
        }
        let pin = self.frames[frame].duplicate();
        self.color_pin = Some(pin);
        let r = self.merge();
        proof {
            assert(r is Ok);
        }
        r
    }

    /// Pins the text channel of one frame onto every frame; an index out of
    /// range changes nothing.
    pub fn pin_text(&mut self, frame: usize) -> (r: Result<(), Error>)
        requires
            old(self).wf(),
            old(self).spec_text_pin() is None,
            old(self).spec_color_pin() is None,
        ensures
            final(self).wf(),
            final(self).spec_width() == old(self).spec_width(),
            final(self).spec_height() == old(self).spec_height(),
            final(self).spec_frames().len() == old(self).spec_frames().len(),
            r is Ok,
            final(self).spec_text_pin() is None,
            final(self).spec_color_pin() is None,
            frame >= old(self).spec_frames().len() ==> final(self).spec_frames() == old(
                self,
            ).spec_frames(),
            frame < old(self).spec_frames().len() ==> forall|i: int, x: int, y: int|
                0 <= i < old(self).spec_frames().len() && 0 <= x < old(self).spec_height() && 0 <= y
                    < old(self).spec_width() ==> (#[trigger] final(
                    self).spec_frames()[i].grid()[x][y]) == (Cell {
                    text: old(self).spec_frames()[frame as int].grid()[x][y].text,
                    color: old(self).spec_frames()[i].grid()[x][y].color,
                }),
    {
        if frame >= self.frames.len() {
            return Ok(());
        }
        proof {
            assert(self.frames@[frame as int] == self.spec_frames()[frame as int]);
        }
        let pin = self.frames[frame].duplicate();
        self.text_pin = Some(pin);
        let r = self.merge();
        proof {
            assert(r is Ok);
        }
        r
    }

    /// Removes one frame; an index out of range changes nothing.
    pub fn remove_frame(&mut self, frame: usize)
        requires
            old(self).wf(),
        ensures
            final(self).wf(),
            final(self).spec_width() == old(self).spec_width(),
            final(self).spec_height() == old(self).spec_height(),
            final(self).spec_text_pin() == old(self).spec_text_pin(),
            final(self).spec_color_pin() == old(self).spec_color_pin(),
            final(self).spec_frames() == if frame < old(self).spec_frames().len() {
                old(self).spec_frames().remove(frame as int)
            } else {
                old(self).spec_frames()
            },
    {
        if frame < self.frames.len() {
            self.frames.remove(frame);
        }
    }

    /// Extends the frame list so the index exists: an empty animation gets
    /// default-filled frames, otherwise the last frame is repeated.
    pub fn make_sure_frame_exist(&mut self, frame: usize)
        requires
            old(self).wf(),
            frame < usize::MAX,
        ensures
            final(self).wf(),
            final(self).spec_width() == old(self).spec_width(),
            final(self).spec_height() == old(self).spec_height(),
            final(self).spec_text_pin() == old(self).spec_text_pin(),
            final(self).spec_color_pin() == old(self).spec_color_pin(),
            final(self).spec_frames().len() == if frame < old(self).spec_frames().len() {
                old(self).spec_frames().len() as int
            } else {
                frame + 1
            },
            forall|i: int|
                0 <= i < old(self).spec_frames().len() ==> #[trigger] final(self).spec_frames()[i]
                    == old(self).spec_frames()[i],
            old(self).spec_frames().len() == 0 ==> forall|i: int, x: int, y: int|
                0 <= i < final(self).spec_frames().len() && 0 <= x < old(self).spec_height() && 0
                    <= y < old(self).spec_width() ==> (#[trigger] final(
                    self).spec_frames()[i].grid()[x][y]).text@ == ' ' && final(
                    self).spec_frames()[i].grid()[x][y].color is None,
            old(self).spec_frames().len() > 0 ==> forall|i: int|
                old(self).spec_frames().len() <= i < final(self).spec_frames().len()
                    ==> (#[trigger] final(self).spec_frames()[i]).grid() == old(
                    self).spec_frames()[old(self).spec_frames().len() - 1].grid(),
    {
        if frame < self.frames.len() {
            return ;
        }
        if self.frames.len() == 0 {
            let ghost w0 = self.spec_width();
            let ghost h0 = self.spec_height();
            let mut i: usize = 0;
            while i < frame + 1
                invariant
                    i <= frame + 1,
                    frame < usize::MAX,
                    self.width == old(self).width,
                    self.height == old(self).height,
                    self.text_pin == old(self).text_pin,
                    self.color_pin == old(self).color_pin,
                    old(self).wf(),
                    old(self).spec_frames().len() == 0,
                    self.frames@.len() == i,
                    w0 == self.spec_width(),
                    h0 == self.spec_height(),
                    forall|k: int|
                        0 <= k < i ==> {
                            &&& (#[trigger] self.frames@[k]).wf()
                            &&& self.frames@[k].spec_width() == w0
                            &&& self.frames@[k].spec_height() == h0
                            &&& forall|x: int, y: int|
                                0 <= x < h0 && 0 <= y < w0 ==> (
                                #[trigger] self.frames@[k].grid()[x][y]).text@ == ' '
                                    && self.frames@[k].grid()[x][y].color is None
                        },
                decreases frame + 1 - i,
            {
                proof {
                    let hw = h0 * w0;
                    assert(self.width * self.height <= hw) by (nonlinear_arith)
                        requires
                            hw == self.height * self.width,
                    ;
                }
                let f = Frame::new(self.width, self.height, Cell::default());
                self.frames.push(f);
                i = i + 1;
            }
        } else {
            while self.frames.len() < frame + 1
                invariant
                    frame < usize::MAX,
                    self.width == old(self).width,
                    self.height == old(self).height,
                    self.text_pin == old(self).text_pin,
                    self.color_pin == old(self).color_pin,
                    old(self).wf(),
                    old(self).spec_frames().len() > 0,
                    self.frames@.len() >= old(self).spec_frames().len(),
                    self.frames@.len() <= frame + 1,
                    forall|k: int|
                        0 <= k < old(self).spec_frames().len() ==> #[trigger] self.frames@[k]
                            == old(self).spec_frames()[k],
                    forall|k: int|
                        0 <= k < self.frames@.len() ==> {
                            &&& (#[trigger] self.frames@[k]).wf()
                            &&& self.frames@[k].spec_width() == self.spec_width()
                            &&& self.frames@[k].spec_height() == self.spec_height()
                        },
                    forall|k: int|
                        old(self).spec_frames().len() <= k < self.frames@.len() ==> (
                        #[trigger] self.frames@[k]).grid() == old(self).spec_frames()[old(
                            self,
                        ).spec_frames().len() - 1].grid(),
                decreases frame + 1 - self.frames@.len(),
            {
                let last = self.frames.len() - 1;
                proof {
                    assert(self.frames@[last as int] == self.frames@[self.frames@.len() - 1]);
                }
                let f = self.frames[last].duplicate();
                self.frames.push(f);
            }
        }
    }

    /// Duplicates one frame (extending the list first so it exists),
    /// inserting the copy at its position: the copy and the original sit at
    /// the index and the one after it, earlier frames stay, later frames
    /// shift right by one.
    pub fn dup_frame(&mut self, frame: usize)
        requires
            old(self).wf(),
            frame < usize::MAX,
            old(self).spec_frames().len() < usize::MAX,
        ensures
            final(self).wf(),
            final(self).spec_width() == old(self).spec_width(),
            final(self).spec_height() == old(self).spec_height(),
            final(self).spec_frames().len() == (if frame < old(self).spec_frames().len() {
                old(self).spec_frames().len() as int
            } else {
                frame + 1
            }) + 1,
            forall|i: int|
                0 <= i < frame && i < old(self).spec_frames().len() ==> #[trigger] final(
                    self).spec_frames()[i] == old(self).spec_frames()[i],
            final(self).spec_frames()[frame as int].grid() == final(self).spec_frames()[frame
                + 1].grid(),
            frame < old(self).spec_frames().len() ==> {
                &&& final(self).spec_frames()[frame + 1] == old(self).spec_frames()[frame as int]
                &&& forall|i: int|
                    frame + 1 < i < final(self).spec_frames().len() ==> #[trigger] final(
                        self).spec_frames()[i] == old(self).spec_frames()[i - 1]
            },
            frame >= old(self).spec_frames().len() && old(self).spec_frames().len() > 0
                ==> forall|i: int|
                old(self).spec_frames().len() <= i < final(self).spec_frames().len() ==> (
                #[trigger] final(self).spec_frames()[i]).grid() == old(self).spec_frames()[old(
                    self).spec_frames().len() - 1].grid(),
            frame >= old(self).spec_frames().len() && old(self).spec_frames().len() == 0
                ==> forall|i: int, x: int, y: int|
                0 <= i < final(self).spec_frames().len() && 0 <= x < old(self).spec_height() && 0
                    <= y < old(self).spec_width() ==> (#[trigger] final(
                    self).spec_frames()[i].grid()[x][y]).text@ == ' ' && final(
                    self).spec_frames()[i].grid()[x][y].color is None,
    {
        self.make_sure_frame_exist(frame);
        let ghost mid = self.spec_frames();
        proof {
            assert(self.frames@[frame as int] == self.spec_frames()[frame as int]);
            assert(self.spec_frames()[frame as int].wf());
        }
        let f = self.frames[frame].duplicate();
        self.frames.insert(frame, f);
        proof {
            assert(self.spec_frames() =~= mid.insert(frame as int, f));
            assert(self.spec_frames()[frame + 1] == mid[frame as int]);
            assert(forall|i: int|
                0 <= i < frame ==> #[trigger] self.spec_frames()[i] == mid[i]);
            assert(forall|i: int|
                frame + 1 < i < self.spec_frames().len() ==> #[trigger] self.spec_frames()[i]
                    == mid[i - 1]);
        }
    }

    /// Whether any frame holds the given cell.
    pub fn contains(&self, cell: Cell) -> (r: bool)
        requires
            self.wf(),
        ensures
            r == exists|i: int|
                0 <= i < self.spec_frames().len() && grid_contains(
                    (#[trigger] self.spec_frames()[i]).grid(),
                    cell,
                ),
    {
        let mut i: usize = 0;
        while i < self.frames.len()
            invariant
                i <= self.spec_frames().len(),
                self.wf(),
                forall|k: int|
                    0 <= k < i ==> !grid_contains((#[trigger] self.spec_frames()[k]).grid(), cell),
            decreases self.frames@.len() - i,
        {
            proof {
                assert(self.spec_frames()[i as int] == self.frames@[i as int]);
            }
            if self.frames[i].contains(cell) {
                return true;
            }
            i = i + 1;
        }
        false
    }

    /// Whether any frame holds the given color reference.
    pub fn contains_color(&self, name: Char) -> (r: bool)
        requires
            self.wf(),
        ensures
            r == exists|i: int|
                0 <= i < self.spec_frames().len() && grid_contains_color(
                    (#[trigger] self.spec_frames()[i]).grid(),
                    name@,
                ),
    {
        let mut i: usize = 0;
        while i < self.frames.len()
            invariant
                i <= self.spec_frames().len(),
                self.wf(),
                forall|k: int|
                    0 <= k < i ==> !grid_contains_color(
                        (#[trigger] self.spec_frames()[k]).grid(),
                        name@,
                    ),
            decreases self.frames@.len() - i,
        {
            proof {
                assert(self.spec_frames()[i as int] == self.frames@[i as int]);
            }
            if self.frames[i].contains_color(name) {
                return true;
            }
            i = i + 1;
        }
        false
    }

    /// Whether any frame holds the given text character.
    pub fn contains_text(&self, ch: Char) -> (r: bool)
        requires
            self.wf(),
        ensures
            r == exists|i: int|
                0 <= i < self.spec_frames().len() && grid_contains_text(
                    (#[trigger] self.spec_frames()[i]).grid(),
                    ch@,
                ),
    {
        let mut i: usize = 0;
        while i < self.frames.len()
            invariant
                i <= self.spec_frames().len(),
                self.wf(),
                forall|k: int|
                    0 <= k < i ==> !grid_contains_text(
                        (#[trigger] self.spec_frames()[k]).grid(),
                        ch@,
                    ),
            decreases self.frames@.len() - i,
        {
            proof {
                assert(self.spec_frames()[i as int] == self.frames@[i as int]);
            }
            if self.frames[i].contains_text(ch) {
                return true;
            }
            i = i + 1;
        }
        false
    }

    /// Fills the listed positions in one frame.
    pub fn fill_area_frame(&mut self, frame: usize, columns: &Vec<usize>, rows: &Vec<usize>, new: Cell)
        requires
            old(self).wf(),
            cell_wf(new),
            frame < old(self).spec_frames().len(),
        ensures
            final(self).wf(),
            final(self).spec_width() == old(self).spec_width(),
            final(self).spec_height() == old(self).spec_height(),
            final(self).spec_text_pin() == old(self).spec_text_pin(),
            final(self).spec_color_pin() == old(self).spec_color_pin(),
            final(self).spec_frames().len() == old(self).spec_frames().len(),
            forall|i: int|
                0 <= i < old(self).spec_frames().len() && i != frame ==> #[trigger] final(
                    self).spec_frames()[i] == old(self).spec_frames()[i],
            frame_area_filled(
                old(self).spec_frames()[frame as int],
                final(self).spec_frames()[frame as int],
                columns@,
                rows@,
                new,
            ),
    {
        proof {
            assert(self.frames@[frame as int] == self.spec_frames()[frame as int]);
        }
        self.frames[frame].fill_area(columns, rows, new);
    }

    /// Prints a text into one frame; an index out of range changes nothing.
    pub fn print(&mut self, frame: usize, col: usize, row: usize, line: &str, color: Option<
        Option<Char>,
    >)
        requires
            old(self).wf(),
            color matches Some(oc) ==> (oc matches Some(k) ==> k.wf()),
            col + line@.len() <= usize::MAX,
        ensures
            final(self).wf(),
            final(self).spec_width() == old(self).spec_width(),
            final(self).spec_height() == old(self).spec_height(),
            final(self).spec_text_pin() == old(self).spec_text_pin(),
            final(self).spec_color_pin() == old(self).spec_color_pin(),
            final(self).spec_frames().len() == old(self).spec_frames().len(),
            forall|i: int|
                0 <= i < old(self).spec_frames().len() && i != frame ==> #[trigger] final(
                    self).spec_frames()[i] == old(self).spec_frames()[i],
            frame < old(self).spec_frames().len() ==> final(
                self).spec_frames()[frame as int].grid() == spec_print(
                old(self).spec_frames()[frame as int].grid(),
                col as int,
                row as int,
                line@,
                color,
            ),
    {
        if frame < self.frames.len() {
            proof {
                assert(self.frames@[frame as int] == self.spec_frames()[frame as int]);
            }
            self.frames[frame].print(col, row, line, color);
        }
    }
}

/// The normalized rows of one frame in a line stream: lines from `pos` up
/// to the first one that normalizes to nothing.
pub open spec fn frame_lines(ls: Seq<Seq<char>>, pos: int) -> Seq<Seq<char>>
    decreases ls.len() - pos,
    when 0 <= pos <= ls.len()
{
    if pos >= ls.len() {
        Seq::empty()
    } else if crate::chars::normalize_seq(ls[pos]).len() == 0 {
        Seq::empty()
    } else {
        seq![crate::chars::normalize_seq(ls[pos])] + frame_lines(ls, pos + 1)
    }
}

/// Where reading one frame leaves the position: past its rows, and past
/// the terminating blank line when there is one.
pub open spec fn frame_lines_end(ls: Seq<Seq<char>>, pos: int) -> int {
    if pos + frame_lines(ls, pos).len() < ls.len() {
        pos + frame_lines(ls, pos).len() + 1
    } else {
        pos + frame_lines(ls, pos).len()
    }
}

/// A frame's rows fit between the position and the end of the stream.
pub proof fn lemma_frame_lines_bound(ls: Seq<Seq<char>>, pos: int)
    requires
        0 <= pos <= ls.len(),
    ensures
        pos + frame_lines(ls, pos).len() <= ls.len(),
        pos <= frame_lines_end(ls, pos) <= ls.len(),
    decreases ls.len() - pos,
{
    if pos < ls.len() && crate::chars::normalize_seq(ls[pos]).len() != 0 {
        lemma_frame_lines_bound(ls, pos + 1);
    }
}

/// Reads the rows of one frame: normalized lines until a blank one, which
/// is consumed too.
pub fn take_frame_lines(lines: &Vec<String>, pos: usize) -> (r: (Vec<Vec<char>>, usize))
    requires
        pos <= lines@.len(),
    ensures
        crate::text::vecs_view(r.0@) == frame_lines(crate::text::lines_view(lines@), pos as int),
        r.1 == frame_lines_end(crate::text::lines_view(lines@), pos as int),
        r.1 <= lines@.len(),
        r.1 >= pos,
        forall|i: int, j: int|
            0 <= i < r.0@.len() && 0 <= j < r.0@[i]@.len() ==> crate::chars::char_allowed(
                #[trigger] r.0@[i]@[j],
            ),
{
    let ghost ls = crate::text::lines_view(lines@);
    proof {
        assert(ls.len() == lines@.len());
    }
    let mut rows: Vec<Vec<char>> = Vec::new();
    let mut p: usize = pos;
    loop
        invariant_except_break
            p == pos + rows@.len(),
            frame_lines(ls, pos as int) == crate::text::vecs_view(rows@) + frame_lines(ls, p as int),
        invariant
            pos <= p <= ls.len(),
            ls == crate::text::lines_view(lines@),
            ls.len() == lines@.len(),
            forall|i: int, j: int|
                0 <= i < rows@.len() && 0 <= j < rows@[i]@.len() ==> crate::chars::char_allowed(
                    #[trigger] rows@[i]@[j],
                ),
        ensures
            pos <= p <= ls.len(),
            crate::text::vecs_view(rows@) == frame_lines(ls, pos as int),
            (p == ls.len() && p == pos + rows@.len()) || (p == pos + rows@.len() + 1 && p - 1
                < ls.len()),
            forall|i: int, j: int|
                0 <= i < rows@.len() && 0 <= j < rows@[i]@.len() ==> crate::chars::char_allowed(
                    #[trigger] rows@[i]@[j],
                ),
        decreases ls.len() - p,
    {
        proof {
            lemma_frame_lines_bound(ls, p as int);
        }
        if p >= lines.len() {
            proof {
                assert(frame_lines(ls, p as int) =~= Seq::<Seq<char>>::empty());
                assert(crate::text::vecs_view(rows@) + frame_lines(ls, p as int) =~= crate::text::vecs_view(rows@));
            }
            break ;
        }
        proof {
            assert(ls[p as int] == lines@[p as int]@);
        }
        let cv = crate::text::str_to_chars(lines[p].as_str());
        let line = crate::chars::normalize_chars(&cv);
        if line.len() == 0 {
            proof {
                assert(frame_lines(ls, p as int) =~= Seq::<Seq<char>>::empty());
                assert(crate::text::vecs_view(rows@) + frame_lines(ls, p as int) =~= crate::text::vecs_view(rows@));
            }
            p = p + 1;
            break ;
        }
        proof {
            crate::chars::lemma_normalize_all_allowed(cv@);
            assert(frame_lines(ls, p as int) == seq![crate::chars::normalize_seq(ls[p as int])]
                + frame_lines(ls, p + 1));
            assert(crate::text::vecs_view(rows@).push(line@) =~= crate::text::vecs_view(rows@) + seq![line@]);
            assert((crate::text::vecs_view(rows@) + seq![line@]) + frame_lines(ls, p + 1) =~= crate::text::vecs_view(rows@)
                + (seq![line@] + frame_lines(ls, p + 1)));
        }
        let ghost rows0 = crate::text::vecs_view(rows@);
        rows.push(line);
        proof {
            assert(crate::text::vecs_view(rows@) =~= rows0.push(
                crate::chars::normalize_seq(ls[p as int]),
            ));
        }
        p = p + 1;
    }
    (rows, p)
}

/// Whether every row has the width of the first (the text-frame condition).
pub open spec fn rows_uniform(rows: Seq<Seq<char>>) -> bool {
    forall|i: int| 0 <= i < rows.len() ==> (#[trigger] rows[i]).len() == rows[0].len()
}

/// Whether every row is of one even length (the combined-frame condition).
pub open spec fn rows_uniform_even(rows: Seq<Seq<char>>) -> bool {
    forall|i: int|
        0 <= i < rows.len() ==> (#[trigger] rows[i]).len() == rows[0].len() && rows[i].len() % 2
            == 0
}

/// Whether a frame of these rows fits the machine's cell count.
pub open spec fn rows_fit(rows: Seq<Seq<char>>) -> bool {
    rows.len() * (if rows.len() > 0 {
        rows[0].len()
    } else {
        0
    }) <= usize::MAX
}

/// Whether a combined frame of these rows fits the machine's cell count.
pub open spec fn rows_fit_half(rows: Seq<Seq<char>>) -> bool {
    rows.len() * (if rows.len() > 0 {
        rows[0].len() / 2
    } else {
        0
    }) <= usize::MAX
}

impl Frame {
    /// Reads a text-only frame from the line stream: each row gives the
    /// text characters, no cell gets a color.  Rows of unequal width are a
    /// width-mismatch error.
    pub fn read_text(lines: &Vec<String>, pos: usize) -> (r: (Result<Frame, Error>, usize))
        requires
            pos <= lines@.len(),
        ensures
            ({
                let rows = frame_lines(crate::text::lines_view(lines@), pos as int);
                &&& r.1 == frame_lines_end(crate::text::lines_view(lines@), pos as int)
                &&& r.1 <= lines@.len()
                &&& r.1 >= pos
                &&& (r.0 is Ok) == (rows_uniform(rows) && rows_fit(rows))
                &&& r.0 matches Err(e) ==> e is WidthMismatch
                &&& r.0 matches Ok(f) ==> {
                    &&& f.wf()
                    &&& f.spec_height() == rows.len()
                    &&& f.spec_width() == (if rows.len() > 0 {
                        rows[0].len()
                    } else {
                        0
                    })
                    &&& forall|i: int, j: int|
                        0 <= i < rows.len() && 0 <= j < rows[i].len() ==> (
                        #[trigger] f.grid()[i][j]).text@ == rows[i][j] && f.grid()[i][j].color
                            is None
                }
            }),
    {
        let (rows, end) = take_frame_lines(lines, pos);
        let ghost rs = crate::text::vecs_view(rows@);
        proof {
            lemma_frame_lines_nonempty(crate::text::lines_view(lines@), pos as int);
        }
        let mut width: usize = 0;
        let mut out: Vec<Vec<Cell>> = Vec::new();
        let mut i: usize = 0;
        while i < rows.len()
            invariant
                i <= rows@.len(),
                rs == crate::text::vecs_view(rows@),
                rs == frame_lines(crate::text::lines_view(lines@), pos as int),
                end == frame_lines_end(crate::text::lines_view(lines@), pos as int),
                end <= lines@.len(),
                forall|a: int| 0 <= a < rs.len() ==> (#[trigger] rs[a]).len() > 0,
                forall|a: int, b: int|
                    0 <= a < rows@.len() && 0 <= b < rows@[a]@.len() ==> crate::chars::char_allowed(
                        #[trigger] rows@[a]@[b],
                    ),
                width == (if i > 0 {
                    rs[0].len() as int
                } else {
                    0
                }),
                forall|a: int| 0 <= a < i ==> (#[trigger] rs[a]).len() == rs[0].len(),
                out@.len() == i,
                forall|a: int| 0 <= a < i ==> (#[trigger] out@[a]@).len() == rs[a].len(),
                forall|a: int, b: int|
                    0 <= a < i && 0 <= b < rs[a].len() ==> (#[trigger] out@[a]@[b]).text@
                        == rs[a][b] && out@[a]@[b].color is None && cell_wf(out@[a]@[b]),
            decreases rows@.len() - i,
        {
            proof {
                assert(rs[i as int] == rows@[i as int]@);
            }
            if width != 0 && rows[i].len() != width {
                proof {
                    assert(!rows_uniform(rs));
                }
                return (Err(Error::WidthMismatch), end);
            }
            width = rows[i].len();
            let row = &rows[i];
            let mut cells: Vec<Cell> = Vec::new();
            let mut j: usize = 0;
            while j < row.len()
                invariant
                    j <= row@.len(),
                    row@ == rs[i as int],
                    0 <= i < rs.len(),
                    forall|b: int|
                        0 <= b < row@.len() ==> crate::chars::char_allowed(#[trigger] row@[b]),
                    cells@.len() == j,
                    forall|b: int|
                        0 <= b < j ==> (#[trigger] cells@[b]).text@ == row@[b] && cells@[b].color
                            is None && cell_wf(cells@[b]),
                decreases row@.len() - j,
            {
                let ch = Char::new_must(row[j]);
                cells.push(Cell { text: ch, color: None });
                j = j + 1;
            }
            out.push(cells);
            i = i + 1;
        }
        proof {
            if rs.len() > 0 {
                assert(rs[0].len() > 0);
            }
        }
        if width != 0 && out.len() > usize::MAX / width {
            proof {
                let l = out@.len() as int;
                let w = width as int;
                let q = usize::MAX as int / w;
                let m = usize::MAX as int % w;
                vstd::arithmetic::div_mod::lemma_fundamental_div_mod(usize::MAX as int, w);
                vstd::arithmetic::div_mod::lemma_mod_bound(usize::MAX as int, w);
                assert(l * w > usize::MAX) by (nonlinear_arith)
                    requires
                        l > q,
                        w > 0,
                        usize::MAX as int == w * q + m,
                        0 <= m < w,
                ;
                assert(rs.len() > 0);
            }
            return (Err(Error::WidthMismatch), end);
        }
        let mut f = Frame { color: 0, width, rows: out };
        proof {
            assert(forall|a: int| 0 <= a < rs.len() ==> (#[trigger] f.grid()[a]) == f.rows@[a]@);
            assert(frame_shape_ok(f.grid(), f.spec_width()));
            let l = f.grid().len() as int;
            let w = width as int;
            if w != 0 {
                let q = usize::MAX as int / w;
                let m = usize::MAX as int % w;
                vstd::arithmetic::div_mod::lemma_fundamental_div_mod(usize::MAX as int, w);
                vstd::arithmetic::div_mod::lemma_mod_bound(usize::MAX as int, w);
                assert(l * w <= usize::MAX) by (nonlinear_arith)
                    requires
                        l <= q,
                        w > 0,
                        usize::MAX as int == w * q + m,
                        0 <= m < w,
                ;
            } else {
                assert(l * w == 0) by (nonlinear_arith)
                    requires
                        w == 0,
                ;
            }
        }
        f.recalc_colors();
        proof {
            lemma_grid_colors_zero(f.grid());
        }
        (Ok(f), end)
    }

    /// Reads a color-only frame: each row gives the color characters, every
    /// text cell is a space.
    pub fn read_color(lines: &Vec<String>, pos: usize) -> (r: (Result<Frame, Error>, usize))
        requires
            pos <= lines@.len(),
        ensures
            ({
                let rows = frame_lines(crate::text::lines_view(lines@), pos as int);
                &&& r.1 == frame_lines_end(crate::text::lines_view(lines@), pos as int)
                &&& r.1 <= lines@.len()
                &&& r.1 >= pos
                &&& (r.0 is Ok) == (rows_uniform(rows) && rows_fit(rows))
                &&& r.0 matches Err(e) ==> e is WidthMismatch
                &&& r.0 matches Ok(f) ==> {
                    &&& f.wf()
                    &&& f.spec_height() == rows.len()
                    &&& f.spec_width() == (if rows.len() > 0 {
                        rows[0].len()
                    } else {
                        0
                    })
                    &&& forall|i: int, j: int|
                        0 <= i < rows.len() && 0 <= j < rows[i].len() ==> (
                        #[trigger] f.grid()[i][j]).text@ == ' ' && (f.grid()[i][j].color matches
                        Some(k) && k@ == rows[i][j])
                }
            }),
    {
        let (rows, end) = take_frame_lines(lines, pos);
        let ghost rs = crate::text::vecs_view(rows@);
        proof {
            lemma_frame_lines_nonempty(crate::text::lines_view(lines@), pos as int);
        }
        let mut width: usize = 0;
        let mut out: Vec<Vec<Cell>> = Vec::new();
        let mut i: usize = 0;
        while i < rows.len()
            invariant
                i <= rows@.len(),
                rs == crate::text::vecs_view(rows@),
                rs == frame_lines(crate::text::lines_view(lines@), pos as int),
                end == frame_lines_end(crate::text::lines_view(lines@), pos as int),
                end <= lines@.len(),
                forall|a: int| 0 <= a < rs.len() ==> (#[trigger] rs[a]).len() > 0,
                forall|a: int, b: int|
                    0 <= a < rows@.len() && 0 <= b < rows@[a]@.len() ==> crate::chars::char_allowed(
                        #[trigger] rows@[a]@[b],
                    ),
                width == (if i > 0 {
                    rs[0].len() as int
                } else {
                    0
                }),
                forall|a: int| 0 <= a < i ==> (#[trigger] rs[a]).len() == rs[0].len(),
                out@.len() == i,
                forall|a: int| 0 <= a < i ==> (#[trigger] out@[a]@).len() == rs[a].len(),
                forall|a: int, b: int|
                    0 <= a < i && 0 <= b < rs[a].len() ==> (#[trigger] out@[a]@[b]).text@ == ' '
                        && (out@[a]@[b].color matches Some(k) && k@ == rs[a][b]) && cell_wf(
                        out@[a]@[b],
                    ),
            decreases rows@.len() - i,
        {
            proof {
                assert(rs[i as int] == rows@[i as int]@);
            }
            if width != 0 && rows[i].len() != width {
                proof {
                    assert(!rows_uniform(rs));
                }
                return (Err(Error::WidthMismatch), end);
            }
            width = rows[i].len();
            let row = &rows[i];
            let mut cells: Vec<Cell> = Vec::new();
            let mut j: usize = 0;
            while j < row.len()
                invariant
                    j <= row@.len(),
                    row@ == rs[i as int],
                    0 <= i < rs.len(),
                    forall|b: int|
                        0 <= b < row@.len() ==> crate::chars::char_allowed(#[trigger] row@[b]),
                    cells@.len() == j,
                    forall|b: int|
                        0 <= b < j ==> (#[trigger] cells@[b]).text@ == ' ' && (cells@[b].color
                            matches Some(k) && k@ == row@[b]) && cell_wf(cells@[b]),
                decreases row@.len() - j,
            {
                let ch = Char::new_must(row[j]);
                cells.push(Cell { text: Char::space(), color: Some(ch) });
                j = j + 1;
            }
            out.push(cells);
            i = i + 1;
        }
        proof {
            if rs.len() > 0 {
                assert(rs[0].len() > 0);
            }
        }
        if width != 0 && out.len() > usize::MAX / width {
            proof {
                let l = out@.len() as int;
                let w = width as int;
                let q = usize::MAX as int / w;
                let m = usize::MAX as int % w;
                vstd::arithmetic::div_mod::lemma_fundamental_div_mod(usize::MAX as int, w);
                vstd::arithmetic::div_mod::lemma_mod_bound(usize::MAX as int, w);
                assert(l * w > usize::MAX) by (nonlinear_arith)
                    requires
                        l > q,
                        w > 0,
                        usize::MAX as int == w * q + m,
                        0 <= m < w,
                ;
                assert(rs.len() > 0);
            }
            return (Err(Error::WidthMismatch), end);
        }
        let mut f = Frame { color: 0, width, rows: out };
        proof {
            assert(forall|a: int| 0 <= a < rs.len() ==> (#[trigger] f.grid()[a]) == f.rows@[a]@);
            assert(frame_shape_ok(f.grid(), f.spec_width()));
            let l = f.grid().len() as int;
            let w = width as int;
            if w != 0 {
                let q = usize::MAX as int / w;
                let m = usize::MAX as int % w;
                vstd::arithmetic::div_mod::lemma_fundamental_div_mod(usize::MAX as int, w);
                vstd::arithmetic::div_mod::lemma_mod_bound(usize::MAX as int, w);
                assert(l * w <= usize::MAX) by (nonlinear_arith)
                    requires
                        l <= q,
                        w > 0,
                        usize::MAX as int == w * q + m,
                        0 <= m < w,
                ;
            } else {
                assert(l * w == 0) by (nonlinear_arith)
                    requires
                        w == 0,
                ;
            }
        }
        f.recalc_colors();
        (Ok(f), end)
    }

    /// Reads a combined frame: the first half of each row gives the text,
    /// the second half the color characters; the halves must be equal, so
    /// rows must share one even length.
    pub fn read_both(lines: &Vec<String>, pos: usize) -> (r: (Result<Frame, Error>, usize))
        requires
            pos <= lines@.len(),
        ensures
            ({
                let rows = frame_lines(crate::text::lines_view(lines@), pos as int);
                &&& r.1 == frame_lines_end(crate::text::lines_view(lines@), pos as int)
                &&& r.1 <= lines@.len()
                &&& r.1 >= pos
                &&& (r.0 is Ok) == (rows_uniform_even(rows) && rows_fit_half(rows))
                &&& r.0 matches Err(e) ==> e is WidthMismatch
                &&& r.0 matches Ok(f) ==> {
                    &&& f.wf()
                    &&& f.spec_height() == rows.len()
                    &&& f.spec_width() == (if rows.len() > 0 {
                        rows[0].len() / 2
                    } else {
                        0
                    })
                    &&& forall|i: int, j: int|
                        0 <= i < rows.len() && 0 <= j < rows[i].len() / 2 ==> (
                        #[trigger] f.grid()[i][j]).text@ == rows[i][j] && (f.grid()[i][j].color
                            matches Some(k) && k@ == rows[i][j + rows[i].len() / 2])
                }
            }),
    {
        let (rows, end) = take_frame_lines(lines, pos);
        let ghost rs = crate::text::vecs_view(rows@);
        proof {
            lemma_frame_lines_nonempty(crate::text::lines_view(lines@), pos as int);
        }
        let mut width: usize = 0;
        let mut out: Vec<Vec<Cell>> = Vec::new();
        let mut i: usize = 0;
        while i < rows.len()
            invariant
                i <= rows@.len(),
                rs == crate::text::vecs_view(rows@),
                rs == frame_lines(crate::text::lines_view(lines@), pos as int),
                end == frame_lines_end(crate::text::lines_view(lines@), pos as int),
                end <= lines@.len(),
                forall|a: int| 0 <= a < rs.len() ==> (#[trigger] rs[a]).len() > 0,
                forall|a: int, b: int|
                    0 <= a < rows@.len() && 0 <= b < rows@[a]@.len() ==> crate::chars::char_allowed(
                        #[trigger] rows@[a]@[b],
                    ),
                width == (if i > 0 {
                    rs[0].len() as int / 2
                } else {
                    0
                }),
                forall|a: int|
                    0 <= a < i ==> (#[trigger] rs[a]).len() == rs[0].len() && rs[a].len() % 2 == 0,
                out@.len() == i,
                forall|a: int| 0 <= a < i ==> (#[trigger] out@[a]@).len() == rs[a].len() / 2,
                forall|a: int, b: int|
                    0 <= a < i && 0 <= b < rs[a].len() / 2 ==> (#[trigger] out@[a]@[b]).text@
                        == rs[a][b] && (out@[a]@[b].color matches Some(k) && k@ == rs[a][b
                        + rs[a].len() / 2]) && cell_wf(out@[a]@[b]),
            decreases rows@.len() - i,
        {
            proof {
                assert(rs[i as int] == rows@[i as int]@);
            }
            let len = rows[i].len();
            if width != 0 && len / 2 != width {
                proof {
                    assert(!rows_uniform_even(rs));
                }
                return (Err(Error::WidthMismatch), end);
            }
            if len % 2 != 0 {
                proof {
                    assert(!rows_uniform_even(rs));
                }
                return (Err(Error::WidthMismatch), end);
            }
            proof {
                if i > 0 {
                    assert(rs[i as int].len() == rs[0].len()) by {
                        assert(len / 2 == rs[0].len() / 2 && len % 2 == 0 && rs[0].len() % 2 == 0);
                    }
                }
            }
            width = len / 2;
            let row = &rows[i];
            let half = len / 2;
            let mut cells: Vec<Cell> = Vec::new();
            let mut j: usize = 0;
            while j < half
                invariant
                    j <= half,
                    half == row@.len() / 2,
                    half * 2 <= row@.len(),
                    half <= usize::MAX / 2,
                    row@ == rs[i as int],
                    0 <= i < rs.len(),
                    forall|b: int|
                        0 <= b < row@.len() ==> crate::chars::char_allowed(#[trigger] row@[b]),
                    cells@.len() == j,
                    forall|b: int|
                        0 <= b < j ==> (#[trigger] cells@[b]).text@ == row@[b] && (cells@[b].color
                            matches Some(k) && k@ == row@[b + half]) && cell_wf(cells@[b]),
                decreases half - j,
            {
                proof {
                    assert(j + half < half * 2);
                }
                let tch = Char::new_must(row[j]);
                let cch = Char::new_must(row[j + half]);
                cells.push(Cell { text: tch, color: Some(cch) });
                j = j + 1;
            }
            out.push(cells);
            i = i + 1;
        }
        proof {
            if rs.len() > 0 {
                assert(rs[0].len() > 0);
            }
        }
        if width != 0 && out.len() > usize::MAX / width {
            proof {
                let l = out@.len() as int;
                let w = width as int;
                let q = usize::MAX as int / w;
                let m = usize::MAX as int % w;
                vstd::arithmetic::div_mod::lemma_fundamental_div_mod(usize::MAX as int, w);
                vstd::arithmetic::div_mod::lemma_mod_bound(usize::MAX as int, w);
                assert(l * w > usize::MAX) by (nonlinear_arith)
                    requires
                        l > q,
                        w > 0,
                        usize::MAX as int == w * q + m,
                        0 <= m < w,
                ;
                assert(rs.len() > 0);
            }
            return (Err(Error::WidthMismatch), end);
        }
        let mut f = Frame { color: 0, width, rows: out };
        proof {
            assert(forall|a: int| 0 <= a < rs.len() ==> (#[trigger] f.grid()[a]) == f.rows@[a]@);
            assert(frame_shape_ok(f.grid(), f.spec_width()));
            let l = f.grid().len() as int;
            let w = width as int;
            if w != 0 {
                let q = usize::MAX as int / w;
                let m = usize::MAX as int % w;
                vstd::arithmetic::div_mod::lemma_fundamental_div_mod(usize::MAX as int, w);
                vstd::arithmetic::div_mod::lemma_mod_bound(usize::MAX as int, w);
                assert(l * w <= usize::MAX) by (nonlinear_arith)
                    requires
                        l <= q,
                        w > 0,
                        usize::MAX as int == w * q + m,
                        0 <= m < w,
                ;
            } else {
                assert(l * w == 0) by (nonlinear_arith)
                    requires
                        w == 0,
                ;
            }
        }
        f.recalc_colors();
        (Ok(f), end)
    }
}

/// Every frame row is non-empty: a blank line ends the frame.
pub proof fn lemma_frame_lines_nonempty(ls: Seq<Seq<char>>, pos: int)
    requires
        0 <= pos <= ls.len(),
    ensures
        forall|i: int|
            0 <= i < frame_lines(ls, pos).len() ==> (#[trigger] frame_lines(ls, pos)[i]).len() > 0,
    decreases ls.len() - pos,
{
    if pos < ls.len() && crate::chars::normalize_seq(ls[pos]).len() != 0 {
        lemma_frame_lines_nonempty(ls, pos + 1);
        assert forall|i: int|
            0 <= i < frame_lines(ls, pos).len() implies (#[trigger] frame_lines(ls, pos)[i]).len()
            > 0 by {
            if i > 0 {
                assert(frame_lines(ls, pos)[i] == frame_lines(ls, pos + 1)[i - 1]);
            }
        }
    }
}

/// A grid whose cells all lack color counts zero.
pub proof fn lemma_grid_colors_zero(g: Seq<Seq<Cell>>)
    requires
        forall|r: int, c: int|
            0 <= r < g.len() && 0 <= c < g[r].len() ==> !cell_colored(#[trigger] g[r][c]),
    ensures
        grid_colors(g) == 0,
    decreases g.len(),
{
    if g.len() > 0 {
        lemma_grid_colors_zero(g.drop_last());
        lemma_row_colors_zero(g.last());
    }
}

/// A row whose cells all lack color counts zero.
pub proof fn lemma_row_colors_zero(r: Seq<Cell>)
    requires
        forall|c: int| 0 <= c < r.len() ==> !cell_colored(#[trigger] r[c]),
    ensures
        row_colors(r) == 0,
    decreases r.len(),
{
    if r.len() > 0 {
        lemma_row_colors_zero(r.drop_last());
    }
}

/// The row blocks of a body: frames read one after another until an empty
/// one (no rows before the next blank line or the end).
pub open spec fn spec_body_blocks(ls: Seq<Seq<char>>, pos: int) -> Seq<Seq<Seq<char>>>
    decreases ls.len() - pos,
    when 0 <= pos <= ls.len()
    via spec_body_blocks_dec
{
    if frame_lines(ls, pos).len() == 0 {
        Seq::empty()
    } else {
        seq![frame_lines(ls, pos)] + spec_body_blocks(ls, frame_lines_end(ls, pos))
    }
}

#[via_fn]
proof fn spec_body_blocks_dec(ls: Seq<Seq<char>>, pos: int) {
    lemma_frame_lines_bound(ls, pos);
}

/// Where reading the body leaves the position.
pub open spec fn spec_body_end(ls: Seq<Seq<char>>, pos: int) -> int
    decreases ls.len() - pos,
    when 0 <= pos <= ls.len()
    via spec_body_end_dec
{
    if frame_lines(ls, pos).len() == 0 {
        frame_lines_end(ls, pos)
    } else {
        spec_body_end(ls, frame_lines_end(ls, pos))
    }
}

#[via_fn]
proof fn spec_body_end_dec(ls: Seq<Seq<char>>, pos: int) {
    lemma_frame_lines_bound(ls, pos);
}

/// The body end lies within the stream.
pub proof fn lemma_body_end_bound(ls: Seq<Seq<char>>, pos: int)
    requires
        0 <= pos <= ls.len(),
    ensures
        pos <= spec_body_end(ls, pos) <= ls.len(),
    decreases ls.len() - pos,
{
    lemma_frame_lines_bound(ls, pos);
    if frame_lines(ls, pos).len() != 0 {
        lemma_body_end_bound(ls, frame_lines_end(ls, pos));
    }
}

/// How a body block turns into a frame: text-only rows, color-only rows,
/// or combined rows split in half.
#[derive(Debug, Clone, Copy, PartialEq, Eq, Structural)]
pub enum BodyMode {
    Text,
    Color,
    Both,
}

/// Whether one block is acceptable in a mode.
pub open spec fn block_ok(rows: Seq<Seq<char>>, mode: BodyMode) -> bool {
    match mode {
        BodyMode::Text => rows_uniform(rows) && rows_fit(rows),
        BodyMode::Color => rows_uniform(rows) && rows_fit(rows),
        BodyMode::Both => rows_uniform_even(rows) && rows_fit_half(rows),
    }
}

/// The frame dimensions a block denotes in a mode.
pub open spec fn block_width(rows: Seq<Seq<char>>, mode: BodyMode) -> int {
    if rows.len() == 0 {
        0
    } else {
        match mode {
            BodyMode::Both => rows[0].len() as int / 2,
            _ => rows[0].len() as int,
        }
    }
}

/// The grid a block denotes in a mode, cell by cell.
pub open spec fn block_cell_ok(rows: Seq<Seq<char>>, mode: BodyMode, f: Frame) -> bool {
    match mode {
        BodyMode::Text => forall|i: int, j: int|
            0 <= i < rows.len() && 0 <= j < rows[i].len() ==> (#[trigger] f.grid()[i][j]).text@
                == rows[i][j] && f.grid()[i][j].color is None,
        BodyMode::Color => forall|i: int, j: int|
            0 <= i < rows.len() && 0 <= j < rows[i].len() ==> (#[trigger] f.grid()[i][j]).text@
                == ' ' && (f.grid()[i][j].color matches Some(k) && k@ == rows[i][j]),
        BodyMode::Both => forall|i: int, j: int|
            0 <= i < rows.len() && 0 <= j < rows[i].len() / 2 ==> (#[trigger] f.grid()[i][j]).text@
                == rows[i][j] && (f.grid()[i][j].color matches Some(k) && k@ == rows[i][j
                + rows[i].len() / 2]),
    }
}

impl Frames {
    /// Records one parsed frame: the first fixes the shared dimensions
    /// (where still zero), any later one must match them exactly.
    pub fn check_frame(&mut self, frame: &Frame) -> (r: Result<(), Error>)
        requires
            old(self).wf(),
            frame.wf(),
            old(self).spec_frames().len() == 0 || (old(self).spec_width() != 0 && old(
                self,
            ).spec_height() != 0),
        ensures
            final(self).spec_frames() == old(self).spec_frames(),
            final(self).spec_text_pin() == old(self).spec_text_pin(),
            final(self).spec_color_pin() == old(self).spec_color_pin(),
            old(self).spec_width() != 0 && old(self).spec_width() != frame.spec_width() ==> (r
                matches Err(e) && e is WidthMismatch && *final(self) == *old(self)),
            old(self).spec_width() == 0 || old(self).spec_width() == frame.spec_width() ==> (old(
                self,
            ).spec_height() != 0 && old(self).spec_height() != frame.spec_height() ==> (r matches
            Err(e) && e is HeightMismatch && *final(self) == *old(self))),
            (r is Ok) == ((old(self).spec_width() == 0 || old(self).spec_width()
                == frame.spec_width()) && (old(self).spec_height() == 0 || old(self).spec_height()
                == frame.spec_height())),
            r is Ok ==> final(self).spec_width() == frame.spec_width() && final(self).spec_height()
                == frame.spec_height(),
            r is Ok ==> final(self).wf(),
    {
        if self.width != 0 && self.width != frame.width() {
            return Err(Error::WidthMismatch);
        }
        if self.height != 0 && self.height != frame.height() {
            return Err(Error::HeightMismatch);
        }
        proof {
            if self.frames@.len() > 0 {
                assert(self.spec_frames()[0].wf());
                assert(self.spec_frames()[0].spec_width() == self.spec_width());
            }
        }
        self.width = frame.width();
        self.height = frame.height();
        proof {
            if old(self).spec_frames().len() > 0 {
                assert(old(self).spec_width() == frame.spec_width() && old(self).spec_height()
                    == frame.spec_height());
            } else {
                let hw = frame.spec_height() * frame.spec_width();
                assert(self.spec_height() * self.spec_width() <= usize::MAX) by (nonlinear_arith)
                    requires
                        self.spec_height() * self.spec_width() == hw,
                        hw <= usize::MAX,
                ;
            }
        }
        Ok(())
    }

    /// Reads the frames of a body in one mode, appending each after a
    /// dimension check, and finally merges the pins in.
    pub fn read_body_mode(&mut self, lines: &Vec<String>, pos: usize, mode: BodyMode) -> (r: (
        Result<(), Error>,
        usize,
    ))
        requires
            old(self).wf(),
            pos <= lines@.len(),
            old(self).spec_frames().len() == 0 || (old(self).spec_width() != 0 && old(
                self,
            ).spec_height() != 0),
        ensures
            final(self).wf(),
            r.1 <= lines@.len(),
            r.1 >= pos,
            final(self).spec_frames().len() == 0 || (final(self).spec_width() != 0 && final(
                self).spec_height() != 0),
            r.0 is Ok ==> {
                &&& r.1 == spec_body_end(crate::text::lines_view(lines@), pos as int)
                &&& final(self).spec_text_pin() is None
                &&& final(self).spec_color_pin() is None
                &&& final(self).spec_frames().len() == old(self).spec_frames().len()
                    + spec_body_blocks(crate::text::lines_view(lines@), pos as int).len()
                &&& forall|k: int|
                    old(self).spec_frames().len() <= k < final(self).spec_frames().len()
                        ==> block_ok(
                        #[trigger] spec_body_blocks(crate::text::lines_view(lines@), pos as int)[k
                            - old(self).spec_frames().len()],
                        mode,
                    )
            },
    {
        let ghost ls = crate::text::lines_view(lines@);
        let mut p = pos;
        let ghost blocks = spec_body_blocks(ls, pos as int);
        let ghost n0 = self.spec_frames().len();
        let mut done = false;
        proof {
            lemma_body_end_bound(ls, pos as int);
        }
        while !done
            invariant
                ls == crate::text::lines_view(lines@),
                pos <= p <= ls.len(),
                ls.len() == lines@.len(),
                self.wf(),
                n0 <= self.spec_frames().len(),
                self.spec_frames().len() == 0 || (self.spec_width() != 0 && self.spec_height()
                    != 0),
                !done ==> self.spec_text_pin() == old(self).spec_text_pin(),
                !done ==> self.spec_color_pin() == old(self).spec_color_pin(),
                !done ==> spec_body_end(ls, pos as int) == spec_body_end(ls, p as int),
                !done ==> blocks == spec_body_blocks(ls, pos as int),
                !done ==> self.spec_frames().len() - n0 == blocks.len() - spec_body_blocks(
                    ls,
                    p as int,
                ).len(),
                !done ==> forall|k: int|
                    n0 <= k < self.spec_frames().len() ==> block_ok(
                        #[trigger] blocks[k - n0],
                        mode,
                    ),
                !done ==> spec_body_blocks(ls, p as int) == blocks.skip(
                    self.spec_frames().len() - n0,
                ),
                done ==> p == spec_body_end(ls, pos as int),
                done ==> self.spec_frames().len() == n0 + blocks.len(),
                done ==> self.spec_text_pin() == old(self).spec_text_pin(),
                done ==> self.spec_color_pin() == old(self).spec_color_pin(),
                done ==> forall|k: int|
                    n0 <= k < self.spec_frames().len() ==> block_ok(
                        #[trigger] blocks[k - n0],
                        mode,
                    ),
            decreases ls.len() - p, if done {
                0int
            } else {
                1int
            },
        {
            proof {
                lemma_frame_lines_bound(ls, p as int);
            }
            let (fr, end) = match mode {
                BodyMode::Text => Frame::read_text(lines, p),
                BodyMode::Color => Frame::read_color(lines, p),
                BodyMode::Both => Frame::read_both(lines, p),
            };
            let frame = match fr {
                Ok(f) => f,
                Err(e) => {
                    return (Err(e), end);
                },
            };
            if frame.width() == 0 || frame.height() == 0 {
                proof {
                    assert(frame_lines(ls, p as int).len() == 0 || frame_lines(
                        ls,
                        p as int,
                    )[0].len() == 0);
                    lemma_frame_lines_nonempty(ls, p as int);
                    assert(frame_lines(ls, p as int).len() == 0);
                    assert(spec_body_blocks(ls, p as int) =~= Seq::<Seq<Seq<char>>>::empty());
                    assert(blocks.skip(self.spec_frames().len() - n0)
                        =~= Seq::<Seq<Seq<char>>>::empty());
                    assert(self.spec_frames().len() - n0 == blocks.len());
                }
                p = end;
                done = true;
            } else {
                match self.check_frame(&frame) {
                    Ok(_) => {},
                    Err(e) => {
                        return (Err(e), end);
                    },
                }
                let ghost fsb = self.frames@;
                self.frames.push(frame);
                proof {
                    let consumed = fsb.len() - n0;
                    assert(spec_body_blocks(ls, p as int) == seq![frame_lines(ls, p as int)]
                        + spec_body_blocks(ls, frame_lines_end(ls, p as int)));
                    assert(blocks.skip(consumed)[0] == frame_lines(ls, p as int));
                    assert(blocks[consumed] == frame_lines(ls, p as int));
                    assert(block_ok(blocks[consumed], mode));
                    assert(blocks.skip(consumed).drop_first() =~= blocks.skip(consumed + 1));
                    assert(spec_body_blocks(ls, frame_lines_end(ls, p as int)) =~= blocks.skip(
                        consumed + 1,
                    ));
                    assert(forall|k: int|
                        0 <= k < fsb.len() ==> #[trigger] self.frames@[k] == fsb[k]);
                }
                p = end;
            }
        }
        match self.merge() {
            Ok(_) => (Ok(()), p),
            Err(e) => (Err(e), p),
        }
    }

    /// Reads a text-pin block: a duplicate pin is a hard error, an empty
    /// frame leaves no pin.
    pub fn read_text_pin(&mut self, lines: &Vec<String>, pos: usize) -> (r: (
        Result<(), Error>,
        usize,
    ))
        requires
            old(self).wf(),
            pos <= lines@.len(),
        ensures
            final(self).wf(),
            r.1 <= lines@.len(),
            r.1 >= pos,
            final(self).spec_frames() == old(self).spec_frames(),
            final(self).spec_width() == old(self).spec_width(),
            final(self).spec_height() == old(self).spec_height(),
            final(self).spec_color_pin() == old(self).spec_color_pin(),
            old(self).spec_text_pin() is Some ==> (r.0 matches Err(e) && e is BlockDup && *final(
                self) == *old(self)),
            r.0 is Ok ==> r.1 == frame_lines_end(crate::text::lines_view(lines@), pos as int),
    {
        if self.text_pin.is_some() {
            proof {
                reveal_strlit("text-pin");
            }
            let e = Error::BlockDup(
                <String as vstd::string::StringExecFns>::from_str("text-pin"),
            );
            return (Err(e), pos);
        }
        let (fr, end) = Frame::read_text(lines, pos);
        match fr {
            Ok(f) => {
                if f.width() != 0 && f.height() != 0 {
                    self.text_pin = Some(f);
                    proof {
                        assert(self.spec_frames() == old(self).spec_frames());
                        assert forall|i: int|
                            0 <= i < self.spec_frames().len() implies ((
                        #[trigger] self.spec_frames()[i]).wf() && self.spec_frames()[i].spec_width()
                            == self.spec_width() && self.spec_frames()[i].spec_height()
                            == self.spec_height()) by {
                            assert(old(self).spec_frames()[i].wf());
                        }
                    }
                }
                (Ok(()), end)
            },
            Err(e) => (Err(e), end),
        }
    }

    /// Reads a color-pin block: a duplicate pin is a hard error, an empty
    /// frame leaves no pin.
    pub fn read_color_pin(&mut self, lines: &Vec<String>, pos: usize) -> (r: (
        Result<(), Error>,
        usize,
    ))
        requires
            old(self).wf(),
            pos <= lines@.len(),
        ensures
            final(self).wf(),
            r.1 <= lines@.len(),
            r.1 >= pos,
            final(self).spec_frames() == old(self).spec_frames(),
            final(self).spec_width() == old(self).spec_width(),
            final(self).spec_height() == old(self).spec_height(),
            final(self).spec_text_pin() == old(self).spec_text_pin(),
            old(self).spec_color_pin() is Some ==> (r.0 matches Err(e) && e is BlockDup && *final(
                self) == *old(self)),
            r.0 is Ok ==> r.1 == frame_lines_end(crate::text::lines_view(lines@), pos as int),
    {
        if self.color_pin.is_some() {
            proof {
                reveal_strlit("color-pin");
            }
            let e = Error::BlockDup(
                <String as vstd::string::StringExecFns>::from_str("color-pin"),
            );
            return (Err(e), pos);
        }
        let (fr, end) = Frame::read_color(lines, pos);
        match fr {
            Ok(f) => {
                if f.width() != 0 && f.height() != 0 {
                    self.color_pin = Some(f);
                    proof {
                        assert(self.spec_frames() == old(self).spec_frames());
                        assert forall|i: int|
                            0 <= i < self.spec_frames().len() implies ((
                        #[trigger] self.spec_frames()[i]).wf() && self.spec_frames()[i].spec_width()
                            == self.spec_width() && self.spec_frames()[i].spec_height()
                            == self.spec_height()) by {
                            assert(old(self).spec_frames()[i].wf());
                        }
                    }
                }
                (Ok(()), end)
            },
            Err(e) => (Err(e), end),
        }
    }
}

/// The `@body` block of frames, one channel block per frame, each followed
/// by a blank line.
pub open spec fn spec_body_text_blocks(fs: Seq<Frame>) -> Seq<char>
    decreases fs.len(),
{
    if fs.len() == 0 {
        Seq::empty()
    } else {
        spec_body_text_blocks(fs.drop_last()) + spec_text_block(fs.last().grid()) + seq!['\n']
    }
}

/// As `spec_body_text_blocks`, over the color channel.
pub open spec fn spec_body_color_blocks(fs: Seq<Frame>) -> Seq<char>
    decreases fs.len(),
{
    if fs.len() == 0 {
        Seq::empty()
    } else {
        spec_body_color_blocks(fs.drop_last()) + spec_colors_block(fs.last().grid()) + seq!['\n']
    }
}

/// As `spec_body_text_blocks`, over both channels.
pub open spec fn spec_body_both_blocks(fs: Seq<Frame>) -> Seq<char>
    decreases fs.len(),
{
    if fs.len() == 0 {
        Seq::empty()
    } else {
        spec_body_both_blocks(fs.drop_last()) + spec_both_block(fs.last().grid()) + seq!['\n']
    }
}

impl Frames {
    /// The `@body` line followed by one block per frame in the requested
    /// channels.
    fn fmt_body_chars(&self, kind: u8) -> (out: Vec<char>)
        requires
            self.wf(),
            kind < 3,
        ensures
            out@ == seq!['@', 'b', 'o', 'd', 'y', '\n'] + (if kind == 0 {
                spec_body_text_blocks(self.spec_frames())
            } else if kind == 1 {
                spec_body_color_blocks(self.spec_frames())
            } else {
                spec_body_both_blocks(self.spec_frames())
            }),
    {
        let ghost fs = self.spec_frames();
        let mut out: Vec<char> = Vec::new();
        out.push('@');
        out.push('b');
        out.push('o');
        out.push('d');
        out.push('y');
        out.push('\n');
        let ghost head = out@;
        proof {
            assert(head =~= seq!['@', 'b', 'o', 'd', 'y', '\n']);
        }
        let mut i: usize = 0;
        while i < self.frames.len()
            invariant
                i <= self.frames@.len(),
                fs == self.spec_frames(),
                self.wf(),
                kind < 3,
                head == seq!['@', 'b', 'o', 'd', 'y', '\n'],
                out@ == head + (if kind == 0 {
                    spec_body_text_blocks(fs.subrange(0, i as int))
                } else if kind == 1 {
                    spec_body_color_blocks(fs.subrange(0, i as int))
                } else {
                    spec_body_both_blocks(fs.subrange(0, i as int))
                }),
            decreases self.frames@.len() - i,
        {
            proof {
                assert(fs[i as int] == self.frames@[i as int]);
                assert(fs.subrange(0, i + 1).drop_last() =~= fs.subrange(0, i as int));
                assert(fs.subrange(0, i + 1).last() == fs[i as int]);
                assert(self.spec_frames()[i as int].wf());
            }
            let block: String = if kind == 0 {
                self.frames[i].fmt_text()
            } else if kind == 1 {
                self.frames[i].fmt_colors()
            } else {
                self.frames[i].fmt_both()
            };
            let bv = crate::text::str_to_chars(block.as_str());
            crate::colors::push_all(&mut out, &bv);
            out.push('\n');
            proof {
                if kind == 0 {
                    assert(out@ =~= head + spec_body_text_blocks(fs.subrange(0, i + 1)));
                } else if kind == 1 {
                    assert(out@ =~= head + spec_body_color_blocks(fs.subrange(0, i + 1)));
                } else {
                    assert(out@ =~= head + spec_body_both_blocks(fs.subrange(0, i + 1)));
                }
            }
            i = i + 1;
        }
        proof {
            assert(fs.subrange(0, fs.len() as int) =~= fs);
        }
        out
    }

    /// The body with only the text channel.
    pub fn fmt_body_text(&self) -> (r: String)
        requires
            self.wf(),
        ensures
            r@ == seq!['@', 'b', 'o', 'd', 'y', '\n'] + spec_body_text_blocks(self.spec_frames()),
    {
        let v = self.fmt_body_chars(0);
        crate::text::chars_to_string(&v)
    }

    /// The body with only the color channel.
    pub fn fmt_body_colors(&self) -> (r: String)
        requires
            self.wf(),
        ensures
            r@ == seq!['@', 'b', 'o', 'd', 'y', '\n'] + spec_body_color_blocks(self.spec_frames()),
    {
        let v = self.fmt_body_chars(1);
        crate::text::chars_to_string(&v)
    }

    /// The body with both channels interleaved per line.
    pub fn fmt_body_both(&self) -> (r: String)
        requires
            self.wf(),
        ensures
            r@ == seq!['@', 'b', 'o', 'd', 'y', '\n'] + spec_body_both_blocks(self.spec_frames()),
    {
        let v = self.fmt_body_chars(2);
        crate::text::chars_to_string(&v)
    }

    /// The pinned text channel: the first frame's text block.
    pub fn fmt_pinned_text(&self) -> (r: String)
        requires
            self.wf(),
        ensures
            r@ == seq!['@', 't', 'e', 'x', 't', '-', 'p', 'i', 'n', '\n'] + (if self.spec_frames().len() > 0 {
                spec_text_block(self.spec_frames()[0].grid()) + seq!['\n']
            } else {
                Seq::empty()
            }),
    {
        let mut out: Vec<char> = Vec::new();
        let hv = crate::text::str_to_chars("@text-pin");
        proof {
            reveal_strlit("@text-pin");
            assert(hv@ =~= seq!['@', 't', 'e', 'x', 't', '-', 'p', 'i', 'n']);
        }
        crate::colors::push_all(&mut out, &hv);
        out.push('\n');
        if self.frames.len() > 0 {
            proof {
                assert(self.spec_frames()[0] == self.frames@[0]);
                assert(self.spec_frames()[0].wf());
            }
            let block = self.frames[0].fmt_text();
            let bv = crate::text::str_to_chars(block.as_str());
            crate::colors::push_all(&mut out, &bv);
            out.push('\n');
        }
        proof {
            assert(out@ =~= seq!['@', 't', 'e', 'x', 't', '-', 'p', 'i', 'n', '\n'] + (if self.spec_frames().len() > 0 {
                spec_text_block(self.spec_frames()[0].grid()) + seq!['\n']
            } else {
                Seq::<char>::empty()
            }));
        }
        crate::text::chars_to_string(&out)
    }

    /// The pinned color channel: the first frame's color block.
    pub fn fmt_pinned_colors(&self) -> (r: String)
        requires
            self.wf(),
        ensures
            r@ == seq!['@', 'c', 'o', 'l', 'o', 'r', '-', 'p', 'i', 'n', '\n'] + (if self.spec_frames().len() > 0 {
                spec_colors_block(self.spec_frames()[0].grid()) + seq!['\n']
            } else {
                Seq::empty()
            }),
    {
        let mut out: Vec<char> = Vec::new();
        let hv = crate::text::str_to_chars("@color-pin");
        proof {
            reveal_strlit("@color-pin");
            assert(hv@ =~= seq!['@', 'c', 'o', 'l', 'o', 'r', '-', 'p', 'i', 'n']);
        }
        crate::colors::push_all(&mut out, &hv);
        out.push('\n');
        if self.frames.len() > 0 {
            proof {
                assert(self.spec_frames()[0] == self.frames@[0]);
                assert(self.spec_frames()[0].wf());
            }
            let block = self.frames[0].fmt_colors();
            let bv = crate::text::str_to_chars(block.as_str());
            crate::colors::push_all(&mut out, &bv);
            out.push('\n');
        }
        proof {
            assert(out@ =~= seq!['@', 'c', 'o', 'l', 'o', 'r', '-', 'p', 'i', 'n', '\n'] + (if self.spec_frames().len() > 0 {
                spec_colors_block(self.spec_frames()[0].grid()) + seq!['\n']
            } else {
                Seq::<char>::empty()
            }));
        }
        crate::text::chars_to_string(&out)
    }

    /// The body written in its most compact form: a pinned channel is
    /// stored once and the other per frame; without color only the text.
    pub fn fmt_with_color(&self, color: bool) -> (r: String)
        requires
            self.wf(),
        ensures
            r@ == spec_fmt_with_color(*self, color),
    {
        if color {
            let (text_pinned, colors_pinned) = self.pinned();
            if colors_pinned {
                let mut s = self.fmt_pinned_colors();
                let b = self.fmt_body_text();
                s.append(b.as_str());
                s
            } else if text_pinned {
                let mut s = self.fmt_pinned_text();
                let b = self.fmt_body_colors();
                s.append(b.as_str());
                s
            } else {
                self.fmt_body_both()
            }
        } else {
            self.fmt_body_text()
        }
    }
}

/// What `fmt_with_color` writes: the pin blocks and body in the chosen
/// combination.
pub open spec fn spec_fmt_with_color(fs: Frames, color: bool) -> Seq<char> {
    let n = fs.spec_frames().len();
    let text_pinned = n >= 2 && spec_text_pinned(fs.spec_frames(), fs.spec_width(), fs.spec_height());
    let colors_pinned = n >= 2 && spec_color_pinned(
        fs.spec_frames(),
        fs.spec_width(),
        fs.spec_height(),
    );
    if color {
        if colors_pinned {
            seq!['@', 'c', 'o', 'l', 'o', 'r', '-', 'p', 'i', 'n', '\n'] + (if n > 0 {
                spec_colors_block(fs.spec_frames()[0].grid()) + seq!['\n']
            } else {
                Seq::empty()
            }) + seq!['@', 'b', 'o', 'd', 'y', '\n'] + spec_body_text_blocks(fs.spec_frames())
        } else if text_pinned {
            seq!['@', 't', 'e', 'x', 't', '-', 'p', 'i', 'n', '\n'] + (if n > 0 {
                spec_text_block(fs.spec_frames()[0].grid()) + seq!['\n']
            } else {
                Seq::empty()
            }) + seq!['@', 'b', 'o', 'd', 'y', '\n'] + spec_body_color_blocks(fs.spec_frames())
        } else {
            seq!['@', 'b', 'o', 'd', 'y', '\n'] + spec_body_both_blocks(fs.spec_frames())
        }
    } else {
        seq!['@', 'b', 'o', 'd', 'y', '\n'] + spec_body_text_blocks(fs.spec_frames())
    }
}

/// Which color channels a legacy document carries.
#[derive(Debug, Clone, Copy, PartialEq, Eq, Structural)]
pub enum LegacyColorMode {
    /// No colors used.
    NoColors,
    /// Only foreground colors used.
    FgOnly,
    /// Only background colors used.
    BgOnly,
    /// Both foreground and background colors used.
    FgAndBg,
}

impl Default for LegacyColorMode {
    /// Legacy documents carry no colors unless declared.
    fn default() -> (r: Self)
        ensures
            r == LegacyColorMode::NoColors,
    {
        LegacyColorMode::NoColors
    }
}

/// The structural parameters a legacy header declares.
#[derive(Debug, Clone, Copy, PartialEq, Eq, Structural)]
pub struct LegacyHeaderInfo {
    pub colors: LegacyColorMode,
    pub width: usize,
    pub height: usize,
}

impl Default for LegacyHeaderInfo {
    /// No colors, zero dimensions.
    fn default() -> (r: Self)
        ensures
            r == (LegacyHeaderInfo { colors: LegacyColorMode::NoColors, width: 0, height: 0 }),
    {
        LegacyHeaderInfo { colors: LegacyColorMode::NoColors, width: 0, height: 0 }
    }
}

/// The three channels the legacy scanner cycles through.
#[derive(Debug, Clone, Copy, PartialEq, Eq, Structural)]
pub enum LegacyScanMode {
    Text,
    Fg,
    Bg,
}

/// The next channel after completing one, under a color mode.
pub open spec fn spec_scan_next(m: LegacyScanMode, cm: LegacyColorMode) -> LegacyScanMode {
    match (m, cm) {
        (LegacyScanMode::Text, LegacyColorMode::NoColors) => LegacyScanMode::Text,
        (LegacyScanMode::Text, LegacyColorMode::FgOnly) => LegacyScanMode::Fg,
        (LegacyScanMode::Text, LegacyColorMode::BgOnly) => LegacyScanMode::Bg,
        (LegacyScanMode::Text, LegacyColorMode::FgAndBg) => LegacyScanMode::Fg,
        (LegacyScanMode::Fg, LegacyColorMode::FgAndBg) => LegacyScanMode::Bg,
        (LegacyScanMode::Fg, _) => LegacyScanMode::Text,
        (LegacyScanMode::Bg, _) => LegacyScanMode::Text,
    }
}

impl LegacyScanMode {
    /// `spec_scan_next`, executably.
    pub fn next(self, cm: LegacyColorMode) -> (r: Self)
        ensures
            r == spec_scan_next(self, cm),
    {
        match (self, cm) {
            (Self::Text, LegacyColorMode::NoColors) => Self::Text,
            (Self::Text, LegacyColorMode::FgOnly) => Self::Fg,
            (Self::Text, LegacyColorMode::BgOnly) => Self::Bg,
            (Self::Text, LegacyColorMode::FgAndBg) => Self::Fg,
            (Self::Fg, LegacyColorMode::FgAndBg) => Self::Bg,
            (Self::Fg, _) => Self::Text,
            (Self::Bg, _) => Self::Text,
        }
    }
}

/// The running state of the legacy scanner: the channel being filled, the
/// partial row, the per-channel counts, the rows of the open frame, and the
/// finished grids.
pub struct LegacyState {
    pub mode: LegacyScanMode,
    pub row: Seq<Cell>,
    pub fg_len: int,
    pub bg_len: int,
    pub rows: Seq<Seq<Cell>>,
    pub grids: Seq<Seq<Seq<Cell>>>,
}

/// The scanner's initial state.
pub open spec fn legacy_init() -> LegacyState {
    LegacyState {
        mode: LegacyScanMode::Text,
        row: Seq::empty(),
        fg_len: 0,
        bg_len: 0,
        rows: Seq::empty(),
        grids: Seq::empty(),
    }
}

/// One character fed to the scanner: text characters fill the row, then
/// foreground digits are remapped through the legacy permutation onto the
/// row, then background digits are counted and dropped; a full row joins
/// the frame.
pub open spec fn legacy_step_channel(st: LegacyState, c: char, info: LegacyHeaderInfo) -> LegacyState {
    match st.mode {
        LegacyScanMode::Text => {
            let row2 = st.row.push(Cell { text: crate::chars::spec_char(c), color: None });
            if row2.len() == info.width {
                let done_row = info.colors == LegacyColorMode::NoColors;
                LegacyState {
                    mode: spec_scan_next(LegacyScanMode::Text, info.colors),
                    row: if done_row {
                        Seq::empty()
                    } else {
                        row2
                    },
                    fg_len: st.fg_len,
                    bg_len: st.bg_len,
                    rows: if done_row {
                        st.rows.push(row2)
                    } else {
                        st.rows
                    },
                    grids: st.grids,
                }
            } else {
                LegacyState { mode: st.mode, row: row2, fg_len: st.fg_len, bg_len: st.bg_len, rows: st.rows, grids: st.grids }
            }
        },
        LegacyScanMode::Fg => {
            let row2 = if 0 <= st.fg_len < st.row.len() {
                st.row.update(
                    st.fg_len,
                    Cell {
                        text: st.row[st.fg_len].text,
                        color: Some(crate::chars::spec_char(crate::colors::spec_trans_color(c))),
                    },
                )
            } else {
                st.row
            };
            if st.fg_len + 1 == info.width {
                let done_row = info.colors == LegacyColorMode::FgOnly;
                LegacyState {
                    mode: spec_scan_next(LegacyScanMode::Fg, info.colors),
                    row: if done_row {
                        Seq::empty()
                    } else {
                        row2
                    },
                    fg_len: 0,
                    bg_len: st.bg_len,
                    rows: if done_row {
                        st.rows.push(row2)
                    } else {
                        st.rows
                    },
                    grids: st.grids,
                }
            } else {
                LegacyState {
                    mode: st.mode,
                    row: row2,
                    fg_len: st.fg_len + 1,
                    bg_len: st.bg_len,
                    rows: st.rows,
                    grids: st.grids,
                }
            }
        },
        LegacyScanMode::Bg => {
            if st.bg_len + 1 == info.width {
                let done_row = info.colors == LegacyColorMode::BgOnly || info.colors
                    == LegacyColorMode::FgAndBg;
                LegacyState {
                    mode: spec_scan_next(LegacyScanMode::Bg, info.colors),
                    row: if done_row {
                        Seq::empty()
                    } else {
                        st.row
                    },
                    fg_len: st.fg_len,
                    bg_len: 0,
                    rows: if done_row {
                        st.rows.push(st.row)
                    } else {
                        st.rows
                    },
                    grids: st.grids,
                }
            } else {
                LegacyState {
                    mode: st.mode,
                    row: st.row,
                    fg_len: st.fg_len,
                    bg_len: st.bg_len + 1,
                    rows: st.rows,
                    grids: st.grids,
                }
            }
        },
    }
}

/// One full scanner step: the channel stage, then a full frame joins the
/// finished grids.
pub open spec fn legacy_step(st: LegacyState, c: char, info: LegacyHeaderInfo) -> LegacyState {
    let st1 = legacy_step_channel(st, c, info);
    if st1.rows.len() == info.height {
        LegacyState {
            mode: st1.mode,
            row: st1.row,
            fg_len: st1.fg_len,
            bg_len: st1.bg_len,
            rows: Seq::empty(),
            grids: st1.grids.push(st1.rows),
        }
    } else {
        st1
    }
}

/// The scanner folded over a character sequence.
pub open spec fn legacy_fold(st: LegacyState, cs: Seq<char>, info: LegacyHeaderInfo) -> LegacyState
    decreases cs.len(),
{
    if cs.len() == 0 {
        st
    } else {
        legacy_fold(legacy_step(st, cs[0], info), cs.drop_first(), info)
    }
}

/// What one raw line feeds the scanner: the text before the first tab (a
/// line whose text before a tab is empty feeds nothing), normalized.
pub open spec fn legacy_line_chars(line: Seq<char>) -> Seq<char> {
    match crate::text::spec_split_first(line, '\t') {
        Some(p) => if p.0.len() == 0 {
            Seq::empty()
        } else {
            crate::chars::normalize_seq(p.0)
        },
        None => crate::chars::normalize_seq(line),
    }
}

/// All the characters a legacy body feeds the scanner.
pub open spec fn legacy_chars(ls: Seq<Seq<char>>, pos: int) -> Seq<char>
    decreases ls.len() - pos,
    when 0 <= pos <= ls.len()
{
    if pos >= ls.len() {
        Seq::empty()
    } else {
        legacy_line_chars(ls[pos]) + legacy_chars(ls, pos + 1)
    }
}

/// Folding a concatenation folds the parts in order.
pub proof fn lemma_legacy_fold_concat(st: LegacyState, a: Seq<char>, b: Seq<char>, info: LegacyHeaderInfo)
    ensures
        legacy_fold(st, a + b, info) == legacy_fold(legacy_fold(st, a, info), b, info),
    decreases a.len(),
{
    if a.len() == 0 {
        assert(a + b =~= b);
    } else {
        assert((a + b)[0] == a[0]);
        assert((a + b).drop_first() =~= a.drop_first() + b);
        lemma_legacy_fold_concat(legacy_step(st, a[0], info), a.drop_first(), b, info);
    }
}

/// The scanner states reachable from the start: partial structures stay
/// within the declared dimensions and hold only well-formed cells.
pub open spec fn legacy_inv(st: LegacyState, info: LegacyHeaderInfo) -> bool {
    &&& (st.mode is Fg || st.mode is Bg) ==> st.row.len() == info.width && info.width > 0
    &&& (st.mode is Text && info.width > 0) ==> st.row.len() < info.width
    &&& st.mode is Fg ==> 0 <= st.fg_len < info.width
    &&& !(st.mode is Fg) ==> st.fg_len == 0
    &&& st.mode is Bg ==> 0 <= st.bg_len < info.width
    &&& !(st.mode is Bg) ==> st.bg_len == 0
    &&& st.mode is Fg ==> (info.colors == LegacyColorMode::FgOnly || info.colors
        == LegacyColorMode::FgAndBg)
    &&& st.mode is Bg ==> (info.colors == LegacyColorMode::BgOnly || info.colors
        == LegacyColorMode::FgAndBg)
    &&& info.height > 0 ==> st.rows.len() < info.height
    &&& forall|i: int| 0 <= i < st.rows.len() ==> (#[trigger] st.rows[i]).len() == info.width
    &&& forall|i: int|
        0 <= i < st.grids.len() ==> (#[trigger] st.grids[i]).len() == info.height && frame_shape_ok(
            st.grids[i],
            info.width as nat,
        ) && grid_cells_wf(st.grids[i])
    &&& forall|j: int| 0 <= j < st.row.len() ==> cell_wf(#[trigger] st.row[j])
    &&& forall|i: int, j: int|
        0 <= i < st.rows.len() && 0 <= j < st.rows[i].len() ==> cell_wf(#[trigger] st.rows[i][j])
}

/// One step of the scanner preserves the reachable-state invariant.
pub proof fn lemma_legacy_step_inv(st: LegacyState, c: char, info: LegacyHeaderInfo)
    requires
        legacy_inv(st, info),
        char_allowed(c),
    ensures
        legacy_inv(legacy_step(st, c, info), info),
{
    crate::chars::lemma_spec_char(c);
    crate::chars::lemma_spec_char(crate::colors::spec_trans_color(c));
    assert(char_allowed(crate::colors::spec_trans_color(c)));
    let st1 = legacy_step_channel(st, c, info);
    assert forall|i: int| 0 <= i < st1.rows.len() implies (#[trigger] st1.rows[i]).len()
        == info.width by {
        if i < st.rows.len() {
            assert(st.rows[i].len() == info.width);
        }
    }
    assert forall|i: int, j: int|
        0 <= i < st1.rows.len() && 0 <= j < st1.rows[i].len() implies cell_wf(
        #[trigger] st1.rows[i][j],
    ) by {
        if i < st.rows.len() {
            assert(cell_wf(st.rows[i][j]));
        } else {
            if j < st.row.len() {
                assert(cell_wf(st.row[j]));
            }
        }
    }
    assert forall|j: int| 0 <= j < st1.row.len() implies cell_wf(#[trigger] st1.row[j]) by {
        if j < st.row.len() {
            assert(cell_wf(st.row[j]));
        }
    }
    let st2 = legacy_step(st, c, info);
    assert forall|i: int|
        0 <= i < st2.grids.len() implies (#[trigger] st2.grids[i]).len() == info.height
        && frame_shape_ok(st2.grids[i], info.width as nat) && grid_cells_wf(st2.grids[i]) by {
        if i < st.grids.len() {
            assert(st.grids[i].len() == info.height && frame_shape_ok(
                st.grids[i],
                info.width as nat,
            ) && grid_cells_wf(st.grids[i]));
        } else {
            assert(st2.grids[i] == st1.rows);
        }
    }
}

impl Frames {
    /// Reads a legacy body: a fixed-width scan that cycles text, foreground
    /// and background channels per row, remapping legacy color digits.
    pub fn read_legacy(info: LegacyHeaderInfo, lines: &Vec<String>, pos: usize) -> (r: Frames)
        requires
            pos <= lines@.len(),
            info.width * info.height <= usize::MAX,
        ensures
            r.wf(),
            r.spec_width() == info.width,
            r.spec_height() == info.height,
            r.spec_text_pin() is None,
            r.spec_color_pin() is None,
            ({
                let fin = legacy_fold(
                    legacy_init(),
                    legacy_chars(crate::text::lines_view(lines@), pos as int),
                    info,
                );
                &&& r.spec_frames().len() == fin.grids.len()
                &&& forall|k: int|
                    0 <= k < fin.grids.len() ==> (#[trigger] r.spec_frames()[k]).grid()
                        == fin.grids[k]
            }),
    {
        let ghost ls = crate::text::lines_view(lines@);
        let mut eff: Vec<char> = Vec::new();
        let mut p: usize = pos;
        while p < lines.len()
            invariant
                pos <= p <= lines@.len(),
                ls == crate::text::lines_view(lines@),
                ls.len() == lines@.len(),
                legacy_chars(ls, pos as int) == eff@ + legacy_chars(ls, p as int),
                forall|j: int| 0 <= j < eff@.len() ==> char_allowed(#[trigger] eff@[j]),
            decreases lines@.len() - p,
        {
            proof {
                assert(ls[p as int] == lines@[p as int]@);
            }
            let cv = crate::text::str_to_chars(lines[p].as_str());
            let ghost before = eff@;
            match crate::text::split_first(&cv, '\t') {
                Some((a, _b)) => {
                    proof {
                        crate::text::lemma_split_first_some(a@, _b@, '\t');
                    }
                    if a.len() > 0 {
                        let na = crate::chars::normalize_chars(&a);
                        proof {
                            crate::chars::lemma_normalize_all_allowed(a@);
                        }
                        crate::colors::push_all(&mut eff, &na);
                    }
                },
                None => {
                    proof {
                        crate::text::lemma_split_first_none(cv@, '\t');
                    }
                    let nl = crate::chars::normalize_chars(&cv);
                    proof {
                        crate::chars::lemma_normalize_all_allowed(cv@);
                    }
                    crate::colors::push_all(&mut eff, &nl);
                },
            }
            proof {
                assert(legacy_chars(ls, p as int) == legacy_line_chars(ls[p as int])
                    + legacy_chars(ls, p + 1));
                assert(eff@ =~= before + legacy_line_chars(ls[p as int]));
                assert(before + (legacy_line_chars(ls[p as int]) + legacy_chars(ls, p + 1)) =~= (
                before + legacy_line_chars(ls[p as int])) + legacy_chars(ls, p + 1));
            }
            p = p + 1;
        }
        proof {
            assert(legacy_chars(ls, lines@.len() as int) =~= Seq::<char>::empty());
            assert(eff@ + Seq::<char>::empty() =~= eff@);
        }
        let ghost cs = eff@;
        let mut mode = LegacyScanMode::Text;
        let mut row: Vec<Cell> = Vec::new();
        let mut fg_len: usize = 0;
        let mut bg_len: usize = 0;
        let mut rows: Vec<Vec<Cell>> = Vec::new();
        let mut frames_out: Vec<Frame> = Vec::new();
        let mut i: usize = 0;
        proof {
            assert(cs.subrange(0, 0) =~= Seq::<char>::empty());
        }
        while i < eff.len()
            invariant
                i <= eff@.len(),
                cs == eff@,
                info.width * info.height <= usize::MAX,
                forall|j: int| 0 <= j < cs.len() ==> char_allowed(#[trigger] cs[j]),
                ({
                    let gst = legacy_fold(legacy_init(), cs.subrange(0, i as int), info);
                    &&& legacy_inv(gst, info)
                    &&& mode == gst.mode
                    &&& row@ == gst.row
                    &&& fg_len == gst.fg_len
                    &&& bg_len == gst.bg_len
                    &&& crate::text::vecs_view_cells(rows@) == gst.rows
                    &&& frames_out@.len() == gst.grids.len()
                    &&& forall|k: int|
                        0 <= k < frames_out@.len() ==> {
                            &&& (#[trigger] frames_out@[k]).grid() == gst.grids[k]
                            &&& frames_out@[k].wf()
                            &&& frames_out@[k].spec_width() == info.width
                            &&& frames_out@[k].spec_height() == info.height
                        }
                }),
            decreases eff@.len() - i,
        {
            let ghost gst = legacy_fold(legacy_init(), cs.subrange(0, i as int), info);
            let c = eff[i];
            proof {
                lemma_fold_snoc(legacy_init(), cs, i as int, info);
                lemma_legacy_step_inv(gst, c, info);
                crate::chars::lemma_spec_char(c);
                crate::chars::lemma_spec_char(crate::colors::spec_trans_color(c));
            }
            let ghost st1 = legacy_step_channel(gst, c, info);
            let ghost gst2 = legacy_step(gst, c, info);
            match mode {
                LegacyScanMode::Text => {
                    let ghost rows0 = rows@;
                    let ch = Char::new_must(c);
                    proof {
                        crate::chars::lemma_char_view_eq(ch, crate::chars::spec_char(c));
                    }
                    row.push(Cell { text: ch, color: None });
                    if row.len() == info.width {
                        mode = mode.next(info.colors);
                        match info.colors {
                            LegacyColorMode::NoColors => {
                                rows.push(row);
                                row = Vec::new();
                                proof {
                                    assert(crate::text::vecs_view_cells(rows@)
                                        =~= crate::text::vecs_view_cells(rows0).push(st1.rows.last()));
                                    assert(crate::text::vecs_view_cells(rows@) =~= st1.rows);
                                }
                            },
                            _ => {},
                        }
                    }
                },
                LegacyScanMode::Fg => {
                    let ghost rows0 = rows@;
                    if fg_len < row.len() {
                        let old_cell = row[fg_len];
                        let tc = trans_color_char(c);
                        proof {
                            crate::chars::lemma_char_view_eq(
                                tc,
                                crate::chars::spec_char(crate::colors::spec_trans_color(c)),
                            );
                        }
                        row[fg_len] = Cell { text: old_cell.text, color: Some(tc) };
                        proof {
                            assert(row@ =~= gst.row.update(
                                gst.fg_len,
                                Cell {
                                    text: gst.row[gst.fg_len].text,
                                    color: Some(
                                        crate::chars::spec_char(
                                            crate::colors::spec_trans_color(c),
                                        ),
                                    ),
                                },
                            ));
                        }
                    }
                    if fg_len + 1 == info.width {
                        mode = mode.next(info.colors);
                        fg_len = 0;
                        match info.colors {
                            LegacyColorMode::FgOnly => {
                                rows.push(row);
                                row = Vec::new();
                                proof {
                                    assert(crate::text::vecs_view_cells(rows@)
                                        =~= crate::text::vecs_view_cells(rows0).push(st1.rows.last()));
                                    assert(crate::text::vecs_view_cells(rows@) =~= st1.rows);
                                }
                            },
                            _ => {},
                        }
                    } else {
                        fg_len = fg_len + 1;
                    }
                },
                LegacyScanMode::Bg => {
                    let ghost rows0 = rows@;
                    if bg_len + 1 == info.width {
                        mode = mode.next(info.colors);
                        bg_len = 0;
                        match info.colors {
                            LegacyColorMode::BgOnly | LegacyColorMode::FgAndBg => {
                                rows.push(row);
                                row = Vec::new();
                                proof {
                                    assert(crate::text::vecs_view_cells(rows@)
                                        =~= crate::text::vecs_view_cells(rows0).push(st1.rows.last()));
                                    assert(crate::text::vecs_view_cells(rows@) =~= st1.rows);
                                }
                            },
                            _ => {},
                        }
                    } else {
                        bg_len = bg_len + 1;
                    }
                },
            }
            proof {
                assert(mode == st1.mode);
                assert(row@ == st1.row);
                assert(fg_len == st1.fg_len);
                assert(bg_len == st1.bg_len);
                assert(crate::text::vecs_view_cells(rows@) == st1.rows);
                assert(st1.grids == gst.grids);
            }
            if rows.len() == info.height {
                let mut f = Frame { color: 0, width: info.width, rows };
                proof {
                    assert(forall|a: int|
                        0 <= a < f.rows@.len() ==> (#[trigger] f.grid()[a]) == f.rows@[a]@);
                    assert(f.grid() =~= st1.rows);
                    lemma_legacy_step_inv(gst, c, info);
                    assert(legacy_inv(st1, info) || true);
                    assert forall|a: int|
                        0 <= a < f.grid().len() implies (#[trigger] f.grid()[a]).len()
                        == f.spec_width() by {
                        assert(st1.rows[a].len() == info.width);
                    }
                    assert(f.spec_height() == info.height);
                    assert(f.spec_height() * f.spec_width() <= usize::MAX) by (nonlinear_arith)
                        requires
                            f.spec_height() == info.height,
                            f.spec_width() == info.width,
                            info.width * info.height <= usize::MAX,
                    ;
                }
                f.recalc_colors();
                frames_out.push(f);
                rows = Vec::new();
                proof {
                    assert(crate::text::vecs_view_cells(rows@) =~= Seq::<Seq<Cell>>::empty());
                    assert(gst2.grids == gst.grids.push(st1.rows));
                }
            } else {
                proof {
                    assert(gst2 == st1);
                }
            }
            proof {
                assert(cs.subrange(0, i + 1).drop_last() =~= cs.subrange(0, i as int));
            }
            i = i + 1;
        }
        proof {
            assert(cs.subrange(0, cs.len() as int) =~= cs);
        }
        let r = Frames {
            text_pin: None,
            color_pin: None,
            width: info.width,
            height: info.height,
            frames: frames_out,
        };
        proof {
            assert(r.spec_height() * r.spec_width() <= usize::MAX) by (nonlinear_arith)
                requires
                    r.spec_height() == info.height,
                    r.spec_width() == info.width,
                    info.width * info.height <= usize::MAX,
            ;
        }
        r
    }
}

/// Folding one more character steps the fold of the prefix.
pub proof fn lemma_fold_snoc(st: LegacyState, cs: Seq<char>, i: int, info: LegacyHeaderInfo)
    requires
        0 <= i < cs.len(),
    ensures
        legacy_fold(st, cs.subrange(0, i + 1), info) == legacy_step(
            legacy_fold(st, cs.subrange(0, i), info),
            cs[i],
            info,
        ),
{
    assert(cs.subrange(0, i + 1) =~= cs.subrange(0, i) + seq![cs[i]]);
    lemma_legacy_fold_concat(st, cs.subrange(0, i), seq![cs[i]], info);
    let one = seq![cs[i]];
    assert(one.drop_first() =~= Seq::<char>::empty());
    let mid = legacy_fold(st, cs.subrange(0, i), info);
    assert(one[0] == cs[i]);
    assert(legacy_fold(legacy_step(mid, cs[i], info), Seq::<char>::empty(), info) == legacy_step(
        mid,
        cs[i],
        info,
    ));
    assert(legacy_fold(mid, one, info) == legacy_step(mid, cs[i], info));
}

/// `spec_trans_color` as a validated character.
pub fn trans_color_char(c: char) -> (r: Char)
    ensures
        r@ == crate::colors::spec_trans_color(c),
        r.wf(),
{
    proof {
        crate::chars::lemma_spec_char(crate::colors::spec_trans_color(c));
    }
    let t = crate::colors::trans_color(c);
    Char::new_must(t)
}

impl Frames {
    /// Each frame rendered as ANSI escape sequences.
    pub fn to_ansi_frames(&self, palette: &Palette, color: bool) -> (r: Vec<String>)
        requires
            self.wf(),
        ensures
            r@.len() == self.spec_frames().len(),
            forall|i: int|
                0 <= i < r@.len() ==> (#[trigger] r@[i])@ == spec_frame_ansi(
                    self.spec_frames()[i].grid(),
                    palette.entries(),
                    color,
                ),
    {
        let mut out: Vec<String> = Vec::new();
        let mut i: usize = 0;
        while i < self.frames.len()
            invariant
                i <= self.spec_frames().len(),
                self.wf(),
                out@.len() == i,
                forall|k: int|
                    0 <= k < i ==> (#[trigger] out@[k])@ == spec_frame_ansi(
                        self.spec_frames()[k].grid(),
                        palette.entries(),
                        color,
                    ),
            decreases self.spec_frames().len() - i,
        {
            proof {
                assert(self.spec_frames()[i as int] == self.frames@[i as int]);
                assert(self.spec_frames()[i as int].wf());
            }
            out.push(self.frames[i].ansi(palette, color));
            i = i + 1;
        }
        out
    }

    /// Whether a text pin is pending.
    pub fn has_text_pin(&self) -> (r: bool)
        ensures
            r == (self.spec_text_pin() is Some),
    {
        self.text_pin.is_some()
    }

    /// Whether a color pin is pending.
    pub fn has_color_pin(&self) -> (r: bool)
        ensures
            r == (self.spec_color_pin() is Some),
    {
        self.color_pin.is_some()
    }

    /// A copy of one frame, when the index exists.
    pub fn frame_copy(&self, frame: usize) -> (r: Option<Frame>)
        requires
            self.wf(),
        ensures
            (r is Some) == (frame < self.spec_frames().len()),
            r matches Some(f) ==> {
                &&& f.grid() == self.spec_frames()[frame as int].grid()
                &&& f.wf()
                &&& f.spec_width() == self.spec_frames()[frame as int].spec_width()
                &&& f.spec_height() == self.spec_frames()[frame as int].spec_height()
            },
    {
        if frame < self.frames.len() {
            proof {
                assert(self.spec_frames()[frame as int] == self.frames@[frame as int]);
                assert(self.spec_frames()[frame as int].wf());
            }
            Some(self.frames[frame].duplicate())
        } else {
            None
        }
    }
}

/// The grids of a frame list, in order.
pub open spec fn grids_of(fs: Seq<Frame>) -> Seq<Seq<Seq<Cell>>> {
    Seq::new(fs.len(), |i: int| fs[i].grid())
}

/// A grid list with consecutive duplicates removed, keeping the first of
/// each run.
pub open spec fn spec_dedup_grids(gs: Seq<Seq<Seq<Cell>>>) -> Seq<Seq<Seq<Cell>>>
    decreases gs.len(),
{
    if gs.len() <= 1 {
        gs
    } else {
        let d = spec_dedup_grids(gs.drop_last());
        if gs.last() == gs[gs.len() - 2] {
            d
        } else {
            d.push(gs.last())
        }
    }
}

impl Frames {
    /// Whether two frames hold the same grid.
    fn frame_same_grid(a: &Frame, b: &Frame) -> (r: bool)
        requires
            a.wf(),
            b.wf(),
            frame_dims(*a, *b),
        ensures
            r == (a.grid() == b.grid()),
    {
        let (t, c) = Self::frame_channels_match(a, b);
        proof {
            if t && c {
                assert forall|x: int| 0 <= x < a.grid().len() implies #[trigger] a.grid()[x]
                    =~= b.grid()[x] by {
                    assert(forall|y: int|
                        0 <= y < a.grid()[x].len() ==> (#[trigger] a.grid()[x][y])
                            == (Cell {
                            text: b.grid()[x][y].text,
                            color: b.grid()[x][y].color,
                        }));
                }
                assert(a.grid() =~= b.grid());
            } else {
                if a.grid() == b.grid() {
                    assert(forall|x: int, y: int|
                        0 <= x < a.spec_height() && 0 <= y < a.spec_width() ==> (
                        #[trigger] b.grid()[x][y]).text == a.grid()[x][y].text);
                    assert(forall|x: int, y: int|
                        0 <= x < a.spec_height() && 0 <= y < a.spec_width() ==> (
                        #[trigger] b.grid()[x][y]).color == a.grid()[x][y].color);
                }
            }
        }
        t && c
    }

    /// Exchanges two frames; an index out of range changes nothing.
    pub fn swap(&mut self, a: usize, b: usize)
        requires
            old(self).wf(),
        ensures
            final(self).wf(),
            final(self).spec_width() == old(self).spec_width(),
            final(self).spec_height() == old(self).spec_height(),
            final(self).spec_frames().len() == old(self).spec_frames().len(),
            a < old(self).spec_frames().len() && b < old(self).spec_frames().len() ==> {
                &&& final(self).spec_frames()[a as int].grid() == old(
                    self).spec_frames()[b as int].grid()
                &&& final(self).spec_frames()[b as int].grid() == old(
                    self).spec_frames()[a as int].grid()
                &&& forall|i: int|
                    0 <= i < old(self).spec_frames().len() && i != a && i != b
                        ==> #[trigger] final(self).spec_frames()[i] == old(self).spec_frames()[i]
            },
            !(a < old(self).spec_frames().len() && b < old(self).spec_frames().len()) ==> final(
                self).spec_frames() == old(self).spec_frames(),
    {
        if a < self.frames.len() && b < self.frames.len() {
            proof {
                assert(self.spec_frames()[a as int] == self.frames@[a as int]);
                assert(self.spec_frames()[b as int] == self.frames@[b as int]);
                assert(self.spec_frames()[a as int].wf());
                assert(self.spec_frames()[b as int].wf());
            }
            let fa = self.frames[a].duplicate();
            let fb = self.frames[b].duplicate();
            self.frames[a] = fb;
            self.frames[b] = fa;
        }
    }

    /// Reverses the frame order.
    pub fn reverse(&mut self)
        requires
            old(self).wf(),
        ensures
            final(self).wf(),
            final(self).spec_width() == old(self).spec_width(),
            final(self).spec_height() == old(self).spec_height(),
            final(self).spec_frames().len() == old(self).spec_frames().len(),
            forall|i: int|
                0 <= i < old(self).spec_frames().len() ==> (#[trigger] final(
                    self).spec_frames()[i]).grid() == old(self).spec_frames()[old(
                    self).spec_frames().len() - 1 - i].grid(),
    {
        let n = self.frames.len();
        let mut out: Vec<Frame> = Vec::new();
        let mut i: usize = 0;
        while i < n
            invariant
                i <= n,
                n == self.frames@.len(),
                self == old(self),
                old(self).wf(),
                out@.len() == i,
                forall|k: int|
                    0 <= k < i ==> {
                        &&& (#[trigger] out@[k]).grid() == old(self).spec_frames()[n - 1 - k].grid()
                        &&& out@[k].wf()
                        &&& out@[k].spec_width() == old(self).spec_width()
                        &&& out@[k].spec_height() == old(self).spec_height()
                    },
            decreases n - i,
        {
            let src = n - 1 - i;
            proof {
                assert(self.spec_frames()[src as int] == self.frames@[src as int]);
                assert(self.spec_frames()[src as int].wf());
            }
            out.push(self.frames[src].duplicate());
            i = i + 1;
        }
        self.frames = out;
    }

    /// Rotates the frames forward by `k`: the animation starts `k` frames
    /// later, wrapping around.
    pub fn rot_forth(&mut self, k: usize)
        requires
            old(self).wf(),
        ensures
            final(self).wf(),
            final(self).spec_width() == old(self).spec_width(),
            final(self).spec_height() == old(self).spec_height(),
            final(self).spec_frames().len() == old(self).spec_frames().len(),
            old(self).spec_frames().len() > 0 ==> forall|i: int|
                0 <= i < old(self).spec_frames().len() ==> (#[trigger] final(
                    self).spec_frames()[i]).grid() == old(self).spec_frames()[(i + k) % (old(
                    self).spec_frames().len() as int)].grid(),
    {
        self.rotate(k, true);
    }

    /// Rotates the frames backward by `k`.
    pub fn rot_back(&mut self, k: usize)
        requires
            old(self).wf(),
        ensures
            final(self).wf(),
            final(self).spec_width() == old(self).spec_width(),
            final(self).spec_height() == old(self).spec_height(),
            final(self).spec_frames().len() == old(self).spec_frames().len(),
            old(self).spec_frames().len() > 0 ==> forall|i: int|
                0 <= i < old(self).spec_frames().len() ==> (#[trigger] final(
                    self).spec_frames()[i]).grid() == old(self).spec_frames()[(i + (old(
                    self).spec_frames().len() - (k as int) % (old(
                    self).spec_frames().len() as int))) % (old(
                    self).spec_frames().len() as int)].grid(),
    {
        let n = self.frames.len();
        if n == 0 {
            return ;
        }
        let shift = n - (k % n);
        proof {
            let ni = n as int;
            let ki = k as int;
            vstd::arithmetic::div_mod::lemma_mod_bound(ki, ni);
        }
        self.rotate(shift, true);
        proof {
            let ni = old(self).spec_frames().len() as int;
            assert forall|i: int|
                0 <= i < ni implies (#[trigger] self.spec_frames()[i]).grid() == old(
                self).spec_frames()[(i + (ni - (k as int) % ni)) % ni].grid() by {
                assert(self.spec_frames()[i].grid() == old(self).spec_frames()[(i
                    + shift) % ni].grid());
            }
        }
    }

    /// Rotates the frame list left by `k` positions.
    fn rotate(&mut self, k: usize, _forth: bool)
        requires
            old(self).wf(),
        ensures
            final(self).wf(),
            final(self).spec_width() == old(self).spec_width(),
            final(self).spec_height() == old(self).spec_height(),
            final(self).spec_frames().len() == old(self).spec_frames().len(),
            old(self).spec_frames().len() > 0 ==> forall|i: int|
                0 <= i < old(self).spec_frames().len() ==> (#[trigger] final(
                    self).spec_frames()[i]).grid() == old(self).spec_frames()[(i + k) % (old(
                    self).spec_frames().len() as int)].grid(),
    {
        let n = self.frames.len();
        if n == 0 {
            return ;
        }
        let mut out: Vec<Frame> = Vec::new();
        let mut i: usize = 0;
        while i < n
            invariant
                i <= n,
                n == self.frames@.len(),
                n > 0,
                self == old(self),
                old(self).wf(),
                out@.len() == i,
                forall|x: int|
                    0 <= x < i ==> {
                        &&& (#[trigger] out@[x]).grid() == old(self).spec_frames()[(x + k) % (
                        n as int)].grid()
                        &&& out@[x].wf()
                        &&& out@[x].spec_width() == old(self).spec_width()
                        &&& out@[x].spec_height() == old(self).spec_height()
                    },
            decreases n - i,
        {
            let src = if k % n <= n - 1 - i {
                i + k % n
            } else {
                i - (n - k % n)
            };
            proof {
                let ni = n as int;
                let ii = i as int;
                let ki = k as int;
                vstd::arithmetic::div_mod::lemma_mod_bound(ki, ni);
                vstd::arithmetic::div_mod::lemma_mod_bound(ii + ki, ni);
                if k % n <= n - 1 - i {
                    assert((ii + ki % ni) % ni == ii + ki % ni) by {
                        vstd::arithmetic::div_mod::lemma_small_mod(
                            (ii + ki % ni) as nat,
                            ni as nat,
                        );
                    }
                    assert((ii + ki) % ni == (ii + ki % ni) % ni) by {
                        vstd::arithmetic::div_mod::lemma_mod_adds(ii, ki, ni);
                        vstd::arithmetic::div_mod::lemma_mod_twice(ii + ki, ni);
                        vstd::arithmetic::div_mod::lemma_mod_adds(ii, ki % ni, ni);
                        vstd::arithmetic::div_mod::lemma_mod_twice(ii + ki % ni, ni);
                        assert((ii % ni + ki % ni) == (ii % ni + (ki % ni) % ni)) by {
                            vstd::arithmetic::div_mod::lemma_mod_twice(ki, ni);
                        }
                    }
                } else {
                    let s = ii - (ni - ki % ni);
                    assert(0 <= s < ni);
                    assert((ii + ki) % ni == s) by {
                        vstd::arithmetic::div_mod::lemma_mod_adds(ii, ki, ni);
                        vstd::arithmetic::div_mod::lemma_mod_twice(ii + ki, ni);
                        vstd::arithmetic::div_mod::lemma_mod_adds(ii, ki % ni, ni);
                        vstd::arithmetic::div_mod::lemma_mod_twice(ii + ki % ni, ni);
                        assert((ii % ni + ki % ni) == (ii % ni + (ki % ni) % ni)) by {
                            vstd::arithmetic::div_mod::lemma_mod_twice(ki, ni);
                        }
                        assert((ii + ki % ni) % ni == s) by {
                            vstd::arithmetic::div_mod::lemma_mod_sub_multiples_vanish(
                                ii + ki % ni,
                                ni,
                            );
                            vstd::arithmetic::div_mod::lemma_small_mod(s as nat, ni as nat);
                        }
                    }
                }
                assert(self.spec_frames()[src as int] == self.frames@[src as int]);
                assert(self.spec_frames()[src as int].wf());
            }
            out.push(self.frames[src].duplicate());
            i = i + 1;
        }
        self.frames = out;
    }

    /// Removes consecutive duplicate frames, keeping the first of each run.
    pub fn dedup(&mut self)
        requires
            old(self).wf(),
        ensures
            final(self).wf(),
            final(self).spec_width() == old(self).spec_width(),
            final(self).spec_height() == old(self).spec_height(),
            grids_of(final(self).spec_frames()) == spec_dedup_grids(
                grids_of(old(self).spec_frames()),
            ),
    {
        let n = self.frames.len();
        let mut out: Vec<Frame> = Vec::new();
        let mut i: usize = 0;
        while i < n
            invariant
                i <= n,
                n == self.frames@.len(),
                self == old(self),
                old(self).wf(),
                grids_of(out@) == spec_dedup_grids(
                    grids_of(old(self).spec_frames().subrange(0, i as int)),
                ),
                i > 0 ==> out@.len() > 0 && out@.last().grid() == old(self).spec_frames()[i
                    - 1].grid(),
                forall|k: int|
                    0 <= k < out@.len() ==> (#[trigger] out@[k]).wf() && out@[k].spec_width()
                        == old(self).spec_width() && out@[k].spec_height() == old(
                        self).spec_height(),
            decreases n - i,
        {
            proof {
                assert(self.spec_frames()[i as int] == self.frames@[i as int]);
                assert(self.spec_frames()[i as int].wf());
                if i > 0 {
                    assert(self.spec_frames()[i - 1] == self.frames@[i - 1]);
                }
            }
            let keep: bool = if i == 0 {
                true
            } else {
                !Self::frame_same_grid(&self.frames[i - 1], &self.frames[i])
            };
            let ghost gs1 = grids_of(old(self).spec_frames().subrange(0, i + 1));
            proof {
                assert(gs1.drop_last() =~= grids_of(
                    old(self).spec_frames().subrange(0, i as int),
                ));
                assert(gs1.last() == old(self).spec_frames()[i as int].grid());
                if i > 0 {
                    assert(gs1[gs1.len() - 2] == old(self).spec_frames()[i - 1].grid());
                }
            }
            if keep {
                let ghost outg = grids_of(out@);
                out.push(self.frames[i].duplicate());
                proof {
                    assert(grids_of(out@) =~= outg.push(
                        old(self).spec_frames()[i as int].grid(),
                    ));
                }
            }
            i = i + 1;
        }
        proof {
            assert(old(self).spec_frames().subrange(0, n as int) =~= old(self).spec_frames());
        }
        self.frames = out;
    }

    /// Keeps only the inclusive frame range, indices clamped into the list;
    /// a reversed range changes nothing.
    pub fn slice(&mut self, from: usize, to: usize)
        requires
            old(self).wf(),
        ensures
            final(self).wf(),
            final(self).spec_width() == old(self).spec_width(),
            final(self).spec_height() == old(self).spec_height(),
            ({
                let n = old(self).spec_frames().len();
                let f = crate::helpers::spec_in_range(from, 0, n as usize);
                let t = crate::helpers::spec_in_range(to, 0, n as usize);
                if n > 0 && f <= t {
                    final(self).spec_frames().len() == t - f + 1 && forall|i: int|
                        0 <= i < final(self).spec_frames().len() ==> (#[trigger] final(
                            self).spec_frames()[i]).grid() == old(self).spec_frames()[f
                            + i].grid()
                } else {
                    final(self).spec_frames() == old(self).spec_frames()
                }
            }),
    {
        let n = self.frames.len();
        if n == 0 {
            return ;
        }
        let f = crate::helpers::in_range(from, 0, n);
        let t = crate::helpers::in_range(to, 0, n);
        if f > t {
            return ;
        }
        let mut out: Vec<Frame> = Vec::new();
        let mut i: usize = f;
        while i <= t
            invariant
                f <= i <= t + 1,
                t < n,
                n == self.frames@.len(),
                self == old(self),
                old(self).wf(),
                out@.len() == i - f,
                forall|k: int|
                    0 <= k < out@.len() ==> {
                        &&& (#[trigger] out@[k]).grid() == old(self).spec_frames()[f + k].grid()
                        &&& out@[k].wf()
                        &&& out@[k].spec_width() == old(self).spec_width()
                        &&& out@[k].spec_height() == old(self).spec_height()
                    },
            decreases t + 1 - i,
        {
            proof {
                assert(self.spec_frames()[i as int] == self.frames@[i as int]);
                assert(self.spec_frames()[i as int].wf());
            }
            out.push(self.frames[i].duplicate());
            i = i + 1;
        }
        self.frames = out;
    }
}

impl Frame {
    /// Keeps only the inclusive row and column ranges.
    fn crop_frame(&mut self, r_from: usize, r_to: usize, c_from: usize, c_to: usize)
        requires
            old(self).wf(),
            r_from <= r_to < old(self).spec_height(),
            c_from <= c_to < old(self).spec_width(),
        ensures
            final(self).wf(),
            final(self).spec_width() == c_to - c_from + 1,
            final(self).spec_height() == r_to - r_from + 1,
            forall|r: int, c: int|
                0 <= r < final(self).spec_height() && 0 <= c < final(self).spec_width() ==> (
                #[trigger] final(self).grid()[r][c]) == old(self).grid()[r_from + r][c_from + c],
    {
        let ghost g0 = self.grid();
        let full_w = self.width;
        let full_h = self.rows.len();
        proof {
            assert(c_to < full_w);
            assert(r_to < full_h);
        }
        let new_w = c_to - c_from + 1;
        let new_h = r_to - r_from + 1;
        let mut rows: Vec<Vec<Cell>> = Vec::new();
        let mut r: usize = 0;
        while r < new_h
            invariant
                r <= new_h,
                new_h == r_to - r_from + 1,
                new_w == c_to - c_from + 1,
                r_from <= r_to < old(self).spec_height(),
                c_from <= c_to < old(self).spec_width(),
                self == old(self),
                g0 == self.grid(),
                old(self).wf(),
                rows@.len() == r,
                forall|x: int| 0 <= x < r ==> (#[trigger] rows@[x]@).len() == new_w,
                forall|x: int, y: int|
                    0 <= x < r && 0 <= y < new_w ==> #[trigger] rows@[x]@[y] == g0[r_from + x][
                        c_from + y],
            decreases new_h - r,
        {
            let mut row: Vec<Cell> = Vec::new();
            let mut c: usize = 0;
            proof {
                assert(g0[r_from + r] == self.rows@[(r_from + r) as int]@);
                assert(g0[r_from + r].len() == self.spec_width());
            }
            while c < new_w
                invariant
                    c <= new_w,
                    r < new_h,
                    new_h == r_to - r_from + 1,
                    new_w == c_to - c_from + 1,
                    r_from <= r_to < old(self).spec_height(),
                    c_from <= c_to < old(self).spec_width(),
                    self == old(self),
                    g0 == self.grid(),
                    old(self).wf(),
                    row@.len() == c,
                    forall|y: int|
                        0 <= y < c ==> #[trigger] row@[y] == g0[r_from + r][c_from + y],
                decreases new_w - c,
            {
                proof {
                    assert(g0[r_from + r] == self.rows@[(r_from + r) as int]@);
                    assert(g0[r_from + r].len() == self.spec_width());
                }
                row.push(self.rows[r_from + r][c_from + c]);
                c = c + 1;
            }
            rows.push(row);
            r = r + 1;
        }
        self.rows = rows;
        self.width = new_w;
        proof {
            assert(forall|x: int|
                0 <= x < new_h ==> (#[trigger] self.grid()[x]) == self.rows@[x]@);
            assert(frame_shape_ok(self.grid(), self.spec_width()));
            let nh = new_h as int;
            let nw = new_w as int;
            let oh = old(self).spec_height() as int;
            let ow = old(self).spec_width() as int;
            assert(nh * nw <= usize::MAX) by (nonlinear_arith)
                requires
                    0 < nh <= oh,
                    0 < nw <= ow,
                    oh * ow <= usize::MAX,
            ;
        }
        self.recalc_colors();
    }
}

impl Frames {
    /// Crops every frame to the inclusive row and column ranges, indices
    /// clamped into the grid; a reversed or empty range changes nothing.
    pub fn crop(&mut self, r_from: usize, r_to: usize, c_from: usize, c_to: usize)
        requires
            old(self).wf(),
        ensures
            final(self).wf(),
            final(self).spec_frames().len() == old(self).spec_frames().len(),
            ({
                let h = old(self).spec_height();
                let w = old(self).spec_width();
                let rf = crate::helpers::spec_in_range(r_from, 0, h as usize);
                let rt = crate::helpers::spec_in_range(r_to, 0, h as usize);
                let cf = crate::helpers::spec_in_range(c_from, 0, w as usize);
                let ct = crate::helpers::spec_in_range(c_to, 0, w as usize);
                if h > 0 && w > 0 && rf <= rt && cf <= ct {
                    &&& final(self).spec_width() == ct - cf + 1
                    &&& final(self).spec_height() == rt - rf + 1
                    &&& forall|i: int, r: int, c: int|
                        0 <= i < old(self).spec_frames().len() && 0 <= r < final(
                            self).spec_height() && 0 <= c < final(self).spec_width() ==> (
                        #[trigger] final(self).spec_frames()[i].grid()[r][c]) == old(
                            self).spec_frames()[i].grid()[rf + r][cf + c]
                } else {
                    *final(self) == *old(self)
                }
            }),
    {
        let h = self.height;
        let w = self.width;
        if h == 0 || w == 0 {
            return ;
        }
        let rf = crate::helpers::in_range(r_from, 0, h);
        let rt = crate::helpers::in_range(r_to, 0, h);
        let cf = crate::helpers::in_range(c_from, 0, w);
        let ct = crate::helpers::in_range(c_to, 0, w);
        if rf > rt || cf > ct {
            return ;
        }
        let ghost fs0 = self.frames@;
        let n = self.frames.len();
        let mut i: usize = 0;
        while i < n
            invariant
                i <= n,
                n == self.frames@.len(),
                fs0 == old(self).frames@,
                fs0.len() == n,
                self.width == old(self).width,
                self.height == old(self).height,
                self.text_pin == old(self).text_pin,
                self.color_pin == old(self).color_pin,
                old(self).wf(),
                h == old(self).spec_height() && w == old(self).spec_width(),
                rf <= rt < h,
                cf <= ct < w,
                forall|k: int| i <= k < n ==> #[trigger] self.frames@[k] == fs0[k],
                forall|k: int|
                    0 <= k < i ==> {
                        &&& (#[trigger] self.frames@[k]).wf()
                        &&& self.frames@[k].spec_width() == ct - cf + 1
                        &&& self.frames@[k].spec_height() == rt - rf + 1
                        &&& forall|r: int, c: int|
                            0 <= r < rt - rf + 1 && 0 <= c < ct - cf + 1
                                ==> #[trigger] self.frames@[k].grid()[r][c] == fs0[k].grid()[rf
                                + r][cf + c]
                    },
            decreases n - i,
        {
            proof {
                assert(self.frames@[i as int] == fs0[i as int]);
                assert(old(self).spec_frames()[i as int] == fs0[i as int]);
            }
            self.frames[i].crop_frame(rf, rt, cf, ct);
            i = i + 1;
        }
        self.width = ct - cf + 1;
        self.height = rt - rf + 1;
        proof {
            let nh = self.spec_height() as int;
            let nw = self.spec_width() as int;
            let oh = old(self).spec_height() as int;
            let ow = old(self).spec_width() as int;
            assert(nh * nw <= usize::MAX) by (nonlinear_arith)
                requires
                    0 < nh <= oh,
                    0 < nw <= ow,
                    oh * ow <= usize::MAX,
            ;
        }
    }
}

/// The sum of the effective delays of the first `frames` frames.
pub open spec fn spec_total_delay(d: crate::delay::Delay, frames: nat) -> nat
    decreases frames,
{
    if frames == 0 {
        0nat
    } else {
        spec_total_delay(d, (frames - 1) as nat) + d.spec_frame_delay((frames - 1) as usize) as nat
    }
}

impl Frames {
    /// The total duration in milliseconds under a delay configuration,
    /// saturating at the machine limit.
    pub fn duration(&self, delays: &crate::delay::Delay) -> (r: usize)
        ensures
            spec_total_delay(*delays, self.spec_frames().len()) <= usize::MAX ==> r
                == spec_total_delay(*delays, self.spec_frames().len()),
    {
        let n = self.frames.len();
        let mut dur: usize = 0;
        let mut f: usize = 0;
        while f < n
            invariant
                f <= n,
                n == self.spec_frames().len(),
                dur <= spec_total_delay(*delays, f as nat),
                spec_total_delay(*delays, f as nat) <= usize::MAX ==> dur == spec_total_delay(
                    *delays,
                    f as nat,
                ),
                spec_total_delay(*delays, f as nat) > usize::MAX ==> dur == usize::MAX,
            decreases n - f,
        {
            let d = delays.get_frame(f);
            if dur > usize::MAX - d {
                dur = usize::MAX;
            } else {
                dur = dur + d;
            }
            proof {
                lemma_total_delay_monotone(*delays, f as nat);
            }
            f = f + 1;
        }
        dur
    }
}

/// The total delay only grows with the frame count.
proof fn lemma_total_delay_monotone(d: crate::delay::Delay, f: nat)
    ensures
        spec_total_delay(d, f + 1) == spec_total_delay(d, f) + d.spec_frame_delay(f as usize),
{
}

/// A cell with any reference to one palette character dropped.
pub open spec fn cell_remove_color(c: Cell, k: char) -> Cell {
    match c.color {
        Some(x) => if x@ == k {
            Cell { text: c.text, color: None }
        } else {
            c
        },
        None => c,
    }
}

} // verus!
